//! Component references like `Root/Child:2@SpriteRenderer:1`.
//!
//! A reference points at a GameObject by its Transform-hierarchy path and,
//! optionally, one of its components. Neither path segments nor components are
//! unique, so any field may carry a `:<index>` to disambiguate among equally
//! matching siblings/components (0-based). The structural characters `/`, `@`,
//! `:` and `\` can be escaped with a backslash to use them literally in a name.
//!
//! Grammar:
//! ```text
//! path     := segment ('/' segment)* ('@' selector)?
//! segment  := name (':' index)?
//! selector := name (':' index)?
//! ```

use vstd::prelude::*;

use crate::number::{parse_i64, parse_usize, show_usize};
use crate::text::{chars_of, join};

verus! {

broadcast use vstd::seq::group_seq_axioms;

/// A reference to a GameObject (by hierarchy path) and optionally a component.
#[derive(Debug, Clone, PartialEq, Eq)]
pub struct ComponentPath {
    /// Hierarchy path, root first; always at least one segment.
    pub segments: Vec<Field>,
    /// Component selector (`@Type[:index]`), if any.
    pub component: Option<Field>,
}

/// A name plus an optional index disambiguating among equal-named matches.
#[derive(Debug, Clone, PartialEq, Eq)]
pub struct Field {
    pub name: String,
    pub index: Option<usize>,
}

/// How an object is addressed on the command line: by raw path id, or by a
/// hierarchy/component path.
#[derive(Debug, Clone, PartialEq, Eq)]
pub enum ObjectRef {
    PathId(i64),
    Path(ComponentPath),
}

/// What a [`Field`] says.
#[verifier::ext_equal]
pub struct FieldView {
    pub name: Seq<char>,
    pub index: Option<int>,
}

/// What a [`ComponentPath`] says.
#[verifier::ext_equal]
pub struct PathView {
    pub segments: Seq<FieldView>,
    pub component: Option<FieldView>,
}

/// What an [`ObjectRef`] says.
pub enum ObjectRefView {
    PathId(i64),
    Path(PathView),
}

impl View for Field {
    type V = FieldView;

    open spec fn view(&self) -> FieldView {
        FieldView {
            name: self.name@,
            index: match self.index {
                Some(i) => Some(i as int),
                None => None,
            },
        }
    }
}

/// The views of a list of fields.
pub open spec fn field_views(fields: Seq<Field>) -> Seq<FieldView> {
    fields.map_values(|f: Field| f@)
}

/// The view of an optional field.
pub open spec fn field_opt(field: Option<Field>) -> Option<FieldView> {
    match field {
        Some(f) => Some(f@),
        None => None,
    }
}

impl View for ComponentPath {
    type V = PathView;

    open spec fn view(&self) -> PathView {
        PathView { segments: field_views(self.segments@), component: field_opt(self.component) }
    }
}

impl View for ObjectRef {
    type V = ObjectRefView;

    open spec fn view(&self) -> ObjectRefView {
        match self {
            ObjectRef::PathId(id) => ObjectRefView::PathId(*id),
            ObjectRef::Path(path) => ObjectRefView::Path(path@),
        }
    }
}

/// The characters that structure a path.
pub open spec fn is_structural(c: char) -> bool {
    c == '\\' || c == '/' || c == '@' || c == ':'
}

/// `name` with every structural character behind a backslash.
pub open spec fn escaped(name: Seq<char>) -> Seq<char>
    decreases name.len(),
{
    if name.len() == 0 {
        Seq::empty()
    } else if is_structural(name[0]) {
        seq!['\\', name[0]] + escaped(name.skip(1))
    } else {
        seq![name[0]] + escaped(name.skip(1))
    }
}

/// `s` without its escaping backslashes. A backslash at the very end escapes
/// nothing and is dropped.
pub open spec fn unescaped(s: Seq<char>) -> Seq<char>
    decreases s.len(),
{
    if s.len() == 0 {
        Seq::empty()
    } else if s[0] != '\\' {
        seq![s[0]] + unescaped(s.skip(1))
    } else if s.len() == 1 {
        Seq::empty()
    } else {
        seq![s[1]] + unescaped(s.skip(2))
    }
}

/// `pieces` with `head` in front of the first.
pub open spec fn glued(head: Seq<char>, pieces: Seq<Seq<char>>) -> Seq<Seq<char>> {
    seq![head + pieces[0]] + pieces.skip(1)
}

/// The pieces of `s` between its unescaped `delim`s, their escapes intact.
pub open spec fn split(s: Seq<char>, delim: char) -> Seq<Seq<char>>
    decreases s.len(),
{
    if s.len() == 0 {
        seq![Seq::<char>::empty()]
    } else if s[0] == '\\' {
        if s.len() == 1 {
            seq![s]
        } else {
            glued(s.take(2), split(s.skip(2), delim))
        }
    } else if s[0] == delim {
        seq![Seq::<char>::empty()] + split(s.skip(1), delim)
    } else {
        glued(s.take(1), split(s.skip(1), delim))
    }
}

/// What a raw field (`name (':' index)?`) says, or why it is none. `what` names
/// the kind of field in the message.
pub open spec fn field_of(raw: Seq<char>, what: Seq<char>) -> Result<FieldView, Seq<char>> {
    let parts = split(raw, ':');
    if parts.len() == 1 {
        Ok(FieldView { name: unescaped(parts[0]), index: None })
    } else if parts.len() == 2 {
        match crate::number::unsigned_value(parts[1], usize::MAX as int) {
            Some(index) => Ok(FieldView { name: unescaped(parts[0]), index: Some(index) }),
            None => Err(
                Seq::<char>::empty() + "invalid index ':"@ + parts[1] + "' (expected a number)"@,
            ),
        }
    } else {
        Err(Seq::<char>::empty() + "at most one ':index' is allowed per "@ + what)
    }
}

/// What a list of raw path segments says, or why the first bad one is none.
pub open spec fn fields_of(raw: Seq<Seq<char>>) -> Result<Seq<FieldView>, Seq<char>>
    decreases raw.len(),
{
    if raw.len() == 0 {
        Ok(Seq::empty())
    } else {
        match fields_of(raw.drop_last()) {
            Err(e) => Err(e),
            Ok(fields) => match field_of(raw.last(), "path segment"@) {
                Err(e) => Err(e),
                Ok(field) => Ok(fields.push(field)),
            },
        }
    }
}

/// Whether some field has an empty name.
pub open spec fn has_empty_name(fields: Seq<FieldView>) -> bool {
    exists|i: int| 0 <= i < fields.len() && (#[trigger] fields[i]).name.len() == 0
}

/// The path that `input` without its component selector says.
pub open spec fn path_with(
    path_part: Seq<char>,
    component: Option<FieldView>,
) -> Result<PathView, Seq<char>> {
    match fields_of(split(path_part, '/')) {
        Err(e) => Err(e),
        Ok(segments) => if has_empty_name(segments) {
            Err("empty path segment"@)
        } else {
            Ok(PathView { segments, component })
        },
    }
}

/// What a component path says, or why `input` is none.
pub open spec fn path_of(input: Seq<char>) -> Result<PathView, Seq<char>> {
    let at = split(input, '@');
    if at.len() == 1 {
        path_with(at[0], None)
    } else if at.len() == 2 {
        match field_of(at[1], "component"@) {
            Err(e) => Err(e),
            Ok(component) => path_with(at[0], Some(component)),
        }
    } else {
        Err("at most one '@' component selector is allowed"@)
    }
}

/// What an object reference says: an integer is a path id, anything else a
/// component path.
pub open spec fn object_ref_of(input: Seq<char>) -> Result<ObjectRefView, Seq<char>> {
    match crate::number::i64_value(input) {
        Some(id) => Ok(ObjectRefView::PathId(id as i64)),
        None => match path_of(input) {
            Ok(path) => Ok(ObjectRefView::Path(path)),
            Err(e) => Err(e),
        },
    }
}

/// How a field is written.
pub open spec fn field_text(field: FieldView) -> Seq<char> {
    match field.index {
        Some(index) => escaped(field.name).push(':') + crate::number::decimal(index as nat),
        None => escaped(field.name),
    }
}

/// How each of the fields is written.
pub open spec fn field_texts(fields: Seq<FieldView>) -> Seq<Seq<char>> {
    fields.map_values(|f: FieldView| field_text(f))
}

/// How a path is written.
pub open spec fn path_text(path: PathView) -> Seq<char> {
    let hierarchy = crate::text::joined(field_texts(path.segments), seq!['/']);
    match path.component {
        Some(component) => hierarchy.push('@') + field_text(component),
        None => hierarchy,
    }
}

impl FieldView {
    /// Whether the index, if any, is one a field can carry.
    pub open spec fn in_range(self) -> bool {
        self.index matches Some(i) ==> 0 <= i <= usize::MAX
    }
}

impl PathView {
    /// Whether a path can be written down and read again: it has a segment, and
    /// no segment's name is empty.
    pub open spec fn wf(self) -> bool {
        &&& self.segments.len() >= 1
        &&& !has_empty_name(self.segments)
        &&& forall|i: int| 0 <= i < self.segments.len() ==> (#[trigger] self.segments[i]).in_range()
        &&& self.component matches Some(c) ==> c.in_range()
    }
}

impl Field {
    /// A copy.
    pub fn copy(&self) -> (r: Field)
        ensures
            r == *self,
    {
        Field { name: self.name.clone(), index: self.index }
    }

    /// How the field is written: its name with the structural characters
    /// escaped, then `:<index>` if there is one.
    pub fn to_text(&self) -> (out: String)
        ensures
            out@ == field_text(self@),
    {
        let mut out = escape(self.name.as_str());
        if let Some(index) = self.index {
            out.push(':');
            out.append(show_usize(index).as_str());
        }
        out
    }
}

/// Copies of a list of fields.
pub fn copy_fields(fields: &Vec<Field>) -> (out: Vec<Field>)
    ensures
        out@ == fields@,
{
    let mut out: Vec<Field> = Vec::new();
    let mut i: usize = 0;
    while i < fields.len()
        invariant
            i <= fields@.len(),
            out@ == fields@.take(i as int),
        decreases fields@.len() - i,
    {
        out.push(fields[i].copy());
        i += 1;
    }
    out
}

impl ComponentPath {
    /// A copy.
    pub fn copy(&self) -> (r: ComponentPath)
        ensures
            r@ == self@,
            r.segments@ == self.segments@,
            r.component == self.component,
    {
        ComponentPath {
            segments: copy_fields(&self.segments),
            component: match &self.component {
                Some(c) => Some(c.copy()),
                None => None,
            },
        }
    }

    /// How the path is written. The inverse of [`parse`]: structural characters
    /// are escaped, so that the text reads back as this path.
    pub fn to_text(&self) -> (out: String)
        ensures
            out@ == path_text(self@),
    {
        let mut parts: Vec<String> = Vec::new();
        let mut i: usize = 0;
        while i < self.segments.len()
            invariant
                i <= self.segments@.len(),
                parts@.len() == i,
                forall|j: int|
                    0 <= j < i ==> (#[trigger] parts@[j])@ == field_text(self.segments@[j]@),
            decreases self.segments@.len() - i,
        {
            parts.push(self.segments[i].to_text());
            i += 1;
        }
        proof {
            reveal_strlit("/");
            assert("/"@ =~= seq!['/']);
            assert(crate::text::texts(parts@) =~= field_texts(self@.segments));
        }
        let mut out = join(&parts, "/");
        if let Some(component) = &self.component {
            out.push('@');
            out.append(component.to_text().as_str());
        }
        out
    }
}

/// Reads an [`ObjectRef`]: a bare integer is a path id, anything else a
/// [`ComponentPath`].
pub fn parse_object_ref(input: &str) -> (r: Result<ObjectRef, String>)
    ensures
        match r {
            Ok(reference) => object_ref_of(input@) == Ok::<ObjectRefView, Seq<char>>(reference@),
            Err(e) => object_ref_of(input@) == Err::<ObjectRefView, Seq<char>>(e@),
        },
{
    match parse_i64(input) {
        Some(path_id) => Ok(ObjectRef::PathId(path_id)),
        None => match parse(input) {
            Ok(path) => Ok(ObjectRef::Path(path)),
            Err(e) => Err(e),
        },
    }
}

/// Backslash-escapes the structural characters so that a name reads back.
#[verifier::loop_isolation(false)]
pub fn escape(name: &str) -> (out: String)
    ensures
        out@ == escaped(name@),
{
    let chars = chars_of(name);
    let mut out = String::new();
    let mut i: usize = 0;
    assert(chars@.skip(0) =~= chars@);
    assert(escaped(chars@) =~= out@ + escaped(chars@.skip(0)));
    while i < chars.len()
        invariant
            i <= chars@.len(),
            escaped(chars@) == out@ + escaped(chars@.skip(i as int)),
        decreases chars@.len() - i,
    {
        let c: char = chars[i];
        let ghost before = out@;
        if c == '\\' || c == '/' || c == '@' || c == ':' {
            out.push('\\');
        }
        out.push(c);
        proof {
            assert(chars@.skip(i as int).skip(1) =~= chars@.skip(i + 1));
            assert(before + escaped(chars@.skip(i as int)) =~= out@ + escaped(chars@.skip(i + 1)));
        }
        i += 1;
    }
    assert(out@ + escaped(chars@.skip(i as int)) =~= out@);
    out
}

/// Removes escaping backslashes, yielding the literal name.
#[verifier::loop_isolation(false)]
pub fn unescape(s: &str) -> (out: String)
    ensures
        out@ == unescaped(s@),
{
    let chars = chars_of(s);
    let mut out = String::new();
    let mut i: usize = 0;
    assert(chars@.skip(0) =~= chars@);
    assert(unescaped(chars@) =~= out@ + unescaped(chars@.skip(0)));
    while i < chars.len()
        invariant
            i <= chars@.len(),
            unescaped(chars@) == out@ + unescaped(chars@.skip(i as int)),
        decreases chars@.len() - i,
    {
        let ghost before = out@;
        let ghost rest = chars@.skip(i as int);
        if chars[i] != '\\' {
            out.push(chars[i]);
            proof {
                assert(rest.skip(1) =~= chars@.skip(i + 1));
                assert(before + unescaped(rest) =~= out@ + unescaped(chars@.skip(i + 1)));
            }
            i += 1;
        } else if i + 1 < chars.len() {
            out.push(chars[i + 1]);
            proof {
                assert(rest.skip(2) =~= chars@.skip(i + 2));
                assert(before + unescaped(rest) =~= out@ + unescaped(chars@.skip(i + 2)));
            }
            i += 2;
        } else {
            assert(unescaped(chars@.skip(i + 1)) =~= Seq::<char>::empty());
            assert(before + unescaped(rest) =~= out@ + unescaped(chars@.skip(i + 1)));
            i += 1;
        }
    }
    assert(out@ + unescaped(chars@.skip(i as int)) =~= out@);
    out
}

/// Splits on unescaped `delim`, leaving any other `\x` escapes intact in the
/// pieces (so a later split on a different delimiter still sees them escaped).
#[verifier::loop_isolation(false)]
pub fn split_keep_escapes(s: &str, delim: char) -> (parts: Vec<String>)
    ensures
        crate::text::texts(parts@) == split(s@, delim),
{
    let chars = chars_of(s);
    let mut parts: Vec<String> = Vec::new();
    let mut cur = String::new();
    let mut i: usize = 0;
    proof {
        lemma_split_nonempty(chars@, delim);
        assert(chars@.skip(0) =~= chars@);
        assert(crate::text::texts(parts@) + glued(cur@, split(chars@.skip(0), delim)) =~= split(
            chars@,
            delim,
        )) by {
            assert(cur@ + split(chars@, delim)[0] =~= split(chars@, delim)[0]);
        }
    }
    while i < chars.len()
        invariant
            i <= chars@.len(),
            split(chars@, delim) == crate::text::texts(parts@) + glued(
                cur@,
                split(chars@.skip(i as int), delim),
            ),
        decreases chars@.len() - i,
    {
        let ghost rest = chars@.skip(i as int);
        let ghost cur_before = cur@;
        let ghost parts_before = crate::text::texts(parts@);
        let c: char = chars[i];
        if c == '\\' {
            cur.push('\\');
            if i + 1 < chars.len() {
                cur.push(chars[i + 1]);
                proof {
                    assert(rest.skip(2) =~= chars@.skip(i + 2));
                    lemma_split_nonempty(rest.skip(2), delim);
                    let tail = split(rest.skip(2), delim);
                    assert(cur@ + tail[0] =~= cur_before + (rest.take(2) + tail[0]));
                    assert(glued(cur@, tail) =~= glued(cur_before, glued(rest.take(2), tail)));
                }
                i += 2;
            } else {
                proof {
                    assert(rest =~= seq!['\\']);
                    assert(chars@.skip(i + 1) =~= Seq::<char>::empty());
                    let tail = split(chars@.skip(i + 1), delim);
                    assert(cur@ + tail[0] =~= cur_before + rest);
                    assert(glued(cur@, tail) =~= glued(cur_before, seq![rest]));
                }
                i += 1;
            }
        } else if c == delim {
            parts.push(cur);
            cur = String::new();
            proof {
                assert(rest.skip(1) =~= chars@.skip(i + 1));
                lemma_split_nonempty(rest.skip(1), delim);
                let tail = split(rest.skip(1), delim);
                assert(crate::text::texts(parts@) =~= parts_before.push(cur_before));
                assert(cur@ + tail[0] =~= tail[0]);
                assert(glued(cur@, tail) =~= tail);
                assert(cur_before + Seq::<char>::empty() =~= cur_before);
                assert(parts_before + glued(cur_before, seq![Seq::<char>::empty()] + tail)
                    =~= parts_before.push(cur_before) + tail);
            }
            i += 1;
        } else {
            cur.push(c);
            proof {
                assert(rest.skip(1) =~= chars@.skip(i + 1));
                lemma_split_nonempty(rest.skip(1), delim);
                let tail = split(rest.skip(1), delim);
                assert(cur@ + tail[0] =~= cur_before + (rest.take(1) + tail[0]));
                assert(glued(cur@, tail) =~= glued(cur_before, glued(rest.take(1), tail)));
            }
            i += 1;
        }
    }
    let ghost parts_before = crate::text::texts(parts@);
    proof {
        assert(cur@ + Seq::<char>::empty() =~= cur@);
        assert(glued(cur@, split(chars@.skip(i as int), delim)) =~= seq![cur@]);
    }
    parts.push(cur);
    assert(crate::text::texts(parts@) =~= split(chars@, delim));
    parts
}

/// Reads one field; `what` names its kind in the message.
pub fn parse_field(raw: &str, what: &str) -> (r: Result<Field, String>)
    ensures
        match r {
            Ok(field) => field_of(raw@, what@) == Ok::<FieldView, Seq<char>>(field@),
            Err(e) => field_of(raw@, what@) == Err::<FieldView, Seq<char>>(e@),
        },
{
    let parts = split_keep_escapes(raw, ':');
    proof {
        assert(crate::text::texts(parts@).len() == parts@.len());
        assert(forall|i: int|
            0 <= i < parts@.len() ==> crate::text::texts(parts@)[i] == (#[trigger] parts@[i])@);
    }
    if parts.len() == 1 {
        Ok(Field { name: unescape(parts[0].as_str()), index: None })
    } else if parts.len() == 2 {
        match parse_usize(parts[1].as_str()) {
            Some(index) => Ok(
                Field { name: unescape(parts[0].as_str()), index: Some(index) },
            ),
            None => {
                let mut e = String::new();
                e.append("invalid index ':");
                e.append(parts[1].as_str());
                e.append("' (expected a number)");
                Err(e)
            },
        }
    } else {
        let mut e = String::new();
        e.append("at most one ':index' is allowed per ");
        e.append(what);
        Err(e)
    }
}

/// Reads the segments of the hierarchy part of a path.
#[verifier::loop_isolation(false)]
fn parse_segments(path_part: &str) -> (r: Result<Vec<Field>, String>)
    ensures
        match r {
            Ok(fields) => fields_of(split(path_part@, '/')) == Ok::<Seq<FieldView>, Seq<char>>(
                field_views(fields@),
            ),
            Err(e) => fields_of(split(path_part@, '/')) == Err::<Seq<FieldView>, Seq<char>>(e@),
        },
{
    let pieces = split_keep_escapes(path_part, '/');
    let ghost raw = split(path_part@, '/');
    let mut fields: Vec<Field> = Vec::new();
    let mut i: usize = 0;
    assert(field_views(fields@) =~= Seq::empty());
    while i < pieces.len()
        invariant
            i <= pieces@.len(),
            raw == crate::text::texts(pieces@),
            fields_of(raw.take(i as int)) == Ok::<Seq<FieldView>, Seq<char>>(field_views(fields@)),
        decreases pieces@.len() - i,
    {
        proof {
            assert(raw.take(i + 1).drop_last() =~= raw.take(i as int));
            assert(raw.take(i + 1).last() == pieces@[i as int]@);
        }
        match parse_field(pieces[i].as_str(), "path segment") {
            Ok(field) => {
                let ghost before = field_views(fields@);
                fields.push(field);
                assert(field_views(fields@) =~= before.push(field@));
            },
            Err(e) => {
                proof {
                    lemma_fields_of_error(raw, i + 1);
                }
                return Err(e);
            },
        }
        i += 1;
    }
    assert(raw.take(i as int) =~= raw);
    Ok(fields)
}

/// Reads a [`ComponentPath`].
pub fn parse(input: &str) -> (r: Result<ComponentPath, String>)
    ensures
        match r {
            Ok(path) => path_of(input@) == Ok::<PathView, Seq<char>>(path@) && path@.wf(),
            Err(e) => path_of(input@) == Err::<PathView, Seq<char>>(e@),
        },
{
    // The component selector is everything after the first unescaped '@'.
    let at = split_keep_escapes(input, '@');
    proof {
        lemma_split_nonempty(input@, '@');
        assert(crate::text::texts(at@).len() == at@.len());
        assert(forall|i: int|
            0 <= i < at@.len() ==> crate::text::texts(at@)[i] == (#[trigger] at@[i])@);
    }
    if at.len() > 2 {
        return Err("at most one '@' component selector is allowed".to_owned());
    }
    let mut component: Option<Field> = None;
    if at.len() == 2 {
        match parse_field(at[1].as_str(), "component") {
            Ok(field) => {
                component = Some(field);
            },
            Err(e) => {
                return Err(e);
            },
        }
    }
    let segments = match parse_segments(at[0].as_str()) {
        Ok(segments) => segments,
        Err(e) => {
            return Err(e);
        },
    };
    let mut i: usize = 0;
    while i < segments.len()
        invariant
            i <= segments@.len(),
            forall|j: int| 0 <= j < i ==> (#[trigger] segments@[j]).name@.len() > 0,
            fields_of(split(at@[0]@, '/')) == Ok::<Seq<FieldView>, Seq<char>>(
                field_views(segments@),
            ),
            at@.len() == 1 || at@.len() == 2,
            crate::text::texts(at@) == split(input@, '@'),
            at@.len() == 1 ==> component is None,
            at@.len() == 2 ==> (component matches Some(c) && field_of(at@[1]@, "component"@) == Ok::<
                FieldView,
                Seq<char>,
            >(c@)),
            crate::text::texts(at@).len() == at@.len(),
            forall|i: int|
                0 <= i < at@.len() ==> crate::text::texts(at@)[i] == (#[trigger] at@[i])@,
        decreases segments@.len() - i,
    {
        if segments[i].name.as_str().is_empty() {
            assert(field_views(segments@)[i as int].name.len() == 0);
            return Err("empty path segment".to_owned());
        }
        i += 1;
    }
    proof {
        assert forall|j: int| 0 <= j < segments@.len() implies (#[trigger] field_views(
            segments@,
        )[j]).name.len() > 0 by {
            assert(field_views(segments@)[j] == segments@[j]@);
        }
        lemma_split_nonempty(at@[0]@, '/');
        lemma_fields_of_len(split(at@[0]@, '/'));
    }
    Ok(ComponentPath { segments, component })
}

/// A split has at least one piece.
pub proof fn lemma_split_nonempty(s: Seq<char>, delim: char)
    ensures
        split(s, delim).len() >= 1,
    decreases s.len(),
{
    if s.len() > 0 {
        if s[0] == '\\' {
            if s.len() > 1 {
                lemma_split_nonempty(s.skip(2), delim);
            }
        } else {
            lemma_split_nonempty(s.skip(1), delim);
        }
    }
}

proof fn lemma_fields_of_error(raw: Seq<Seq<char>>, n: int)
    requires
        0 <= n <= raw.len(),
        fields_of(raw.take(n)) is Err,
    ensures
        fields_of(raw) == fields_of(raw.take(n)),
    decreases raw.len() - n,
{
    if n == raw.len() {
        assert(raw.take(n) =~= raw);
    } else {
        assert(raw.take(n + 1).drop_last() =~= raw.take(n));
        lemma_fields_of_error(raw, n + 1);
    }
}

proof fn lemma_fields_of_len(raw: Seq<Seq<char>>)
    ensures
        fields_of(raw) matches Ok(fields) ==> fields.len() == raw.len(),
    decreases raw.len(),
{
    if raw.len() > 0 {
        lemma_fields_of_len(raw.drop_last());
    }
}

/// Whether `s` does not end in the middle of an escape.
spec fn closed_text(s: Seq<char>) -> bool
    decreases s.len(),
{
    if s.len() == 0 {
        true
    } else if s[0] == '\\' {
        s.len() >= 2 && closed_text(s.skip(2))
    } else {
        closed_text(s.skip(1))
    }
}

/// Splitting a concatenation: the last piece of the front and the first piece of
/// the back are one.
proof fn lemma_split_concat(a: Seq<char>, b: Seq<char>, delim: char)
    requires
        closed_text(a),
    ensures
        split(a + b, delim) == split(a, delim).drop_last() + glued(
            split(a, delim).last(),
            split(b, delim),
        ),
    decreases a.len(),
{
    let whole = a + b;
    lemma_split_nonempty(b, delim);
    let back = split(b, delim);
    if a.len() == 0 {
        assert(whole =~= b);
        assert(split(a, delim).drop_last() =~= Seq::empty());
        assert(Seq::<char>::empty() + back[0] =~= back[0]);
        assert(glued(split(a, delim).last(), back) =~= back);
        assert(split(a, delim).drop_last() + glued(split(a, delim).last(), back) =~= back);
    } else if a[0] == '\\' {
        lemma_split_step_concat(a, b, delim, 2);
    } else if a[0] == delim {
        let rest = a.skip(1);
        lemma_split_concat(rest, b, delim);
        lemma_split_nonempty(rest, delim);
        assert(whole.skip(1) =~= rest + b);
        let front = split(rest, delim);
        assert(split(a, delim) =~= seq![Seq::<char>::empty()] + front);
        assert(split(a, delim).drop_last() =~= seq![Seq::<char>::empty()] + front.drop_last());
        assert(split(whole, delim) =~= split(a, delim).drop_last() + glued(front.last(), back));
    } else {
        lemma_split_step_concat(a, b, delim, 1);
    }
}

proof fn lemma_split_step_concat(a: Seq<char>, b: Seq<char>, delim: char, n: int)
    requires
        closed_text(a),
        a.len() >= n,
        n == 2 && a[0] == '\\' || n == 1 && a[0] != '\\' && a[0] != delim,
    ensures
        split(a + b, delim) == split(a, delim).drop_last() + glued(
            split(a, delim).last(),
            split(b, delim),
        ),
    decreases a.len(), 0nat,
{
    let whole = a + b;
    let rest = a.skip(n);
    lemma_split_nonempty(b, delim);
    let back = split(b, delim);
    lemma_split_concat(rest, b, delim);
    lemma_split_nonempty(rest, delim);
    assert(whole.skip(n) =~= rest + b);
    assert(whole.take(n) =~= a.take(n));
    let front = split(rest, delim);
    let head = a.take(n);
    assert(split(a, delim) =~= glued(head, front));
    assert(split(whole, delim) == glued(head, split(rest + b, delim)));
    if front.len() == 1 {
        assert(split(a, delim).drop_last() =~= Seq::empty());
        assert(split(rest + b, delim) =~= glued(front[0], back));
        assert(head + (front[0] + back[0]) =~= (head + front[0]) + back[0]);
        assert(split(whole, delim) =~= glued(head + front[0], back));
        assert(split(a, delim).drop_last() + glued(split(a, delim).last(), back) =~= glued(
            head + front[0],
            back,
        ));
    } else {
        assert(split(a, delim).last() == front.last());
        assert(split(whole, delim) =~= split(a, delim).drop_last() + glued(front.last(), back));
    }
}

/// A concatenation of closed texts is closed.
proof fn lemma_closed_concat(a: Seq<char>, b: Seq<char>)
    requires
        closed_text(a),
        closed_text(b),
    ensures
        closed_text(a + b),
    decreases a.len(),
{
    if a.len() == 0 {
        assert(a + b =~= b);
    } else if a[0] == '\\' {
        lemma_closed_concat(a.skip(2), b);
        assert((a + b).skip(2) =~= a.skip(2) + b);
    } else {
        lemma_closed_concat(a.skip(1), b);
        assert((a + b).skip(1) =~= a.skip(1) + b);
    }
}

/// A text without backslashes and delimiters is one closed piece.
proof fn lemma_plain_text(s: Seq<char>, delim: char)
    requires
        forall|i: int| 0 <= i < s.len() ==> (#[trigger] s[i]) != '\\' && s[i] != delim,
    ensures
        closed_text(s),
        split(s, delim) == seq![s],
    decreases s.len(),
{
    if s.len() > 0 {
        lemma_plain_text(s.skip(1), delim);
        assert(s.take(1) + s.skip(1) =~= s);
        assert(glued(s.take(1), seq![s.skip(1)]) =~= seq![s]);
    } else {
        assert(s =~= Seq::empty());
    }
}

/// An escaped name is one closed piece, whatever structural character other
/// than the backslash it is split at.
proof fn lemma_escaped_is_one_piece(name: Seq<char>, delim: char)
    requires
        delim == '/' || delim == '@' || delim == ':',
    ensures
        closed_text(escaped(name)),
        split(escaped(name), delim) == seq![escaped(name)],
    decreases name.len(),
{
    if name.len() > 0 {
        let rest = name.skip(1);
        lemma_escaped_is_one_piece(rest, delim);
        let s = escaped(name);
        let n: int = if is_structural(name[0]) {
            2
        } else {
            1
        };
        assert(s.skip(n) =~= escaped(rest));
        assert(s.take(n) + escaped(rest) =~= s);
        assert(glued(s.take(n), seq![escaped(rest)]) =~= seq![s]);
    }
}

/// Unescaping an escaped name gives the name back.
pub proof fn unescape_undoes_escape(name: Seq<char>)
    ensures
        unescaped(escaped(name)) == name,
    decreases name.len(),
{
    if name.len() > 0 {
        let rest = name.skip(1);
        unescape_undoes_escape(rest);
        let s = escaped(name);
        let n: int = if is_structural(name[0]) {
            2
        } else {
            1
        };
        assert(s.skip(n) =~= escaped(rest));
        assert(seq![name[0]] + rest =~= name);
    }
}

/// A written field is one closed piece when split at `/` or `@`.
proof fn lemma_field_text_is_one_piece(field: FieldView, delim: char)
    requires
        delim == '/' || delim == '@',
    ensures
        closed_text(field_text(field)),
        split(field_text(field), delim) == seq![field_text(field)],
{
    lemma_escaped_is_one_piece(field.name, delim);
    if let Some(index) = field.index {
        let digits = crate::number::decimal(index as nat);
        crate::number::decimal_reads_back(index as nat);
        assert(forall|i: int|
            0 <= i < digits.len() ==> crate::number::is_digit(#[trigger] digits[i]));
        let tail = seq![':'] + digits;
        assert forall|i: int| 0 <= i < tail.len() implies (#[trigger] tail[i]) != '\\' && tail[i]
            != delim by {
            if i > 0 {
                assert(tail[i] == digits[i - 1]);
            }
        }
        lemma_plain_text(tail, delim);
        let name = escaped(field.name);
        lemma_split_concat(name, tail, delim);
        lemma_closed_concat(name, tail);
        assert(name + tail =~= field_text(field));
        assert(split(name, delim).drop_last() + glued(name, seq![tail]) =~= seq![
            field_text(field),
        ]);
    }
}

/// Reading a written field gives the field back.
pub proof fn field_reads_back(field: FieldView, what: Seq<char>)
    requires
        field.in_range(),
    ensures
        field_of(field_text(field), what) == Ok::<FieldView, Seq<char>>(field),
{
    let name = escaped(field.name);
    lemma_escaped_is_one_piece(field.name, ':');
    unescape_undoes_escape(field.name);
    match field.index {
        None => {},
        Some(index) => {
            let digits = crate::number::decimal(index as nat);
            crate::number::decimal_reads_back(index as nat);
            crate::number::unsigned_reads_back(index as nat, usize::MAX as int);
            assert(forall|i: int|
                0 <= i < digits.len() ==> crate::number::is_digit(#[trigger] digits[i]));
            lemma_plain_text(digits, ':');
            let tail = seq![':'] + digits;
            assert(tail.skip(1) =~= digits);
            assert(split(tail, ':') =~= seq![Seq::<char>::empty(), digits]);
            lemma_split_concat(name, tail, ':');
            assert(name + tail =~= field_text(field));
            assert(name + Seq::<char>::empty() =~= name);
            assert(split(field_text(field), ':') =~= seq![name, digits]);
        },
    }
}

/// Written fields joined by `/`: split at `/` they come apart again, and they
/// hold no unescaped `@`.
proof fn lemma_hierarchy_text(fields: Seq<FieldView>)
    requires
        fields.len() >= 1,
    ensures
        closed_text(crate::text::joined(field_texts(fields), seq!['/'])),
        split(crate::text::joined(field_texts(fields), seq!['/']), '/') == field_texts(fields),
        split(crate::text::joined(field_texts(fields), seq!['/']), '@') == seq![
            crate::text::joined(field_texts(fields), seq!['/']),
        ],
    decreases fields.len(),
{
    let parts = field_texts(fields);
    let text = crate::text::joined(parts, seq!['/']);
    lemma_field_text_is_one_piece(fields.last(), '/');
    lemma_field_text_is_one_piece(fields.last(), '@');
    let last = field_text(fields.last());
    if fields.len() == 1 {
        assert(text =~= last);
        assert(parts =~= seq![last]);
    } else {
        lemma_hierarchy_text(fields.drop_last());
        assert(parts.drop_last() =~= field_texts(fields.drop_last()));
        let front = crate::text::joined(parts.drop_last(), seq!['/']);
        let slash = seq!['/'];
        assert(slash.skip(1) =~= Seq::<char>::empty());
        assert(closed_text(slash)) by {
            assert(closed_text(Seq::<char>::empty()));
        }
        // `/` comes apart into two empty pieces, and is one piece for `@`.
        assert(split(slash, '/') =~= seq![Seq::<char>::empty(), Seq::<char>::empty()]) by {
            assert(split(Seq::<char>::empty(), '/') =~= seq![Seq::<char>::empty()]);
        }
        lemma_plain_text(slash, '@');
        lemma_closed_concat(front, slash);
        lemma_closed_concat(front + slash, last);
        lemma_split_concat(front, slash, '/');
        let front_pieces = split(front, '/');
        assert(front_pieces.last() + Seq::<char>::empty() =~= front_pieces.last());
        assert(split(front + slash, '/') =~= front_pieces.push(Seq::<char>::empty()));
        lemma_split_concat(front + slash, last, '/');
        assert(Seq::<char>::empty() + last =~= last);
        assert(split(text, '/') =~= front_pieces.push(last));
        assert(front_pieces.push(last) =~= parts);
        lemma_split_concat(front, slash, '@');
        assert(split(front + slash, '@') =~= seq![front + slash]);
        lemma_split_concat(front + slash, last, '@');
        assert(split(text, '@') =~= seq![text]);
    }
}

proof fn lemma_fields_read_back(fields: Seq<FieldView>)
    requires
        forall|i: int| 0 <= i < fields.len() ==> (#[trigger] fields[i]).in_range(),
    ensures
        fields_of(field_texts(fields)) == Ok::<Seq<FieldView>, Seq<char>>(fields),
    decreases fields.len(),
{
    if fields.len() > 0 {
        lemma_fields_read_back(fields.drop_last());
        field_reads_back(fields.last(), "path segment"@);
        assert(field_texts(fields).drop_last() =~= field_texts(fields.drop_last()));
        assert(fields.drop_last().push(fields.last()) =~= fields);
    } else {
        assert(fields =~= Seq::empty());
    }
}

/// What holds anything but digits behind a sign does not read as a number.
proof fn lemma_no_number(s: Seq<char>, at: int)
    requires
        0 <= at < s.len(),
        s[at] == '@' || s[at] == '/',
    ensures
        crate::number::i64_value(s) is None,
{
    if at > 0 {
        assert(s.skip(1)[at - 1] == s[at]);
    }
}

/// What is written for a path does not read as a path id, unless it is the path of a
/// root GameObject.
pub proof fn path_text_is_no_number(path: PathView)
    requires
        path.segments.len() >= 2 || path.component is Some,
    ensures
        crate::number::i64_value(path_text(path)) is None,
{
    let texts = field_texts(path.segments);
    let hierarchy = crate::text::joined(texts, seq!['/']);
    if path.component is Some {
        lemma_no_number(path_text(path), hierarchy.len() as int);
    } else {
        let before = crate::text::joined(texts.drop_last(), seq!['/']);
        assert(hierarchy == before + seq!['/'] + texts.last());
        lemma_no_number(hierarchy, before.len() as int);
    }
}

/// Writing a path and reading it gives the path back: the written form of every
/// path with at least one segment and no empty segment name parses as exactly
/// that path.
pub proof fn path_reads_back(path: PathView)
    requires
        path.wf(),
    ensures
        path_of(path_text(path)) == Ok::<PathView, Seq<char>>(path),
{
    let hierarchy = crate::text::joined(field_texts(path.segments), seq!['/']);
    lemma_hierarchy_text(path.segments);
    lemma_fields_read_back(path.segments);
    match path.component {
        None => {},
        Some(component) => {
            let last = field_text(component);
            lemma_field_text_is_one_piece(component, '@');
            field_reads_back(component, "component"@);
            let tail = seq!['@'] + last;
            assert(tail.skip(1) =~= last);
            assert(split(tail, '@') =~= seq![Seq::<char>::empty(), last]);
            lemma_split_concat(hierarchy, tail, '@');
            assert(hierarchy + tail =~= path_text(path));
            assert(hierarchy + Seq::<char>::empty() =~= hierarchy);
            assert(split(path_text(path), '@') =~= seq![hierarchy, last]);
        },
    }
}

/// Two different paths are written differently.
pub proof fn path_text_is_injective(a: PathView, b: PathView)
    requires
        a.wf(),
        b.wf(),
        path_text(a) == path_text(b),
    ensures
        a == b,
{
    path_reads_back(a);
    path_reads_back(b);
}

/// Every path that is read can be written and read again: what `parse` returns
/// has at least one segment and no empty segment name.
pub proof fn read_path_is_wf(input: Seq<char>)
    ensures
        path_of(input) matches Ok(path) ==> path.wf() && path_of(path_text(path)) == Ok::<
            PathView,
            Seq<char>,
        >(path),
{
    let at = split(input, '@');
    lemma_split_nonempty(input, '@');
    lemma_split_nonempty(at[0], '/');
    lemma_fields_of_len(split(at[0], '/'));
    lemma_fields_of_in_range(split(at[0], '/'));
    if at.len() == 2 {
        lemma_field_of_in_range(at[1], "component"@);
    }
    if let Ok(path) = path_of(input) {
        path_reads_back(path);
    }
}

proof fn lemma_field_of_in_range(raw: Seq<char>, what: Seq<char>)
    ensures
        field_of(raw, what) matches Ok(field) ==> field.in_range(),
{
    let parts = split(raw, ':');
    if parts.len() == 2 {
        let digits = if parts[1].len() > 0 && parts[1][0] == '+' {
            parts[1].skip(1)
        } else {
            parts[1]
        };
        if crate::number::all_digits(digits) {
            crate::number::lemma_digits_value_bounds(digits);
        }
    }
}

proof fn lemma_fields_of_in_range(raw: Seq<Seq<char>>)
    ensures
        fields_of(raw) matches Ok(fields) ==> forall|i: int|
            0 <= i < fields.len() ==> (#[trigger] fields[i]).in_range(),
    decreases raw.len(),
{
    if raw.len() > 0 {
        lemma_fields_of_in_range(raw.drop_last());
        lemma_field_of_in_range(raw.last(), "path segment"@);
    }
}

/// A written path id reads back as that path id.
pub proof fn path_id_reads_back(id: i64)
    ensures
        object_ref_of(crate::number::signed_decimal(id as int)) == Ok::<
            ObjectRefView,
            Seq<char>,
        >(ObjectRefView::PathId(id)),
{
    crate::number::i64_reads_back(id);
}

} // verus!
