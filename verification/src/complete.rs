//! Dynamic shell completion: which candidates to offer for the token at hand, given
//! what was typed before it.

use serde_json::Value;
use vstd::prelude::*;

use crate::classes::class_label;
use crate::commands::bundle::FileEntry;
use crate::commands::file::object_name;
use crate::component_path::{ComponentPath, ObjectRef, PathView};
use crate::ctx::Scene;
use crate::group::Groups;
use crate::json::Json;
use crate::locate::SteamApp;
use crate::model::{Object, SceneFile};
use crate::number::{show_i64, show_u64, show_usize};
use crate::qualify::all_paths;
use crate::text::{
    chars_of, is_listed, is_whitespace, join, same, starts_with, text_between,
};
use crate::{classes, commands, component_path, group, json, number, qualify, text};

verus! {

/// A candidate that the shell can offer, with a help text.
#[derive(Debug, PartialEq, Eq)]
pub struct Completion {
    pub value: String,
    pub help: Option<String>,
}

/// What a [`Completion`] says.
#[verifier::ext_equal]
pub struct CompletionView {
    pub value: Seq<char>,
    pub help: Option<Seq<char>>,
}

impl View for Completion {
    type V = CompletionView;

    open spec fn view(&self) -> CompletionView {
        CompletionView { value: self.value@, help: text::text_opt(self.help) }
    }
}

/// What completions say.
pub open spec fn completion_views(completions: Seq<Completion>) -> Seq<CompletionView> {
    completions.map_values(|c: Completion| c@)
}

/// A bare candidate.
pub open spec fn bare(value: Seq<char>) -> CompletionView {
    CompletionView { value, help: None }
}

/// A candidate with help.
pub open spec fn helped(value: Seq<char>, help: Seq<char>) -> CompletionView {
    CompletionView { value, help: Some(help) }
}

/// A value that was typed for an argument.
#[derive(Debug, PartialEq, Eq)]
pub struct ArgValue {
    pub id: String,
    pub value: String,
}

/// The command line as far as it was typed: the arguments of a command, and its
/// subcommand.
#[derive(Debug, PartialEq, Eq)]
pub struct Matches {
    pub values: Vec<ArgValue>,
    /// The object reference among the arguments.
    pub reference: Option<ObjectRef>,
    pub subcommand: Option<Box<Subcommand>>,
}

/// A subcommand with what was typed for it.
#[derive(Debug, PartialEq, Eq)]
pub struct Subcommand {
    pub name: String,
    pub matches: Matches,
}

/// The value of the first argument with the given id.
pub open spec fn value_of(values: Seq<ArgValue>, id: Seq<char>) -> Option<Seq<char>>
    decreases values.len(),
{
    if values.len() == 0 {
        None
    } else if values[0].id@ == id {
        Some(values[0].value@)
    } else {
        value_of(values.skip(1), id)
    }
}

/// A file that was selected on the command line.
#[derive(Debug, PartialEq, Eq)]
pub enum Selected {
    File(String),
    Scene(String),
    /// Without a CAB, the bundle's main serialized file.
    Bundle { path: String, cab: Option<String> },
    Addressable(String),
}

/// What a [`Selected`] says.
pub enum SelectedView {
    File(Seq<char>),
    Scene(Seq<char>),
    Bundle { path: Seq<char>, cab: Option<Seq<char>> },
    Addressable(Seq<char>),
}

impl View for Selected {
    type V = SelectedView;

    open spec fn view(&self) -> SelectedView {
        match self {
            Selected::File(path) => SelectedView::File(path@),
            Selected::Scene(name) => SelectedView::Scene(name@),
            Selected::Bundle { path, cab } => SelectedView::Bundle {
                path: path@,
                cab: text::text_opt(*cab),
            },
            Selected::Addressable(key) => SelectedView::Addressable(key@),
        }
    }
}

/// The serialized file that the command line selects, if it selects one: `scene
/// <name>`, `file <path>`, `bundle <path> file <cab>` or `addressable <key> …`.
pub open spec fn selection(matches: Matches) -> Option<SelectedView> {
    match matches.subcommand {
        None => None,
        Some(sub) => {
            let name = sub.name@;
            let values = sub.matches.values@;
            if name == "file"@ {
                match value_of(values, "path"@) {
                    Some(path) => Some(SelectedView::File(path)),
                    None => None,
                }
            } else if name == "scene"@ {
                match value_of(values, "name"@) {
                    Some(name) => Some(SelectedView::Scene(name)),
                    None => None,
                }
            } else if name == "bundle"@ {
                match (value_of(values, "path"@), sub.matches.subcommand) {
                    (Some(path), Some(inner)) => if inner.name@ == "file"@ {
                        Some(
                            SelectedView::Bundle {
                                path,
                                cab: value_of(inner.matches.values@, "cab"@),
                            },
                        )
                    } else {
                        None
                    },
                    _ => None,
                }
            } else if name == "addressable"@ {
                match value_of(values, "key"@) {
                    Some(key) => Some(SelectedView::Addressable(key)),
                    None => None,
                }
            } else {
                None
            }
        },
    }
}

/// The object reference of the nearest `object` verb, wherever it sits.
pub open spec fn object_ref_in(matches: Matches) -> Option<ObjectRef>
    decreases matches,
{
    match matches.subcommand {
        None => None,
        Some(sub) => if sub.name@ == "object"@ {
            sub.matches.reference
        } else {
            object_ref_in(sub.matches)
        },
    }
}

impl Matches {
    /// The value of the first argument with the given id.
    #[verifier::loop_isolation(false)]
    pub fn value(&self, id: &str) -> (r: Option<String>)
        ensures
            text::text_opt(r) == value_of(self.values@, id@),
    {
        let mut i: usize = 0;
        assert(self.values@.skip(0) =~= self.values@);
        while i < self.values.len()
            invariant
                i <= self.values@.len(),
                value_of(self.values@, id@) == value_of(self.values@.skip(i as int), id@),
            decreases self.values@.len() - i,
        {
            assert(self.values@.skip(i as int).skip(1) =~= self.values@.skip(i + 1));
            if same(self.values[i].id.as_str(), id) {
                return Some(self.values[i].value.clone());
            }
            i += 1;
        }
        None
    }
}

/// The serialized file selected on the command line. Handles `scene <name>`, `file
/// <path>`, `bundle <path> file <cab>` and `addressable <key> file`. None when no
/// such target is present, so that there are no candidates.
pub fn selected_target(matches: &Matches) -> (r: Option<Selected>)
    ensures
        match r {
            Some(selected) => selection(*matches) == Some(selected@),
            None => selection(*matches) is None,
        },
{
    let sub = match &matches.subcommand {
        Some(sub) => sub,
        None => {
            return None;
        },
    };
    let name = sub.name.as_str();
    if same(name, "file") {
        match sub.matches.value("path") {
            Some(path) => Some(Selected::File(path)),
            None => None,
        }
    } else if same(name, "scene") {
        match sub.matches.value("name") {
            Some(name) => Some(Selected::Scene(name)),
            None => None,
        }
    } else if same(name, "bundle") {
        let path = match sub.matches.value("path") {
            Some(path) => path,
            None => {
                return None;
            },
        };
        match &sub.matches.subcommand {
            Some(inner) => {
                if same(inner.name.as_str(), "file") {
                    // `cab` is optional; without it the verb operates on the bundle's
                    // main serialized file, so complete against that one.
                    Some(Selected::Bundle { path, cab: inner.matches.value("cab") })
                } else {
                    None
                }
            },
            None => None,
        }
    } else if same(name, "addressable") {
        match sub.matches.value("key") {
            Some(key) => Some(Selected::Addressable(key)),
            None => None,
        }
    } else {
        None
    }
}

/// The object reference the command line selected (`object <REF> …`), wherever the
/// `object` verb sits under the file/scene/bundle/addressable subcommand.
pub fn selected_object_ref(matches: &Matches) -> (r: Option<&ObjectRef>)
    ensures
        match r {
            Some(reference) => object_ref_in(*matches) == Some(*reference),
            None => object_ref_in(*matches) is None,
        },
    decreases *matches,
{
    match &matches.subcommand {
        Some(sub) => {
            if same(sub.name.as_str(), "object") {
                match &sub.matches.reference {
                    Some(reference) => Some(reference),
                    None => None,
                }
            } else {
                selected_object_ref(&sub.matches)
            }
        },
        None => None,
    }
}

/// The texts of paths.
pub open spec fn path_texts(paths: Seq<PathView>) -> Seq<Seq<char>> {
    paths.map_values(|p: PathView| component_path::path_text(p))
}

/// The texts of paths.
fn show_paths(paths: &Vec<ComponentPath>) -> (out: Vec<String>)
    ensures
        text::texts(out@) == path_texts(qualify::path_views(paths@)),
{
    let mut out: Vec<String> = Vec::new();
    let mut i: usize = 0;
    while i < paths.len()
        invariant
            i <= paths@.len(),
            out@.len() == i,
            forall|k: int|
                0 <= k < i ==> (#[trigger] out@[k])@ == component_path::path_text(paths@[k]@),
        decreases paths@.len() - i,
    {
        out.push(paths[i].to_text());
        i += 1;
    }
    assert(text::texts(out@) =~= path_texts(qualify::path_views(paths@)));
    out
}

/// Every path id, labelled with its class.
pub open spec fn id_candidates(objects: Seq<Object>) -> Seq<CompletionView> {
    objects.map_values(
        |o: Object|
            helped(
                number::signed_decimal(o.path_id as int),
                classes::class_text(o.class_id),
            ),
    )
}

/// What has been offered, and what is known.
#[verifier::ext_equal]
pub struct Offer {
    pub candidates: Seq<CompletionView>,
    pub seen: Seq<Seq<char>>,
}

/// An offer with one more candidate, unless it is known.
pub open spec fn offered(offer: Offer, candidate: CompletionView) -> Offer {
    if offer.seen.contains(candidate.value) {
        offer
    } else {
        Offer {
            candidates: offer.candidates.push(candidate),
            seen: offer.seen.push(candidate.value),
        }
    }
}

/// The classes and names of objects, each once, as far as they are not known.
pub open spec fn names_offered(
    file: SceneFile,
    objects: Seq<Object>,
    known: Seq<Seq<char>>,
) -> Offer
    decreases objects.len(),
{
    if objects.len() == 0 {
        Offer { candidates: Seq::empty(), seen: known }
    } else {
        let before = names_offered(file, objects.drop_last(), known);
        let object = objects.last();
        let class = classes::class_text(object.class_id);
        let with_class = offered(before, helped(class, "class"@));
        match commands::file::own_name(file, object.path_id) {
            Some(name) => offered(with_class, helped(name, class)),
            None => with_class,
        }
    }
}

/// Bare candidates for texts.
pub open spec fn bare_all(values: Seq<Seq<char>>) -> Seq<CompletionView> {
    values.map_values(|v: Seq<char>| bare(v))
}

/// The object references of a file: every path id, every class and name that is not
/// also a component path, and every component path.
pub open spec fn refs_of(file: SceneFile, paths: Seq<Seq<char>>) -> Seq<CompletionView> {
    id_candidates(file.objects@) + names_offered(file, file.objects@, paths).candidates
        + bare_all(paths)
}

/// Offers a candidate, unless it is known.
fn offer(out: &mut Vec<Completion>, seen: &mut Vec<String>, value: String, help: &str)
    ensures
        ({
            let after = offered(
                Offer { candidates: completion_views(old(out)@), seen: text::texts(old(seen)@) },
                helped(value@, help@),
            );
            completion_views(final(out)@) == after.candidates && text::texts(final(seen)@)
                == after.seen
        }),
{
    if !is_listed(seen, value.as_str()) {
        let ghost shown = completion_views(out@);
        let ghost known = text::texts(seen@);
        seen.push(value.clone());
        assert(text::texts(seen@) =~= known.push(value@));
        let candidate = Completion { value, help: Some(help.to_owned()) };
        out.push(candidate);
        assert(completion_views(out@) =~= shown.push(candidate@));
    }
}

/// Object references of a file (for `object <ref>`): every path id (labelled with
/// class), every object's `m_Name`, every class name (for singletons like
/// `TagManager`), and every component path. The shell filters by prefix. `None` if
/// the hierarchy runs in a circle.
#[verifier::loop_isolation(false)]
pub fn object_refs(file: &SceneFile) -> (r: Option<Vec<Completion>>)
    requires
        file.objects@.len() + file.linked@.len() <= usize::MAX,
    ensures
        match qualify::paths_of(*file) {
            Some(paths) => r matches Some(out) && completion_views(out@) == refs_of(
                *file,
                path_texts(paths),
            ),
            None => r is None,
        },
{
    let found = match all_paths(file) {
        Some(found) => found,
        None => {
            return None;
        },
    };
    let ghost all = file.objects@;
    let ghost ids = id_candidates(all);
    // Component paths double as names for GameObjects; don't also offer the bare
    // `m_Name` for those (it would resolve to the same object).
    let paths = show_paths(&found);
    let ghost known = text::texts(paths@);
    let mut out: Vec<Completion> = Vec::new();
    let mut i: usize = 0;
    while i < file.objects.len()
        invariant
            i <= all.len(),
            all == file.objects@,
            out@.len() == i,
            forall|k: int| 0 <= k < i ==> (#[trigger] out@[k])@ == ids[k],
        decreases all.len() - i,
    {
        let object = &file.objects[i];
        out.push(
            Completion {
                value: show_i64(object.path_id),
                help: Some(class_label(object.class_id)),
            },
        );
        i += 1;
    }
    assert(completion_views(out@) =~= ids);
    let mut seen = text::copy_texts(&paths);
    let mut named: Vec<Completion> = Vec::new();
    let mut j: usize = 0;
    assert(completion_views(named@) =~= Seq::empty());
    while j < file.objects.len()
        invariant
            j <= all.len(),
            names_offered(*file, all.take(j as int), known) == (Offer {
                candidates: completion_views(named@),
                seen: text::texts(seen@),
            }),
        decreases all.len() - j,
    {
        assert(all.take(j + 1).drop_last() =~= all.take(j as int));
        let object = &file.objects[j];
        let class = class_label(object.class_id);
        // Selectable by class name (deduped) — useful for class-typed singletons.
        offer(&mut named, &mut seen, class.clone(), "class");
        // Selectable by `m_Name` (e.g. a `MonoScript`'s class name).
        if let Some(name) = object_name(file, object.path_id) {
            offer(&mut named, &mut seen, name, class.as_str());
        }
        j += 1;
    }
    assert(all.take(j as int) =~= all);
    let ghost second = completion_views(named@);
    out.append(&mut named);
    assert(completion_views(out@) =~= ids + second);
    let mut rest = bare_candidates(&paths);
    let ghost before = out@;
    let ghost last = rest@;
    out.append(&mut rest);
    assert(completion_views(out@) =~= completion_views(before) + completion_views(last));
    Some(out)
}

/// Bare candidates for texts.
pub fn bare_candidates(values: &Vec<String>) -> (out: Vec<Completion>)
    ensures
        completion_views(out@) == bare_all(text::texts(values@)),
{
    let mut out: Vec<Completion> = Vec::new();
    let mut i: usize = 0;
    while i < values.len()
        invariant
            i <= values@.len(),
            out@.len() == i,
            forall|k: int| 0 <= k < i ==> (#[trigger] out@[k])@ == bare(values@[k]@),
        decreases values@.len() - i,
    {
        out.push(Completion { value: values[i].clone(), help: None });
        i += 1;
    }
    assert(completion_views(out@) =~= bare_all(text::texts(values@)));
    out
}

/// As much of a JSON value as a one-line summary shows.
#[derive(Debug, PartialEq, Eq)]
pub enum Peek {
    Null,
    Bool(bool),
    Number(String),
    Text(String),
    /// An array of so many items.
    Array(usize),
    /// An object of so many entries.
    Object(usize),
}

/// What a [`Peek`] says.
pub enum PeekView {
    Null,
    Bool(bool),
    Number(Seq<char>),
    Text(Seq<char>),
    Array(nat),
    Object(nat),
}

impl View for Peek {
    type V = PeekView;

    open spec fn view(&self) -> PeekView {
        match self {
            Peek::Null => PeekView::Null,
            Peek::Bool(b) => PeekView::Bool(*b),
            Peek::Number(n) => PeekView::Number(n@),
            Peek::Text(s) => PeekView::Text(s@),
            Peek::Array(n) => PeekView::Array(*n as nat),
            Peek::Object(n) => PeekView::Object(*n as nat),
        }
    }
}

/// As much of a JSON value as a one-line summary shows.
pub open spec fn peeked(value: json::JsonView) -> PeekView {
    match value {
        json::JsonView::Null => PeekView::Null,
        json::JsonView::Bool(b) => PeekView::Bool(b),
        json::JsonView::Number(n, _) => PeekView::Number(n),
        json::JsonView::Text(s) => PeekView::Text(s),
        json::JsonView::Array(items) => PeekView::Array(items.len()),
        json::JsonView::Object(entries) => PeekView::Object(entries.len()),
    }
}

/// As much of a JSON value as a one-line summary shows.
pub fn peek(value: &Json) -> (r: Peek)
    ensures
        r@ == peeked(value@),
{
    match value {
        Json::Null => Peek::Null,
        Json::Bool(b) => Peek::Bool(*b),
        Json::Number(n) => Peek::Number(n.text.clone()),
        Json::Text(s) => Peek::Text(s.clone()),
        Json::Array(items) => Peek::Array(items.len()),
        Json::Object(entries) => Peek::Object(entries.len()),
    }
}

/// The longest that a text is shown in a summary.
pub const PREVIEW_LEN: usize = 40;

/// A short one-line summary of a JSON value.
pub open spec fn hint_text(value: PeekView) -> Seq<char> {
    match value {
        PeekView::Null => "null"@,
        PeekView::Bool(b) => commands::file::bool_text(b),
        PeekView::Number(n) => n,
        PeekView::Text(s) => if s.len() <= PREVIEW_LEN {
            Seq::<char>::empty() + "\""@ + s + "\""@
        } else {
            Seq::<char>::empty() + "\""@ + s.take(PREVIEW_LEN as int) + "…"@ + "\""@
        },
        PeekView::Array(n) => Seq::<char>::empty() + "["@ + number::decimal(n) + "]"@,
        PeekView::Object(n) => Seq::<char>::empty() + "{"@ + number::decimal(n) + "}"@,
    }
}

/// A short one-line summary of a JSON value, shown as completion help: the scalar
/// itself, or a `{n}` / `[n]` size for containers.
pub fn value_hint(value: &Peek) -> (out: String)
    ensures
        out@ == hint_text(value@),
{
    match value {
        Peek::Null => "null".to_owned(),
        Peek::Bool(b) => commands::file::show_bool(*b).to_owned(),
        Peek::Number(n) => n.clone(),
        Peek::Text(s) => {
            let chars = chars_of(s.as_str());
            let mut out = String::new();
            out.append("\"");
            if chars.len() <= PREVIEW_LEN {
                out.append(s.as_str());
            } else {
                let preview = text_between(&chars, 0, PREVIEW_LEN);
                assert(chars@.subrange(0, PREVIEW_LEN as int) =~= s@.take(PREVIEW_LEN as int));
                out.append(preview.as_str());
                out.append("…");
            }
            out.append("\"");
            out
        },
        Peek::Array(n) => {
            let mut out = String::new();
            out.append("[");
            out.append(show_usize(*n).as_str());
            out.append("]");
            out
        },
        Peek::Object(n) => {
            let mut out = String::new();
            out.append("{");
            out.append(show_usize(*n).as_str());
            out.append("}");
            out
        },
    }
}

/// An ASCII letter or `_`.
pub open spec fn is_word_start(c: char) -> bool {
    ('a' <= c && c <= 'z') || ('A' <= c && c <= 'Z') || c == '_'
}

/// An ASCII letter, digit or `_`.
pub open spec fn is_word_char(c: char) -> bool {
    is_word_start(c) || ('0' <= c && c <= '9')
}

/// Whether `key` can follow a jq `.` bare.
pub open spec fn is_ident(key: Seq<char>) -> bool {
    key.len() > 0 && is_word_start(key[0]) && forall|i: int|
        1 <= i < key.len() ==> is_word_char(#[trigger] key[i])
}

/// Whether `key` can follow a jq `.` bare (`.m_Name`) rather than needing quotes
/// (`."data[0]"`): a leading letter/`_`, then letters/digits/`_`.
pub fn is_jq_ident(key: &str) -> (r: bool)
    ensures
        r == is_ident(key@),
{
    let chars = chars_of(key);
    if chars.len() == 0 {
        return false;
    }
    let first: char = chars[0];
    if !(('a' <= first && first <= 'z') || ('A' <= first && first <= 'Z') || first == '_') {
        return false;
    }
    let mut i: usize = 1;
    while i < chars.len()
        invariant
            1 <= i <= chars@.len(),
            chars@ == key@,
            forall|k: int| 1 <= k < i ==> is_word_char(#[trigger] key@[k]),
        decreases chars@.len() - i,
    {
        let c: char = chars[i];
        assert(c == key@[i as int]);
        if !(('a' <= c && c <= 'z') || ('A' <= c && c <= 'Z') || c == '_' || ('0' <= c && c
            <= '9')) {
            return false;
        }
        i += 1;
    }
    true
}

/// Whether a character belongs to a jq expression rather than to a field path.
pub open spec fn is_expression_char(c: char) -> bool {
    text::is_space(c) || c == '|' || c == '(' || c == ')' || c == '{' || c == '}'
}

/// Whether a token is a field path that can be completed: it is empty or begins
/// with `.`, and holds nothing of a jq expression.
pub open spec fn is_field_path(token: Seq<char>) -> bool {
    (token.len() == 0 || token[0] == '.') && forall|i: int|
        0 <= i < token.len() ==> !is_expression_char(#[trigger] token[i])
}

/// Whether to complete a token: stay out of the way of real jq expressions; only a
/// field path is completed. `[` / `]` pass through for indices.
pub fn completes_fields(token: &str) -> (r: bool)
    ensures
        r == is_field_path(token@),
{
    let chars = chars_of(token);
    if chars.len() > 0 && chars[0] != '.' {
        return false;
    }
    let mut i: usize = 0;
    while i < chars.len()
        invariant
            i <= chars@.len(),
            chars@ == token@,
            forall|k: int| 0 <= k < i ==> !is_expression_char(#[trigger] token@[k]),
        decreases chars@.len() - i,
    {
        let c: char = chars[i];
        assert(c == token@[i as int]);
        if is_whitespace(c) || c == '|' || c == '(' || c == ')' || c == '{' || c == '}' {
            return false;
        }
        i += 1;
    }
    true
}

/// How much of a token reaches up to and including its last `.`.
pub open spec fn last_dot(token: Seq<char>) -> nat
    decreases token.len(),
{
    if token.len() == 0 {
        0
    } else if token.last() == '.' {
        token.len()
    } else {
        last_dot(token.drop_last())
    }
}

/// The token up to and including its last `.`; `.` for an empty one.
pub open spec fn base_of(token: Seq<char>) -> Seq<char> {
    if token.len() == 0 {
        seq!['.']
    } else {
        token.take(last_dot(token) as int)
    }
}

/// The query that evaluates to what holds the fields: the base without its trailing
/// `.`, which at the root is `.` itself.
pub open spec fn prefix_of(token: Seq<char>) -> Seq<char> {
    let base = base_of(token);
    if base.len() <= 1 {
        seq!['.']
    } else {
        base.drop_last()
    }
}

proof fn lemma_last_dot(token: Seq<char>)
    ensures
        last_dot(token) <= token.len(),
        token.len() > 0 && token[0] == '.' ==> last_dot(token) >= 1,
        last_dot(token) >= 1 ==> token[last_dot(token) - 1] == '.',
    decreases token.len(),
{
    if token.len() > 0 {
        if token.last() != '.' {
            lemma_last_dot(token.drop_last());
        }
    }
}

/// The token up to and including its last `.`; the tail after it is the partial key
/// the shell filters on.
#[verifier::loop_isolation(false)]
pub fn jq_base(token: &str) -> (out: String)
    requires
        is_field_path(token@),
    ensures
        out@ == base_of(token@),
{
    let chars = chars_of(token);
    if chars.len() == 0 {
        let mut out = String::new();
        out.push('.');
        assert(out@ =~= seq!['.']);
        return out;
    }
    let mut n: usize = chars.len();
    proof {
        lemma_last_dot(token@);
        assert(token@.take(n as int) =~= token@);
    }
    while n > 0 && chars[n - 1] != '.'
        invariant
            n <= chars@.len(),
            chars@ == token@,
            last_dot(token@) == last_dot(token@.take(n as int)),
        decreases n,
    {
        assert(token@.take(n as int).drop_last() =~= token@.take(n - 1));
        n -= 1;
    }
    proof {
        assert(n > 0 ==> token@.take(n as int).last() == '.');
        assert(chars@.subrange(0, n as int) =~= token@.take(n as int));
    }
    text_between(&chars, 0, n)
}

/// The prefix that jaq evaluates: the base without its trailing `.` (`.` at the
/// root), so jaq handles any `[n]` / `[]` accessors along the path.
pub fn jq_prefix(token: &str) -> (out: String)
    requires
        is_field_path(token@),
    ensures
        out@ == prefix_of(token@),
{
    let base = jq_base(token);
    let chars = chars_of(base.as_str());
    if chars.len() <= 1 {
        let mut out = String::new();
        out.push('.');
        assert(out@ =~= seq!['.']);
        return out;
    }
    assert(chars@.subrange(0, chars@.len() - 1) =~= base@.drop_last());
    text_between(&chars, 0, chars.len() - 1)
}

/// The JSON string literal for a text.
pub uninterp spec fn json_string(s: Seq<char>) -> Seq<char>;

/// `serde_json::to_string` on a text: the JSON string literal for it, a function of
/// the text alone. There always is one: the crate reports only errors of the type
/// that is written or of the writer, and a text written to memory has neither.
#[verifier::external_body]
fn quote_json(s: &str) -> (r: String)
    ensures
        r@ == json_string(s@),
{
    serde_json::to_string(s).expect("a text can be written to memory")
}

/// The value of an entry of a JSON object, one level deep.
#[derive(Debug, PartialEq, Eq)]
pub enum Child {
    Null,
    Bool(bool),
    /// As it is printed.
    Number(String),
    Text(String),
    /// The items, each as JSON.
    Array(Vec<String>),
    /// The keys.
    Object(Vec<String>),
}

/// What a [`Child`] says.
#[verifier::ext_equal]
pub enum ChildView {
    Null,
    Bool(bool),
    Number(Seq<char>),
    Text(Seq<char>),
    Array(Seq<Seq<char>>),
    Object(Seq<Seq<char>>),
}

impl View for Child {
    type V = ChildView;

    open spec fn view(&self) -> ChildView {
        match self {
            Child::Null => ChildView::Null,
            Child::Bool(b) => ChildView::Bool(*b),
            Child::Number(n) => ChildView::Number(n@),
            Child::Text(s) => ChildView::Text(s@),
            Child::Array(items) => ChildView::Array(text::texts(items@)),
            Child::Object(keys) => ChildView::Object(text::texts(keys@)),
        }
    }
}

/// As much of a value as a one-line summary shows.
pub open spec fn glimpsed(child: ChildView) -> PeekView {
    match child {
        ChildView::Null => PeekView::Null,
        ChildView::Bool(b) => PeekView::Bool(b),
        ChildView::Number(n) => PeekView::Number(n),
        ChildView::Text(s) => PeekView::Text(s),
        ChildView::Array(items) => PeekView::Array(items.len()),
        ChildView::Object(keys) => PeekView::Object(keys.len()),
    }
}

/// As much of a value as a one-line summary shows.
pub fn glimpse(child: &Child) -> (r: Peek)
    ensures
        r@ == glimpsed(child@),
{
    match child {
        Child::Null => Peek::Null,
        Child::Bool(b) => Peek::Bool(*b),
        Child::Number(n) => Peek::Number(n.clone()),
        Child::Text(s) => Peek::Text(s.clone()),
        Child::Array(items) => Peek::Array(items.len()),
        Child::Object(keys) => Peek::Object(keys.len()),
    }
}

/// One entry of a JSON object.
#[derive(Debug, PartialEq, Eq)]
pub struct JsonField {
    pub key: String,
    pub child: Child,
}

/// What a [`JsonField`] says.
#[verifier::ext_equal]
pub struct JsonFieldView {
    pub key: Seq<char>,
    pub child: ChildView,
}

impl View for JsonField {
    type V = JsonFieldView;

    open spec fn view(&self) -> JsonFieldView {
        JsonFieldView { key: self.key@, child: self.child@ }
    }
}

/// What entries say.
pub open spec fn field_views(fields: Seq<JsonField>) -> Seq<JsonFieldView> {
    fields.map_values(|f: JsonField| f@)
}

/// The entries of the JSON object that bytes spell, if they spell one.
pub uninterp spec fn json_entries(bytes: Seq<u8>) -> Option<Seq<JsonFieldView>>;

/// `serde_json::from_slice` into a `Value`: the entries of the object that the bytes
/// spell, in the order of the crate's map, each value one level deep, a function of the
/// bytes alone; none where they spell anything else or nothing.
#[verifier::external_body]
fn read_object(bytes: &[u8]) -> (r: Option<Vec<JsonField>>)
    ensures
        match r {
            Some(fields) => json_entries(bytes@) == Some(field_views(fields@)),
            None => json_entries(bytes@) is None,
        },
{
    let Ok(Value::Object(map)) = serde_json::from_slice(bytes) else { return None };
    let to_child = |value| match value {
        Value::Null => Child::Null,
        Value::Bool(b) => Child::Bool(b),
        Value::Number(n) => Child::Number(n.to_string()),
        Value::String(s) => Child::Text(s),
        Value::Array(a) => Child::Array(a.iter().map(|v| v.to_string()).collect()),
        Value::Object(o) => Child::Object(o.into_iter().map(|(k, _)| k).collect()),
    };
    Some(map.into_iter().map(|(key, v)| JsonField { key, child: to_child(v) }).collect())
}

/// How a key follows a jq `.`: bare where it can, else quoted (`."data[0]"`), or jq
/// reads the brackets as an index accessor.
pub open spec fn accessor(key: Seq<char>, quoted: Seq<char>) -> Seq<char> {
    if is_ident(key) {
        key
    } else {
        quoted
    }
}

/// How a key follows a jq `.`, given its JSON string literal.
pub fn accessor_for(key: &str, quoted: String) -> (r: String)
    ensures
        r@ == accessor(key@, quoted@),
{
    if is_jq_ident(key) {
        key.to_owned()
    } else {
        quoted
    }
}

/// What would continue into a value: `.` for an object, `[` for a non-empty array.
pub open spec fn descent(child: PeekView) -> Option<char> {
    match child {
        PeekView::Object(_) => Some('.'),
        PeekView::Array(n) => if n > 0 {
            Some('[')
        } else {
            None
        },
        _ => None,
    }
}

/// A field that the shell would show: how it is reached, what would continue into
/// it, and its summary.
#[derive(Debug, PartialEq, Eq)]
pub struct FieldOffer {
    pub leaf: String,
    pub descend: Option<char>,
    pub hint: String,
}

/// What a [`FieldOffer`] says.
#[verifier::ext_equal]
pub struct FieldOfferView {
    pub leaf: Seq<char>,
    pub descend: Option<char>,
    pub hint: Seq<char>,
}

impl View for FieldOffer {
    type V = FieldOfferView;

    open spec fn view(&self) -> FieldOfferView {
        FieldOfferView { leaf: self.leaf@, descend: self.descend, hint: self.hint@ }
    }
}

/// What offers say.
pub open spec fn offer_views(offers: Seq<FieldOffer>) -> Seq<FieldOfferView> {
    offers.map_values(|o: FieldOffer| o@)
}

/// Whether a field is among offers.
pub open spec fn has_leaf(offers: Seq<FieldOfferView>, leaf: Seq<char>) -> bool {
    exists|i: int| 0 <= i < offers.len() && (#[trigger] offers[i]).leaf == leaf
}

/// Offers with the fields of one object added: those that match the token and are
/// not among them.
pub open spec fn with_fields(
    before: Seq<FieldOfferView>,
    token: Seq<char>,
    fields: Seq<JsonFieldView>,
) -> Seq<FieldOfferView>
    decreases fields.len(),
{
    if fields.len() == 0 {
        before
    } else {
        let offers = with_fields(before, token, fields.drop_last());
        let field = fields.last();
        let leaf = base_of(token) + accessor(field.key, json_string(field.key));
        if text::begins_with(leaf, token) && !has_leaf(offers, leaf) {
            offers.push(
                FieldOfferView {
                    leaf,
                    descend: descent(glimpsed(field.child)),
                    hint: hint_text(glimpsed(field.child)),
                },
            )
        } else {
            offers
        }
    }
}

/// The fields of all objects that match the token, each once.
pub open spec fn fields_offered(
    token: Seq<char>,
    objects: Seq<Seq<JsonFieldView>>,
) -> Seq<FieldOfferView>
    decreases objects.len(),
{
    if objects.len() == 0 {
        Seq::empty()
    } else {
        with_fields(fields_offered(token, objects.drop_last()), token, objects.last())
    }
}

/// Candidates for fields.
pub open spec fn leaf_candidates(offers: Seq<FieldOfferView>) -> Seq<CompletionView> {
    offers.map_values(|o: FieldOfferView| helped(o.leaf, o.hint))
}

/// The candidates for fields. When a single field matches, the accessor that
/// descends into it (`.foo.` / `.foo[`) is offered too: the two shared-prefix
/// candidates make the shell fill the common prefix instead of ending the token
/// with a space, so one can keep drilling.
pub open spec fn field_candidates(offers: Seq<FieldOfferView>) -> Seq<CompletionView> {
    let leaves = leaf_candidates(offers);
    if offers.len() == 1 && offers[0].descend is Some {
        leaves.push(helped(offers[0].leaf.push(offers[0].descend->0), offers[0].hint))
    } else {
        leaves
    }
}

fn leaf_known(offers: &Vec<FieldOffer>, leaf: &str) -> (r: bool)
    ensures
        r == has_leaf(offer_views(offers@), leaf@),
{
    let ghost all = offer_views(offers@);
    let mut i: usize = 0;
    while i < offers.len()
        invariant
            i <= offers@.len(),
            all == offer_views(offers@),
            forall|k: int| 0 <= k < i ==> (#[trigger] all[k]).leaf != leaf@,
        decreases offers@.len() - i,
    {
        assert(all[i as int] == offers@[i as int]@);
        if same(offers[i].leaf.as_str(), leaf) {
            return true;
        }
        i += 1;
    }
    false
}

fn descend_into(child: &Peek) -> (r: Option<char>)
    ensures
        r == descent(child@),
{
    match child {
        Peek::Object(_) => Some('.'),
        Peek::Array(n) => {
            if *n > 0 {
                Some('[')
            } else {
                None
            }
        },
        _ => None,
    }
}

/// Adds the fields of one object that match the token, each with how it is reached
/// from `base`.
#[verifier::loop_isolation(false)]
pub fn add_fields(
    offers: Vec<FieldOffer>,
    token: &str,
    fields: &Vec<JsonField>,
) -> (out: Vec<FieldOffer>)
    requires
        is_field_path(token@),
    ensures
        offer_views(out@) == with_fields(offer_views(offers@), token@, field_views(fields@)),
{
    let ghost before = offer_views(offers@);
    let ghost all = field_views(fields@);
    let base = jq_base(token);
    let mut out = offers;
    let mut i: usize = 0;
    while i < fields.len()
        invariant
            i <= fields@.len(),
            all == field_views(fields@),
            offer_views(out@) == with_fields(before, token@, all.take(i as int)),
        decreases fields@.len() - i,
    {
        assert(all.take(i + 1).drop_last() =~= all.take(i as int));
        let field = &fields[i];
        assert(all[i as int] == field@);
        let quoted = quote_json(field.key.as_str());
        let name = accessor_for(field.key.as_str(), quoted);
        let mut leaf = base.clone();
        leaf.append(name.as_str());
        if starts_with(leaf.as_str(), token) && !leaf_known(&out, leaf.as_str()) {
            let ghost sofar = out@;
            let shown = glimpse(&field.child);
            let offer = FieldOffer {
                leaf,
                descend: descend_into(&shown),
                hint: value_hint(&shown),
            };
            out.push(offer);
            assert(offer_views(out@) =~= offer_views(sofar).push(offer@));
        }
        i += 1;
    }
    assert(all.take(i as int) =~= all);
    out
}

/// The candidates for fields.
#[verifier::loop_isolation(false)]
pub fn offer_fields(offers: &Vec<FieldOffer>) -> (out: Vec<Completion>)
    ensures
        completion_views(out@) == field_candidates(offer_views(offers@)),
{
    let ghost all = offer_views(offers@);
    let mut out: Vec<Completion> = Vec::new();
    let mut i: usize = 0;
    while i < offers.len()
        invariant
            i <= offers@.len(),
            all == offer_views(offers@),
            out@.len() == i,
            forall|k: int| 0 <= k < i ==> (#[trigger] out@[k])@ == leaf_candidates(all)[k],
        decreases offers@.len() - i,
    {
        out.push(
            Completion { value: offers[i].leaf.clone(), help: Some(offers[i].hint.clone()) },
        );
        i += 1;
    }
    assert(completion_views(out@) =~= leaf_candidates(all));
    if offers.len() == 1 {
        if let Some(sep) = offers[0].descend {
            let mut value = offers[0].leaf.clone();
            value.push(sep);
            let further = Completion { value, help: Some(offers[0].hint.clone()) };
            let ghost leaves = out@;
            out.push(further);
            assert(completion_views(out@) =~= completion_views(leaves).push(further@));
        }
    }
    out
}

/// The objects that results spell; what is no object is passed over.
pub open spec fn objects_of(results: Seq<Vec<u8>>) -> Seq<Seq<JsonFieldView>>
    decreases results.len(),
{
    if results.len() == 0 {
        Seq::empty()
    } else {
        match json_entries(results.last()@) {
            Some(fields) => objects_of(results.drop_last()).push(fields),
            None => objects_of(results.drop_last()),
        }
    }
}

/// Field paths into an object for `object <ref> cat --jq <FILTER>`, given what the
/// query for the token's prefix ([`jq_prefix`]) gave, each result as JSON.
///
/// Only a bare leading dot-path token is completed (`.m_Foo`, `.a.b.`, `.a[0].b`),
/// one level at a time: `.a.` offers `.a.b`, `.a.c`. The keys of several results
/// (`.a[].`) are unioned. Anything with a space, `|`, `(` or `{` is left alone —
/// that's a real expression, not a field path.
#[verifier::loop_isolation(false)]
pub fn jq_paths(token: &str, results: &Vec<Vec<u8>>) -> (out: Vec<Completion>)
    ensures
        completion_views(out@) == (if is_field_path(token@) {
            field_candidates(fields_offered(token@, objects_of(results@)))
        } else {
            Seq::empty()
        }),
{
    if !completes_fields(token) {
        let none: Vec<Completion> = Vec::new();
        assert(completion_views(none@) =~= Seq::empty());
        return none;
    }
    // The fields at the prefix that the shell would actually show (matching the
    // partial), unioned across `[]` iteration results and deduped by accessor.
    let mut offers: Vec<FieldOffer> = Vec::new();
    let mut i: usize = 0;
    assert(offer_views(offers@) =~= Seq::empty());
    while i < results.len()
        invariant
            i <= results@.len(),
            offer_views(offers@) == fields_offered(
                token@,
                objects_of(results@.take(i as int)),
            ),
        decreases results@.len() - i,
    {
        assert(results@.take(i + 1).drop_last() =~= results@.take(i as int));
        let ghost before = objects_of(results@.take(i as int));
        if let Some(fields) = read_object(results[i].as_slice()) {
            assert(before.push(field_views(fields@)).drop_last() =~= before);
            offers = add_fields(offers, token, &fields);
        }
        i += 1;
    }
    assert(results@.take(i as int) =~= results@);
    offer_fields(&offers)
}

/// Object class names of a file (for `objects --type`): what is offered for one
/// object after the others.
pub open spec fn types_offered(file: SceneFile, objects: Seq<Object>) -> Offer
    decreases objects.len(),
{
    if objects.len() == 0 {
        Offer { candidates: Seq::empty(), seen: Seq::empty() }
    } else {
        let object = objects.last();
        let with_class = offered(
            types_offered(file, objects.drop_last()),
            bare(classes::class_text(object.class_id)),
        );
        match commands::file::script_at(file, object) {
            Some(script) => offered(with_class, helped(script, "script"@)),
            None => with_class,
        }
    }
}

/// Offers a bare candidate, unless it is known.
fn offer_bare(out: &mut Vec<Completion>, seen: &mut Vec<String>, value: String)
    ensures
        ({
            let after = offered(
                Offer { candidates: completion_views(old(out)@), seen: text::texts(old(seen)@) },
                bare(value@),
            );
            completion_views(final(out)@) == after.candidates && text::texts(final(seen)@)
                == after.seen
        }),
{
    if !is_listed(seen, value.as_str()) {
        let ghost shown = completion_views(out@);
        let ghost known = text::texts(seen@);
        seen.push(value.clone());
        assert(text::texts(seen@) =~= known.push(value@));
        let candidate = Completion { value, help: None };
        out.push(candidate);
        assert(completion_views(out@) =~= shown.push(candidate@));
    }
}

/// Object class names of a file (for `objects --type`): the distinct `ClassId`
/// names, plus MonoBehaviour script class names (which `--type` also matches).
#[verifier::loop_isolation(false)]
pub fn object_types(file: &SceneFile) -> (out: Vec<Completion>)
    ensures
        completion_views(out@) == types_offered(*file, file.objects@).candidates,
{
    let ghost all = file.objects@;
    let mut seen: Vec<String> = Vec::new();
    let mut out: Vec<Completion> = Vec::new();
    let mut i: usize = 0;
    assert(completion_views(out@) =~= Seq::empty());
    assert(text::texts(seen@) =~= Seq::empty());
    while i < file.objects.len()
        invariant
            i <= all.len(),
            all == file.objects@,
            types_offered(*file, all.take(i as int)) == (Offer {
                candidates: completion_views(out@),
                seen: text::texts(seen@),
            }),
        decreases all.len() - i,
    {
        assert(all.take(i + 1).drop_last() =~= all.take(i as int));
        let object = &file.objects[i];
        let class = class_label(object.class_id);
        let script = commands::file::script_of(file, object, class.as_str());
        offer_bare(&mut out, &mut seen, class);
        if let Some(script) = script {
            offer(&mut out, &mut seen, script, "script");
        }
        i += 1;
    }
    assert(all.take(i as int) =~= all);
    out
}

/// The labels of components, each once.
pub open spec fn labels_offered(paths: Seq<PathView>) -> Offer
    decreases paths.len(),
{
    if paths.len() == 0 {
        Offer { candidates: Seq::empty(), seen: Seq::empty() }
    } else {
        let before = labels_offered(paths.drop_last());
        match paths.last().component {
            Some(component) => offered(before, bare(component.name)),
            None => before,
        }
    }
}

/// Component/script type names of a file (for `find <TYPE>`): the distinct
/// `@component` labels across the hierarchy. `None` if it runs in a circle.
#[verifier::loop_isolation(false)]
pub fn component_types(file: &SceneFile) -> (r: Option<Vec<Completion>>)
    requires
        file.objects@.len() + file.linked@.len() <= usize::MAX,
    ensures
        match qualify::paths_of(*file) {
            Some(paths) => r matches Some(out) && completion_views(out@) == labels_offered(
                paths,
            ).candidates,
            None => r is None,
        },
{
    let paths = match all_paths(file) {
        Some(paths) => paths,
        None => {
            return None;
        },
    };
    let ghost all = qualify::path_views(paths@);
    let mut seen: Vec<String> = Vec::new();
    let mut out: Vec<Completion> = Vec::new();
    let mut i: usize = 0;
    assert(completion_views(out@) =~= Seq::empty());
    assert(text::texts(seen@) =~= Seq::empty());
    while i < paths.len()
        invariant
            i <= paths@.len(),
            all == qualify::path_views(paths@),
            labels_offered(all.take(i as int)) == (Offer {
                candidates: completion_views(out@),
                seen: text::texts(seen@),
            }),
        decreases paths@.len() - i,
    {
        assert(all.take(i + 1).drop_last() =~= all.take(i as int));
        assert(all[i as int] == paths@[i as int]@);
        if let Some(component) = &paths[i].component {
            offer_bare(&mut out, &mut seen, component.name.clone());
        }
        i += 1;
    }
    assert(all.take(i as int) =~= all);
    Some(out)
}

/// The texts of those paths that select no component.
pub open spec fn gameobject_texts(paths: Seq<PathView>) -> Seq<Seq<char>>
    decreases paths.len(),
{
    if paths.len() == 0 {
        Seq::empty()
    } else {
        let before = gameobject_texts(paths.drop_last());
        if paths.last().component is None {
            before.push(component_path::path_text(paths.last()))
        } else {
            before
        }
    }
}

/// GameObject paths of a file (for `tree <path>`): the component paths without a
/// `@component` selector. `None` if the hierarchy runs in a circle.
#[verifier::loop_isolation(false)]
pub fn gameobject_paths(file: &SceneFile) -> (r: Option<Vec<Completion>>)
    requires
        file.objects@.len() + file.linked@.len() <= usize::MAX,
    ensures
        match qualify::paths_of(*file) {
            Some(paths) => r matches Some(out) && completion_views(out@) == bare_all(
                gameobject_texts(paths),
            ),
            None => r is None,
        },
{
    let paths = match all_paths(file) {
        Some(paths) => paths,
        None => {
            return None;
        },
    };
    let ghost all = qualify::path_views(paths@);
    let mut shown: Vec<String> = Vec::new();
    let mut i: usize = 0;
    assert(text::texts(shown@) =~= Seq::empty());
    while i < paths.len()
        invariant
            i <= paths@.len(),
            all == qualify::path_views(paths@),
            text::texts(shown@) == gameobject_texts(all.take(i as int)),
        decreases paths@.len() - i,
    {
        assert(all.take(i + 1).drop_last() =~= all.take(i as int));
        assert(all[i as int] == paths@[i as int]@);
        if paths[i].component.is_none() {
            let ghost before = shown@;
            shown.push(paths[i].to_text());
            assert(text::texts(shown@) =~= text::texts(before).push(
                component_path::path_text(all[i as int]),
            ));
        }
        i += 1;
    }
    assert(all.take(i as int) =~= all);
    Some(bare_candidates(&shown))
}

/// The paths of serialized files.
pub open spec fn serialized_paths(entries: Seq<FileEntry>) -> Seq<Seq<char>>
    decreases entries.len(),
{
    if entries.len() == 0 {
        Seq::empty()
    } else {
        let before = serialized_paths(entries.drop_last());
        if commands::bundle::is_serialized(entries.last()) {
            before.push(entries.last().path@)
        } else {
            before
        }
    }
}

/// Candidates for `bundle <path> file <CAB>`: the serialized files inside a bundle.
#[verifier::loop_isolation(false)]
pub fn bundle_cabs(entries: &Vec<FileEntry>) -> (out: Vec<Completion>)
    ensures
        completion_views(out@) == bare_all(serialized_paths(entries@)),
{
    let mut shown: Vec<String> = Vec::new();
    let mut i: usize = 0;
    assert(text::texts(shown@) =~= Seq::empty());
    while i < entries.len()
        invariant
            i <= entries@.len(),
            text::texts(shown@) == serialized_paths(entries@.take(i as int)),
        decreases entries@.len() - i,
    {
        assert(entries@.take(i + 1).drop_last() =~= entries@.take(i as int));
        if entries[i].is_serialized() {
            let ghost before = shown@;
            shown.push(entries[i].path.clone());
            assert(text::texts(shown@) =~= text::texts(before).push(entries@[i as int].path@));
        }
        i += 1;
    }
    assert(entries@.take(i as int) =~= entries@);
    bare_candidates(&shown)
}

/// Candidates for keys, each with the asset types that it resolves to.
pub open spec fn key_candidates(entries: Seq<group::Group>) -> Seq<CompletionView> {
    entries.map_values(
        |g: group::Group| helped(g.key@, text::joined(text::texts(g.values@), ", "@)),
    )
}

/// Candidates for `addressable <KEY>`: every catalog key, with the distinct asset
/// types it resolves to as help text (e.g. `AtmosCue, MusicCue`).
pub fn addressable_keys(keys: &Groups) -> (out: Vec<Completion>)
    ensures
        completion_views(out@) == key_candidates(keys.entries@),
{
    let mut out: Vec<Completion> = Vec::new();
    let mut i: usize = 0;
    while i < keys.entries.len()
        invariant
            i <= keys.entries@.len(),
            out@.len() == i,
            forall|k: int|
                0 <= k < i ==> (#[trigger] out@[k])@ == key_candidates(keys.entries@)[k],
        decreases keys.entries@.len() - i,
    {
        let entry = &keys.entries[i];
        out.push(Completion { value: entry.key.clone(), help: Some(join(&entry.values, ", ")) });
        i += 1;
    }
    assert(completion_views(out@) =~= key_candidates(keys.entries@));
    out
}

/// Candidates for scenes, each with its source.
pub open spec fn scene_candidates(scenes: Seq<Scene>) -> Seq<CompletionView> {
    scenes.map_values(|s: Scene| helped(s.name@, s.source.label_text()))
}

/// Candidates for a `scene <name>`: built-in + addressables scene names, with their
/// source (`levelN` / bundle) as help text.
pub fn scene_names(scenes: &Vec<Scene>) -> (out: Vec<Completion>)
    ensures
        completion_views(out@) == scene_candidates(scenes@),
{
    let mut out: Vec<Completion> = Vec::new();
    let mut i: usize = 0;
    while i < scenes.len()
        invariant
            i <= scenes@.len(),
            out@.len() == i,
            forall|k: int| 0 <= k < i ==> (#[trigger] out@[k])@ == scene_candidates(scenes@)[k],
        decreases scenes@.len() - i,
    {
        out.push(
            Completion { value: scenes[i].name.clone(), help: Some(scenes[i].source.label()) },
        );
        i += 1;
    }
    assert(completion_views(out@) =~= scene_candidates(scenes@));
    out
}

/// Candidates for steam games, each with its app id.
pub open spec fn app_candidates(apps: Seq<SteamApp>) -> Seq<CompletionView> {
    apps.map_values(|a: SteamApp| helped(a.title_text(), number::decimal(a.app_id as nat)))
}

/// Candidates for `--steam-game`: installed steam games that look like unity games,
/// with their app id as help text.
pub fn steam_games(apps: &Vec<SteamApp>) -> (out: Vec<Completion>)
    ensures
        completion_views(out@) == app_candidates(apps@),
{
    let mut out: Vec<Completion> = Vec::new();
    let mut i: usize = 0;
    while i < apps.len()
        invariant
            i <= apps@.len(),
            out@.len() == i,
            forall|k: int| 0 <= k < i ==> (#[trigger] out@[k])@ == app_candidates(apps@)[k],
        decreases apps@.len() - i,
    {
        out.push(
            Completion {
                value: apps[i].title(),
                help: Some(show_u64(apps[i].app_id as u64)),
            },
        );
        i += 1;
    }
    assert(completion_views(out@) =~= app_candidates(apps@));
    out
}

/// Whether every offer begins with the token, and no two are the same.
pub open spec fn are_completions(offers: Seq<FieldOfferView>, token: Seq<char>) -> bool {
    &&& forall|i: int|
        0 <= i < offers.len() ==> text::begins_with((#[trigger] offers[i]).leaf, token)
    &&& forall|i: int, j: int|
        0 <= i < j < offers.len() ==> (#[trigger] offers[i]).leaf != (#[trigger] offers[j]).leaf
}

proof fn lemma_with_fields_completes(
    before: Seq<FieldOfferView>,
    token: Seq<char>,
    fields: Seq<JsonFieldView>,
)
    requires
        are_completions(before, token),
    ensures
        are_completions(with_fields(before, token, fields), token),
    decreases fields.len(),
{
    if fields.len() > 0 {
        lemma_with_fields_completes(before, token, fields.drop_last());
    }
}

/// The fields that are offered complete the token, and none is offered twice.
pub proof fn offered_fields_complete_the_token(
    token: Seq<char>,
    objects: Seq<Seq<JsonFieldView>>,
)
    ensures
        are_completions(fields_offered(token, objects), token),
    decreases objects.len(),
{
    if objects.len() > 0 {
        offered_fields_complete_the_token(token, objects.drop_last());
        lemma_with_fields_completes(
            fields_offered(token, objects.drop_last()),
            token,
            objects.last(),
        );
    }
}

/// Whether what was offered is known, and was not known before.
pub open spec fn is_fresh(offer: Offer, known: Seq<Seq<char>>) -> bool {
    &&& forall|i: int|
        0 <= i < offer.candidates.len() ==> offer.seen.contains(
            (#[trigger] offer.candidates[i]).value,
        ) && !known.contains(offer.candidates[i].value)
    &&& forall|i: int, j: int|
        0 <= i < j < offer.candidates.len() ==> (#[trigger] offer.candidates[i]).value != (
        #[trigger] offer.candidates[j]).value
    &&& forall|k: int| 0 <= k < known.len() ==> offer.seen.contains(#[trigger] known[k])
}

proof fn lemma_offered_is_fresh(offer: Offer, known: Seq<Seq<char>>, candidate: CompletionView)
    requires
        is_fresh(offer, known),
    ensures
        is_fresh(offered(offer, candidate), known),
{
    let after = offered(offer, candidate);
    if !offer.seen.contains(candidate.value) {
        assert forall|x: Seq<char>| offer.seen.contains(x) implies #[trigger] after.seen.contains(
            x,
        ) by {
            let i = choose|i: int| 0 <= i < offer.seen.len() && offer.seen[i] == x;
            assert(after.seen[i] == x);
        }
        assert(after.seen[offer.seen.len() as int] == candidate.value);
        if known.contains(candidate.value) {
            let k = choose|k: int| 0 <= k < known.len() && known[k] == candidate.value;
            assert(offer.seen.contains(known[k]));
        }
        assert forall|i: int| 0 <= i < after.candidates.len() implies after.seen.contains(
            (#[trigger] after.candidates[i]).value,
        ) && !known.contains(after.candidates[i].value) by {
            if i < offer.candidates.len() {
                assert(after.candidates[i] == offer.candidates[i]);
            }
        }
        assert forall|i: int, j: int| 0 <= i < j < after.candidates.len() implies (
        #[trigger] after.candidates[i]).value != (#[trigger] after.candidates[j]).value by {
            assert(after.candidates[i] == offer.candidates[i]);
            if j < offer.candidates.len() {
                assert(after.candidates[j] == offer.candidates[j]);
            } else {
                assert(offer.seen.contains(offer.candidates[i].value));
            }
        }
    }
}

/// No class or name is offered twice, nor where a component path reads the same.
pub proof fn offered_names_are_fresh(
    file: SceneFile,
    objects: Seq<Object>,
    paths: Seq<Seq<char>>,
)
    ensures
        is_fresh(names_offered(file, objects, paths), paths),
    decreases objects.len(),
{
    if objects.len() > 0 {
        let before = names_offered(file, objects.drop_last(), paths);
        let object = objects.last();
        let class = classes::class_text(object.class_id);
        offered_names_are_fresh(file, objects.drop_last(), paths);
        lemma_offered_is_fresh(before, paths, helped(class, "class"@));
        if let Some(name) = commands::file::own_name(file, object.path_id) {
            lemma_offered_is_fresh(
                offered(before, helped(class, "class"@)),
                paths,
                helped(name, class),
            );
        }
    }
}

} // verus!
