//! How paths, object references and numbers are read.

use vstd::prelude::*;

use crate::component_path::{FieldView, ObjectRefView, PathView};
use crate::{component_path, number, text};

verus! {

/// Whether a text holds neither a backslash nor the given character.
pub open spec fn is_plain(s: Seq<char>, delim: char) -> bool {
    forall|i: int| 0 <= i < s.len() ==> #[trigger] s[i] != '\\' && s[i] != delim
}

/// A text is split at a delimiter: what is before the first is one piece, and what is
/// behind it is split in turn; without a delimiter it is one piece.
pub proof fn a_text_is_split_at_its_delimiters(a: Seq<char>, delim: char, b: Seq<char>)
    requires
        delim != '\\',
        is_plain(a, delim),
    ensures
        component_path::split(a, delim) == seq![a],
        component_path::split(a.push(delim) + b, delim) == seq![a] + component_path::split(b, delim),
    decreases a.len(),
{
    let whole = a.push(delim) + b;
    if a.len() == 0 {
        assert(a =~= Seq::<char>::empty());
        assert(whole.skip(1) =~= b);
        assert(whole[0] == delim);
    } else {
        let rest = a.skip(1);
        assert(a[0] != '\\' && a[0] != delim);
        assert forall|i: int| 0 <= i < rest.len() implies #[trigger] rest[i] != '\\' && rest[i]
            != delim by {
            assert(rest[i] == a[i + 1]);
        }
        a_text_is_split_at_its_delimiters(rest, delim, b);
        assert(a.take(1) + rest =~= a);
        assert(component_path::split(a, delim) =~= seq![a]);
        assert(whole[0] == a[0]);
        assert(whole.take(1) =~= a.take(1));
        assert(whole.skip(1) =~= rest.push(delim) + b);
        let pieces = seq![rest] + component_path::split(b, delim);
        assert(pieces.skip(1) =~= component_path::split(b, delim));
        assert(component_path::split(whole, delim) =~= seq![a] + component_path::split(b, delim));
    }
}

/// What stands behind a backslash does not split, and is kept in its piece with the
/// backslash.
pub proof fn an_escaped_character_does_not_split(c: char, delim: char, b: Seq<char>)
    ensures
        ({
            let pieces = component_path::split(seq!['\\', c] + b, delim);
            let rest = component_path::split(b, delim);
            &&& pieces.len() == rest.len()
            &&& pieces.len() > 0
            &&& pieces[0] == seq!['\\', c] + rest[0]
            &&& forall|i: int| 1 <= i < pieces.len() ==> #[trigger] pieces[i] == rest[i]
        }),
{
    component_path::lemma_split_nonempty(b, delim);
    let whole = seq!['\\', c] + b;
    assert(whole.take(2) =~= seq!['\\', c]);
    assert(whole.skip(2) =~= b);
    let rest = component_path::split(b, delim);
    let pieces = component_path::split(whole, delim);
    assert forall|i: int| 1 <= i < pieces.len() implies #[trigger] pieces[i] == rest[i] by {
        assert(rest.skip(1)[i - 1] == rest[i]);
    }
}

/// Reading a name drops the backslash before a character and nothing else.
pub proof fn only_escaping_backslashes_are_dropped(c: char, s: Seq<char>)
    ensures
        component_path::unescaped(seq!['\\', c] + s) == seq![c] + component_path::unescaped(s),
        c != '\\' ==> component_path::unescaped(seq![c] + s) == seq![c]
            + component_path::unescaped(s),
        component_path::unescaped(Seq::empty()) == Seq::<char>::empty(),
        component_path::unescaped(seq!['\\']) == Seq::<char>::empty(),
{
    assert((seq!['\\', c] + s).skip(2) =~= s);
    assert((seq![c] + s).skip(1) =~= s);
}

/// Writing a name puts a backslash before `\`, `/`, `@` and `:`, and changes nothing
/// else.
pub proof fn structural_characters_are_escaped(c: char, s: Seq<char>)
    ensures
        c == '\\' || c == '/' || c == '@' || c == ':' ==> component_path::escaped(seq![c] + s)
            == seq!['\\', c] + component_path::escaped(s),
        c != '\\' && c != '/' && c != '@' && c != ':' ==> component_path::escaped(seq![c] + s)
            == seq![c] + component_path::escaped(s),
        component_path::escaped(Seq::empty()) == Seq::<char>::empty(),
{
    assert((seq![c] + s).skip(1) =~= s);
}

/// A field without a colon is a name; with one, a name and the number behind it; it is
/// none if that is no number, or if there is more than one colon.
pub proof fn a_field_is_a_name_and_an_index(raw: Seq<char>, what: Seq<char>)
    ensures
        ({
            let parts = component_path::split(raw, ':');
            let read = component_path::field_of(raw, what);
            &&& parts.len() == 1 ==> (read matches Ok(field) && field.name
                == component_path::unescaped(parts[0]) && field.index is None)
            &&& parts.len() == 2 ==> (read is Ok <==> number::unsigned_value(
                parts[1],
                usize::MAX as int,
            ) is Some)
            &&& parts.len() == 2 ==> (read matches Ok(field) ==> field.name
                == component_path::unescaped(parts[0]) && field.index == number::unsigned_value(
                parts[1],
                usize::MAX as int,
            ))
            &&& parts.len() > 2 ==> read is Err
        }),
{
    component_path::lemma_split_nonempty(raw, ':');
}

proof fn lemma_fields(raw: Seq<Seq<char>>)
    ensures
        component_path::fields_of(raw) is Ok <==> forall|i: int|
            0 <= i < raw.len() ==> component_path::field_of(
                #[trigger] raw[i],
                "path segment"@,
            ) is Ok,
        component_path::fields_of(raw) matches Ok(fields) ==> fields.len() == raw.len() && forall|
            i: int,
        |
            0 <= i < raw.len() ==> component_path::field_of(#[trigger] raw[i], "path segment"@)
                == Ok::<FieldView, Seq<char>>(fields[i]),
    decreases raw.len(),
{
    if raw.len() > 0 {
        let rest = raw.drop_last();
        let n = raw.len() - 1;
        lemma_fields(rest);
        let last = component_path::field_of(raw[n], "path segment"@);
        if component_path::fields_of(raw) is Ok {
            let fields = component_path::fields_of(raw)->Ok_0;
            assert forall|i: int| 0 <= i < raw.len() implies component_path::field_of(
                #[trigger] raw[i],
                "path segment"@,
            ) == Ok::<FieldView, Seq<char>>(fields[i]) by {
                if i < n {
                    assert(rest[i] == raw[i]);
                }
            }
        }
        if forall|i: int|
            0 <= i < raw.len() ==> component_path::field_of(
                #[trigger] raw[i],
                "path segment"@,
            ) is Ok {
            assert forall|i: int| 0 <= i < rest.len() implies component_path::field_of(
                #[trigger] rest[i],
                "path segment"@,
            ) is Ok by {
                assert(rest[i] == raw[i]);
            }
            assert(component_path::field_of(raw[n], "path segment"@) is Ok);
        }
    }
}

/// A path is read from the pieces between its slashes, one segment each and none with an
/// empty name, before an `@` with the component behind it, of which there can be one.
pub proof fn a_path_is_its_segments_and_a_component(input: Seq<char>)
    ensures
        ({
            let at = component_path::split(input, '@');
            let raw = component_path::split(at[0], '/');
            let read = component_path::path_of(input);
            &&& at.len() > 2 ==> read is Err
            &&& read is Ok <==> at.len() <= 2 && (at.len() == 2 ==> component_path::field_of(
                at[1],
                "component"@,
            ) is Ok) && forall|i: int|
                0 <= i < raw.len() ==> (component_path::field_of(
                    #[trigger] raw[i],
                    "path segment"@,
                ) matches Ok(field) && field.name.len() > 0)
            &&& read matches Ok(path) ==> {
                &&& path.segments.len() == raw.len()
                &&& forall|i: int|
                    0 <= i < raw.len() ==> component_path::field_of(
                        #[trigger] raw[i],
                        "path segment"@,
                    ) == Ok::<FieldView, Seq<char>>(path.segments[i])
                &&& at.len() == 1 ==> path.component is None
                &&& at.len() == 2 ==> component_path::field_of(at[1], "component"@) == Ok::<
                    FieldView,
                    Seq<char>,
                >(path.component->0) && path.component is Some
            }
        }),
{
    component_path::lemma_split_nonempty(input, '@');
    let at = component_path::split(input, '@');
    let raw = component_path::split(at[0], '/');
    lemma_fields(raw);
    if component_path::fields_of(raw) is Ok {
        let fields = component_path::fields_of(raw)->Ok_0;
        if component_path::has_empty_name(fields) {
            let i = choose|i: int| 0 <= i < fields.len() && (#[trigger] fields[i]).name.len() == 0;
            assert(component_path::field_of(raw[i], "path segment"@) == Ok::<
                FieldView,
                Seq<char>,
            >(fields[i]));
        } else {
            assert forall|i: int| 0 <= i < raw.len() implies (component_path::field_of(
                #[trigger] raw[i],
                "path segment"@,
            ) matches Ok(field) && field.name.len() > 0) by {
                assert(fields[i].name.len() != 0);
            }
        }
    }
}

/// What reads as a number of 64 bits is a path id, all else a path.
pub proof fn a_number_is_a_path_id(input: Seq<char>)
    ensures
        number::i64_value(input) matches Some(id) ==> component_path::object_ref_of(input) == Ok::<
            ObjectRefView,
            Seq<char>,
        >(ObjectRefView::PathId(id as i64)),
        number::i64_value(input) is None ==> (match component_path::path_of(input) {
            Ok(path) => component_path::object_ref_of(input) == Ok::<ObjectRefView, Seq<char>>(
                ObjectRefView::Path(path),
            ),
            Err(e) => component_path::object_ref_of(input) == Err::<ObjectRefView, Seq<char>>(e),
        }),
{
}

/// A path is written as its segments with slashes between them, and its component behind
/// an `@`; an index stands behind a colon.
pub proof fn a_path_is_written_with_slashes_and_at(path: PathView, more: FieldView)
    requires
        path.segments.len() > 0,
    ensures
        path.component is None ==> component_path::path_text(
            PathView { segments: path.segments.push(more), component: None },
        ) == component_path::path_text(path) + seq!['/'] + component_path::field_text(more),
        path.component is None ==> component_path::path_text(
            PathView { segments: path.segments, component: Some(more) },
        ) == component_path::path_text(path) + seq!['@'] + component_path::field_text(more),
        component_path::path_text(PathView { segments: seq![more], component: None })
            == component_path::field_text(more),
        more.index is None ==> component_path::field_text(more) == component_path::escaped(
            more.name,
        ),
        more.index matches Some(index) ==> component_path::field_text(more)
            == component_path::escaped(more.name) + seq![':'] + number::decimal(index as nat),
{
    let one = component_path::field_texts(seq![more]);
    assert(one =~= seq![component_path::field_text(more)]);
    assert(Seq::<char>::empty() + component_path::field_text(more) =~= component_path::field_text(
        more,
    ));
    let all = component_path::field_texts(path.segments.push(more));
    let short = component_path::field_texts(path.segments);
    assert(all.drop_last() =~= short);
    assert(all.last() == component_path::field_text(more));
    let hierarchy = text::joined(short, seq!['/']);
    assert(hierarchy.push('@') =~= hierarchy + seq!['@']);
    assert(component_path::escaped(more.name).push(':') =~= component_path::escaped(more.name)
        + seq![':']);
}

/// Each digit counts ten times what it would one place further on.
pub proof fn digits_count_by_their_place(s: Seq<char>, c: char)
    requires
        '0' <= c && c <= '9',
    ensures
        number::digits_value(s.push(c)) == 10 * number::digits_value(s) + (c as u32 - '0' as u32),
        number::digits_value(Seq::empty()) == 0,
{
    assert(s.push(c).drop_last() =~= s);
}

/// Whether a text is made of one or more of the characters from `0` to `9`.
pub open spec fn are_digits(s: Seq<char>) -> bool {
    s.len() > 0 && forall|i: int| 0 <= i < s.len() ==> '0' <= #[trigger] s[i] && s[i] <= '9'
}

proof fn lemma_digits(s: Seq<char>)
    ensures
        number::all_digits(s) <==> are_digits(s),
{
    if number::all_digits(s) {
        assert forall|i: int| 0 <= i < s.len() implies '0' <= #[trigger] s[i] && s[i] <= '9' by {
            assert(number::is_digit(s[i]));
        }
    }
    if are_digits(s) {
        assert forall|i: int| 0 <= i < s.len() implies number::is_digit(#[trigger] s[i]) by {}
    }
}

/// A number is read from digits alone, behind a plus sign or none, and only if it is not
/// too great.
pub proof fn a_number_is_read_from_digits(s: Seq<char>, max: int)
    ensures
        are_digits(s) && number::digits_value(s) <= max ==> number::unsigned_value(s, max) == Some(
            number::digits_value(s),
        ) && number::unsigned_value(seq!['+'] + s, max) == Some(number::digits_value(s)),
        are_digits(s) && number::digits_value(s) > max ==> number::unsigned_value(s, max) is None
            && number::unsigned_value(seq!['+'] + s, max) is None,
        !are_digits(s) ==> number::unsigned_value(seq!['+'] + s, max) is None,
        !are_digits(s) && !(s.len() > 0 && s[0] == '+') ==> number::unsigned_value(s, max) is None,
{
    assert((seq!['+'] + s).skip(1) =~= s);
    lemma_digits(s);
}

/// A number below zero is read from a minus sign and digits; else a signed number is read
/// as one without a sign is.
pub proof fn a_signed_number_is_read_behind_its_sign(s: Seq<char>)
    ensures
        are_digits(s) && number::digits_value(s) <= 9_223_372_036_854_775_808 ==> number::i64_value(
            seq!['-'] + s,
        ) == Some(-number::digits_value(s)),
        are_digits(s) && number::digits_value(s) > 9_223_372_036_854_775_808 ==> number::i64_value(
            seq!['-'] + s,
        ) is None,
        !are_digits(s) ==> number::i64_value(seq!['-'] + s) is None,
        !(s.len() > 0 && s[0] == '-') ==> number::i64_value(s) == number::unsigned_value(
            s,
            9_223_372_036_854_775_807,
        ),
{
    assert((seq!['-'] + s).skip(1) =~= s);
    lemma_digits(s);
}

/// A number is written in digits, with no zero in front unless it is zero itself, behind
/// a minus sign if it is negative.
pub proof fn a_number_is_written_without_leading_zeros(n: nat)
    ensures
        number::decimal(n).len() > 0,
        n > 0 ==> number::decimal(n)[0] != '0',
        number::signed_decimal(n as int) == number::decimal(n),
        n > 0 ==> number::signed_decimal(-n) == seq!['-'] + number::decimal(n),
    decreases n,
{
    if n >= 10 {
        a_number_is_written_without_leading_zeros(n / 10);
        assert(number::decimal(n)[0] == number::decimal(n / 10)[0]);
    } else if n > 0 {
        assert(number::decimal(n)[0] == number::digit_char(n as int));
        assert(((n + 48) as u8) as int == n + 48);
    }
}

} // verus!
