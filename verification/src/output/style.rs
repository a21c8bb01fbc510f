//! Tasteful ANSI styling for `pretty` output. Every helper is a no-op — returns
//! its input unchanged — when color is disabled, so non-tty / `NO_COLOR` /
//! `--color never` output stays plain. Pad to a column width *before* styling, as
//! the ANSI escapes would otherwise be counted as part of the column.

use vstd::prelude::*;

verus! {

/// `s` between the escapes that turn a style on and off.
pub open spec fn painted(code: Seq<char>, s: Seq<char>, color: bool) -> Seq<char> {
    if color {
        Seq::<char>::empty() + "\x1b["@ + code + "m"@ + s + "\x1b[0m"@
    } else {
        s
    }
}

/// A section title or a summary / count line.
pub open spec fn header_text(s: Seq<char>, color: bool) -> Seq<char> {
    painted("1"@, s, color)
}

/// Secondary text.
pub open spec fn dim_text(s: Seq<char>, color: bool) -> Seq<char> {
    painted("2"@, s, color)
}

/// The name of a type.
pub open spec fn class_text(s: Seq<char>, color: bool) -> Seq<char> {
    painted("36"@, s, color)
}

/// The name of a thing.
pub open spec fn name_text(s: Seq<char>, color: bool) -> Seq<char> {
    painted("32"@, s, color)
}

fn paint(code: &str, s: &str, color: bool) -> (out: String)
    ensures
        out@ == painted(code@, s@, color),
{
    if color {
        let mut out = String::new();
        out.append("\x1b[");
        out.append(code);
        out.append("m");
        out.append(s);
        out.append("\x1b[0m");
        out
    } else {
        s.to_owned()
    }
}

/// Section titles and summary / count lines.
pub fn header(s: &str, color: bool) -> (out: String)
    ensures
        out@ == header_text(s@, color),
{
    paint("1", s, color)
}

/// The `key:` labels in key/value blocks, path ids, and other secondary text.
pub fn dim(s: &str, color: bool) -> (out: String)
    ensures
        out@ == dim_text(s@, color),
{
    paint("2", s, color)
}

/// Class ids, type names, MonoBehaviour script class names.
pub fn class(s: &str, color: bool) -> (out: String)
    ensures
        out@ == class_text(s@, color),
{
    paint("36", s, color)
}

/// Object / GameObject / scene names and addressable keys.
pub fn name(s: &str, color: bool) -> (out: String)
    ensures
        out@ == name_text(s@, color),
{
    paint("32", s, color)
}

/// Without color every style leaves its text as it is.
pub proof fn styles_are_plain_without_color(s: Seq<char>)
    ensures
        header_text(s, false) == s,
        dim_text(s, false) == s,
        class_text(s, false) == s,
        name_text(s, false) == s,
{
}

} // verus!
