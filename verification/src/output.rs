//! Rendering command results in the format chosen by the global `--format`.
//!
//! Each command builds a typed value that knows how to render itself as
//! human-readable text ([`Render`]). [`emit`] picks between that text and the
//! value's JSON document.

use vstd::prelude::*;

use crate::cli::{ColorChoice, Format};

pub mod style;

verus! {

/// Whether `pretty` output is coloured, once that has been decided.
#[derive(Debug, PartialEq, Eq)]
pub struct Color {
    /// The decision; left unset — and thus disabled — when rendering outside the
    /// binary, so tests stay plain and byte-identical.
    pub decided: Option<bool>,
}

impl Color {
    /// Nothing has been decided yet.
    pub fn undecided() -> (r: Color)
        ensures
            r.decided is None,
            !r.enabled(),
    {
        Color { decided: None }
    }

    /// Whether output is coloured.
    pub open spec fn enabled(self) -> bool {
        self.decided == Some(true)
    }

    /// Whether output is coloured.
    pub fn color_enabled(&self) -> (r: bool)
        ensures
            r == self.enabled(),
    {
        match self.decided {
            Some(enabled) => enabled,
            None => false,
        }
    }
}

/// Enables or disables ANSI coloring of `pretty` output. Set once at startup from
/// the `--color` choice: a later call changes nothing.
pub fn set_color(color: &mut Color, enabled: bool)
    ensures
        final(color).decided == (if old(color).decided is None {
            Some(enabled)
        } else {
            old(color).decided
        }),
{
    if color.decided.is_none() {
        color.decided = Some(enabled);
    }
}

/// Whether to colorize: as chosen, or — when that is left open — on a terminal
/// without `NO_COLOR`.
pub open spec fn colored(choice: ColorChoice, no_color: bool, terminal: bool) -> bool {
    match choice {
        ColorChoice::Always => true,
        ColorChoice::Never => false,
        ColorChoice::Auto => !no_color && terminal,
    }
}

/// Whether to colorize: as chosen, or — when that is left open — on a terminal
/// without `NO_COLOR`.
pub fn use_color(choice: ColorChoice, no_color: bool, terminal: bool) -> (r: bool)
    ensures
        r == colored(choice, no_color, terminal),
{
    match choice {
        ColorChoice::Always => true,
        ColorChoice::Never => false,
        ColorChoice::Auto => !no_color && terminal,
    }
}

/// A command result that can be rendered as human text.
pub trait Render {
    /// The human-readable (`--format pretty`) form.
    spec fn text(&self, color: bool) -> Seq<char>;

    /// Writes the human-readable (`--format pretty`) form.
    fn render(&self, color: bool) -> (out: String)
        ensures
            out@ == self.text(color),
    ;
}

/// What is printed of `value`, whose JSON document is `json`.
pub open spec fn emitted<T: Render>(
    value: T,
    format: Format,
    color: bool,
    json: Seq<char>,
) -> Seq<char> {
    match format {
        Format::Pretty => value.text(color),
        Format::Json => Seq::<char>::empty() + json + "\n"@,
    }
}

/// Emits `value` in the requested format: its text, or `json`, one document per
/// command, with a trailing newline.
pub fn emit<T: Render>(value: &T, format: Format, color: bool, json: &str) -> (out: String)
    ensures
        out@ == emitted(*value, format, color, json@),
{
    match format {
        Format::Pretty => value.render(color),
        Format::Json => {
            let mut out = String::new();
            out.append(json);
            out.append("\n");
            out
        },
    }
}

/// An already-built JSON value, as it is pretty-printed.
#[derive(Debug, PartialEq, Eq)]
pub struct Dump(pub String);

/// `cat` dumps an already-built JSON value; both formats pretty-print it.
impl Render for Dump {
    open spec fn text(&self, color: bool) -> Seq<char> {
        Seq::<char>::empty() + self.0@ + "\n"@
    }

    fn render(&self, color: bool) -> (out: String) {
        let mut out = String::new();
        out.append(self.0.as_str());
        out.append("\n");
        out
    }
}

/// JSON output is the document and one line end, whatever the value renders as; pretty
/// output is what the value renders as, whatever its document.
pub proof fn formats_are_separate<T: Render>(value: T, other: T, color: bool, json: Seq<char>)
    ensures
        emitted(value, Format::Json, color, json) == json + "\n"@,
        emitted(value, Format::Json, color, json) == emitted(other, Format::Json, !color, json),
        emitted(value, Format::Pretty, color, json) == value.text(color),
{
    assert(Seq::<char>::empty() + json =~= json);
}

/// A dumped JSON value prints the same in both formats, colored or not.
pub proof fn dumps_print_alike(dump: Dump, color: bool, format: Format)
    ensures
        emitted(dump, format, color, dump.0@) == dump.0@ + "\n"@,
{
    assert(Seq::<char>::empty() + dump.0@ =~= dump.0@);
}

/// One item of a listing, with its own line or lines.
pub trait Line {
    /// The item's lines.
    spec fn line_text(&self, color: bool) -> Seq<char>;

    /// Writes the item's lines.
    fn line(&self, color: bool) -> (out: String)
        ensures
            out@ == self.line_text(color),
    ;
}

/// The lines of all items, one after the other.
pub open spec fn item_lines<T: Line>(items: Seq<T>, color: bool) -> Seq<char>
    decreases items.len(),
{
    if items.len() == 0 {
        Seq::empty()
    } else {
        item_lines(items.drop_last(), color) + items.last().line_text(color)
    }
}

/// Writes the lines of all items, one after the other.
#[verifier::loop_isolation(false)]
pub fn render_lines<T: Line>(items: &Vec<T>, color: bool) -> (out: String)
    ensures
        out@ == item_lines(items@, color),
{
    let mut out = String::new();
    let mut i: usize = 0;
    while i < items.len()
        invariant
            i <= items@.len(),
            out@ == item_lines(items@.take(i as int), color),
        decreases items@.len() - i,
    {
        assert(items@.take(i + 1).drop_last() =~= items@.take(i as int));
        out.append(items[i].line(color).as_str());
        i += 1;
    }
    assert(items@.take(i as int) =~= items@);
    out
}

} // verus!
