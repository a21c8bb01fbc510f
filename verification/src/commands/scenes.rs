//! The `scenes` listing: built-in + addressables scenes, each tagged with its
//! source. The data comes from [`crate::ctx::scenes`].

use vstd::prelude::*;

use crate::ctx::Scene;
use crate::output::{style, Render};
use crate::text;
use crate::text::repeated;

verus! {

/// The number of terminal columns that a text takes up.
pub uninterp spec fn text_width(s: Seq<char>) -> nat;

/// `unicode_width::UnicodeWidthStr::width`: the displayed width of a text in
/// columns, by the crate's fixed tables, a function of the text alone.
#[verifier::external_body]
fn display_width(s: &str) -> (w: usize)
    ensures
        w == text_width(s@),
{
    unicode_width::UnicodeWidthStr::width(s)
}

/// One scene with the source its data lives in.
#[derive(Debug, PartialEq, Eq)]
pub struct SceneEntry {
    pub name: String,
    pub source: String,
}

/// All scenes (built-in + addressables), each tagged with its source.
#[derive(Debug, PartialEq, Eq)]
pub struct Scenes(pub Vec<SceneEntry>);

/// The greatest of widths.
pub open spec fn widest(widths: Seq<nat>) -> nat
    decreases widths.len(),
{
    if widths.len() == 0 {
        0
    } else if widest(widths.drop_last()) < widths.last() {
        widths.last()
    } else {
        widest(widths.drop_last())
    }
}

/// The line of a scene whose name takes up `own` of `width` columns.
pub open spec fn scene_line(entry: SceneEntry, own: nat, width: nat, color: bool) -> Seq<char> {
    style::name_text(entry.name@, color) + text::run_of(' ', padding(own, width)) + "  "@ + style::dim_text(entry.source@, color) + "\n"@
}

/// The lines of scenes whose names take up the given columns, padded to `width`.
pub open spec fn scene_lines(
    entries: Seq<SceneEntry>,
    widths: Seq<nat>,
    width: nat,
    color: bool,
) -> Seq<char>
    decreases entries.len(),
{
    if entries.len() == 0 {
        Seq::empty()
    } else {
        let last = entries.len() - 1;
        scene_lines(entries.drop_last(), widths, width, color) + scene_line(
            entries[last],
            widths[last],
            width,
            color,
        )
    }
}

/// Widths as contracts speak of them.
pub open spec fn width_views(widths: Seq<usize>) -> Seq<nat> {
    widths.map_values(|w: usize| w as nat)
}

/// The widths of names.
pub open spec fn name_widths(entries: Seq<SceneEntry>) -> Seq<nat> {
    entries.map_values(|e: SceneEntry| text_width(e.name@))
}

/// Lists scenes whose names take up the given columns.
#[verifier::loop_isolation(false)]
pub fn render_padded(entries: &Vec<SceneEntry>, widths: &Vec<usize>, color: bool) -> (out: String)
    requires
        widths@.len() == entries@.len(),
    ensures
        out@ == scene_lines(
            entries@,
            width_views(widths@),
            widest(width_views(widths@)),
            color,
        ),
{
    let ghost views = width_views(widths@);
    let mut width: usize = 0;
    let mut i: usize = 0;
    while i < widths.len()
        invariant
            i <= widths@.len(),
            views == width_views(widths@),
            width == widest(views.take(i as int)),
        decreases widths@.len() - i,
    {
        assert(views.take(i + 1).drop_last() =~= views.take(i as int));
        if width < widths[i] {
            width = widths[i];
        }
        i += 1;
    }
    assert(views.take(i as int) =~= views);
    let mut out = String::new();
    let mut j: usize = 0;
    while j < entries.len()
        invariant
            j <= entries@.len(),
            out@ == scene_lines(entries@.take(j as int), views, width as nat, color),
        decreases entries@.len() - j,
    {
        assert(entries@.take(j + 1).drop_last() =~= entries@.take(j as int));
        let mut line = style::name(entries[j].name.as_str(), color);
        let padding: usize = if widths[j] < width {
            width - widths[j]
        } else {
            0
        };
        line.append(repeated(' ', padding).as_str());
        line.append("  ");
        line.append(style::dim(entries[j].source.as_str(), color).as_str());
        line.append("\n");
        out.append(line.as_str());
        j += 1;
    }
    assert(entries@.take(j as int) =~= entries@);
    out
}

impl Render for Scenes {
    /// Padded by terminal display width, not `char`/byte count, so CJK (and other
    /// wide) scene names still line up.
    open spec fn text(&self, color: bool) -> Seq<char> {
        let widths = name_widths(self.0@);
        scene_lines(self.0@, widths, widest(widths), color)
    }

    #[verifier::loop_isolation(false)]
    fn render(&self, color: bool) -> (out: String) {
        let mut widths: Vec<usize> = Vec::new();
        let mut i: usize = 0;
        while i < self.0.len()
            invariant
                i <= self.0@.len(),
                widths@.len() == i,
                forall|k: int| 0 <= k < i ==> #[trigger] widths@[k] == text_width(self.0@[k].name@),
            decreases self.0@.len() - i,
        {
            widths.push(display_width(self.0[i].name.as_str()));
            i += 1;
        }
        assert(width_views(widths@) =~= name_widths(self.0@));
        render_padded(&self.0, &widths, color)
    }
}

/// Whether `entry` is how a scene is listed.
pub open spec fn lists_scene(entry: SceneEntry, scene: Scene) -> bool {
    entry.name@ == scene.name@ && entry.source@ == scene.source.label_text()
}

/// Lists scenes (built-in + addressables), each tagged with its source.
pub fn scenes(all: &Vec<Scene>) -> (r: Scenes)
    ensures
        r.0@.len() == all@.len(),
        forall|i: int| 0 <= i < all@.len() ==> lists_scene(#[trigger] r.0@[i], all@[i]),
{
    let mut out: Vec<SceneEntry> = Vec::new();
    let mut i: usize = 0;
    while i < all.len()
        invariant
            i <= all@.len(),
            out@.len() == i,
            forall|k: int| 0 <= k < i ==> lists_scene(#[trigger] out@[k], all@[k]),
        decreases all@.len() - i,
    {
        out.push(SceneEntry { name: all[i].name.clone(), source: all[i].source.label() });
        i += 1;
    }
    Scenes(out)
}

/// The blanks that follow a name.
pub open spec fn padding(own: nat, width: nat) -> nat {
    if own < width {
        (width - own) as nat
    } else {
        0
    }
}

/// All sources start in the same column.
pub proof fn sources_line_up(widths: Seq<nat>, i: int)
    requires
        0 <= i < widths.len(),
    ensures
        widths[i] + padding(widths[i], widest(widths)) == widest(widths),
    decreases widths.len(),
{
    if i < widths.len() - 1 {
        sources_line_up(widths.drop_last(), i);
    }
}

} // verus!
