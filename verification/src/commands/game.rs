//! The `game` commands: the whole-game summary (`info`) and the script locations
//! listing (`script-locations`).

use vstd::prelude::*;

use crate::group::{Group, Groups};
use crate::number::show_usize;
use crate::output::{render_lines, style, Line, Render};
use crate::text::{contains, copy_texts, same, to_ascii_lower};
use crate::{commands, group, number, output, text};

verus! {

/// Summary of a unity game directory.
#[derive(Debug, PartialEq, Eq)]
pub struct GameInfo {
    pub path: String,
    pub unity_version: String,
    pub serialized_files: usize,
    pub addressables: bool,
    pub addressables_bundles: Option<usize>,
}

impl Render for GameInfo {
    open spec fn text(&self, color: bool) -> Seq<char> {
        style::header_text("game directory"@, color) + "\n  path: "@ + style::name_text(
            self.path@,
            color,
        ) + "\n  unity version: "@ + self.unity_version@ + "\n  serialized files: "@
            + number::decimal(self.serialized_files as nat) + "\n  addressables: "@ + (
        if self.addressables {
            "yes"@
        } else {
            "no"@
        }) + "\n"@ + (match self.addressables_bundles {
            Some(bundles) => Seq::<char>::empty() + "  addressables bundles: "@ + number::decimal(
                bundles as nat,
            ) + "\n"@,
            None => Seq::empty(),
        })
    }

    fn render(&self, color: bool) -> (out: String) {
        let mut out = style::header("game directory", color);
        out.append("\n  path: ");
        out.append(style::name(self.path.as_str(), color).as_str());
        out.append("\n  unity version: ");
        out.append(self.unity_version.as_str());
        out.append("\n  serialized files: ");
        out.append(show_usize(self.serialized_files).as_str());
        out.append("\n  addressables: ");
        if self.addressables {
            out.append("yes");
        } else {
            out.append("no");
        }
        out.append("\n");
        let mut last = String::new();
        if let Some(bundles) = self.addressables_bundles {
            last.append("  addressables bundles: ");
            last.append(show_usize(bundles).as_str());
            last.append("\n");
        }
        out.append(last.as_str());
        out
    }
}

/// What reading a game's addressables gave: the number of bundles, as far as that
/// can be told, if it has any.
#[derive(Debug, PartialEq, Eq)]
pub enum Addressables {
    Absent,
    Present { bundles: Option<usize> },
    Unreadable(String),
}

/// Whether `info` is the summary of a game.
pub open spec fn is_summary(
    info: GameInfo,
    path: Seq<char>,
    version: Result<String, String>,
    serialized_files: usize,
    addressables: Addressables,
) -> bool {
    &&& info.path@ == path
    &&& info.unity_version@ == (match version {
        Ok(version) => version@,
        Err(e) => Seq::<char>::empty() + "<unknown: "@ + e@ + ">"@,
    })
    &&& info.serialized_files == serialized_files
    &&& info.addressables == (addressables is Present)
    &&& info.addressables_bundles == (match addressables {
        Addressables::Present { bundles } => bundles,
        _ => None,
    })
}

/// Builds a summary of a unity game directory. A failure to read the addressables
/// is handed back as a warning for stderr rather than embedded in the result, so
/// the rest of the summary still prints (and stays valid JSON).
pub fn info(
    path: String,
    version: Result<String, String>,
    serialized_files: usize,
    addressables: Addressables,
) -> (r: (GameInfo, Option<String>))
    ensures
        is_summary(r.0, path@, version, serialized_files, addressables),
        text::text_opt(r.1) == (match addressables {
            Addressables::Unreadable(e) => Some(
                Seq::<char>::empty() + "warning: failed to read addressables: "@ + e@,
            ),
            _ => None,
        }),
{
    let unity_version = match version {
        Ok(version) => version,
        Err(e) => {
            let mut out = String::new();
            out.append("<unknown: ");
            out.append(e.as_str());
            out.append(">");
            out
        },
    };
    match addressables {
        Addressables::Present { bundles } => (
            GameInfo {
                path,
                unity_version,
                serialized_files,
                addressables: true,
                addressables_bundles: bundles,
            },
            None,
        ),
        Addressables::Absent => (
            GameInfo {
                path,
                unity_version,
                serialized_files,
                addressables: false,
                addressables_bundles: None,
            },
            None,
        ),
        Addressables::Unreadable(e) => {
            let mut warning = String::new();
            warning.append("warning: failed to read addressables: ");
            warning.append(e.as_str());
            (
                GameInfo {
                    path,
                    unity_version,
                    serialized_files,
                    addressables: false,
                    addressables_bundles: None,
                },
                Some(warning),
            )
        },
    }
}

/// One script and the files / addressables that contain its definition.
#[derive(Debug, PartialEq, Eq)]
pub struct ScriptLocation {
    pub script: String,
    pub locations: Vec<String>,
}

/// Each script (`Namespace.Class`) with the files / addressables it lives in.
#[derive(Debug, PartialEq, Eq)]
pub struct ScriptLocations(pub Vec<ScriptLocation>);

/// The lines of locations.
pub open spec fn location_lines(locations: Seq<Seq<char>>, color: bool) -> Seq<char>
    decreases locations.len(),
{
    if locations.len() == 0 {
        Seq::empty()
    } else {
        location_lines(locations.drop_last(), color) + "  "@ + style::dim_text(
            locations.last(),
            color,
        ) + "\n"@
    }
}

impl Line for ScriptLocation {
    open spec fn line_text(&self, color: bool) -> Seq<char> {
        style::class_text(self.script@, color) + "\n"@ + location_lines(
            text::texts(self.locations@),
            color,
        )
    }

    #[verifier::loop_isolation(false)]
    fn line(&self, color: bool) -> (out: String) {
        let mut out = style::class(self.script.as_str(), color);
        out.append("\n");
        let ghost head = out@;
        let ghost all = text::texts(self.locations@);
        let mut i: usize = 0;
        assert(out@ =~= head + location_lines(all.take(0), color));
        while i < self.locations.len()
            invariant
                i <= self.locations@.len(),
                all == text::texts(self.locations@),
                out@ == head + location_lines(all.take(i as int), color),
            decreases self.locations@.len() - i,
        {
            assert(all.take(i + 1).drop_last() =~= all.take(i as int));
            out.append("  ");
            out.append(style::dim(self.locations[i].as_str(), color).as_str());
            out.append("\n");
            assert(out@ =~= head + location_lines(all.take(i + 1), color));
            i += 1;
        }
        assert(all.take(i as int) =~= all);
        out
    }
}

impl Render for ScriptLocations {
    open spec fn text(&self, color: bool) -> Seq<char> {
        output::item_lines(self.0@, color)
    }

    fn render(&self, color: bool) -> (out: String) {
        render_lines(&self.0, color)
    }
}

/// The full name of a script: `Namespace.Class`, or the class alone outside any
/// namespace.
pub open spec fn script_text(namespace: Seq<char>, class: Seq<char>) -> Seq<char> {
    if namespace.len() == 0 {
        class
    } else {
        Seq::<char>::empty() + namespace + "."@ + class
    }
}

/// The full name of a script: `Namespace.Class`, or the class alone outside any
/// namespace.
pub fn script_name(namespace: &str, class: &str) -> (out: String)
    ensures
        out@ == script_text(namespace@, class@),
{
    proof {
        reveal_strlit("");
        assert(namespace@.len() == 0 ==> namespace@ =~= ""@);
    }
    if same(namespace, "") {
        return class.to_owned();
    }
    let mut out = String::new();
    out.append(namespace);
    out.append(".");
    out.append(class);
    out
}

/// A script that was found in a file or addressable.
#[derive(Debug, PartialEq, Eq)]
pub struct FoundScript {
    pub script: String,
    pub location: String,
}

/// Where each script was found.
pub open spec fn grouped(found: Seq<FoundScript>) -> Map<Seq<char>, Set<Seq<char>>>
    decreases found.len(),
{
    if found.len() == 0 {
        Map::empty()
    } else {
        let before = grouped(found.drop_last());
        let last = found.last();
        before.insert(last.script@, group::under(before, last.script@).insert(last.location@))
    }
}

/// Groups the locations of each script, scripts and locations each in order and
/// without repeats.
#[verifier::loop_isolation(false)]
pub fn group_scripts(found: &Vec<FoundScript>) -> (r: Groups)
    ensures
        r.wf(),
        r@ == grouped(found@),
{
    let mut out = Groups::new();
    let mut i: usize = 0;
    while i < found.len()
        invariant
            i <= found@.len(),
            out.wf(),
            out@ == grouped(found@.take(i as int)),
        decreases found@.len() - i,
    {
        assert(found@.take(i + 1).drop_last() =~= found@.take(i as int));
        out.put(found[i].script.as_str(), found[i].location.clone());
        i += 1;
    }
    assert(found@.take(i as int) =~= found@);
    out
}

/// Whether a script's name contains the filter, whatever the case of ASCII letters.
pub open spec fn name_matches(script: Seq<char>, filter: Option<Seq<char>>) -> bool {
    match filter {
        Some(filter) => text::has_text(text::ascii_lower(script), text::ascii_lower(filter)),
        None => true,
    }
}

/// What a [`ScriptLocation`] says.
#[verifier::ext_equal]
pub struct ScriptView {
    pub script: Seq<char>,
    pub locations: Seq<Seq<char>>,
}

impl View for ScriptLocation {
    type V = ScriptView;

    open spec fn view(&self) -> ScriptView {
        ScriptView { script: self.script@, locations: text::texts(self.locations@) }
    }
}

/// What script locations say.
pub open spec fn script_views(scripts: Seq<ScriptLocation>) -> Seq<ScriptView> {
    scripts.map_values(|s: ScriptLocation| s@)
}

/// The scripts whose name matches, in the order of the groups.
pub open spec fn matching(entries: Seq<Group>, filter: Option<Seq<char>>) -> Seq<ScriptView>
    decreases entries.len(),
{
    if entries.len() == 0 {
        Seq::empty()
    } else {
        let before = matching(entries.drop_last(), filter);
        let last = entries.last();
        if name_matches(last.key@, filter) {
            before.push(
                ScriptView { script: last.key@, locations: text::texts(last.values@) },
            )
        } else {
            before
        }
    }
}

/// Maps each script to the files / addressables whose `MonoScript` objects define
/// it. `filter` keeps only scripts whose full name contains it (case-insensitive).
#[verifier::loop_isolation(false)]
pub fn script_locations(scripts: &Groups, filter: Option<&str>) -> (r: ScriptLocations)
    ensures
        script_views(r.0@) == matching(scripts.entries@, commands::file::str_opt(filter)),
{
    let ghost all = scripts.entries@;
    let ghost wanted = commands::file::str_opt(filter);
    let needle: Option<String> = match filter {
        Some(filter) => Some(to_ascii_lower(filter)),
        None => None,
    };
    let mut out: Vec<ScriptLocation> = Vec::new();
    let mut i: usize = 0;
    assert(script_views(out@) =~= Seq::empty());
    while i < scripts.entries.len()
        invariant
            i <= all.len(),
            all == scripts.entries@,
            script_views(out@) == matching(all.take(i as int), wanted),
        decreases all.len() - i,
    {
        assert(all.take(i + 1).drop_last() =~= all.take(i as int));
        let entry = &scripts.entries[i];
        let keep: bool = match &needle {
            Some(needle) => contains(
                to_ascii_lower(entry.key.as_str()).as_str(),
                needle.as_str(),
            ),
            None => true,
        };
        if keep {
            let ghost before = out@;
            let shown = ScriptLocation {
                script: entry.key.clone(),
                locations: copy_texts(&entry.values),
            };
            out.push(shown);
            assert(script_views(out@) =~= script_views(before).push(shown@));
        }
        i += 1;
    }
    assert(all.take(i as int) =~= all);
    ScriptLocations(out)
}

} // verus!
