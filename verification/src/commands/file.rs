//! Verbs that operate on a single serialized file (shared by the `file`, `scene`
//! and `bundle <path> file` commands). The individual verbs live in the
//! submodules; this root holds the target selector ([`FileLocation`]) and the
//! smaller verbs (`info`, `objects`, `object … cat` / `info`, `find`).

use vstd::prelude::*;

use self::preloads::{AssetBundle, Preloads};
use self::tree::Tree;
use crate::classes::{class_label, MONO_BEHAVIOUR};
use crate::cli::{
    CatArgs, FileVerb, InfoArgs, ObjectVerb, ReferencesArgs, ReferencesVerb, TreeArgs,
};
use crate::component_path::{copy_fields, ComponentPath, ObjectRef, PathView};
use crate::json::{EntryView, Json, JsonView};
use crate::model::{Object, Pptr, SceneFile};
use crate::number::{show_i64, show_u64, show_usize};
use crate::output::{render_lines, style, Line, Render};
use crate::qualify::all_paths;
use crate::resolve::{resolve_component_path, resolve_object_ref};
use crate::text::{align_left, align_right, same};
use crate::{addressing, classes, component_path, json, model, number, output, qualify, resolve, text};

pub mod completeness;
pub mod find_references;
pub mod preloads;
pub mod references;
pub mod tree;

verus! {

/// How a serialized file is reached, and by what name other files refer to it.
#[derive(Debug, PartialEq, Eq)]
pub enum FileLocation {
    /// A plain serialized file.
    File(String),
    /// A file (CAB) inside a bundle, with its `archive:/…` path.
    Bundle { cab: String, archive_path: String },
}

impl FileLocation {
    /// The name by which other files refer to the file.
    pub open spec fn name_for_others(self) -> Seq<char> {
        match self {
            FileLocation::File(name) => name@,
            FileLocation::Bundle { archive_path, .. } => archive_path@,
        }
    }

    /// The name by which other files refer to the file.
    pub fn external_name(&self) -> (r: String)
        ensures
            r@ == self.name_for_others(),
    {
        match self {
            FileLocation::File(name) => name.clone(),
            FileLocation::Bundle { archive_path, .. } => archive_path.clone(),
        }
    }
}

/// Which components to list beneath each GameObject in a `tree`.
#[derive(Debug, Clone, Copy, PartialEq, Eq, Structural)]
pub enum Components {
    /// None.
    Hidden,
    /// Every component.
    All,
    /// Only MonoBehaviours (by script name).
    Scripts,
}

/// A file that a serialized file refers to.
#[derive(Debug, PartialEq, Eq)]
pub struct External {
    /// Its path, as the referring file has it.
    pub path: String,
    /// The bundle part of an `archive:/…` path.
    pub archive: Option<String>,
}

/// The bundle in which the catalog locates a CAB.
#[derive(Debug, PartialEq, Eq)]
pub struct CabBundle {
    pub cab: String,
    pub bundle: String,
}

/// The header of a serialized file.
#[derive(Debug, PartialEq, Eq)]
pub struct FileHeader {
    pub unity_version: Option<String>,
    pub format_version: u32,
    pub endianness: String,
    pub file_size: u64,
    pub type_tree: bool,
    pub types: usize,
    pub objects: usize,
    pub externals: Vec<External>,
}

/// Header information + type count for a serialized file.
#[derive(Debug, PartialEq, Eq)]
pub struct FileInfo {
    /// `None` renders as `<unknown>`.
    pub unity_version: Option<String>,
    pub format_version: u32,
    pub endianness: String,
    pub file_size: u64,
    pub type_tree: bool,
    pub types: usize,
    pub objects: usize,
    pub externals: usize,
    /// The external files (resolved to readable bundle paths); only populated with
    /// `info --externals`.
    pub external_bundles: Vec<String>,
}

/// The lines of the listed external files.
pub open spec fn external_lines(externals: Seq<String>) -> Seq<char>
    decreases externals.len(),
{
    if externals.len() == 0 {
        Seq::empty()
    } else {
        external_lines(externals.drop_last()) + "  - "@ + externals.last()@ + "\n"@
    }
}

/// How a truth value is printed.
pub open spec fn bool_text(b: bool) -> Seq<char> {
    if b {
        "true"@
    } else {
        "false"@
    }
}

/// How a truth value is printed.
pub fn show_bool(b: bool) -> (out: &'static str)
    ensures
        out@ == bool_text(b),
{
    if b {
        "true"
    } else {
        "false"
    }
}

impl Render for FileInfo {
    open spec fn text(&self, color: bool) -> Seq<char> {
        style::header_text("serialized file"@, color) + "\n"@ + "  unity version: "@ + (
        match self.unity_version {
            Some(version) => version@,
            None => "<unknown>"@,
        }) + "\n  format version: "@ + number::decimal(self.format_version as nat)
            + "\n  endianness: "@ + self.endianness@ + "\n  file size: "@ + number::decimal(
            self.file_size as nat,
        ) + "\n  type tree: "@ + bool_text(self.type_tree) + "\n  types: "@ + number::decimal(
            self.types as nat,
        ) + "\n  objects: "@ + number::decimal(self.objects as nat) + "\n  externals: "@
            + number::decimal(self.externals as nat) + "\n"@ + external_lines(
            self.external_bundles@,
        )
    }

    #[verifier::loop_isolation(false)]
    fn render(&self, color: bool) -> (out: String) {
        let mut out = style::header("serialized file", color);
        out.append("\n");
        out.append("  unity version: ");
        match &self.unity_version {
            Some(version) => out.append(version.as_str()),
            None => out.append("<unknown>"),
        }
        out.append("\n  format version: ");
        out.append(show_u64(self.format_version as u64).as_str());
        out.append("\n  endianness: ");
        out.append(self.endianness.as_str());
        out.append("\n  file size: ");
        out.append(show_u64(self.file_size).as_str());
        out.append("\n  type tree: ");
        out.append(show_bool(self.type_tree));
        out.append("\n  types: ");
        out.append(show_usize(self.types).as_str());
        out.append("\n  objects: ");
        out.append(show_usize(self.objects).as_str());
        out.append("\n  externals: ");
        out.append(show_usize(self.externals).as_str());
        out.append("\n");
        let ghost head = out@;
        let ghost all = self.external_bundles@;
        let mut i: usize = 0;
        assert(out@ =~= head + external_lines(all.take(0)));
        while i < self.external_bundles.len()
            invariant
                i <= all.len(),
                all == self.external_bundles@,
                out@ == head + external_lines(all.take(i as int)),
            decreases all.len() - i,
        {
            assert(all.take(i + 1).drop_last() =~= all.take(i as int));
            out.append("  - ");
            out.append(self.external_bundles[i].as_str());
            out.append("\n");
            assert(out@ =~= head + external_lines(all.take(i + 1)));
            i += 1;
        }
        assert(all.take(i as int) =~= all);
        out
    }
}

/// The bundle of the first entry for a CAB.
pub open spec fn bundle_of(catalog: Seq<CabBundle>, cab: Seq<char>) -> Option<Seq<char>>
    decreases catalog.len(),
{
    if catalog.len() == 0 {
        None
    } else if catalog[0].cab@ == cab {
        Some(catalog[0].bundle@)
    } else {
        bundle_of(catalog.skip(1), cab)
    }
}

/// The readable bundle path of an external file, if the catalog of the game (if it
/// has one) locates it; else its own path.
pub open spec fn readable_name(catalog: Option<Vec<CabBundle>>, external: External) -> Seq<char> {
    match (catalog, external.archive) {
        (Some(catalog), Some(cab)) => match bundle_of(catalog@, cab@) {
            Some(bundle) => bundle,
            None => external.path@,
        },
        _ => external.path@,
    }
}

/// Maps an external archive path back to its readable bundle filename, if known.
#[verifier::loop_isolation(false)]
pub fn bundle_name(catalog: &Option<Vec<CabBundle>>, external: &External) -> (r: String)
    ensures
        r@ == readable_name(*catalog, *external),
{
    if let Some(catalog) = catalog {
        if let Some(cab) = &external.archive {
            let mut i: usize = 0;
            assert(catalog@.skip(0) =~= catalog@);
            while i < catalog.len()
                invariant
                    i <= catalog@.len(),
                    bundle_of(catalog@, cab@) == bundle_of(catalog@.skip(i as int), cab@),
                decreases catalog@.len() - i,
            {
                assert(catalog@.skip(i as int).skip(1) =~= catalog@.skip(i + 1));
                if same(catalog[i].cab.as_str(), cab.as_str()) {
                    return catalog[i].bundle.clone();
                }
                i += 1;
            }
        }
    }
    external.path.clone()
}

/// The readable names of external files.
pub open spec fn readable_names(
    catalog: Option<Vec<CabBundle>>,
    externals: Seq<External>,
) -> Seq<Seq<char>> {
    externals.map_values(|external: External| readable_name(catalog, external))
}

/// Whether `info` is what the header says.
pub open spec fn describes(
    info: FileInfo,
    header: FileHeader,
    catalog: Option<Vec<CabBundle>>,
    externals: bool,
) -> bool {
    &&& text::text_opt(info.unity_version) == text::text_opt(header.unity_version)
    &&& info.format_version == header.format_version
    &&& info.endianness@ == header.endianness@
    &&& info.file_size == header.file_size
    &&& info.type_tree == header.type_tree
    &&& info.types == header.types
    &&& info.objects == header.objects
    &&& info.externals == header.externals@.len()
    &&& text::texts(info.external_bundles@) == (if externals {
        readable_names(catalog, header.externals@)
    } else {
        Seq::empty()
    })
}

/// Builds the header information + type count for a serialized file. With
/// `externals`, the external files are listed (resolved to bundle paths); else
/// only their count is reported.
#[verifier::loop_isolation(false)]
pub fn info(
    header: &FileHeader,
    catalog: &Option<Vec<CabBundle>>,
    externals: bool,
) -> (r: FileInfo)
    ensures
        describes(r, *header, *catalog, externals),
{
    // Resolve `archive:/CAB-…` externals to their readable bundle path; other
    // externals (e.g. `Library/unity default resources`) are left as-is.
    let mut external_bundles: Vec<String> = Vec::new();
    if externals {
        let mut i: usize = 0;
        while i < header.externals.len()
            invariant
                i <= header.externals@.len(),
                external_bundles@.len() == i,
                forall|k: int|
                    0 <= k < i ==> (#[trigger] external_bundles@[k])@ == readable_name(
                        *catalog,
                        header.externals@[k],
                    ),
            decreases header.externals@.len() - i,
        {
            external_bundles.push(bundle_name(catalog, &header.externals[i]));
            i += 1;
        }
        assert(text::texts(external_bundles@) =~= readable_names(*catalog, header.externals@));
    } else {
        assert(text::texts(external_bundles@) =~= Seq::empty());
    }
    FileInfo {
        unity_version: text::copy_opt(&header.unity_version),
        format_version: header.format_version,
        endianness: header.endianness.clone(),
        file_size: header.file_size,
        type_tree: header.type_tree,
        types: header.types,
        objects: header.objects,
        externals: header.externals.len(),
        external_bundles,
    }
}

/// One object in an [`ObjectList`]: its path id and class. With names, also the
/// MonoBehaviour's script class name and/or the object's `m_Name`.
#[derive(Debug, PartialEq, Eq)]
pub struct ObjectEntry {
    pub path_id: i64,
    pub class: String,
    /// The script class name for a MonoBehaviour (shown as `(Script)`).
    pub script: Option<String>,
    pub name: Option<String>,
}

/// What an [`ObjectEntry`] or an [`ObjectInfo`] says.
#[verifier::ext_equal]
pub struct ObjectView {
    pub path_id: i64,
    pub class: Seq<char>,
    pub script: Option<Seq<char>>,
    pub name: Option<Seq<char>>,
}

impl View for ObjectEntry {
    type V = ObjectView;

    open spec fn view(&self) -> ObjectView {
        ObjectView {
            path_id: self.path_id,
            class: self.class@,
            script: text::text_opt(self.script),
            name: text::text_opt(self.name),
        }
    }
}

/// The objects of a serialized file (`path_id  ClassId`), optionally with names.
#[derive(Debug, PartialEq, Eq)]
pub struct ObjectList(pub Vec<ObjectEntry>);

/// What the entries of a list say.
pub open spec fn entry_views(entries: Seq<ObjectEntry>) -> Seq<ObjectView> {
    entries.map_values(|entry: ObjectEntry| entry@)
}

/// Whether any entry has more to show than its class.
pub open spec fn any_label(entries: Seq<ObjectView>) -> bool {
    exists|i: int|
        0 <= i < entries.len() && ((#[trigger] entries[i]).name is Some
            || entries[i].script is Some)
}

/// A MonoBehaviour's script as `(Script)`, then any `m_Name`.
pub open spec fn entry_label(entry: ObjectView, color: bool) -> Seq<char> {
    let script = match entry.script {
        Some(script) => style::class_text(Seq::<char>::empty() + "("@ + script + ")"@, color),
        None => Seq::empty(),
    };
    match entry.name {
        Some(name) => if name.len() == 0 {
            script
        } else {
            (if entry.script is Some {
                script + " "@
            } else {
                script
            }) + style::name_text(name, color)
        },
        None => script,
    }
}

/// The line of one object.
pub open spec fn entry_line(entry: ObjectView, with_label: bool, color: bool) -> Seq<char> {
    let id = style::dim_text(
        text::right_aligned(number::signed_decimal(entry.path_id as int), 12),
        color,
    );
    if with_label {
        id + "  "@ + style::class_text(text::left_aligned(entry.class, 24), color) + "  "@
            + entry_label(entry, color) + "\n"@
    } else {
        id + "  "@ + style::class_text(entry.class, color) + "\n"@
    }
}

/// The lines of objects.
pub open spec fn entry_lines(entries: Seq<ObjectView>, with_label: bool, color: bool) -> Seq<char>
    decreases entries.len(),
{
    if entries.len() == 0 {
        Seq::empty()
    } else {
        entry_lines(entries.drop_last(), with_label, color) + entry_line(
            entries.last(),
            with_label,
            color,
        )
    }
}

impl ObjectEntry {
    fn label(&self, color: bool) -> (out: String)
        ensures
            out@ == entry_label(self@, color),
    {
        let mut out = String::new();
        if let Some(script) = &self.script {
            let mut shown = String::new();
            shown.append("(");
            shown.append(script.as_str());
            shown.append(")");
            out = style::class(shown.as_str(), color);
        }
        if let Some(name) = &self.name {
            if !name.as_str().is_empty() {
                if self.script.is_some() {
                    out.append(" ");
                }
                out.append(style::name(name.as_str(), color).as_str());
            }
        }
        out
    }

    fn line(&self, with_label: bool, color: bool) -> (out: String)
        ensures
            out@ == entry_line(self@, with_label, color),
    {
        let id = align_right(show_i64(self.path_id).as_str(), 12);
        let mut out = style::dim(id.as_str(), color);
        out.append("  ");
        if with_label {
            let class = align_left(self.class.as_str(), 24);
            out.append(style::class(class.as_str(), color).as_str());
            out.append("  ");
            out.append(self.label(color).as_str());
        } else {
            out.append(style::class(self.class.as_str(), color).as_str());
        }
        out.append("\n");
        out
    }
}

impl Render for ObjectList {
    open spec fn text(&self, color: bool) -> Seq<char> {
        entry_lines(entry_views(self.0@), any_label(entry_views(self.0@)), color)
    }

    #[verifier::loop_isolation(false)]
    fn render(&self, color: bool) -> (out: String) {
        let ghost all = entry_views(self.0@);
        let mut with_label: bool = false;
        let mut i: usize = 0;
        while i < self.0.len()
            invariant
                i <= self.0@.len(),
                all == entry_views(self.0@),
                with_label == any_label(all.take(i as int)),
            decreases self.0@.len() - i,
        {
            let ghost had = with_label;
            if self.0[i].name.is_some() || self.0[i].script.is_some() {
                with_label = true;
            }
            proof {
                let k = i as int;
                if had {
                    let j = choose|j: int|
                        0 <= j < k && ((#[trigger] all.take(k)[j]).name is Some
                            || all.take(k)[j].script is Some);
                    assert(all.take(k + 1)[j] == all.take(k)[j]);
                }
                if with_label && !had {
                    assert(all.take(k + 1)[k] == self.0@[k]@);
                }
                if any_label(all.take(k + 1)) && !with_label {
                    let j = choose|j: int|
                        0 <= j < k + 1 && ((#[trigger] all.take(k + 1)[j]).name is Some
                            || all.take(k + 1)[j].script is Some);
                    if j < k {
                        assert(all.take(k)[j] == all.take(k + 1)[j]);
                    } else {
                        assert(all.take(k + 1)[k] == self.0@[k]@);
                    }
                }
            }
            i += 1;
        }
        assert(all.take(i as int) =~= all);
        let mut out = String::new();
        let mut i: usize = 0;
        while i < self.0.len()
            invariant
                i <= self.0@.len(),
                out@ == entry_lines(all.take(i as int), with_label, color),
            decreases self.0@.len() - i,
        {
            assert(all.take(i + 1).drop_last() =~= all.take(i as int));
            out.append(self.0[i].line(with_label, color).as_str());
            i += 1;
        }
        assert(all.take(i as int) =~= all);
        out
    }
}

/// The script class name of a MonoBehaviour, where it can be told. A label that is
/// the class itself is none.
pub open spec fn script_at(file: SceneFile, object: Object) -> Option<Seq<char>> {
    if object.class_id == MONO_BEHAVIOUR {
        match model::label_at(file, model::local(object.path_id)) {
            Ok(label) => if label == classes::class_text(object.class_id) {
                None
            } else {
                Some(label)
            },
            Err(_) => None,
        }
    } else {
        None
    }
}

/// Whether an object is of the given class, or an instance of the given script.
pub open spec fn is_of_type(file: SceneFile, object: Object, filter: Option<Seq<char>>) -> bool {
    match filter {
        Some(filter) => classes::class_text(object.class_id) == filter || script_at(file, object)
            == Some(filter),
        None => true,
    }
}

/// How an object is listed.
pub open spec fn listed(file: SceneFile, object: Object, names: bool) -> ObjectView {
    ObjectView {
        path_id: object.path_id,
        class: classes::class_text(object.class_id),
        script: if names {
            script_at(file, object)
        } else {
            None
        },
        name: if names {
            match model::name_at(file, object.path_id) {
                Some(name) => Some(name),
                None => Some(Seq::empty()),
            }
        } else {
            None
        },
    }
}

/// How the objects that pass the filter are listed, in file order.
pub open spec fn listing(
    file: SceneFile,
    objects: Seq<Object>,
    filter: Option<Seq<char>>,
    names: bool,
) -> Seq<ObjectView>
    decreases objects.len(),
{
    if objects.len() == 0 {
        Seq::empty()
    } else {
        let before = listing(file, objects.drop_last(), filter, names);
        if is_of_type(file, objects.last(), filter) {
            before.push(listed(file, objects.last(), names))
        } else {
            before
        }
    }
}

/// The view of an optional text.
pub open spec fn str_opt(s: Option<&str>) -> Option<Seq<char>> {
    match s {
        Some(s) => Some(s@),
        None => None,
    }
}

/// The script class name of a MonoBehaviour, where it can be told.
pub(crate) fn script_of(file: &SceneFile, object: &Object, class: &str) -> (r: Option<String>)
    requires
        class@ == classes::class_text(object.class_id),
    ensures
        text::text_opt(r) == script_at(*file, *object),
{
    if object.class_id == MONO_BEHAVIOUR {
        match file.label_at(Pptr::local(object.path_id)) {
            Ok(label) => {
                if same(label.as_str(), class) {
                    None
                } else {
                    Some(label)
                }
            },
            Err(_) => None,
        }
    } else {
        None
    }
}

/// Collects `path_id`/`ClassId` for each object, optionally filtered by class name
/// — or, for a MonoBehaviour, by its script class name (e.g. `PlayMakerFSM`). With
/// `names`, each object's `m_Name` is read too.
#[verifier::loop_isolation(false)]
pub fn list(file: &SceneFile, type_filter: Option<&str>, names: bool) -> (r: ObjectList)
    ensures
        entry_views(r.0@) == listing(*file, file.objects@, str_opt(type_filter), names),
{
    let ghost all = file.objects@;
    let ghost wanted = str_opt(type_filter);
    let mut objects: Vec<ObjectEntry> = Vec::new();
    let mut i: usize = 0;
    assert(entry_views(objects@) =~= Seq::empty());
    while i < file.objects.len()
        invariant
            i <= all.len(),
            all == file.objects@,
            entry_views(objects@) == listing(*file, all.take(i as int), wanted, names),
        decreases all.len() - i,
    {
        assert(all.take(i + 1).drop_last() =~= all.take(i as int));
        let object = &file.objects[i];
        let class = class_label(object.class_id);
        let script = script_of(file, object, class.as_str());
        let keep: bool = match type_filter {
            Some(filter) => same(class.as_str(), filter) || (match &script {
                Some(script) => same(script.as_str(), filter),
                None => false,
            }),
            None => true,
        };
        if keep {
            // Reading the name means deserializing the object; tolerate failures
            // (e.g. a MonoBehaviour whose script typetree isn't available) by
            // leaving it blank.
            let name: Option<String> = if names {
                match file.name_at(object.path_id) {
                    Some(name) => Some(name),
                    None => {
                        let blank = String::new();
                        assert(blank@ =~= Seq::<char>::empty());
                        Some(blank)
                    },
                }
            } else {
                None
            };
            let ghost before = objects@;
            let entry = ObjectEntry {
                path_id: object.path_id,
                class,
                // Only surfaced with names; the filter use above doesn't need it
                // shown.
                script: if names {
                    script
                } else {
                    None
                },
                name,
            };
            assert(entry@ == listed(*file, *object, names));
            objects.push(entry);
            assert(entry_views(objects@) =~= entry_views(before).push(entry@));
        }
        i += 1;
    }
    assert(all.take(i as int) =~= all);
    ObjectList(objects)
}

/// What dumping an object gives: its value with PPtrs annotated.
pub open spec fn dumped(file: SceneFile, path_id: i64) -> Result<JsonView, Seq<char>> {
    match model::object_at(file, model::local(path_id)) {
        Ok(object) => match object.value {
            Ok(value) => Ok(qualify::qualified(file, value@)),
            Err(e) => Err(e@),
        },
        Err(e) => Err(e),
    }
}

/// Reads object `path_id`, annotating PPtrs with a re-`cat`-able `$ref` component
/// path. The result is dumped as JSON.
pub fn dump_path_id(file: &SceneFile, path_id: i64) -> (r: Result<Json, String>)
    ensures
        match r {
            Ok(value) => dumped(*file, path_id) == Ok::<JsonView, Seq<char>>(value@),
            Err(e) => dumped(*file, path_id) == Err::<JsonView, Seq<char>>(e@),
        },
{
    match file.object_at(Pptr::local(path_id)) {
        Ok(object) => match &object.value {
            Ok(value) => {
                let mut value = value.copy();
                qualify::qualify(file, &mut value);
                Ok(value)
            },
            Err(e) => Err(e.clone()),
        },
        Err(e) => Err(e),
    }
}

/// The `$ref` that a dumped pointer is given, read as an object reference, selects the
/// object that the pointer points at: what `cat` prints can be given to `cat` again.
pub proof fn annotation_leads_to_the_object(file: SceneFile, entries: Seq<EntryView>, target: i64)
    requires
        addressing::consistent(file),
        qualify::pptr_of(entries) == Some(target),
        qualify::path_to(file, target) matches Some(path) && addressing::referable(path),
    ensures
        ({
            let dumped = qualify::qualified(file, JsonView::Object(entries));
            &&& dumped.get("$ref"@) matches Some(annotation)
            &&& annotation.as_text() matches Some(written)
            &&& component_path::object_ref_of(written) matches Ok(reference)
            &&& resolve::ref_target(file, reference) == Ok::<i64, Seq<char>>(target)
        }),
{
    addressing::path_text_leads_back(file, target);
    reveal_strlit("$ref");
    reveal_strlit("m_FileID");
    reveal_strlit("m_PathID");
    assert("m_FileID"@[2] != "m_PathID"@[2]);
    let rest = entries.skip(1);
    assert(rest[0] == entries[1]);
    assert(rest.skip(1) =~= Seq::<EntryView>::empty());
    assert forall|key: Seq<char>| #[trigger]
        json::value_of(entries, key) is Some implies entries[0].key == key || entries[1].key
        == key by {
        assert(json::value_of(rest.skip(1), key) is None);
        if entries[0].key != key && rest[0].key != key {
            assert(json::value_of(rest, key) is None);
        }
    }
    assert(json::value_of(entries, "m_FileID"@) is Some);
    assert(json::value_of(entries, "m_PathID"@) is Some);
    let dumped = qualify::with_ref(file, entries, target);
    assert(dumped.skip(1)[0] == entries[1]);
    assert(dumped.skip(1).skip(1)[0] == dumped[2]);
    assert(json::value_of(dumped.skip(1).skip(1), "$ref"@) == Some(dumped[2].value));
    assert(json::value_of(dumped.skip(1), "$ref"@) == Some(dumped[2].value));
}

/// Where the jq filter for `object … cat` comes from.
#[derive(Debug, PartialEq, Eq)]
pub enum FilterSource {
    /// No filter: a plain dump.
    Absent,
    /// The filter itself.
    Inline(String),
    /// A file that holds it.
    File(String),
}

/// Where the jq filter comes from: `--jq`, or else `--jq-file`.
pub open spec fn filter_of(args: CatArgs) -> FilterSource {
    match (args.jq, args.jq_file) {
        (Some(filter), _) => FilterSource::Inline(filter),
        (None, Some(path)) => FilterSource::File(path),
        (None, None) => FilterSource::Absent,
    }
}

/// The jq filter for `object … cat`, from `--jq` or `--jq-file` (or none for a
/// plain dump).
pub fn jq_filter(args: CatArgs) -> (r: FilterSource)
    ensures
        r == filter_of(args),
{
    match args.jq {
        Some(filter) => FilterSource::Inline(filter),
        None => match args.jq_file {
            Some(path) => FilterSource::File(path),
            None => FilterSource::Absent,
        },
    }
}

/// One GameObject carrying a component of the searched-for type.
#[derive(Debug, PartialEq, Eq)]
pub struct ComponentMatch {
    /// A re-usable component path, e.g. `_GameManager@ToolItemManager`.
    pub path: String,
    /// The carrying GameObject's name (the path's leaf).
    pub gameobject: String,
    pub gameobject_path_id: i64,
    /// Path id of the matching component itself (`object #<id>` to inspect it).
    pub component_path_id: i64,
}

/// What a [`ComponentMatch`] says.
#[verifier::ext_equal]
pub struct MatchView {
    pub path: Seq<char>,
    pub gameobject: Seq<char>,
    pub gameobject_path_id: i64,
    pub component_path_id: i64,
}

impl View for ComponentMatch {
    type V = MatchView;

    open spec fn view(&self) -> MatchView {
        MatchView {
            path: self.path@,
            gameobject: self.gameobject@,
            gameobject_path_id: self.gameobject_path_id,
            component_path_id: self.component_path_id,
        }
    }
}

/// What matches say.
pub open spec fn match_views(matches: Seq<ComponentMatch>) -> Seq<MatchView> {
    matches.map_values(|m: ComponentMatch| m@)
}

/// Every GameObject carrying a component of the searched-for type.
#[derive(Debug, PartialEq, Eq)]
pub struct ComponentMatches(pub Vec<ComponentMatch>);

impl Line for ComponentMatch {
    open spec fn line_text(&self, color: bool) -> Seq<char> {
        Seq::<char>::empty() + self.path@ + "  "@ + style::dim_text(
            Seq::<char>::empty() + "(GameObject #"@ + number::signed_decimal(
                self.gameobject_path_id as int,
            ) + ", component #"@ + number::signed_decimal(self.component_path_id as int) + ")"@,
            color,
        ) + "\n"@
    }

    fn line(&self, color: bool) -> (out: String) {
        let mut ids = String::new();
        ids.append("(GameObject #");
        ids.append(show_i64(self.gameobject_path_id).as_str());
        ids.append(", component #");
        ids.append(show_i64(self.component_path_id).as_str());
        ids.append(")");
        let mut out = String::new();
        out.append(self.path.as_str());
        out.append("  ");
        out.append(style::dim(ids.as_str(), color).as_str());
        out.append("\n");
        out
    }
}

impl Render for ComponentMatches {
    open spec fn text(&self, color: bool) -> Seq<char> {
        output::item_lines(self.0@, color)
    }

    fn render(&self, color: bool) -> (out: String) {
        render_lines(&self.0, color)
    }
}

/// What is reported of the component at `path`.
pub open spec fn match_at(file: SceneFile, path: PathView) -> Result<MatchView, Seq<char>> {
    match resolve::path_target(file, path) {
        Err(e) => Err(e),
        Ok(component_path_id) => match resolve::path_target(
            file,
            PathView { segments: path.segments, component: None },
        ) {
            Err(e) => Err(e),
            Ok(gameobject_path_id) => Ok(
                MatchView {
                    path: component_path::path_text(path),
                    gameobject: path.segments.last().name,
                    gameobject_path_id,
                    component_path_id,
                },
            ),
        },
    }
}

/// What is reported of those paths that lead to a component labelled `label`.
pub open spec fn matches_among(
    file: SceneFile,
    paths: Seq<PathView>,
    label: Seq<char>,
) -> Result<Seq<MatchView>, Seq<char>>
    decreases paths.len(),
{
    if paths.len() == 0 {
        Ok(Seq::empty())
    } else {
        match matches_among(file, paths.drop_last(), label) {
            Err(e) => Err(e),
            Ok(before) => match paths.last().component {
                Some(component) => if component.name == label {
                    match match_at(file, paths.last()) {
                        Err(e) => Err(e),
                        Ok(m) => Ok(before.push(m)),
                    }
                } else {
                    Ok(before)
                },
                None => Ok(before),
            },
        }
    }
}

/// Why a hierarchy cannot be walked.
pub open spec fn circular_text() -> Seq<char> {
    "the hierarchy runs in a circle"@
}

/// What a search for components labelled `label` reports.
pub open spec fn matches_in(file: SceneFile, label: Seq<char>) -> Result<
    Seq<MatchView>,
    Seq<char>,
> {
    match qualify::paths_of(file) {
        Some(paths) => matches_among(file, paths, label),
        None => Err(circular_text()),
    }
}

fn component_match(file: &SceneFile, path: &ComponentPath) -> (r: Result<ComponentMatch, String>)
    requires
        path.segments@.len() >= 1,
    ensures
        match r {
            Ok(m) => match_at(*file, path@) == Ok::<MatchView, Seq<char>>(m@),
            Err(e) => match_at(*file, path@) == Err::<MatchView, Seq<char>>(e@),
        },
{
    // Paths from `all_paths` are canonical (indices already disambiguated), so
    // resolving them back is unambiguous.
    let component_path_id: i64 = match resolve_component_path(file, path) {
        Ok(id) => id,
        Err(e) => {
            return Err(e);
        },
    };
    let holder = ComponentPath { segments: copy_fields(&path.segments), component: None };
    assert(holder@ == PathView { segments: path@.segments, component: None });
    let gameobject_path_id: i64 = match resolve_component_path(file, &holder) {
        Ok(id) => id,
        Err(e) => {
            return Err(e);
        },
    };
    let last: usize = path.segments.len() - 1;
    assert(path@.segments.last() == path.segments@[last as int]@);
    Ok(
        ComponentMatch {
            path: path.to_text(),
            gameobject: path.segments[last].name.clone(),
            gameobject_path_id,
            component_path_id,
        },
    )
}

/// Finds every GameObject in the file's hierarchy carrying a component whose label
/// (class name, or script class name for a MonoBehaviour) equals `label`. Reuses
/// the canonical component paths so each result round-trips through `object
/// <path>` / `tree <path>`.
#[verifier::loop_isolation(false)]
pub fn find_component(file: &SceneFile, label: &str) -> (r: Result<ComponentMatches, String>)
    requires
        file.objects@.len() + file.linked@.len() <= usize::MAX,
    ensures
        match r {
            Ok(found) => matches_in(*file, label@) == Ok::<Seq<MatchView>, Seq<char>>(
                match_views(found.0@),
            ),
            Err(e) => matches_in(*file, label@) == Err::<Seq<MatchView>, Seq<char>>(e@),
        },
{
    let paths = match all_paths(file) {
        Some(paths) => paths,
        None => {
            return Err("the hierarchy runs in a circle".to_owned());
        },
    };
    let ghost all = qualify::path_views(paths@);
    proof {
        qualify::lemma_paths_have_segments(*file);
    }
    let mut found: Vec<ComponentMatch> = Vec::new();
    let mut i: usize = 0;
    assert(match_views(found@) =~= Seq::empty());
    while i < paths.len()
        invariant
            i <= paths@.len(),
            all == qualify::path_views(paths@),
            matches_among(*file, all.take(i as int), label@) == Ok::<Seq<MatchView>, Seq<char>>(
                match_views(found@),
            ),
        decreases paths@.len() - i,
    {
        assert(all.take(i + 1).drop_last() =~= all.take(i as int));
        assert(all[i as int] == paths@[i as int]@);
        let path = &paths[i];
        let wanted: bool = match &path.component {
            Some(component) => same(component.name.as_str(), label),
            None => false,
        };
        if wanted {
            match component_match(file, path) {
                Ok(m) => {
                    let ghost before = found@;
                    found.push(m);
                    assert(match_views(found@) =~= match_views(before).push(m@));
                },
                Err(e) => {
                    proof {
                        lemma_matches_error(*file, all, label@, i + 1);
                    }
                    return Err(e);
                },
            }
        }
        i += 1;
    }
    assert(all.take(i as int) =~= all);
    Ok(ComponentMatches(found))
}

proof fn lemma_matches_error(file: SceneFile, paths: Seq<PathView>, label: Seq<char>, n: int)
    requires
        0 <= n <= paths.len(),
        matches_among(file, paths.take(n), label) is Err,
    ensures
        matches_among(file, paths, label) == matches_among(file, paths.take(n), label),
    decreases paths.len() - n,
{
    if n == paths.len() {
        assert(paths.take(n) =~= paths);
    } else {
        assert(paths.take(n + 1).drop_last() =~= paths.take(n));
        lemma_matches_error(file, paths, label, n + 1);
    }
}

/// Every match is reported of one of the paths.
proof fn lemma_match_has_path(
    file: SceneFile,
    paths: Seq<PathView>,
    label: Seq<char>,
    i: int,
) -> (path: PathView)
    requires
        matches_among(file, paths, label) matches Ok(found) && 0 <= i < found.len(),
    ensures
        paths.contains(path),
        path.component is Some,
        path.component->0.name == label,
        match_at(file, path) == Ok::<MatchView, Seq<char>>(
            matches_among(file, paths, label)->Ok_0[i],
        ),
    decreases paths.len(),
{
    let before = matches_among(file, paths.drop_last(), label)->Ok_0;
    if i < before.len() {
        let path = lemma_match_has_path(file, paths.drop_last(), label, i);
        let k = choose|k: int| 0 <= k < paths.len() - 1 && paths.drop_last()[k] == path;
        assert(paths[k] == path);
        path
    } else {
        assert(paths[paths.len() - 1] == paths.last());
        paths.last()
    }
}

/// Each result of a search for components round-trips: its path, given as an object
/// reference, selects the component that was found, and without the component the
/// GameObject that carries it. This holds where no GameObject of the hierarchy has an
/// empty name, which could not be written down.
pub proof fn found_path_selects_its_component(file: SceneFile, label: Seq<char>, i: int)
    requires
        matches_in(file, label) matches Ok(found) && 0 <= i < found.len(),
        forall|k: int|
            0 <= k < qualify::paths_of(file)->0.len() ==> (
            #[trigger] qualify::paths_of(file)->0[k]).wf(),
    ensures
        ({
            let found = matches_in(file, label)->Ok_0[i];
            &&& component_path::object_ref_of(found.path) matches Ok(reference)
                && resolve::ref_target(file, reference) == Ok::<i64, Seq<char>>(
                found.component_path_id,
            )
            &&& component_path::path_of(found.path) matches Ok(path) && resolve::path_target(
                file,
                PathView { segments: path.segments, component: None },
            ) == Ok::<i64, Seq<char>>(found.gameobject_path_id)
        }),
{
    let paths = qualify::paths_of(file)->0;
    let path = lemma_match_has_path(file, paths, label, i);
    let k = choose|k: int| 0 <= k < paths.len() && paths[k] == path;
    assert(paths[k].wf());
    component_path::path_reads_back(path);
    component_path::path_text_is_no_number(path);
}

/// Summary of an object: its class (script name for a MonoBehaviour) and, if
/// present, its `m_Name`.
#[derive(Debug, PartialEq, Eq)]
pub struct ObjectInfo {
    pub path_id: i64,
    pub class: String,
    pub script: Option<String>,
    pub name: Option<String>,
}

impl View for ObjectInfo {
    type V = ObjectView;

    open spec fn view(&self) -> ObjectView {
        ObjectView {
            path_id: self.path_id,
            class: self.class@,
            script: text::text_opt(self.script),
            name: text::text_opt(self.name),
        }
    }
}

/// The line of one property.
pub open spec fn property_line(key: Seq<char>, width: nat, value: Seq<char>) -> Seq<char> {
    Seq::<char>::empty() + "  "@ + text::left_aligned(key, width) + value + "\n"@
}

/// Writes the line of one property.
pub fn show_property(key: &str, width: usize, value: &str) -> (out: String)
    ensures
        out@ == property_line(key@, width as nat, value@),
{
    let mut out = String::new();
    out.append("  ");
    out.append(align_left(key, width).as_str());
    out.append(value);
    out.append("\n");
    out
}

impl Render for ObjectInfo {
    open spec fn text(&self, color: bool) -> Seq<char> {
        property_line(
            "path id:"@,
            9,
            style::dim_text(number::signed_decimal(self.path_id as int), color),
        ) + property_line("class:"@, 9, style::class_text(self.class@, color)) + (
        match self.script {
            Some(script) => property_line("script:"@, 9, style::class_text(script@, color)),
            None => Seq::empty(),
        }) + (match self.name {
            Some(name) => property_line("name:"@, 9, style::name_text(name@, color)),
            None => Seq::empty(),
        })
    }

    fn render(&self, color: bool) -> (out: String) {
        let id = style::dim(show_i64(self.path_id).as_str(), color);
        let mut out = show_property("path id:", 9, id.as_str());
        let class = style::class(self.class.as_str(), color);
        out.append(show_property("class:", 9, class.as_str()).as_str());
        if let Some(script) = &self.script {
            let script = style::class(script.as_str(), color);
            out.append(show_property("script:", 9, script.as_str()).as_str());
        } else {
            assert(out@ + Seq::<char>::empty() =~= out@);
        }
        if let Some(name) = &self.name {
            let name = style::name(name.as_str(), color);
            out.append(show_property("name:", 9, name.as_str()).as_str());
        } else {
            assert(out@ + Seq::<char>::empty() =~= out@);
        }
        out
    }
}

/// The non-empty `m_Name` of an object, as far as it can be read.
pub open spec fn own_name(file: SceneFile, path_id: i64) -> Option<Seq<char>> {
    match model::name_at(file, path_id) {
        Some(name) => if name.len() == 0 {
            None
        } else {
            Some(name)
        },
        None => None,
    }
}

/// An object's non-empty `m_Name`, if it has one (best-effort: `None` when the
/// object can't be deserialized or has no/empty name).
pub fn object_name(file: &SceneFile, path_id: i64) -> (r: Option<String>)
    ensures
        text::text_opt(r) == own_name(*file, path_id),
{
    match file.name_at(path_id) {
        Some(name) => {
            if name.as_str().is_empty() {
                None
            } else {
                Some(name)
            }
        },
        None => None,
    }
}

/// How an object is summarised.
pub open spec fn summary(file: SceneFile, path_id: i64) -> Result<ObjectView, Seq<char>> {
    match model::object_at(file, model::local(path_id)) {
        Err(e) => Err(e),
        Ok(object) => match model::label_of(object) {
            Err(e) => Err(e),
            Ok(label) => {
                let class = classes::class_text(object.class_id);
                Ok(
                    ObjectView {
                        path_id,
                        class,
                        script: if label == class {
                            None
                        } else {
                            Some(label)
                        },
                        name: own_name(file, path_id),
                    },
                )
            },
        },
    }
}

/// Builds an object summary: its class (script name for a MonoBehaviour) and, if
/// present, its `m_Name`.
pub fn object_info(file: &SceneFile, path_id: i64) -> (r: Result<ObjectInfo, String>)
    ensures
        match r {
            Ok(info) => summary(*file, path_id) == Ok::<ObjectView, Seq<char>>(info@),
            Err(e) => summary(*file, path_id) == Err::<ObjectView, Seq<char>>(e@),
        },
{
    let object = match file.object_at(Pptr::local(path_id)) {
        Ok(object) => object,
        Err(e) => {
            return Err(e);
        },
    };
    let label = match object.label() {
        Ok(label) => label,
        Err(e) => {
            return Err(e);
        },
    };
    let class = class_label(object.class_id);
    let script: Option<String> = if same(label.as_str(), class.as_str()) {
        None
    } else {
        Some(label)
    };
    Ok(ObjectInfo { path_id, class, script, name: object_name(file, path_id) })
}

/// A serialized file that was opened, with all that the verbs need of it.
#[derive(Debug, PartialEq, Eq)]
pub struct OpenFile {
    pub scene: SceneFile,
    pub header: FileHeader,
    /// Where the catalog of the game locates CABs, if it has one.
    pub catalog: Option<Vec<CabBundle>>,
    /// The file's first `AssetBundle` object, if it has one and it can be read.
    pub asset_bundle: Result<Option<AssetBundle>, String>,
}

/// What a [`FileVerb`] comes to: a result to show, or a search or query that has
/// to be run over other files or outside this library.
#[derive(Debug, PartialEq, Eq)]
pub enum Step {
    Info(FileInfo),
    Tree(Tree),
    Objects(ObjectList),
    /// A summary, to be followed by [`object_hint`] on stderr.
    Object(ObjectInfo),
    Dump(Json),
    /// A jq query over one object.
    Query { path_id: i64, filter: FilterSource },
    /// A jq query over every referring object.
    QueryReferrers { path_id: i64, search: ReferencesArgs, filter: FilterSource },
    /// The files that reference an object.
    ReferencingFiles { path_id: i64, search: ReferencesArgs },
    /// The objects that reference an object.
    Referrers { path_id: i64, search: ReferencesArgs },
    /// The files that reference this file.
    FileReferences,
    Preloads(Preloads),
    Matches(ComponentMatches),
}

/// `object <id>` alone only summarises; this nudges towards `cat` for the
/// deserialized fields. For stderr, so it reaches both formats without polluting
/// stdout (the JSON document stays clean).
pub fn object_hint(color: bool) -> (out: String)
    ensures
        out@ == style::dim_text(
            "(metadata only, append `cat` to dump the object's fields)"@,
            color,
        ),
{
    style::dim("(metadata only, append `cat` to dump the object's fields)", color)
}

/// Which components a `tree` lists: `--scripts` outweighs `--components`.
pub open spec fn components_for(components: bool, scripts: bool) -> Components {
    if scripts {
        Components::Scripts
    } else if components {
        Components::All
    } else {
        Components::Hidden
    }
}

/// Which components a `tree` lists: `--scripts` outweighs `--components`.
pub fn choose_components(components: bool, scripts: bool) -> (r: Components)
    ensures
        r == components_for(components, scripts),
{
    if scripts {
        Components::Scripts
    } else if components {
        Components::All
    } else {
        Components::Hidden
    }
}

/// The path of a tree's root.
pub open spec fn root_of(args: TreeArgs) -> Option<PathView> {
    match args.path {
        Some(path) => Some(path@),
        None => None,
    }
}

/// Whether `step` is what the verb of a selected object comes to.
pub open spec fn is_object_step(
    file: OpenFile,
    path_id: i64,
    verb: Option<ObjectVerb>,
    step: Result<Step, String>,
) -> bool {
    match verb {
        None => is_object_info(file, path_id, step),
        Some(ObjectVerb::Info) => is_object_info(file, path_id, step),
        Some(ObjectVerb::Cat(args)) => match filter_of(args) {
            FilterSource::Absent => match dumped(file.scene, path_id) {
                Ok(value) => step matches Ok(Step::Dump(shown)) && shown@ == value,
                Err(reason) => step matches Err(e) && e@ == reason,
            },
            filter => step == Ok::<Step, String>(Step::Query { path_id, filter }),
        },
        Some(ObjectVerb::References(search)) => match search.verb {
            Some(ReferencesVerb::Cat(args)) => step matches Ok(
                Step::QueryReferrers { path_id: id, search: used, filter },
            ) && id == path_id && same_search(used, search) && is_sweep_filter(args, filter),
            None => if search.files_with_matches {
                step == Ok::<Step, String>(Step::ReferencingFiles { path_id, search })
            } else {
                step == Ok::<Step, String>(Step::Referrers { path_id, search })
            },
        },
    }
}

/// Whether `filter` is what every referring object is queried with: the given
/// filter, or `.` if there is none.
pub open spec fn is_sweep_filter(args: CatArgs, filter: FilterSource) -> bool {
    match filter_of(args) {
        FilterSource::Absent => filter matches FilterSource::Inline(given) && given@ == "."@,
        given => filter == given,
    }
}

/// Whether `step` is the summary of an object.
pub open spec fn is_object_info(file: OpenFile, path_id: i64, step: Result<Step, String>) -> bool {
    match summary(file.scene, path_id) {
        Ok(view) => step matches Ok(Step::Object(info)) && info@ == view,
        Err(reason) => step matches Err(e) && e@ == reason,
    }
}

/// Whether two searches look for the same.
pub open spec fn same_search(a: ReferencesArgs, b: ReferencesArgs) -> bool {
    &&& a.include_preloads == b.include_preloads
    &&& a.files_with_matches == b.files_with_matches
    &&& a.include_paths == b.include_paths
    &&& a.exclude_paths == b.exclude_paths
    &&& a.include_types == b.include_types
    &&& a.exclude_types == b.exclude_types
    &&& a.limit == b.limit
}

/// Whether `step` is what a verb comes to on a file.
pub open spec fn is_step(file: OpenFile, verb: FileVerb, step: Result<Step, String>) -> bool {
    match verb {
        FileVerb::Info(args) => step matches Ok(Step::Info(info)) && describes(
            info,
            file.header,
            file.catalog,
            args.externals,
        ),
        FileVerb::Tree(args) => match tree::tree_of(
            file.scene,
            root_of(args),
            components_for(args.components, args.scripts),
        ) {
            Ok(view) => step matches Ok(Step::Tree(out)) && out@ == view,
            Err(fault) => step matches Err(e) && e@ == fault.text(),
        },
        FileVerb::Objects(args) => step matches Ok(Step::Objects(out)) && entry_views(out.0@)
            == listing(file.scene, file.scene.objects@, text::text_opt(args.class), true),
        FileVerb::Object(args) => match resolve::ref_target(file.scene, args.reference@) {
            Ok(path_id) => is_object_step(file, path_id, args.verb, step),
            Err(reason) => step matches Err(e) && e@ == reason,
        },
        FileVerb::References => step == Ok::<Step, String>(Step::FileReferences),
        FileVerb::Preloads(args) => match file.asset_bundle {
            Ok(Some(bundle)) => step matches Ok(Step::Preloads(out)) && preloads::shows(
                out,
                file.scene,
                file.header.externals@,
                file.catalog,
                bundle,
                text::text_opt(args.address),
                args.resolve,
            ),
            Ok(None) => step matches Err(e) && e@
                == "file has no AssetBundle object (not a bundle's main CAB?)"@,
            Err(reason) => step matches Err(e) && e@ == reason@,
        },
        FileVerb::Find(args) => match matches_in(file.scene, args.class@) {
            Ok(views) => step matches Ok(Step::Matches(out)) && match_views(out.0@) == views,
            Err(reason) => step matches Err(e) && e@ == reason,
        },
    }
}

/// The verb that is run: without one, `info`.
pub open spec fn effective_verb(verb: Option<FileVerb>) -> FileVerb {
    match verb {
        Some(verb) => verb,
        None => FileVerb::Info(InfoArgs { externals: false }),
    }
}

/// Whether the paths of a verb have segments, as parsed ones do.
pub open spec fn paths_have_segments(verb: Option<FileVerb>) -> bool {
    match verb {
        Some(FileVerb::Tree(args)) => args.path matches Some(path) ==> path.segments@.len() >= 1,
        Some(FileVerb::Object(args)) => args.reference matches ObjectRef::Path(path)
            ==> path.segments@.len() >= 1,
        _ => true,
    }
}

fn as_str_opt(s: &Option<String>) -> (r: Option<&str>)
    ensures
        str_opt(r) == text::text_opt(*s),
{
    match s {
        Some(s) => Some(s.as_str()),
        None => None,
    }
}

fn object_step(file: &OpenFile, path_id: i64, verb: Option<ObjectVerb>) -> (r: Result<Step, String>)
    ensures
        is_object_step(*file, path_id, verb, r),
{
    match verb {
        Some(ObjectVerb::Cat(args)) => match jq_filter(args) {
            FilterSource::Absent => match dump_path_id(&file.scene, path_id) {
                Ok(value) => Ok(Step::Dump(value)),
                Err(e) => Err(e),
            },
            filter => Ok(Step::Query { path_id, filter }),
        },
        Some(ObjectVerb::References(search)) => {
            let mut search = search;
            match search.verb {
                // `references cat [--jq …]`: load and query every referring object.
                Some(ReferencesVerb::Cat(args)) => {
                    search.verb = None;
                    let filter = match jq_filter(args) {
                        FilterSource::Absent => FilterSource::Inline(".".to_owned()),
                        given => given,
                    };
                    Ok(Step::QueryReferrers { path_id, search, filter })
                },
                None => {
                    if search.files_with_matches {
                        Ok(Step::ReferencingFiles { path_id, search })
                    } else {
                        Ok(Step::Referrers { path_id, search })
                    }
                },
            }
        },
        _ => match object_info(&file.scene, path_id) {
            Ok(info) => Ok(Step::Object(info)),
            Err(e) => Err(e),
        },
    }
}

/// Runs a [`FileVerb`] against an opened serialized file, as far as that takes
/// nothing but the file. Shared by the `scene`, `file` and `bundle <path> file
/// <cab>` commands.
pub fn run_verb(file: &OpenFile, verb: Option<FileVerb>) -> (r: Result<Step, String>)
    requires
        file.scene.objects@.len() + file.scene.linked@.len() <= usize::MAX,
        paths_have_segments(verb),
    ensures
        is_step(*file, effective_verb(verb), r),
{
    let verb = match verb {
        Some(verb) => verb,
        None => FileVerb::Info(InfoArgs { externals: false }),
    };
    match verb {
        FileVerb::Info(args) => Ok(
            Step::Info(info(&file.header, &file.catalog, args.externals)),
        ),
        FileVerb::Tree(args) => {
            let components = choose_components(args.components, args.scripts);
            let root: Option<&ComponentPath> = match &args.path {
                Some(path) => Some(path),
                None => None,
            };
            match tree::tree(&file.scene, root, components) {
                Ok(out) => Ok(Step::Tree(out)),
                Err(fault) => Err(fault.to_text()),
            }
        },
        FileVerb::Objects(args) => Ok(
            Step::Objects(list(&file.scene, as_str_opt(&args.class), true)),
        ),
        FileVerb::Object(args) => match resolve_object_ref(&file.scene, &args.reference) {
            Ok(path_id) => object_step(file, path_id, args.verb),
            Err(e) => Err(e),
        },
        FileVerb::References => Ok(Step::FileReferences),
        FileVerb::Preloads(args) => match preloads::preloads(
            &file.scene,
            &file.header.externals,
            &file.catalog,
            &file.asset_bundle,
            as_str_opt(&args.address),
            args.resolve,
        ) {
            Ok(out) => Ok(Step::Preloads(out)),
            Err(e) => Err(e),
        },
        FileVerb::Find(args) => match find_component(&file.scene, args.class.as_str()) {
            Ok(out) => Ok(Step::Matches(out)),
            Err(e) => Err(e),
        },
    }
}

} // verus!
