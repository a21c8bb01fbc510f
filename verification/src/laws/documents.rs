//! What the printed documents and the messages say, line by line and without colour.

use vstd::prelude::*;

use crate::commands::addressable::{AddressableInfo, AddressableLocation};
use crate::commands::addressables::{AddressableKey, AddressableKeys, AddressableStats, Count};
use crate::commands::bundle::{BundleEntry, BundleFiles, BundleInfo, Bundles, FileEntry};
use crate::commands::file::preloads::{PreloadEntry, PreloadRef, Preloads};
use crate::commands::file::references::{
    FileReferences, ObjectReferences, ReferencingFile, ReferencingFiles,
};
use crate::commands::file::tree::Tree;
use crate::commands::file::{ComponentMatches, FileInfo, ObjectInfo, ObjectList};
use crate::commands::files::Files;
use crate::commands::game::{GameInfo, ScriptLocation, ScriptLocations};
use crate::commands::scenes::Scenes;
use crate::commands::{addressable, addressables, bundle, file, info, scenes};
use crate::ctx;
use crate::ctx::{BundledAssetView, Location};
use crate::output::{Dump, Line, Render};
use crate::target::Target;
use crate::{model, number, output, resolve, text};

verus! {

/// A property is told on a line of its own, its value in a column behind its key.
pub proof fn a_property_is_told_on_a_line(key: Seq<char>, width: nat, value: Seq<char>)
    ensures
        file::property_line(key, width, value) == "  "@ + text::left_aligned(key, width) + value
            + "\n"@,
{
    assert(Seq::<char>::empty() + "  "@ =~= "  "@);
}

/// An object is told by its path id and its class, and by its script and its name where
/// it has them.
pub proof fn an_object_is_told_property_by_property(info: ObjectInfo)
    ensures
        info.text(false) == file::property_line(
            "path id:"@,
            9,
            number::signed_decimal(info.path_id as int),
        ) + file::property_line("class:"@, 9, info.class@) + (match info.script {
            Some(script) => file::property_line("script:"@, 9, script@),
            None => Seq::empty(),
        }) + (match info.name {
            Some(name) => file::property_line("name:"@, 9, name@),
            None => Seq::empty(),
        }),
{
}

/// A location is told by its type, its keys and its provider, and by its bundle and what
/// it depends on where there is such a thing.
pub proof fn a_location_is_told_property_by_property(location: AddressableLocation)
    ensures
        addressable::location_lines(location, false) == file::property_line(
            "type:"@,
            14,
            location.asset_type@,
        ) + file::property_line("primary key:"@, 14, location.primary_key@) + file::property_line(
            "internal id:"@,
            14,
            location.internal_id@,
        ) + file::property_line("provider:"@, 14, location.provider@) + (match location.bundle {
            Some(bundle) => file::property_line("bundle:"@, 14, bundle@),
            None => Seq::empty(),
        }) + (if location.dependencies > 0 {
            file::property_line("dependencies:"@, 14, number::decimal(location.dependencies as nat))
                + addressable::label_lines(text::texts(location.dependency_labels@), false)
        } else {
            Seq::empty()
        }),
{
}

/// A key is told with the number of its locations, and then each of them.
pub proof fn a_key_is_told_with_its_locations(info: AddressableInfo)
    ensures
        info.locations@.len() == 1 ==> info.text(false) == info.key@ + " "@ + ("("@
            + number::decimal(1) + " location"@ + ")"@) + "\n"@ + addressable::all_location_lines(
            info.locations@,
            false,
        ),
        info.locations@.len() != 1 ==> info.text(false) == info.key@ + " "@ + ("("@
            + number::decimal(info.locations@.len()) + " locations"@ + ")"@) + "\n"@
            + addressable::all_location_lines(info.locations@, false),
{
    assert(Seq::<char>::empty() + "("@ =~= "("@);
}

/// A serialized file is told by its header, and then the files it refers to.
pub proof fn a_file_is_told_by_its_header(info: FileInfo)
    ensures
        info.text(false) == "serialized file"@ + "\n"@ + "  unity version: "@ + (
        match info.unity_version {
            Some(version) => version@,
            None => "<unknown>"@,
        }) + "\n  format version: "@ + number::decimal(info.format_version as nat)
            + "\n  endianness: "@ + info.endianness@ + "\n  file size: "@ + number::decimal(
            info.file_size as nat,
        ) + "\n  type tree: "@ + (if info.type_tree {
            "true"@
        } else {
            "false"@
        }) + "\n  types: "@ + number::decimal(info.types as nat) + "\n  objects: "@
            + number::decimal(info.objects as nat) + "\n  externals: "@ + number::decimal(
            info.externals as nat,
        ) + "\n"@ + file::external_lines(info.external_bundles@),
{
}

/// A game is told by its path, its version and what it has.
pub proof fn a_game_is_told_by_what_it_has(info: GameInfo)
    ensures
        info.text(false) == "game directory"@ + "\n  path: "@ + info.path@ + "\n  unity version: "@
            + info.unity_version@ + "\n  serialized files: "@ + number::decimal(
            info.serialized_files as nat,
        ) + "\n  addressables: "@ + (if info.addressables {
            "yes"@
        } else {
            "no"@
        }) + "\n"@ + (match info.addressables_bundles {
            Some(bundles) => "  addressables bundles: "@ + number::decimal(bundles as nat) + "\n"@,
            None => Seq::empty(),
        }),
{
    assert(Seq::<char>::empty() + "  addressables bundles: "@ =~= "  addressables bundles: "@);
}

/// The catalogs are told by their numbers, and by what there is of each provider and type.
pub proof fn catalogs_are_told_by_their_numbers(stats: AddressableStats)
    ensures
        stats.text(false) == "addressables"@ + "\n  catalogs:  "@ + number::decimal(
            stats.catalogs as nat,
        ) + "\n  keys:      "@ + number::decimal(stats.keys as nat) + "\n  locations: "@
            + number::decimal(stats.locations as nat) + " ("@ + number::decimal(
            stats.location_refs as nat,
        ) + " refs)\n  bundles:   "@ + number::decimal(stats.bundles as nat) + "\n"@
            + addressables::breakdown_text("by provider"@, stats.by_provider@, false)
            + addressables::breakdown_text("by type"@, stats.by_type@, false),
{
}

/// A breakdown is told under its heading, each entry with its number.
pub proof fn a_breakdown_is_told_under_its_heading(
    heading: Seq<char>,
    entries: Seq<Count>,
    count: Count,
)
    ensures
        addressables::breakdown_text(heading, entries, false) == "\n  "@ + heading + ":\n"@
            + output::item_lines(entries, false),
        count.line_text(false) == "    "@ + text::right_aligned(
            number::decimal(count.count as nat),
            6,
        ) + "  "@ + count.name@ + "\n"@,
{
    assert(Seq::<char>::empty() + "\n  "@ =~= "\n  "@);
    assert(Seq::<char>::empty() + "    "@ =~= "    "@);
}

/// A bundle is told by how many files it holds, and each of them.
pub proof fn a_bundle_is_told_by_its_files(info: BundleInfo, entry: BundleEntry)
    ensures
        info.text(false) == "bundle ("@ + number::decimal(info.files@.len()) + " files)"@ + "\n"@
            + output::item_lines(info.files@, false),
        entry.line_text(false) == "  "@ + text::right_aligned(number::decimal(entry.size as nat), 10)
            + "  "@ + text::left_aligned(entry.kind@, 11) + "  "@ + entry.path@ + "\n"@,
{
    assert(Seq::<char>::empty() + "bundle ("@ =~= "bundle ("@);
    assert(Seq::<char>::empty() + "  "@ =~= "  "@);
}

/// A listing of keys, components or scripts is its items one after the other, and one of
/// files or bundles has a line for each.
pub proof fn a_listing_is_told_item_by_item(
    keys: AddressableKeys,
    components: ComponentMatches,
    scripts: ScriptLocations,
    files: Files,
    bundles: Bundles,
    inside: BundleFiles,
)
    ensures
        keys.text(false) == output::item_lines(keys.0@, false),
        components.text(false) == output::item_lines(components.0@, false),
        scripts.text(false) == output::item_lines(scripts.0@, false),
        files.text(false) == text::lines_of(text::texts(files.0@)),
        bundles.text(false) == text::lines_of(text::texts(bundles.0@)),
        inside.text(false) == text::lines_of(text::texts(inside.0@)),
{
}

/// A key is told with its types, a script with its locations, and a referencing file with
/// its scene.
pub proof fn an_item_is_told_with_what_belongs_to_it(
    key: AddressableKey,
    script: ScriptLocation,
    referencing: ReferencingFile,
)
    ensures
        key.line_text(false) == key.key@ + "  "@ + ("("@ + text::joined(
            text::texts(key.types@),
            ", "@,
        ) + ")"@) + "\n"@,
        script.line_text(false) == script.script@ + "\n"@ + crate::commands::game::location_lines(
            text::texts(script.locations@),
            false,
        ),
        referencing.line_text(false) == "- "@ + (match referencing.scene {
            Some(scene) => scene@ + " ("@ + referencing.file@ + ")"@,
            None => referencing.file@,
        }) + "\n"@,
{
    assert(Seq::<char>::empty() + "("@ =~= "("@);
    assert(Seq::<char>::empty() + "- "@ =~= "- "@);
    if let Some(scene) = referencing.scene {
        assert(Seq::<char>::empty() + scene@ =~= scene@);
    }
}

/// The labels of objects are told only where one of the objects has a label: a name or a
/// script.
pub proof fn labels_are_told_where_there_are_any(list: ObjectList)
    ensures
        ({
            let labelled = exists|i: int|
                0 <= i < list.0@.len() && ((#[trigger] list.0@[i]).name is Some
                    || list.0@[i].script is Some);
            list.text(false) == file::entry_lines(file::entry_views(list.0@), labelled, false)
        }),
{
    let all = file::entry_views(list.0@);
    if file::any_label(all) {
        let i = choose|i: int|
            0 <= i < all.len() && ((#[trigger] all[i]).name is Some || all[i].script is Some);
        assert(list.0@[i].name is Some || list.0@[i].script is Some);
    }
    if exists|i: int|
        0 <= i < list.0@.len() && ((#[trigger] list.0@[i]).name is Some || list.0@[i].script is Some) {
        let i = choose|i: int|
            0 <= i < list.0@.len() && ((#[trigger] list.0@[i]).name is Some
                || list.0@[i].script is Some);
        assert(all[i].name is Some || all[i].script is Some);
    }
}

/// A tree is told root by root, and then how much is outside.
pub proof fn a_tree_is_told_root_by_root(tree: Tree)
    ensures
        tree.text(false) == file::tree::roots_text(tree@.roots, false) + file::tree::outside_text(
            tree@.outside_hierarchy,
            false,
        ),
{
}

/// References are told under a line that says what is referenced.
pub proof fn references_are_told_under_a_header(
    objects: ObjectReferences,
    files: ReferencingFiles,
    externals: FileReferences,
)
    ensures
        ({
            let all = file::references::referrer_views(objects.referrers@);
            objects.text(false) == file::references::header_of(
                "reference(s) to"@,
                "reference(s) to"@,
                objects.target@,
                objects.referrers@.len(),
                objects.truncated,
            ) + "\n"@ + file::references::referrer_lines(
                all,
                file::references::file_width(all),
                file::references::id_width(all, true),
                file::references::id_width(all, false),
                false,
            )
        }),
        files.text(false) == file::references::header_of(
            "file referencing"@,
            "files referencing"@,
            files.target@,
            files.files@.len(),
            files.truncated,
        ) + "\n"@ + output::item_lines(files.files@, false),
        externals.0@.len() == 0 ==> externals.text(false) == "No references found\n"@,
        externals.0@.len() > 0 ==> externals.text(false) == file::references::dash_lines(
            text::texts(externals.0@),
        ),
{
}

/// A preload is told by where it is, its class, its path id and its bundle.
pub proof fn a_preload_is_told_by_class_id_and_bundle(preload: PreloadRef)
    ensures
        preload.line_text(false) == "    "@ + ((if preload@.local {
            "local  "@
        } else {
            "EXT    "@
        }) + text::left_aligned(
            match preload@.class {
                Some(class) => class,
                None => "?"@,
            },
            22,
        ) + " "@ + ("#"@ + number::signed_decimal(preload@.path_id as int)) + (
        match preload@.bundle {
            Some(bundle) => "  "@ + ("@ "@ + bundle),
            None => Seq::empty(),
        })) + "\n"@,
{
    let p = preload@;
    let id = "#"@ + number::signed_decimal(p.path_id as int);
    assert(Seq::<char>::empty() + "#"@ =~= "#"@);
    let shown = (if p.local {
        "local  "@
    } else {
        "EXT    "@
    }) + text::left_aligned(
        match p.class {
            Some(class) => class,
            None => "?"@,
        },
        22,
    ) + " "@ + id;
    match p.bundle {
        Some(bundle) => {
            assert(Seq::<char>::empty() + "@ "@ =~= "@ "@);
            assert(shown + ("  "@ + ("@ "@ + bundle)) =~= shown + "  "@ + ("@ "@ + bundle));
        },
        None => {
            assert(shown + Seq::<char>::empty() =~= shown);
        },
    }
    assert(Seq::<char>::empty() + "    "@ =~= "    "@);
}

/// A preload entry is told by its address and its part of the table, then its asset and
/// then what is preloaded; the table by how long it is.
pub proof fn preloads_are_told_by_address(entry: PreloadEntry, preloads: Preloads)
    ensures
        entry.line_text(false) == "\n■ "@ + entry.address@ + "  "@ + ("["@ + number::signed_decimal(
            entry.preload_index as int,
        ) + ".."@ + number::signed_decimal(entry.preload_index + entry.preload_size) + "] ("@
            + number::signed_decimal(entry.preload_size as int) + " object(s))"@) + "\n"@
            + "  asset: "@ + file::preloads::ref_text(entry.asset@, false) + "\n"@
            + output::item_lines(entry.slice@, false),
        preloads.text(false) == "preload table: "@ + number::decimal(
            preloads.preload_table_len as nat,
        ) + " entries, container: "@ + number::decimal(preloads.container_len as nat)
            + " entries, "@ + number::decimal(preloads.dependencies@.len())
            + " dependency bundle(s)"@ + "\n"@ + output::item_lines(preloads.entries@, false),
{
    assert(Seq::<char>::empty() + "\n■ "@ =~= "\n■ "@);
    assert(Seq::<char>::empty() + "["@ =~= "["@);
    assert(Seq::<char>::empty() + "preload table: "@ =~= "preload table: "@);
}

/// Scenes are told in columns as wide as the widest name.
pub proof fn scenes_are_told_in_columns(listed: Scenes)
    ensures
        ({
            let widths = Seq::new(
                listed.0@.len(),
                |i: int| scenes::text_width(listed.0@[i].name@),
            );
            listed.text(false) == scenes::scene_lines(
                listed.0@,
                widths,
                scenes::widest(widths),
                false,
            )
        }),
{
    let widths = Seq::new(listed.0@.len(), |i: int| scenes::text_width(listed.0@[i].name@));
    assert(scenes::name_widths(listed.0@) =~= widths);
}

/// A dump is what is dumped and the end of a line; a target is told by its kind and path.
pub proof fn a_target_is_told_by_its_kind(dump: Dump, path: String)
    ensures
        dump.text(false) == dump.0@ + "\n"@,
        info::line_for(Target::SerializedFile(path)) == "serialized file: "@ + path@ + "\n"@,
        info::line_for(Target::Bundle(path)) == "bundle: "@ + path@ + "\n"@,
        info::line_for(Target::GameDir(path)) == "game dir: "@ + path@ + "\n"@,
{
    assert(Seq::<char>::empty() + dump.0@ =~= dump.0@);
    assert(Seq::<char>::empty() + "serialized file: "@ =~= "serialized file: "@);
    assert(Seq::<char>::empty() + "bundle: "@ =~= "bundle: "@);
    assert(Seq::<char>::empty() + "game dir: "@ =~= "game dir: "@);
}

/// A refused selection says what was looked for, and how many there are to choose from
/// where there are several.
pub proof fn a_refused_selection_says_why(
    kind: Seq<char>,
    name: Seq<char>,
    index: nat,
    n: nat,
    path_id: i64,
    key: Seq<char>,
)
    requires
        n > 0,
    ensures
        resolve::no_match(kind, name) == "no "@ + kind + " matching '"@ + name + "'"@,
        resolve::out_of_range(kind, name, index, n) == kind + " '"@ + name + "': index "@
            + number::decimal(index) + " out of range ("@ + number::decimal(n) + " match(es))"@,
        resolve::ambiguous(kind, name, n) == kind + " '"@ + name + "' is ambiguous ("@
            + number::decimal(n) + " matches); add ':<index>' (0.."@ + number::decimal(
            (n - 1) as nat,
        ) + ")"@,
        model::no_object(path_id) == "No object with path id "@ + number::signed_decimal(
            path_id as int,
        ) + " exists"@,
        ctx::no_addressable_text(key) == "no addressable with key '"@ + key + "'"@,
{
    assert(Seq::<char>::empty() + "no "@ =~= "no "@);
    assert(Seq::<char>::empty() + kind =~= kind);
    assert(Seq::<char>::empty() + "No object with path id "@ =~= "No object with path id "@);
    assert(Seq::<char>::empty() + "no addressable with key '"@ =~= "no addressable with key '"@);
}

/// A sweep says of each failed query where it failed and why, and at its end how many did.
pub proof fn failed_queries_are_told(
    display: Seq<char>,
    path_id: i64,
    reason: Seq<char>,
    failed: nat,
)
    ensures
        file::references::failure_text(display, path_id, reason) == display + " #"@
            + number::signed_decimal(path_id as int) + ": "@ + reason,
        file::references::failed_text(1) == number::decimal(1) + " quer"@ + "y"@ + " failed"@,
        failed != 1 ==> file::references::failed_text(failed) == number::decimal(failed) + " quer"@
            + "ies"@ + " failed"@,
{
    assert(Seq::<char>::empty() + display =~= display);
    assert(Seq::<char>::empty() + number::decimal(failed) =~= number::decimal(failed));
    assert(Seq::<char>::empty() + number::decimal(1) =~= number::decimal(1));
}

/// A key that cannot be opened says why: nothing is known under it, what is known is no
/// asset of a bundle, or there are several assets.
pub proof fn a_refused_key_says_why(locations: Seq<Location>, key: Seq<char>)
    ensures
        ({
            let assets = ctx::bundled_among(locations);
            let others = ctx::other_providers(locations);
            &&& assets.len() == 0 && others.len() == 0 ==> ctx::sole_asset(locations, key)
                == Err::<BundledAssetView, Seq<char>>("no addressable with key '"@ + key + "'"@)
            &&& assets.len() == 0 && others.len() > 0 ==> ctx::sole_asset(locations, key) == Err::<
                BundledAssetView,
                Seq<char>,
            >(
                "addressable '"@ + key + "' has no BundledAsset location to open (provider(s): "@
                    + text::joined(others, ", "@) + "); see `addressable "@ + key + " info`"@,
            )
            &&& assets.len() > 1 ==> ctx::sole_asset(locations, key) == Err::<
                BundledAssetView,
                Seq<char>,
            >(
                "addressable '"@ + key + "' resolves to "@ + number::decimal(assets.len())
                    + " bundled assets ("@ + text::joined(
                    Seq::new(assets.len(), |i: int| assets[i].bundle),
                    ", "@,
                ) + "); open the bundle directly with `bundle <path> file <cab>`"@,
            )
        }),
{
    let assets = ctx::bundled_among(locations);
    assert(ctx::bundles_of(assets) =~= Seq::new(assets.len(), |i: int| assets[i].bundle));
    assert(Seq::<char>::empty() + "addressable '"@ =~= "addressable '"@);
    assert(Seq::<char>::empty() + "no addressable with key '"@ =~= "no addressable with key '"@);
}

/// A file that a bundle does not have is named; a bundle without a serialized file is said
/// to have none.
pub proof fn a_missing_file_is_named(entries: Seq<FileEntry>, name: Seq<char>)
    ensures
        bundle::entry_at(entries, name) is None ==> bundle::selected_entry(entries, Some(name))
            == Err::<FileEntry, Seq<char>>("no file '"@ + name + "' in bundle"@),
        bundle::main_of(entries) is None ==> bundle::selected_entry(entries, None) == Err::<
            FileEntry,
            Seq<char>,
        >("bundle contains no serialized file"@),
{
    assert(Seq::<char>::empty() + "no file '"@ =~= "no file '"@);
}

} // verus!
