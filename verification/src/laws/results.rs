//! What the results of commands tell, item by item, and what a command line asks for.

use vstd::prelude::*;

use super::listings;
use super::{lemma_positions_push, lemma_positions_skip};
use crate::cli::{
    AddressableVerb, AddressablesVerb, BundleVerb, Command, FileVerb, GameVerb, ObjectVerb,
    ReferencesArgs, ReferencesVerb,
};
use crate::commands::addressable::AddressableInfo;
use crate::commands::addressables::{AddressableKey, AddressableStats, Count};
use crate::commands::bundle::{BundleEntry, FileEntry};
use crate::commands::file::{FilterSource, OpenFile, Step};
use crate::commands::game::{Addressables, GameInfo};
use crate::commands::scenes::SceneEntry;
use crate::commands::{addressable, addressables, bundle, file, game, scenes};
use crate::ctx::{Catalog, Dependency, Location, Provider, Scene, SceneSource};
use crate::dispatch::Action;
use crate::group::Group;
use crate::sort::Sortable;
use crate::{ctx, dispatch, laws, number, qualify, resolve, sort, target, text};

verus! {

/// The scenes of a game are the built-in ones, each with its place in the build, in
/// that order, and behind them every addressables scene with its bundle, in the order of
/// their names and each once.
pub proof fn scenes_are_built_in_ones_and_then_addressables(
    all: Seq<Scene>,
    builtin: Seq<Seq<char>>,
    addressable: Map<Seq<char>, Seq<char>>,
    i: int,
    name: Seq<char>,
)
    requires
        ctx::are_scenes(all, builtin, addressable),
        builtin.len() <= usize::MAX,
    ensures
        builtin.len() <= all.len(),
        0 <= i < builtin.len() ==> all[i].name@ == builtin[i] && (all[i].source matches SceneSource::Level(
            n,
        ) && n == i),
        builtin.len() <= i < all.len() ==> addressable.contains_key(all[i].name@) && (
        all[i].source matches SceneSource::Bundle(path) && path@ == addressable[all[i].name@]),
        builtin.len() < i < all.len() ==> text::sorts_before(all[i - 1].name@, all[i].name@),
        addressable.contains_key(name) ==> exists|k: int|
            builtin.len() <= k < all.len() && (#[trigger] all[k]).name@ == name,
{
    let n = builtin.len() as int;
    let rest = all.skip(n);
    let names = ctx::scene_names(rest);
    if n <= i < all.len() {
        assert(names[i - n] == all[i].name@);
        assert(names.contains(all[i].name@));
        assert(rest[i - n] == all[i]);
        if n < i {
            assert(text::sorts_before(names[i - n - 1], names[i - n]));
        }
    }
    if addressable.contains_key(name) {
        assert(names.contains(name));
        let k = choose|k: int| 0 <= k < names.len() && names[k] == name;
        assert(all[n + k].name@ == name);
    }
}

/// A scene is listed by its name and by where its data is: the level file of a built-in
/// one, the bundle of another.
pub proof fn a_scene_is_listed_with_its_source(entry: SceneEntry, scene: Scene)
    requires
        scenes::lists_scene(entry, scene),
    ensures
        entry.name@ == scene.name@,
        scene.source matches SceneSource::Level(n) ==> entry.source@ == "level"@ + number::decimal(
            n as nat,
        ),
        scene.source matches SceneSource::Bundle(path) ==> entry.source@ == path@,
{
    assert(Seq::<char>::empty() + "level"@ =~= "level"@);
}

/// The widest of widths is one of them, and none is wider.
pub proof fn nothing_is_wider_than_the_widest(widths: Seq<nat>, i: int)
    requires
        0 <= i < widths.len(),
    ensures
        widths[i] <= scenes::widest(widths),
        widths.contains(scenes::widest(widths)),
    decreases widths.len(),
{
    let rest = widths.drop_last();
    let n = widths.len() - 1;
    if n > 0 {
        if i < n {
            nothing_is_wider_than_the_widest(rest, i);
            assert(rest[i] == widths[i]);
        } else {
            nothing_is_wider_than_the_widest(rest, 0);
        }
        let k = choose|k: int| 0 <= k < rest.len() && rest[k] == scenes::widest(rest);
        assert(widths[k] == rest[k]);
    } else {
        assert(rest.len() == 0);
        assert(scenes::widest(rest) == 0);
    }
    assert(widths[n] == widths.last());
    if scenes::widest(rest) == 0 && widths.last() == 0 {
        assert(widths[n] == 0);
    }
}

/// Scenes are printed one per line, each by its name, padded by its own width, and its
/// source.
pub proof fn scenes_are_printed_one_per_line(
    entries: Seq<SceneEntry>,
    widths: Seq<nat>,
    width: nat,
    color: bool,
)
    requires
        entries.len() > 0,
        widths.len() == entries.len(),
    ensures
        scenes::scene_lines(entries, widths, width, color) == scenes::scene_lines(
            entries.drop_last(),
            widths.drop_last(),
            width,
            color,
        ) + scenes::scene_line(entries.last(), widths.last(), width, color),
        scenes::scene_line(entries.last(), widths.last(), width, false) == entries.last().name@
            + text::run_of(
            ' ',
            if widths.last() < width {
                (width - widths.last()) as nat
            } else {
                0
            },
        ) + "  "@ + entries.last().source@ + "\n"@,
{
    lemma_scene_lines(entries.drop_last(), widths, widths.drop_last(), width, color);
}

proof fn lemma_scene_lines(
    entries: Seq<SceneEntry>,
    a: Seq<nat>,
    b: Seq<nat>,
    width: nat,
    color: bool,
)
    requires
        entries.len() <= a.len(),
        entries.len() <= b.len(),
        forall|i: int| 0 <= i < entries.len() ==> #[trigger] a[i] == b[i],
    ensures
        scenes::scene_lines(entries, a, width, color) == scenes::scene_lines(
            entries,
            b,
            width,
            color,
        ),
    decreases entries.len(),
{
    if entries.len() > 0 {
        lemma_scene_lines(entries.drop_last(), a, b, width, color);
        assert(a[entries.len() - 1] == b[entries.len() - 1]);
    }
}

/// A file of a bundle is told by its size, its path, and whether it is marked as a
/// serialized file or is a resource.
pub proof fn a_contained_file_is_told_by_size_kind_and_path(shown: BundleEntry, entry: FileEntry)
    requires
        bundle::summarises(shown, entry),
    ensures
        shown.size == entry.size,
        shown.path@ == entry.path@,
        entry.flags & 4 != 0 ==> shown.kind@ == "serialized"@,
        entry.flags & 4 == 0 ==> shown.kind@ == "resource"@,
{
}

/// All files of a bundle are listed, by their paths and in order.
pub proof fn every_contained_file_is_listed(entries: Seq<FileEntry>, i: int)
    ensures
        bundle::paths_of(entries).len() == entries.len(),
        0 <= i < entries.len() ==> bundle::paths_of(entries)[i]@ == entries[i].path@,
{
}

/// A file keeps the version that it states, and has the game's where it states none.
pub proof fn a_stated_version_is_kept<T>(stated: Option<T>, other: Option<T>)
    ensures
        stated is Some ==> bundle::version_of(stated, other) == stated,
        stated is None ==> bundle::version_of(stated, other) == other,
{
}

/// A dependency is labelled by its bundle, or by its id and provider.
pub proof fn a_dependency_is_labelled_by_its_bundle(dependency: Dependency)
    ensures
        dependency.provider == Provider::AssetBundle ==> addressable::label_of(dependency)
            == dependency.relative@,
        dependency.provider != Provider::AssetBundle ==> addressable::label_of(dependency)
            == dependency.id@ + "  ("@ + dependency.provider_name@ + ")"@,
{
    assert(Seq::<char>::empty() + dependency.id@ =~= dependency.id@);
}

/// Every location of a key is told, in order: its type, key, id, provider, bundle and the
/// number of its dependencies, and these by their labels where they are asked for.
pub proof fn every_location_of_a_key_is_told(
    info: AddressableInfo,
    locations: Seq<Location>,
    key: Seq<char>,
    list_deps: bool,
    i: int,
    d: int,
)
    requires
        addressable::shows_key(info, locations, key, list_deps),
        0 <= i < locations.len(),
    ensures
        info.key@ == key,
        info.locations@.len() == locations.len(),
        ({
            let shown = info.locations@[i];
            let location = locations[i];
            &&& shown.asset_type@ == location.asset_type@
            &&& shown.primary_key@ == location.primary_key@
            &&& shown.internal_id@ == location.id@
            &&& shown.provider@ == location.provider_name@
            &&& shown.bundle is Some <==> ctx::bundle_of(location) is Some
            &&& shown.bundle matches Some(path) ==> path@ == ctx::bundle_of(location)->0
            &&& shown.dependencies == location.dependencies@.len()
            &&& !list_deps ==> shown.dependency_labels@.len() == 0
            &&& list_deps ==> shown.dependency_labels@.len() == location.dependencies@.len()
            &&& list_deps && 0 <= d < location.dependencies@.len() ==> shown.dependency_labels@[d]@
                == addressable::label_of(location.dependencies@[d])
        }),
{
    assert(addressable::shows_location(info.locations@[i], locations[i], list_deps));
    let named = text::texts(info.locations@[i].dependency_labels@);
    assert(named.len() == info.locations@[i].dependency_labels@.len());
    if list_deps && 0 <= d < locations[i].dependencies@.len() {
        assert(named[d] == info.locations@[i].dependency_labels@[d]@);
    }
}

proof fn lemma_count(names: Seq<Seq<char>>, name: Seq<char>) -> (at: Seq<int>)
    ensures
        listings::are_equal_to(at, names, name),
        at.len() == qualify::occurrences(names, name),
{
    assert(names.take(names.len() as int) =~= names);
    lemma_count_first(names, name, names.len() as int)
}

proof fn lemma_count_first(names: Seq<Seq<char>>, name: Seq<char>, n: int) -> (at: Seq<int>)
    requires
        0 <= n <= names.len(),
    ensures
        laws::are_positions(at, n, |i: int| listings::stands_at(names, name, i)),
        at.len() == qualify::occurrences(names.take(n), name),
    decreases n,
{
    let wanted = |i: int| listings::stands_at(names, name, i);
    if n == 0 {
        assert(names.take(0).len() == 0);
        Seq::empty()
    } else {
        let part = names.take(n);
        assert(part.drop_last() =~= names.take(n - 1));
        assert(part.last() == names[n - 1]);
        let before = lemma_count_first(names, name, n - 1);
        if wanted(n - 1) {
            lemma_positions_push(before, n - 1, wanted);
            before.push(n - 1)
        } else {
            lemma_positions_skip(before, n - 1, wanted);
            before
        }
    }
}

/// A breakdown counts every name, as often as it stands among the names, and no other.
pub proof fn a_breakdown_counts_every_name(
    counts: Seq<Count>,
    names: Seq<Seq<char>>,
    i: int,
    n: int,
) -> (at: Seq<int>)
    requires
        addressables::is_breakdown(counts, names),
        0 <= i < counts.len(),
        0 <= n < names.len(),
    ensures
        listings::are_equal_to(at, names, counts[i].name@),
        counts[i].count == at.len(),
        counts[i].count > 0,
        exists|k: int| 0 <= k < counts.len() && (#[trigger] counts[k]).name@ == names[n],
{
    let k = choose|k: int| 0 <= k < counts.len() && (#[trigger] counts[k]).name@ == names[n];
    assert(counts[k].name@ == names[n]);
    assert(counts[i].count == qualify::occurrences(names, counts[i].name@));
    lemma_count(names, counts[i].name@)
}

/// In a breakdown the most frequent names come first, and equally frequent ones in the
/// order of their names; none comes twice.
pub proof fn a_breakdown_begins_with_the_most_frequent(
    counts: Seq<Count>,
    names: Seq<Seq<char>>,
    i: int,
    j: int,
)
    requires
        addressables::is_breakdown(counts, names),
        0 <= i < j < counts.len(),
    ensures
        counts[i].name@ != counts[j].name@,
        counts[i].count >= counts[j].count,
        counts[i].count == counts[j].count ==> text::sorts_before(
            counts[i].name@,
            counts[j].name@,
        ),
{
    assert(!counts[j].below(counts[i]));
    sort::lemma_text_order(counts[i].name@, counts[j].name@);
}

/// The overview of the catalogs counts them, their keys, their references and, once
/// each, their locations, and breaks the latter down by provider and by type.
pub proof fn an_overview_counts_catalogs_keys_and_locations(
    stats: AddressableStats,
    catalogs: Seq<Catalog>,
    bundles: usize,
)
    requires
        addressables::is_overview(stats, catalogs, bundles),
    ensures
        stats.catalogs == catalogs.len(),
        stats.keys == addressables::key_count(catalogs),
        stats.location_refs == addressables::all_locations(catalogs).len(),
        stats.locations == addressables::identities(addressables::all_locations(catalogs)).len(),
        stats.bundles == bundles,
        ({
            let once = addressables::distinct(addressables::all_locations(catalogs));
            &&& addressables::is_breakdown(
                stats.by_provider@,
                once.map_values(|l: Location| l.provider_name@),
            )
            &&& addressables::is_breakdown(
                stats.by_type@,
                once.map_values(|l: Location| l.asset_type@),
            )
        }),
{
    let once = addressables::distinct(addressables::all_locations(catalogs));
    assert(addressables::provider_names(once) =~= once.map_values(|l: Location| l.provider_name@));
    assert(addressables::type_names(once) =~= once.map_values(|l: Location| l.asset_type@));
}

/// A key is shown with all its types, in order.
pub proof fn a_key_is_shown_with_its_types(shown: AddressableKey, entry: Group, i: int)
    requires
        addressables::shows_group(shown, entry),
    ensures
        shown.key@ == entry.key@,
        shown.types@.len() == entry.values@.len(),
        0 <= i < entry.values@.len() ==> shown.types@[i]@ == entry.values@[i]@,
{
    let a = text::texts(shown.types@);
    let b = text::texts(entry.values@);
    assert(a.len() == shown.types@.len() && b.len() == entry.values@.len());
    if 0 <= i < entry.values@.len() {
        assert(a[i] == shown.types@[i]@ && b[i] == entry.values@[i]@);
    }
}

/// The summary of a game tells where it is, its version or why that is unknown, how many
/// serialized files it has, and whether it has addressables and how many bundles.
pub proof fn a_game_is_summarised(
    info: GameInfo,
    path: Seq<char>,
    version: Result<String, String>,
    files: usize,
    addressables: Addressables,
)
    requires
        game::is_summary(info, path, version, files, addressables),
    ensures
        info.path@ == path,
        version matches Ok(known) ==> info.unity_version@ == known@,
        version matches Err(e) ==> info.unity_version@ == "<unknown: "@ + e@ + ">"@,
        info.serialized_files == files,
        info.addressables <==> addressables is Present,
        addressables matches Addressables::Present { bundles } ==> info.addressables_bundles
            == bundles,
        !(addressables is Present) ==> info.addressables_bundles is None,
{
    assert(Seq::<char>::empty() + "<unknown: "@ =~= "<unknown: "@);
}

/// The full name of a script is its class, behind its namespace and a dot where it has
/// one.
pub proof fn a_script_is_named_by_namespace_and_class(namespace: Seq<char>, class: Seq<char>)
    ensures
        namespace.len() == 0 ==> game::script_text(namespace, class) == class,
        namespace.len() > 0 ==> game::script_text(namespace, class) == namespace + "."@ + class,
{
    assert(Seq::<char>::empty() + namespace =~= namespace);
}

/// A path is a game if it is a directory, a bundle if it begins with the magic of one,
/// which is the seven letters `UnityFS`.
pub proof fn a_bundle_begins_with_its_magic(header: Seq<u8>)
    ensures
        target::has_magic(header) <==> header.len() >= 7 && header[0] == 85 && header[1] == 110
            && header[2] == 105 && header[3] == 116 && header[4] == 121 && header[5] == 70
            && header[6] == 83,
{
    let m = target::magic();
    assert(m.len() == 7);
    assert(m[0] == 85 && m[1] == 110 && m[2] == 105 && m[3] == 116 && m[4] == 121 && m[5] == 70
        && m[6] == 83);
    if target::has_magic(header) {
        let h = header.take(7);
        assert(h[0] == header[0] && h[1] == header[1] && h[2] == header[2] && h[3] == header[3]
            && h[4] == header[4] && h[5] == header[5] && h[6] == header[6]);
    }
    if header.len() >= 7 && header[0] == 85 && header[1] == 110 && header[2] == 105 && header[3]
        == 116 && header[4] == 121 && header[5] == 70 && header[6] == 83 {
        assert(header.take(7) =~= m);
    }
}

/// A command asks for what its verb says, and without one for a summary or a listing: of
/// the game, of the keys, of the files of a bundle, of an addressable.
pub proof fn a_command_asks_for_what_its_verb_says(command: Command)
    ensures
        command matches Command::Game(args) ==> (match args.verb {
            Some(GameVerb::ScriptLocations(given)) => dispatch::action_for(command)
                == (Action::ScriptLocations { filter: given.filter }),
            _ => dispatch::action_for(command) == Action::GameInfo,
        }),
        command is Scenes ==> dispatch::action_for(command) == Action::Scenes,
        command is Files ==> dispatch::action_for(command) == Action::Files,
        command is Bundles ==> dispatch::action_for(command) == Action::Bundles,
        command matches Command::Addressables(args) ==> (if args.verb
            == Some(AddressablesVerb::Stats) {
            dispatch::action_for(command) == Action::AddressableStats
        } else {
            dispatch::action_for(command) == (Action::AddressableKeys {
                include_asset_bundles: args.include_asset_bundles,
            })
        }),
        command matches Command::Scene(args) ==> dispatch::action_for(command) == (Action::Scene {
            name: args.name,
            verb: args.verb,
        }),
        command matches Command::File(args) ==> dispatch::action_for(command) == (Action::File {
            path: args.path,
            verb: args.verb,
        }),
        command matches Command::Bundle(args) ==> (match args.verb {
            Some(BundleVerb::Files) => dispatch::action_for(command) == (Action::BundleFiles {
                path: args.path,
            }),
            Some(BundleVerb::File(inner)) => dispatch::action_for(command)
                == (Action::BundleFile { path: args.path, cab: inner.cab, verb: inner.verb }),
            _ => dispatch::action_for(command) == (Action::BundleInfo { path: args.path }),
        }),
        command matches Command::Addressable(args) ==> (match args.verb {
            Some(AddressableVerb::Cat) => dispatch::action_for(command)
                == (Action::AddressableCat { key: args.key }),
            Some(AddressableVerb::File(inner)) => dispatch::action_for(command)
                == (Action::AddressableFile { key: args.key, verb: inner.verb }),
            Some(AddressableVerb::Info(inner)) => dispatch::action_for(command)
                == (Action::AddressableInfo { key: args.key, dependencies: inner.dependencies }),
            None => dispatch::action_for(command) == (Action::AddressableInfo {
                key: args.key,
                dependencies: false,
            }),
        }),
        command matches Command::Script(args) ==> dispatch::action_for(command) == (Action::Script {
            name: args.name,
            verb: args.verb,
        }),
{
}

/// Only a file or a bundle can be looked at without a game.
pub proof fn only_files_and_bundles_stand_alone(command: Command)
    ensures
        dispatch::action_for(command).needs_game_context() <==> !(command is File
            || command is Bundle),
{
}

/// The verb of a file asks for what it says: the tree for the tree of the path with the
/// chosen components, the objects for those of the class, with their names, the search
/// for the components of the label; an object verb applies to the object that its
/// reference selects, and fails as that does.
pub proof fn a_verb_comes_to_what_it_asks_for(
    open: OpenFile,
    verb: FileVerb,
    step: Result<Step, String>,
)
    requires
        file::is_step(open, verb, step),
    ensures
        verb matches FileVerb::Info(args) ==> (step matches Ok(Step::Info(info)) && file::describes(
            info,
            open.header,
            open.catalog,
            args.externals,
        )),
        verb matches FileVerb::Tree(args) ==> {
            let root = match args.path {
                Some(path) => Some(path@),
                None => None,
            };
            let out = file::tree::tree_of(
                open.scene,
                root,
                file::components_for(args.components, args.scripts),
            );
            &&& step is Ok <==> out is Ok
            &&& step is Ok ==> (step matches Ok(Step::Tree(shown)) && shown@ == out->Ok_0)
        },
        verb matches FileVerb::Objects(args) ==> (step matches Ok(Step::Objects(shown))
            && file::entry_views(shown.0@) == file::listing(
            open.scene,
            open.scene.objects@,
            match args.class {
                Some(class) => Some(class@),
                None => None,
            },
            true,
        )),
        verb matches FileVerb::Find(args) ==> {
            let out = file::matches_in(open.scene, args.class@);
            &&& step is Ok <==> out is Ok
            &&& step is Ok ==> (step matches Ok(Step::Matches(shown)) && file::match_views(shown.0@)
                == out->Ok_0)
        },
        verb matches FileVerb::Object(args) ==> {
            let out = resolve::ref_target(open.scene, args.reference@);
            &&& out matches Ok(id) ==> file::is_object_step(open, id, args.verb, step)
            &&& out matches Err(reason) ==> (step matches Err(e) && e@ == reason)
        },
        verb is References ==> step matches Ok(Step::FileReferences),
{
}

/// The references of an object are searched for as asked: the referring objects, or the
/// referring files, or a query over the referring objects, which without a filter gives
/// each as it is.
pub proof fn references_are_searched_for_as_asked(
    open: OpenFile,
    id: i64,
    search: ReferencesArgs,
    step: Result<Step, String>,
)
    requires
        file::is_object_step(open, id, Some(ObjectVerb::References(search)), step),
    ensures
        search.verb is None && !search.files_with_matches ==> (step matches Ok(
            Step::Referrers { path_id, search: used },
        ) && path_id == id && used == search),
        search.verb is None && search.files_with_matches ==> (step matches Ok(
            Step::ReferencingFiles { path_id, search: used },
        ) && path_id == id && used == search),
        search.verb matches Some(ReferencesVerb::Cat(args)) ==> (step matches Ok(
            Step::QueryReferrers { path_id, search: used, filter },
        ) && path_id == id && used.limit == search.limit && used.include_preloads
            == search.include_preloads && used.files_with_matches == search.files_with_matches
            && used.include_paths == search.include_paths && used.exclude_paths
            == search.exclude_paths && used.include_types == search.include_types
            && used.exclude_types == search.exclude_types && (args.jq is None
            && args.jq_file is None ==> (filter matches FilterSource::Inline(given) && given@
            == "."@))),
{
}

} // verus!
