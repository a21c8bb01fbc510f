//! What the keys of the catalogs stand for, which scenes there are, and which file of a
//! bundle is meant.

use vstd::prelude::*;

use super::{lemma_positions_push, lemma_positions_skip};
use crate::cli::Context;
use crate::commands::bundle::FileEntry;
use crate::commands::file::preloads::AssetInfo;
use crate::commands::game::FoundScript;
use crate::commands::{addressables, bundle, game};
use crate::ctx::{
    Catalog, Dependency, GameSource, KeyLocations, Location, Provider, Scene,
};
use crate::group::Group;
use crate::{ctx, group, laws, locate, text};

verus! {

/// A steam game is looked for where one is named, whatever else is given; else a
/// directory that is given; else the current one.
pub proof fn a_named_game_comes_first(context: Context)
    ensures
        context.steam_game matches Some(name) ==> ctx::source_of(context) == GameSource::Steam(
            name,
        ),
        context.steam_game is None ==> (context.game_dir matches Some(dir) ==> ctx::source_of(
            context,
        ) == GameSource::Dir(dir)),
        context.steam_game is None && context.game_dir is None ==> ctx::source_of(context)
            == GameSource::CurrentDir,
{
}

/// In one catalog a key maps to the locations of its first entry, and to none if it has
/// no entry.
pub proof fn a_key_maps_to_its_first_entry(
    resources: Seq<KeyLocations>,
    key: Seq<char>,
    i: int,
)
    requires
        0 <= i <= resources.len(),
        forall|j: int| 0 <= j < i ==> (#[trigger] resources[j]).key@ != key,
        i < resources.len() ==> resources[i].key@ == key,
    ensures
        ctx::locations_under(resources, key) == (if i < resources.len() {
            resources[i].locations@
        } else {
            Seq::empty()
        }),
    decreases resources.len(),
{
    if i > 0 {
        let rest = resources.skip(1);
        assert(resources[0].key@ != key);
        assert forall|j: int| 0 <= j < i - 1 implies (#[trigger] rest[j]).key@ != key by {
            assert(rest[j] == resources[j + 1]);
        }
        if i < resources.len() {
            assert(rest[i - 1] == resources[i]);
        }
        a_key_maps_to_its_first_entry(rest, key, i - 1);
    }
}

/// What a key maps to in several catalogs is what it maps to in each of them, one after
/// the other.
pub proof fn a_key_maps_to_what_every_catalog_has(
    a: Seq<Catalog>,
    b: Seq<Catalog>,
    catalog: Catalog,
    key: Seq<char>,
)
    ensures
        ctx::locations_for(a + b, key) == ctx::locations_for(a, key) + ctx::locations_for(b, key),
        ctx::locations_for(seq![catalog], key) == ctx::locations_under(catalog.resources@, key),
        ctx::locations_for(Seq::empty(), key) == Seq::<Location>::empty(),
    decreases b.len(),
{
    let one = seq![catalog];
    assert(one.drop_last() =~= Seq::<Catalog>::empty());
    assert(ctx::locations_for(one.drop_last(), key) =~= Seq::<Location>::empty());
    assert(ctx::locations_for(one, key) =~= ctx::locations_under(catalog.resources@, key));
    if b.len() == 0 {
        assert(a + b =~= a);
        assert(ctx::locations_for(a, key) + ctx::locations_for(b, key) =~= ctx::locations_for(
            a,
            key,
        ));
    } else {
        a_key_maps_to_what_every_catalog_has(a, b.drop_last(), catalog, key);
        assert((a + b).drop_last() =~= a + b.drop_last());
        assert((a + b).last() == b.last());
        assert(ctx::locations_for(a + b, key) =~= ctx::locations_for(a, key) + ctx::locations_for(
            b,
            key,
        ));
    }
}

/// Whether the `i`-th dependency is the first on an asset bundle.
pub open spec fn is_first_bundle(dependencies: Seq<Dependency>, i: int) -> bool {
    &&& 0 <= i < dependencies.len()
    &&& dependencies[i].provider == Provider::AssetBundle
    &&& forall|j: int|
        0 <= j < i ==> (#[trigger] dependencies[j]).provider != Provider::AssetBundle
}

proof fn lemma_bundle_dependency(dependencies: Seq<Dependency>)
    ensures
        match ctx::bundle_dependency(dependencies) {
            Some(bundle) => exists|i: int| #[trigger]
                is_first_bundle(dependencies, i) && dependencies[i].relative@ == bundle,
            None => forall|i: int|
                0 <= i < dependencies.len() ==> (#[trigger] dependencies[i]).provider
                    != Provider::AssetBundle,
        },
    decreases dependencies.len(),
{
    if dependencies.len() > 0 {
        let rest = dependencies.skip(1);
        if dependencies[0].provider == Provider::AssetBundle {
            assert(is_first_bundle(dependencies, 0));
        } else {
            lemma_bundle_dependency(rest);
            match ctx::bundle_dependency(rest) {
                Some(bundle) => {
                    let i = choose|i: int| #[trigger]
                        is_first_bundle(rest, i) && rest[i].relative@ == bundle;
                    assert(dependencies[i + 1] == rest[i]);
                    assert forall|j: int| 0 <= j < i + 1 implies (
                    #[trigger] dependencies[j]).provider != Provider::AssetBundle by {
                        if j > 0 {
                            assert(rest[j - 1] == dependencies[j]);
                        }
                    }
                    assert(is_first_bundle(dependencies, i + 1));
                },
                None => {
                    assert forall|i: int| 0 <= i < dependencies.len() implies (
                    #[trigger] dependencies[i]).provider != Provider::AssetBundle by {
                        if i > 0 {
                            assert(rest[i - 1] == dependencies[i]);
                        }
                    }
                },
            }
        }
    }
}

/// A location lives in the bundle that it is, or else in the first that it depends on;
/// in none only if it depends on none.
pub proof fn a_location_lives_in_its_bundle(location: Location)
    ensures
        location.provider == Provider::AssetBundle ==> ctx::bundle_of(location) == Some(
            location.relative@,
        ),
        location.provider != Provider::AssetBundle ==> match ctx::bundle_of(location) {
            Some(bundle) => exists|i: int| #[trigger]
                is_first_bundle(location.dependencies@, i)
                    && location.dependencies@[i].relative@ == bundle,
            None => forall|i: int|
                0 <= i < location.dependencies@.len() ==> (
                #[trigger] location.dependencies@[i]).provider != Provider::AssetBundle,
        },
{
    lemma_bundle_dependency(location.dependencies@);
}

/// Whether a location is an asset in a bundle that is known.
pub open spec fn is_openable(location: Location) -> bool {
    location.provider == Provider::BundledAsset && ctx::bundle_of(location) is Some
}

proof fn lemma_bundled(locations: Seq<Location>, n: int) -> (at: Seq<int>)
    requires
        0 <= n <= locations.len(),
    ensures
        laws::are_positions(at, n, |i: int| is_openable(locations[i])),
        ({
            let found = ctx::bundled_among(locations.take(n));
            &&& found.len() == at.len()
            &&& forall|j: int|
                0 <= j < at.len() ==> ctx::bundle_of(locations[at[j]]) == Some(
                    (#[trigger] found[j]).bundle,
                ) && found[j].container_key == locations[at[j]].id@
        }),
    decreases n,
{
    let wanted = |i: int| is_openable(locations[i]);
    if n == 0 {
        Seq::empty()
    } else {
        let part = locations.take(n);
        assert(part.drop_last() =~= locations.take(n - 1));
        assert(part.last() == locations[n - 1]);
        let before = lemma_bundled(locations, n - 1);
        if wanted(n - 1) {
            lemma_positions_push(before, n - 1, wanted);
            before.push(n - 1)
        } else {
            lemma_positions_skip(before, n - 1, wanted);
            before
        }
    }
}

/// A key can be opened exactly if one of its locations, and only one, is an asset in a
/// known bundle: then what is opened is that bundle, at that location's id.
pub proof fn a_key_opens_its_only_bundled_asset(locations: Seq<Location>, key: Seq<char>) -> (at:
    Seq<int>)
    ensures
        laws::are_positions(at, locations.len() as int, |i: int| is_openable(locations[i])),
        match ctx::sole_asset(locations, key) {
            Ok(asset) => at.len() == 1 && ctx::bundle_of(locations[at[0]]) == Some(asset.bundle)
                && asset.container_key == locations[at[0]].id@,
            Err(_) => at.len() != 1,
        },
{
    assert(locations.take(locations.len() as int) =~= locations);
    let at = lemma_bundled(locations, locations.len() as int);
    let found = ctx::bundled_among(locations);
    if at.len() == 1 {
        assert(found[0].container_key == locations[at[0]].id@);
    }
    at
}

/// The asset under an address is that of the first container entry with the address,
/// and there is none only if no entry has it.
pub proof fn an_address_gives_its_first_asset(
    container: Seq<AssetInfo>,
    address: Seq<char>,
    i: int,
)
    requires
        0 <= i <= container.len(),
        forall|j: int| 0 <= j < i ==> (#[trigger] container[j]).address@ != address,
        i < container.len() ==> container[i].address@ == address,
    ensures
        ctx::asset_under(container, address) == (if i < container.len() {
            Some(container[i].asset.path_id)
        } else {
            None
        }),
    decreases container.len(),
{
    if i > 0 {
        let rest = container.skip(1);
        assert(container[0].address@ != address);
        assert forall|j: int| 0 <= j < i - 1 implies (#[trigger] rest[j]).address@ != address by {
            assert(rest[j] == container[j + 1]);
        }
        if i < container.len() {
            assert(rest[i - 1] == container[i]);
        }
        an_address_gives_its_first_asset(rest, address, i - 1);
    }
}

/// Whether an entry gives a key an asset type: it is listed, and one of its locations has
/// that type.
pub open spec fn gives_type(
    entry: KeyLocations,
    include_asset_bundles: bool,
    key: Seq<char>,
    name: Seq<char>,
) -> bool {
    &&& is_listed_entry(entry, include_asset_bundles, key)
    &&& exists|l: int|
        0 <= l < entry.locations@.len() && (#[trigger] entry.locations@[l]).asset_type@ == name
}

/// Whether an entry lists a key: not if all its locations, of which there are some, are
/// asset bundles, unless these are asked for.
pub open spec fn is_listed_entry(
    entry: KeyLocations,
    include_asset_bundles: bool,
    key: Seq<char>,
) -> bool {
    entry.key@ == key && (include_asset_bundles || entry.locations@.len() == 0 || exists|l: int|
        0 <= l < entry.locations@.len() && (#[trigger] entry.locations@[l]).provider
            != Provider::AssetBundle)
}

proof fn lemma_types(locations: Seq<Location>, name: Seq<char>)
    ensures
        ctx::types_of(locations).contains(name) <==> exists|l: int|
            0 <= l < locations.len() && (#[trigger] locations[l]).asset_type@ == name,
    decreases locations.len(),
{
    if locations.len() > 0 {
        let rest = locations.drop_last();
        lemma_types(rest, name);
        if ctx::types_of(rest).contains(name) {
            let l = choose|l: int|
                0 <= l < rest.len() && (#[trigger] rest[l]).asset_type@ == name;
            assert(locations[l].asset_type@ == name);
        }
        if locations.last().asset_type@ == name {
            assert(locations[locations.len() - 1].asset_type@ == name);
        }
        if exists|l: int|
            0 <= l < locations.len() && (#[trigger] locations[l]).asset_type@ == name {
            let l = choose|l: int|
                0 <= l < locations.len() && (#[trigger] locations[l]).asset_type@ == name;
            if l < rest.len() {
                assert(rest[l].asset_type@ == name);
            }
        }
    }
}

proof fn lemma_with_types(
    before: Map<Seq<char>, Set<Seq<char>>>,
    resources: Seq<KeyLocations>,
    include_asset_bundles: bool,
    key: Seq<char>,
    name: Seq<char>,
)
    ensures
        group::under(ctx::with_keys(before, resources, include_asset_bundles), key).contains(name)
            <==> (group::under(before, key).contains(name) || exists|r: int|
            0 <= r < resources.len() && gives_type(
                #[trigger] resources[r],
                include_asset_bundles,
                key,
                name,
            )),
        ctx::with_keys(before, resources, include_asset_bundles).contains_key(key) <==> (
        before.contains_key(key) || exists|r: int|
            0 <= r < resources.len() && is_listed_entry(
                #[trigger] resources[r],
                include_asset_bundles,
                key,
            )),
    decreases resources.len(),
{
    if resources.len() > 0 {
        let rest = resources.drop_last();
        let n = resources.len() - 1;
        let entry = resources[n];
        lemma_with_types(before, rest, include_asset_bundles, key, name);
        lemma_types(entry.locations@, name);
        if exists|r: int|
            0 <= r < rest.len() && gives_type(#[trigger] rest[r], include_asset_bundles, key, name) {
            let r = choose|r: int|
                0 <= r < rest.len() && gives_type(
                    #[trigger] rest[r],
                    include_asset_bundles,
                    key,
                    name,
                );
            assert(gives_type(resources[r], include_asset_bundles, key, name));
        }
        if exists|r: int|
            0 <= r < resources.len() && gives_type(
                #[trigger] resources[r],
                include_asset_bundles,
                key,
                name,
            ) {
            let r = choose|r: int|
                0 <= r < resources.len() && gives_type(
                    #[trigger] resources[r],
                    include_asset_bundles,
                    key,
                    name,
                );
            if r < n {
                assert(gives_type(rest[r], include_asset_bundles, key, name));
            }
        }
        if exists|r: int|
            0 <= r < rest.len() && is_listed_entry(#[trigger] rest[r], include_asset_bundles, key) {
            let r = choose|r: int|
                0 <= r < rest.len() && is_listed_entry(
                    #[trigger] rest[r],
                    include_asset_bundles,
                    key,
                );
            assert(is_listed_entry(resources[r], include_asset_bundles, key));
        }
        if exists|r: int|
            0 <= r < resources.len() && is_listed_entry(
                #[trigger] resources[r],
                include_asset_bundles,
                key,
            ) {
            let r = choose|r: int|
                0 <= r < resources.len() && is_listed_entry(
                    #[trigger] resources[r],
                    include_asset_bundles,
                    key,
                );
            if r < n {
                assert(is_listed_entry(rest[r], include_asset_bundles, key));
            }
        }
        if !ctx::only_bundles(entry.locations@) && entry.locations@.len() > 0 {
            let l = choose|l: int|
                0 <= l < entry.locations@.len() && !((#[trigger] entry.locations@[l]).provider
                    == Provider::AssetBundle);
            assert(entry.locations@[l].provider != Provider::AssetBundle);
        }
        if entry.key@ == key {
            assert(gives_type(resources[n], include_asset_bundles, key, name) <==> (
            is_listed_entry(entry, include_asset_bundles, key) && ctx::types_of(
                entry.locations@,
            ).contains(name)));
        }
    }
}

/// A key is listed with a type exactly if some entry for it, in some catalog, is listed
/// and leads to a location of that type; and it is listed at all exactly if some entry
/// for it is.
pub proof fn a_key_is_listed_with_the_types_it_leads_to(
    catalogs: Seq<Catalog>,
    include_asset_bundles: bool,
    key: Seq<char>,
    name: Seq<char>,
)
    ensures
        group::under(ctx::all_keys(catalogs, include_asset_bundles), key).contains(name) <==> exists|
            c: int,
            r: int,
        |
            0 <= c < catalogs.len() && 0 <= r < catalogs[c].resources@.len() && gives_type(
                #[trigger] catalogs[c].resources@[r],
                include_asset_bundles,
                key,
                name,
            ),
        ctx::all_keys(catalogs, include_asset_bundles).contains_key(key) <==> exists|c: int, r: int|
            0 <= c < catalogs.len() && 0 <= r < catalogs[c].resources@.len() && is_listed_entry(
                #[trigger] catalogs[c].resources@[r],
                include_asset_bundles,
                key,
            ),
    decreases catalogs.len(),
{
    if catalogs.len() > 0 {
        let rest = catalogs.drop_last();
        let n = catalogs.len() - 1;
        let last = catalogs[n].resources@;
        a_key_is_listed_with_the_types_it_leads_to(rest, include_asset_bundles, key, name);
        lemma_with_types(
            ctx::all_keys(rest, include_asset_bundles),
            last,
            include_asset_bundles,
            key,
            name,
        );
        assert forall|c: int, r: int|
            0 <= c < catalogs.len() && 0 <= r < catalogs[c].resources@.len() && gives_type(
                #[trigger] catalogs[c].resources@[r],
                include_asset_bundles,
                key,
                name,
            ) implies group::under(ctx::all_keys(catalogs, include_asset_bundles), key).contains(
            name,
        ) by {
            if c < n {
                assert(gives_type(rest[c].resources@[r], include_asset_bundles, key, name));
            } else {
                assert(gives_type(last[r], include_asset_bundles, key, name));
            }
        }
        if group::under(ctx::all_keys(catalogs, include_asset_bundles), key).contains(name) {
            if group::under(ctx::all_keys(rest, include_asset_bundles), key).contains(name) {
                let (c, r) = choose|c: int, r: int|
                    0 <= c < rest.len() && 0 <= r < rest[c].resources@.len() && gives_type(
                        #[trigger] rest[c].resources@[r],
                        include_asset_bundles,
                        key,
                        name,
                    );
                assert(gives_type(catalogs[c].resources@[r], include_asset_bundles, key, name));
            } else {
                let r = choose|r: int|
                    0 <= r < last.len() && gives_type(
                        #[trigger] last[r],
                        include_asset_bundles,
                        key,
                        name,
                    );
                assert(gives_type(catalogs[n].resources@[r], include_asset_bundles, key, name));
            }
        }
        assert forall|c: int, r: int|
            0 <= c < catalogs.len() && 0 <= r < catalogs[c].resources@.len() && is_listed_entry(
                #[trigger] catalogs[c].resources@[r],
                include_asset_bundles,
                key,
            ) implies ctx::all_keys(catalogs, include_asset_bundles).contains_key(key) by {
            if c < n {
                assert(is_listed_entry(rest[c].resources@[r], include_asset_bundles, key));
            } else {
                assert(is_listed_entry(last[r], include_asset_bundles, key));
            }
        }
        if ctx::all_keys(catalogs, include_asset_bundles).contains_key(key) {
            if ctx::all_keys(rest, include_asset_bundles).contains_key(key) {
                let (c, r) = choose|c: int, r: int|
                    0 <= c < rest.len() && 0 <= r < rest[c].resources@.len() && is_listed_entry(
                        #[trigger] rest[c].resources@[r],
                        include_asset_bundles,
                        key,
                    );
                assert(is_listed_entry(catalogs[c].resources@[r], include_asset_bundles, key));
            } else {
                let r = choose|r: int|
                    0 <= r < last.len() && is_listed_entry(
                        #[trigger] last[r],
                        include_asset_bundles,
                        key,
                    );
                assert(is_listed_entry(catalogs[n].resources@[r], include_asset_bundles, key));
            }
        }
    }
}

/// Whether a location is a scene of the given name: an asset in a bundle, of the class
/// of scenes, whose key as a path is so called, and which depends on a bundle.
pub open spec fn is_scene(location: Location, name: Seq<char>, path: Seq<char>) -> bool {
    &&& location.provider == Provider::BundledAsset
    &&& location.full_type@
        == "UnityEngine.ResourceManagement.ResourceProviders.SceneInstance"@
    &&& location.stem matches Some(stem) && stem@ == name
    &&& exists|i: int| #[trigger]
        is_first_bundle(location.dependencies@, i) && location.dependencies@[i].relative@ == path
}

proof fn lemma_scene_at(location: Location, name: Seq<char>, path: Seq<char>)
    ensures
        ctx::scene_at(location) == Some((name, path)) <==> is_scene(location, name, path),
{
    lemma_bundle_dependency(location.dependencies@);
    if is_scene(location, name, path) {
        let i = choose|i: int| #[trigger]
            is_first_bundle(location.dependencies@, i) && location.dependencies@[i].relative@
                == path;
        let found = ctx::bundle_dependency(location.dependencies@);
        assert(found is Some);
        let k = choose|k: int| #[trigger]
            is_first_bundle(location.dependencies@, k) && location.dependencies@[k].relative@
                == found->0;
        assert(i == k);
    }
}

/// Whether the `i`-th location is the first scene of the given name, in the given bundle.
pub open spec fn is_first_scene(
    locations: Seq<Location>,
    i: int,
    name: Seq<char>,
    path: Seq<char>,
) -> bool {
    &&& 0 <= i < locations.len()
    &&& is_scene(locations[i], name, path)
    &&& forall|j: int, other: Seq<char>|
        0 <= j < i ==> !#[trigger] is_scene(locations[j], name, other)
}

proof fn lemma_with_scenes(
    before: Map<Seq<char>, Seq<char>>,
    builtin: Seq<Seq<char>>,
    locations: Seq<Location>,
    name: Seq<char>,
)
    requires
        !builtin.contains(name),
    ensures
        before.contains_key(name) ==> ctx::with_scenes(before, builtin, locations).contains_key(
            name,
        ) && ctx::with_scenes(before, builtin, locations)[name] == before[name],
        !before.contains_key(name) ==> (if ctx::with_scenes(
            before,
            builtin,
            locations,
        ).contains_key(name) {
            exists|i: int| #[trigger]
                is_first_scene(
                    locations,
                    i,
                    name,
                    ctx::with_scenes(before, builtin, locations)[name],
                )
        } else {
            forall|j: int, other: Seq<char>|
                0 <= j < locations.len() ==> !#[trigger] is_scene(locations[j], name, other)
        }),
    decreases locations.len(),
{
    if locations.len() > 0 {
        let rest = locations.drop_last();
        let n = locations.len() - 1;
        lemma_with_scenes(before, builtin, rest, name);
        let map = ctx::with_scenes(before, builtin, rest);
        let after = ctx::with_scenes(before, builtin, locations);
        if let Some((own, path)) = ctx::scene_at(locations[n]) {
            lemma_scene_at(locations[n], own, path);
        }
        if !before.contains_key(name) {
            if map.contains_key(name) {
                let i = choose|i: int| #[trigger] is_first_scene(rest, i, name, map[name]);
                assert(locations[i] == rest[i]);
                assert forall|j: int, other: Seq<char>|
                    0 <= j < i implies !#[trigger] is_scene(locations[j], name, other) by {
                    assert(rest[j] == locations[j]);
                }
                assert(is_first_scene(locations, i, name, after[name]));
            } else {
                assert forall|j: int, other: Seq<char>|
                    0 <= j < n implies !#[trigger] is_scene(locations[j], name, other) by {
                    assert(rest[j] == locations[j]);
                }
                if after.contains_key(name) {
                    assert(is_first_scene(locations, n, name, after[name]));
                } else {
                    assert forall|j: int, other: Seq<char>|
                        0 <= j < locations.len() implies !#[trigger] is_scene(
                        locations[j],
                        name,
                        other,
                    ) by {
                        if j == n && is_scene(locations[n], name, other) {
                            lemma_scene_at(locations[n], name, other);
                        }
                    }
                }
            }
        }
    }
}

/// The addressables scenes of a catalog are exactly those of its locations that are
/// scenes and have no built-in scene's name, each in the bundle of the first location
/// of that name.
pub proof fn every_scene_of_a_catalog_is_listed(
    builtin: Seq<Seq<char>>,
    catalog: Catalog,
    name: Seq<char>,
)
    requires
        !builtin.contains(name),
    ensures
        ({
            let scenes = ctx::addressable_scenes(builtin, seq![catalog]);
            if scenes.contains_key(name) {
                exists|i: int| #[trigger]
                    is_first_scene(catalog.locations@, i, name, scenes[name])
            } else {
                forall|j: int, other: Seq<char>|
                    0 <= j < catalog.locations@.len() ==> !#[trigger] is_scene(
                        catalog.locations@[j],
                        name,
                        other,
                    )
            }
        }),
{
    let one = seq![catalog];
    assert(one.drop_last() =~= Seq::<Catalog>::empty());
    let none = ctx::addressable_scenes(builtin, one.drop_last());
    assert(!none.contains_key(name));
    lemma_with_scenes(none, builtin, catalog.locations@, name);
}

/// A further catalog adds the scenes whose names are new, and changes none.
pub proof fn a_further_catalog_adds_its_scenes(
    builtin: Seq<Seq<char>>,
    catalogs: Seq<Catalog>,
    further: Catalog,
    name: Seq<char>,
)
    requires
        !builtin.contains(name),
    ensures
        ({
            let before = ctx::addressable_scenes(builtin, catalogs);
            let after = ctx::addressable_scenes(builtin, catalogs.push(further));
            let own = ctx::addressable_scenes(builtin, seq![further]);
            &&& after.contains_key(name) <==> before.contains_key(name) || own.contains_key(name)
            &&& before.contains_key(name) ==> after[name] == before[name]
            &&& !before.contains_key(name) && own.contains_key(name) ==> after[name] == own[name]
        }),
{
    let more = catalogs.push(further);
    assert(more.drop_last() =~= catalogs);
    let before = ctx::addressable_scenes(builtin, catalogs);
    let after = ctx::addressable_scenes(builtin, more);
    let locations = further.locations@;
    lemma_with_scenes(before, builtin, locations, name);
    let one = seq![further];
    assert(one.drop_last() =~= Seq::<Catalog>::empty());
    let none = ctx::addressable_scenes(builtin, one.drop_last());
    lemma_with_scenes(none, builtin, locations, name);
    let own = ctx::addressable_scenes(builtin, one);
    if !before.contains_key(name) {
        if own.contains_key(name) {
            let i = choose|i: int| #[trigger] is_first_scene(locations, i, name, own[name]);
            assert(is_scene(locations[i], name, own[name]));
            assert(after.contains_key(name));
            let k = choose|k: int| #[trigger] is_first_scene(locations, k, name, after[name]);
            assert(is_scene(locations[k], name, after[name]));
            assert(i == k);
            lemma_scene_at(locations[i], name, own[name]);
            lemma_scene_at(locations[i], name, after[name]);
        } else if after.contains_key(name) {
            let k = choose|k: int| #[trigger] is_first_scene(locations, k, name, after[name]);
            assert(is_scene(locations[k], name, after[name]));
        }
    }
}

/// A scene is opened by its name: the first of that name, and none only if no scene has
/// it.
pub proof fn a_name_opens_its_first_scene(scenes: Seq<Scene>, name: Seq<char>, i: int)
    requires
        0 <= i <= scenes.len(),
        forall|j: int| 0 <= j < i ==> (#[trigger] scenes[j]).name@ != name,
        i < scenes.len() ==> scenes[i].name@ == name,
    ensures
        ctx::scene_named(scenes, name) == (if i < scenes.len() {
            Some(scenes[i])
        } else {
            None
        }),
    decreases scenes.len(),
{
    if i > 0 {
        let rest = scenes.skip(1);
        assert(scenes[0].name@ != name);
        assert forall|j: int| 0 <= j < i - 1 implies (#[trigger] rest[j]).name@ != name by {
            assert(rest[j] == scenes[j + 1]);
        }
        if i < scenes.len() {
            assert(rest[i - 1] == scenes[i]);
        }
        a_name_opens_its_first_scene(rest, name, i - 1);
    }
}

/// Whether a contained file can be the main one of its bundle: it is marked as a
/// serialized file, and holds no shared assets.
pub open spec fn can_be_main(entry: FileEntry) -> bool {
    entry.flags & 4 != 0 && !text::finishes_with(entry.path@, ".sharedAssets"@)
}

/// The main file of a bundle is the first that can be it, and is opened where no file
/// is named; there is none only if no file can be it.
pub proof fn the_first_file_that_can_be_is_the_main_one(entries: Seq<FileEntry>, i: int)
    requires
        0 <= i <= entries.len(),
        forall|j: int| 0 <= j < i ==> !can_be_main(#[trigger] entries[j]),
        i < entries.len() ==> can_be_main(entries[i]),
    ensures
        bundle::main_of(entries) == (if i < entries.len() {
            Some(entries[i])
        } else {
            None
        }),
        match bundle::selected_entry(entries, None) {
            Ok(entry) => i < entries.len() && entry == entries[i],
            Err(_) => i == entries.len(),
        },
    decreases entries.len(),
{
    if i > 0 {
        let rest = entries.skip(1);
        assert(!can_be_main(entries[0]));
        assert forall|j: int| 0 <= j < i - 1 implies !can_be_main(#[trigger] rest[j]) by {
            assert(rest[j] == entries[j + 1]);
        }
        if i < entries.len() {
            assert(rest[i - 1] == entries[i]);
        }
        the_first_file_that_can_be_is_the_main_one(rest, i - 1);
    }
}

proof fn lemma_entry_at(entries: Seq<FileEntry>, path: Seq<char>, i: int)
    requires
        0 <= i <= entries.len(),
        forall|j: int| 0 <= j < i ==> (#[trigger] entries[j]).path@ != path,
        i < entries.len() ==> entries[i].path@ == path,
    ensures
        bundle::entry_at(entries, path) == (if i < entries.len() {
            Some(entries[i])
        } else {
            None
        }),
    decreases entries.len(),
{
    if i > 0 {
        let rest = entries.skip(1);
        assert(entries[0].path@ != path);
        assert forall|j: int| 0 <= j < i - 1 implies (#[trigger] rest[j]).path@ != path by {
            assert(rest[j] == entries[j + 1]);
        }
        if i < entries.len() {
            assert(rest[i - 1] == entries[i]);
        }
        lemma_entry_at(rest, path, i - 1);
    }
}

/// A file of a bundle that is named is opened, the first with that path; nothing is if
/// no file has it, whether or not the bundle has a main file.
pub proof fn a_named_file_of_a_bundle_is_opened(
    entries: Seq<FileEntry>,
    path: Seq<char>,
    i: int,
)
    requires
        0 <= i <= entries.len(),
        forall|j: int| 0 <= j < i ==> (#[trigger] entries[j]).path@ != path,
        i < entries.len() ==> entries[i].path@ == path,
    ensures
        match bundle::selected_entry(entries, Some(path)) {
            Ok(entry) => i < entries.len() && entry == entries[i],
            Err(_) => i == entries.len(),
        },
{
    lemma_entry_at(entries, path, i);
}

/// Whether a script was found at a location.
pub open spec fn is_found(found: Seq<FoundScript>, script: Seq<char>, location: Seq<char>) -> bool {
    exists|i: int|
        0 <= i < found.len() && (#[trigger] found[i]).script@ == script && found[i].location@
            == location
}

/// A script is grouped with exactly the locations at which it was found.
pub proof fn a_script_is_grouped_with_its_locations(
    found: Seq<FoundScript>,
    script: Seq<char>,
    location: Seq<char>,
)
    ensures
        group::under(game::grouped(found), script).contains(location) <==> is_found(
            found,
            script,
            location,
        ),
        game::grouped(found).contains_key(script) <==> exists|i: int|
            0 <= i < found.len() && (#[trigger] found[i]).script@ == script,
    decreases found.len(),
{
    if found.len() > 0 {
        let rest = found.drop_last();
        let n = found.len() - 1;
        a_script_is_grouped_with_its_locations(rest, script, location);
        if is_found(rest, script, location) {
            let i = choose|i: int|
                0 <= i < rest.len() && (#[trigger] rest[i]).script@ == script && rest[i].location@
                    == location;
            assert(found[i].script@ == script);
        }
        if is_found(found, script, location) {
            let i = choose|i: int|
                0 <= i < found.len() && (#[trigger] found[i]).script@ == script
                    && found[i].location@ == location;
            if i < n {
                assert(rest[i].script@ == script);
            }
        }
        if found[n].script@ == script && found[n].location@ == location {
            assert(is_found(found, script, location));
        }
        if exists|i: int| 0 <= i < rest.len() && (#[trigger] rest[i]).script@ == script {
            let i = choose|i: int| 0 <= i < rest.len() && (#[trigger] rest[i]).script@ == script;
            assert(found[i].script@ == script);
        }
        if exists|i: int| 0 <= i < found.len() && (#[trigger] found[i]).script@ == script {
            let i = choose|i: int| 0 <= i < found.len() && (#[trigger] found[i]).script@ == script;
            if i < n {
                assert(rest[i].script@ == script);
            }
        }
    }
}

/// Whether a script's name contains the filter, whatever the case of its letters.
pub open spec fn is_wanted_script(name: Seq<char>, filter: Option<Seq<char>>) -> bool {
    filter matches Some(filter) ==> text::has_text(
        text::ascii_lower(name),
        text::ascii_lower(filter),
    )
}

proof fn lemma_matching(entries: Seq<Group>, filter: Option<Seq<char>>, n: int) -> (at: Seq<int>)
    requires
        0 <= n <= entries.len(),
    ensures
        laws::are_positions(at, n, |i: int| is_wanted_script(entries[i].key@, filter)),
        ({
            let found = game::matching(entries.take(n), filter);
            &&& found.len() == at.len()
            &&& forall|j: int|
                0 <= j < at.len() ==> (#[trigger] found[j]).script == entries[at[j]].key@
                    && found[j].locations == text::texts(entries[at[j]].values@)
        }),
    decreases n,
{
    let wanted = |i: int| is_wanted_script(entries[i].key@, filter);
    if n == 0 {
        Seq::empty()
    } else {
        let part = entries.take(n);
        assert(part.drop_last() =~= entries.take(n - 1));
        assert(part.last() == entries[n - 1]);
        let before = lemma_matching(entries, filter, n - 1);
        if wanted(n - 1) {
            lemma_positions_push(before, n - 1, wanted);
            before.push(n - 1)
        } else {
            lemma_positions_skip(before, n - 1, wanted);
            before
        }
    }
}

/// The scripts listed are exactly those whose name contains the filter, whatever the
/// case of its letters, or all of them, in order, each with all its locations.
pub proof fn scripts_are_listed_by_their_names(
    entries: Seq<Group>,
    filter: Option<Seq<char>>,
) -> (at: Seq<int>)
    ensures
        laws::are_positions(
            at,
            entries.len() as int,
            |i: int| is_wanted_script(entries[i].key@, filter),
        ),
        ({
            let found = game::matching(entries, filter);
            &&& found.len() == at.len()
            &&& forall|j: int|
                0 <= j < at.len() ==> (#[trigger] found[j]).script == entries[at[j]].key@
                    && found[j].locations == text::texts(entries[at[j]].values@)
        }),
{
    assert(entries.take(entries.len() as int) =~= entries);
    lemma_matching(entries, filter, entries.len() as int)
}

/// Whether a location is the first with its identity.
pub open spec fn is_first_of_identity(locations: Seq<Location>, i: int) -> bool {
    forall|j: int| 0 <= j < i ==> (#[trigger] locations[j]).identity != locations[i].identity
}

proof fn lemma_identities(locations: Seq<Location>, identity: u64)
    ensures
        addressables::identities(locations).contains(identity) <==> exists|j: int|
            0 <= j < locations.len() && (#[trigger] locations[j]).identity == identity,
        addressables::identities(locations).finite(),
    decreases locations.len(),
{
    if locations.len() > 0 {
        let rest = locations.drop_last();
        lemma_identities(rest, identity);
        if addressables::identities(rest).contains(identity) {
            let j = choose|j: int|
                0 <= j < rest.len() && (#[trigger] rest[j]).identity == identity;
            assert(locations[j].identity == identity);
        }
        if locations.last().identity == identity {
            assert(locations[locations.len() - 1].identity == identity);
        }
        if exists|j: int| 0 <= j < locations.len() && (#[trigger] locations[j]).identity
            == identity {
            let j = choose|j: int|
                0 <= j < locations.len() && (#[trigger] locations[j]).identity == identity;
            if j < rest.len() {
                assert(rest[j].identity == identity);
            }
        }
    }
}

proof fn lemma_distinct(locations: Seq<Location>, n: int) -> (at: Seq<int>)
    requires
        0 <= n <= locations.len(),
    ensures
        laws::are_positions(at, n, |i: int| is_first_of_identity(locations, i)),
        ({
            let found = addressables::distinct(locations.take(n));
            &&& found.len() == at.len()
            &&& found.len() == addressables::identities(locations.take(n)).len()
            &&& forall|j: int| 0 <= j < at.len() ==> #[trigger] found[j] == locations[at[j]]
        }),
    decreases n,
{
    let wanted = |i: int| is_first_of_identity(locations, i);
    if n == 0 {
        Seq::empty()
    } else {
        let part = locations.take(n);
        let rest = locations.take(n - 1);
        assert(part.drop_last() =~= rest);
        assert(part.last() == locations[n - 1]);
        let before = lemma_distinct(locations, n - 1);
        lemma_identities(rest, locations[n - 1].identity);
        if addressables::identities(rest).contains(locations[n - 1].identity) {
            let j = choose|j: int|
                0 <= j < rest.len() && (#[trigger] rest[j]).identity == locations[n - 1].identity;
            assert(locations[j].identity == locations[n - 1].identity);
            assert(!wanted(n - 1));
            assert(addressables::identities(part) =~= addressables::identities(rest));
            lemma_positions_skip(before, n - 1, wanted);
            before
        } else {
            assert(wanted(n - 1)) by {
                assert forall|j: int| 0 <= j < n - 1 implies (#[trigger] locations[j]).identity
                    != locations[n - 1].identity by {
                    assert(rest[j] == locations[j]);
                }
            }
            lemma_positions_push(before, n - 1, wanted);
            before.push(n - 1)
        }
    }
}

/// The overview counts a location once however often it is referred to: the locations
/// that it breaks down are the first of each identity, and it counts as many.
pub proof fn a_location_counts_once(locations: Seq<Location>) -> (at: Seq<int>)
    ensures
        laws::are_positions(
            at,
            locations.len() as int,
            |i: int| is_first_of_identity(locations, i),
        ),
        ({
            let found = addressables::distinct(locations);
            &&& found.len() == at.len()
            &&& found.len() == addressables::identities(locations).len()
            &&& forall|j: int| 0 <= j < at.len() ==> #[trigger] found[j] == locations[at[j]]
        }),
{
    assert(locations.take(locations.len() as int) =~= locations);
    lemma_distinct(locations, locations.len() as int)
}

/// The locations and keys of several catalogs are those of each of them, one after the
/// other.
pub proof fn catalogs_add_up(a: Seq<Catalog>, b: Seq<Catalog>, catalog: Catalog)
    ensures
        addressables::all_locations(a + b) == addressables::all_locations(a)
            + addressables::all_locations(b),
        addressables::all_locations(seq![catalog]) == catalog.locations@,
        addressables::key_count(a + b) == addressables::key_count(a) + addressables::key_count(b),
        addressables::key_count(seq![catalog]) == catalog.resources@.len(),
    decreases b.len(),
{
    let one = seq![catalog];
    assert(one.drop_last() =~= Seq::<Catalog>::empty());
    assert(addressables::all_locations(one.drop_last()) =~= Seq::<Location>::empty());
    assert(addressables::all_locations(one) =~= catalog.locations@);
    assert(addressables::key_count(one.drop_last()) == 0);
    if b.len() == 0 {
        assert(a + b =~= a);
        assert(addressables::all_locations(a) + addressables::all_locations(b)
            =~= addressables::all_locations(a));
    } else {
        catalogs_add_up(a, b.drop_last(), catalog);
        assert((a + b).drop_last() =~= a + b.drop_last());
        assert((a + b).last() == b.last());
        assert(addressables::all_locations(a + b) =~= addressables::all_locations(a)
            + addressables::all_locations(b));
    }
}

/// A directory holds the data of a game if its name ends in `_Data`, and a file never does.
pub proof fn a_data_directory_ends_in_data(entry: locate::DirEntry, stem: Seq<char>)
    ensures
        !entry.is_dir ==> !locate::is_data_dir(entry),
        entry.name is None ==> !locate::is_data_dir(entry),
        entry.is_dir && (entry.name matches Some(name) && name@ == stem + "_Data"@)
            ==> locate::is_data_dir(entry),
        locate::is_data_dir(entry) ==> (entry.name matches Some(name) && name@.len() >= 5
            && name@.skip(name@.len() - 5) == "_Data"@),
{
    reveal_strlit("_Data");
    if let Some(name) = entry.name {
        if name@ == stem + "_Data"@ {
            assert(name@.skip(name@.len() - 5) =~= "_Data"@);
        }
    }
}

/// What else a key stands for is told by the providers of those of its locations that are
/// no assets in bundles.
pub proof fn other_providers_are_told(locations: Seq<Location>, n: int) -> (at: Seq<int>)
    requires
        0 <= n <= locations.len(),
    ensures
        laws::are_positions(
            at,
            n,
            |i: int| locations[i].provider != Provider::BundledAsset,
        ),
        ctx::other_providers(locations.take(n)).len() == at.len(),
        forall|j: int|
            0 <= j < at.len() ==> ctx::other_providers(locations.take(n))[j]
                == locations[#[trigger] at[j]].provider_name@,
    decreases n,
{
    let wanted = |i: int| locations[i].provider != Provider::BundledAsset;
    if n == 0 {
        Seq::empty()
    } else {
        let before = other_providers_are_told(locations, n - 1);
        assert(locations.take(n).drop_last() =~= locations.take(n - 1));
        assert(locations.take(n).last() == locations[n - 1]);
        if locations[n - 1].provider != Provider::BundledAsset {
            lemma_positions_push(before, n - 1, wanted);
            before.push(n - 1)
        } else {
            lemma_positions_skip(before, n - 1, wanted);
            before
        }
    }
}

} // verus!
