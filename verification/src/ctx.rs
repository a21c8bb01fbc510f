//! Resolving the target of a command from the CLI flags and the game's catalogs:
//! which scenes there are, where an addressable lives, what its keys are.

use vstd::prelude::*;

use crate::cli::Context;
use crate::commands::file::preloads::{AssetBundle, AssetInfo};
use crate::group::Groups;
use crate::number::show_usize;
use crate::text::{is_listed, join, less, same};
use crate::{group, number, sort, text};

verus! {

/// The class of addressable scenes.
pub open spec fn scene_class() -> Seq<char> {
    "UnityEngine.ResourceManagement.ResourceProviders.SceneInstance"@
}

/// Where the game is looked for.
#[derive(Debug, PartialEq, Eq)]
pub enum GameSource {
    /// A steam game, by name or app id.
    Steam(String),
    /// A directory.
    Dir(String),
    /// At or above the current working directory, so running inside a game's folder
    /// needs no flags.
    CurrentDir,
}

/// Where the game is looked for: as the context flags say, steam first.
pub open spec fn source_of(game: Context) -> GameSource {
    match (game.steam_game, game.game_dir) {
        (Some(name), _) => GameSource::Steam(name),
        (None, Some(dir)) => GameSource::Dir(dir),
        (None, None) => GameSource::CurrentDir,
    }
}

/// The game directory from the context flags, or — when none are given — a unity
/// game discovered at or above the current working directory.
pub fn game_dir(game: Context) -> (r: GameSource)
    ensures
        r == source_of(game),
{
    match game.steam_game {
        Some(name) => GameSource::Steam(name),
        None => match game.game_dir {
            Some(dir) => GameSource::Dir(dir),
            None => GameSource::CurrentDir,
        },
    }
}

/// What is said where a game is needed and none is given.
pub open spec fn no_game_text() -> Seq<char> {
    "no game: pass --steam-game <name> / --game-dir <dir>, or run inside a game directory"@
}

/// The game; errors if no context was given.
pub fn require_game<T>(game: Option<T>) -> (r: Result<T, String>)
    ensures
        match game {
            Some(found) => r == Ok::<T, String>(found),
            None => r matches Err(e) && e@ == no_game_text(),
        },
{
    match game {
        Some(found) => Ok(found),
        None => Err(
            "no game: pass --steam-game <name> / --game-dir <dir>, or run inside a game directory".to_owned(),
        ),
    }
}

/// How a location of the catalog is provided.
#[derive(Debug, Clone, Copy, PartialEq, Eq, Structural)]
pub enum Provider {
    /// An asset bundle.
    AssetBundle,
    /// An asset in a bundle.
    BundledAsset,
    /// Anything else.
    Other,
}

/// What a location depends on.
#[derive(Debug, PartialEq, Eq)]
pub struct Dependency {
    pub provider: Provider,
    pub provider_name: String,
    /// The evaluated internal id.
    pub id: String,
    /// The id as a path, relative to the build folder where it is below it.
    pub relative: String,
}

/// A location of the catalog.
#[derive(Debug, PartialEq, Eq)]
pub struct Location {
    /// What tells it from other locations of the catalogs.
    pub identity: u64,
    pub provider: Provider,
    pub provider_name: String,
    /// The short name of the asset type.
    pub asset_type: String,
    /// The full name of the asset type.
    pub full_type: String,
    pub primary_key: String,
    /// The primary key as a path: its last part, without the extension.
    pub stem: Option<String>,
    /// The evaluated internal id.
    pub id: String,
    /// The id as a path, relative to the build folder where it is below it.
    pub relative: String,
    pub dependencies: Vec<Dependency>,
}

/// The locations that a key maps to.
#[derive(Debug, PartialEq, Eq)]
pub struct KeyLocations {
    pub key: String,
    pub locations: Vec<Location>,
}

/// A catalog of addressables: what its keys map to, and its locations, each as
/// often as it is referred to.
#[derive(Debug, PartialEq, Eq)]
pub struct Catalog {
    pub resources: Vec<KeyLocations>,
    pub locations: Vec<Location>,
}

/// The bundle of the first dependency on one.
pub open spec fn bundle_dependency(dependencies: Seq<Dependency>) -> Option<Seq<char>>
    decreases dependencies.len(),
{
    if dependencies.len() == 0 {
        None
    } else if dependencies[0].provider == Provider::AssetBundle {
        Some(dependencies[0].relative@)
    } else {
        bundle_dependency(dependencies.skip(1))
    }
}

/// The bundle that a location lives in: itself if it is one, else the one that it
/// depends on.
pub open spec fn bundle_of(location: Location) -> Option<Seq<char>> {
    if location.provider == Provider::AssetBundle {
        Some(location.relative@)
    } else {
        bundle_dependency(location.dependencies@)
    }
}

/// The bundle of the first dependency on one.
#[verifier::loop_isolation(false)]
fn first_bundle(dependencies: &Vec<Dependency>) -> (r: Option<String>)
    ensures
        text::text_opt(r) == bundle_dependency(dependencies@),
{
    let mut i: usize = 0;
    assert(dependencies@.skip(0) =~= dependencies@);
    while i < dependencies.len()
        invariant
            i <= dependencies@.len(),
            bundle_dependency(dependencies@) == bundle_dependency(dependencies@.skip(i as int)),
        decreases dependencies@.len() - i,
    {
        assert(dependencies@.skip(i as int).skip(1) =~= dependencies@.skip(i + 1));
        if dependencies[i].provider == Provider::AssetBundle {
            return Some(dependencies[i].relative.clone());
        }
        i += 1;
    }
    None
}

/// The bundle (relative to the build folder) an addressable location lives in:
/// itself if it is an `AssetBundle`, else its `AssetBundle` dependency.
pub fn location_bundle(location: &Location) -> (r: Option<String>)
    ensures
        text::text_opt(r) == bundle_of(*location),
{
    if location.provider == Provider::AssetBundle {
        Some(location.relative.clone())
    } else {
        first_bundle(&location.dependencies)
    }
}

/// What the first entry for a key maps to.
pub open spec fn locations_under(resources: Seq<KeyLocations>, key: Seq<char>) -> Seq<Location>
    decreases resources.len(),
{
    if resources.len() == 0 {
        Seq::empty()
    } else if resources[0].key@ == key {
        resources[0].locations@
    } else {
        locations_under(resources.skip(1), key)
    }
}

/// What a key maps to in all catalogs.
pub open spec fn locations_for(catalogs: Seq<Catalog>, key: Seq<char>) -> Seq<Location>
    decreases catalogs.len(),
{
    if catalogs.len() == 0 {
        Seq::empty()
    } else {
        locations_for(catalogs.drop_last(), key) + locations_under(catalogs.last().resources@, key)
    }
}

/// What the values behind references are.
pub open spec fn pointees(refs: Seq<&Location>) -> Seq<Location> {
    refs.map_values(|l: &Location| *l)
}

/// What the first entry for a key maps to.
#[verifier::loop_isolation(false)]
fn find_resource<'a>(resources: &'a Vec<KeyLocations>, key: &str) -> (r: Option<&'a Vec<Location>>)
    ensures
        match r {
            Some(locations) => locations_under(resources@, key@) == locations@,
            None => locations_under(resources@, key@) == Seq::<Location>::empty(),
        },
{
    let mut i: usize = 0;
    assert(resources@.skip(0) =~= resources@);
    while i < resources.len()
        invariant
            i <= resources@.len(),
            locations_under(resources@, key@) == locations_under(
                resources@.skip(i as int),
                key@,
            ),
        decreases resources@.len() - i,
    {
        assert(resources@.skip(i as int).skip(1) =~= resources@.skip(i + 1));
        if same(resources[i].key.as_str(), key) {
            return Some(&resources[i].locations);
        }
        i += 1;
    }
    None
}

/// What a key maps to in all catalogs. That — not the per-location `primary_key`,
/// which isn't unique — is what the key resolves to.
#[verifier::loop_isolation(false)]
pub fn find_locations<'a>(catalogs: &'a Vec<Catalog>, key: &str) -> (r: Vec<&'a Location>)
    ensures
        pointees(r@) == locations_for(catalogs@, key@),
{
    let mut out: Vec<&'a Location> = Vec::new();
    let mut i: usize = 0;
    assert(pointees(out@) =~= Seq::empty());
    while i < catalogs.len()
        invariant
            i <= catalogs@.len(),
            pointees(out@) == locations_for(catalogs@.take(i as int), key@),
        decreases catalogs@.len() - i,
    {
        assert(catalogs@.take(i + 1).drop_last() =~= catalogs@.take(i as int));
        let ghost before = pointees(out@);
        if let Some(locations) = find_resource(&catalogs[i].resources, key) {
            let mut j: usize = 0;
            assert(pointees(out@) =~= before + locations@.take(0));
            while j < locations.len()
                invariant
                    j <= locations@.len(),
                    pointees(out@) == before + locations@.take(j as int),
                decreases locations@.len() - j,
            {
                let ghost sofar = out@;
                out.push(&locations[j]);
                assert(pointees(out@) =~= pointees(sofar).push(locations@[j as int]));
                assert(pointees(out@) =~= before + locations@.take(j + 1));
                j += 1;
            }
            assert(locations@.take(j as int) =~= locations@);
        } else {
            assert(before + Seq::<Location>::empty() =~= before);
        }
        i += 1;
    }
    assert(catalogs@.take(i as int) =~= catalogs@);
    out
}

/// An asset in a bundle.
#[derive(Debug, PartialEq, Eq)]
pub struct BundledAsset {
    /// The bundle, relative to the build folder.
    pub bundle: String,
    /// The container key under which the bundle has the asset.
    pub container_key: String,
}

/// What a [`BundledAsset`] says.
#[verifier::ext_equal]
pub struct BundledAssetView {
    pub bundle: Seq<char>,
    pub container_key: Seq<char>,
}

impl View for BundledAsset {
    type V = BundledAssetView;

    open spec fn view(&self) -> BundledAssetView {
        BundledAssetView { bundle: self.bundle@, container_key: self.container_key@ }
    }
}

/// What bundled assets say.
pub open spec fn asset_views(assets: Seq<BundledAsset>) -> Seq<BundledAssetView> {
    assets.map_values(|a: BundledAsset| a@)
}

/// The assets in bundles among locations.
pub open spec fn bundled_among(locations: Seq<Location>) -> Seq<BundledAssetView>
    decreases locations.len(),
{
    if locations.len() == 0 {
        Seq::empty()
    } else {
        let before = bundled_among(locations.drop_last());
        let last = locations.last();
        match (last.provider, bundle_of(last)) {
            (Provider::BundledAsset, Some(bundle)) => before.push(
                BundledAssetView { bundle, container_key: last.id@ },
            ),
            _ => before,
        }
    }
}

/// The providers of those locations that are not assets in bundles.
pub open spec fn other_providers(locations: Seq<Location>) -> Seq<Seq<char>>
    decreases locations.len(),
{
    if locations.len() == 0 {
        Seq::empty()
    } else {
        let before = other_providers(locations.drop_last());
        if locations.last().provider == Provider::BundledAsset {
            before
        } else {
            before.push(locations.last().provider_name@)
        }
    }
}

/// The bundles of assets.
pub open spec fn bundles_of(assets: Seq<BundledAssetView>) -> Seq<Seq<char>> {
    assets.map_values(|a: BundledAssetView| a.bundle)
}

/// What is said where the game has no addressables.
pub open spec fn no_addressables_text() -> Seq<char> {
    "this game has no addressables"@
}

/// What is said of an unknown key.
pub open spec fn no_addressable_text(key: Seq<char>) -> Seq<char> {
    Seq::<char>::empty() + "no addressable with key '"@ + key + "'"@
}

/// The one asset in a bundle that a key stands for. Only such locations are backed
/// by a CAB that can be opened; other providers (and keys resolving to several
/// bundled assets) give an error with a hint.
pub open spec fn sole_asset(locations: Seq<Location>, key: Seq<char>) -> Result<
    BundledAssetView,
    Seq<char>,
> {
    let bundled = bundled_among(locations);
    let others = other_providers(locations);
    if bundled.len() == 1 {
        Ok(bundled[0])
    } else if bundled.len() == 0 && others.len() == 0 {
        Err(no_addressable_text(key))
    } else if bundled.len() == 0 {
        Err(
            Seq::<char>::empty() + "addressable '"@ + key
                + "' has no BundledAsset location to open (provider(s): "@ + text::joined(
                others,
                ", "@,
            ) + "); see `addressable "@ + key + " info`"@,
        )
    } else {
        Err(
            Seq::<char>::empty() + "addressable '"@ + key + "' resolves to "@ + number::decimal(
                bundled.len(),
            ) + " bundled assets ("@ + text::joined(bundles_of(bundled), ", "@)
                + "); open the bundle directly with `bundle <path> file <cab>`"@,
        )
    }
}

/// The bundles of assets.
fn asset_bundles(assets: &Vec<BundledAsset>) -> (out: Vec<String>)
    ensures
        text::texts(out@) == bundles_of(asset_views(assets@)),
{
    let mut out: Vec<String> = Vec::new();
    let mut i: usize = 0;
    while i < assets.len()
        invariant
            i <= assets@.len(),
            out@.len() == i,
            forall|k: int| 0 <= k < i ==> (#[trigger] out@[k])@ == assets@[k].bundle@,
        decreases assets@.len() - i,
    {
        out.push(assets[i].bundle.clone());
        i += 1;
    }
    assert(text::texts(out@) =~= bundles_of(asset_views(assets@)));
    out
}

/// Resolves an addressables key to the bundle that its asset lives in, and the
/// container key under which the bundle has it.
///
/// Only `BundledAssetProvider` locations are backed by a CAB we can open; other
/// providers (and keys resolving to several bundled assets) error with a hint.
#[verifier::loop_isolation(false)]
pub fn open_addressable(catalogs: &Option<Vec<Catalog>>, key: &str) -> (r: Result<
    BundledAsset,
    String,
>)
    ensures
        match *catalogs {
            Some(catalogs) => match sole_asset(locations_for(catalogs@, key@), key@) {
                Ok(asset) => r matches Ok(out) && out@ == asset,
                Err(reason) => r matches Err(e) && e@ == reason,
            },
            None => r matches Err(e) && e@ == no_addressables_text(),
        },
{
    let catalogs = match catalogs {
        Some(catalogs) => catalogs,
        None => {
            return Err("this game has no addressables".to_owned());
        },
    };
    // The bundled locations of this key, each with the container key (its evaluated
    // internal id) we later look the main asset up by.
    let locations = find_locations(catalogs, key);
    let ghost all = pointees(locations@);
    let mut bundled: Vec<BundledAsset> = Vec::new();
    let mut others: Vec<String> = Vec::new();
    let mut i: usize = 0;
    assert(asset_views(bundled@) =~= Seq::empty());
    assert(text::texts(others@) =~= Seq::empty());
    while i < locations.len()
        invariant
            i <= locations@.len(),
            all == pointees(locations@),
            asset_views(bundled@) == bundled_among(all.take(i as int)),
            text::texts(others@) == other_providers(all.take(i as int)),
        decreases locations@.len() - i,
    {
        assert(all.take(i + 1).drop_last() =~= all.take(i as int));
        let location = locations[i];
        assert(all[i as int] == *location);
        if location.provider == Provider::BundledAsset {
            if let Some(bundle) = location_bundle(location) {
                let ghost before = bundled@;
                let asset = BundledAsset { bundle, container_key: location.id.clone() };
                bundled.push(asset);
                assert(asset_views(bundled@) =~= asset_views(before).push(asset@));
            }
        } else {
            let ghost before = others@;
            others.push(location.provider_name.clone());
            assert(text::texts(others@) =~= text::texts(before).push(location.provider_name@));
        }
        i += 1;
    }
    assert(all.take(i as int) =~= all);
    let count: usize = bundled.len();
    if count == 1 {
        if let Some(asset) = bundled.pop() {
            return Ok(asset);
        }
    }
    let mut e = String::new();
    if count == 0 && others.len() == 0 {
        e.append("no addressable with key '");
        e.append(key);
        e.append("'");
    } else if count == 0 {
        e.append("addressable '");
        e.append(key);
        e.append("' has no BundledAsset location to open (provider(s): ");
        e.append(join(&others, ", ").as_str());
        e.append("); see `addressable ");
        e.append(key);
        e.append(" info`");
    } else {
        e.append("addressable '");
        e.append(key);
        e.append("' resolves to ");
        e.append(show_usize(count).as_str());
        e.append(" bundled assets (");
        e.append(join(&asset_bundles(&bundled), ", ").as_str());
        e.append("); open the bundle directly with `bundle <path> file <cab>`");
    }
    Err(e)
}

/// The asset of the first container entry with the given address.
pub open spec fn asset_under(container: Seq<AssetInfo>, address: Seq<char>) -> Option<i64>
    decreases container.len(),
{
    if container.len() == 0 {
        None
    } else if container[0].address@ == address {
        Some(container[0].asset.path_id)
    } else {
        asset_under(container.skip(1), address)
    }
}

/// The path id of the asset that a bundle has under a container key. The bundle's
/// `AssetBundle` maps each container entry (the addressable's internal id) to the
/// `PPtr` of its main asset.
#[verifier::loop_isolation(false)]
pub fn container_asset(
    asset_bundle: &Result<Option<AssetBundle>, String>,
    container_key: &str,
) -> (r: Result<i64, String>)
    ensures
        match *asset_bundle {
            Ok(Some(bundle)) => match asset_under(bundle.container@, container_key@) {
                Some(path_id) => r == Ok::<i64, String>(path_id),
                None => r matches Err(e) && e@ == Seq::<char>::empty()
                    + "AssetBundle container has no entry '"@ + container_key@ + "'"@,
            },
            Ok(None) => r matches Err(e) && e@ == "bundle's main file has no AssetBundle object"@,
            Err(reason) => r matches Err(e) && e@ == reason@,
        },
{
    let bundle = match asset_bundle {
        Ok(Some(bundle)) => bundle,
        Ok(None) => {
            return Err("bundle's main file has no AssetBundle object".to_owned());
        },
        Err(e) => {
            return Err(e.clone());
        },
    };
    let mut i: usize = 0;
    assert(bundle.container@.skip(0) =~= bundle.container@);
    while i < bundle.container.len()
        invariant
            i <= bundle.container@.len(),
            asset_under(bundle.container@, container_key@) == asset_under(
                bundle.container@.skip(i as int),
                container_key@,
            ),
        decreases bundle.container@.len() - i,
    {
        assert(bundle.container@.skip(i as int).skip(1) =~= bundle.container@.skip(i + 1));
        if same(bundle.container[i].address.as_str(), container_key) {
            return Ok(bundle.container[i].asset.path_id);
        }
        i += 1;
    }
    let mut e = String::new();
    e.append("AssetBundle container has no entry '");
    e.append(container_key);
    e.append("'");
    Err(e)
}

/// Whether a key stands for asset bundles only: a key of the load machinery.
pub open spec fn only_bundles(locations: Seq<Location>) -> bool {
    locations.len() > 0 && forall|i: int|
        0 <= i < locations.len() ==> (#[trigger] locations[i]).provider == Provider::AssetBundle
}

/// The asset types of locations.
pub open spec fn types_of(locations: Seq<Location>) -> Set<Seq<char>>
    decreases locations.len(),
{
    if locations.len() == 0 {
        Set::empty()
    } else {
        types_of(locations.drop_last()).insert(locations.last().asset_type@)
    }
}

/// The keys of one catalog added to those before: each with the asset types that it
/// resolves to.
pub open spec fn with_keys(
    before: Map<Seq<char>, Set<Seq<char>>>,
    resources: Seq<KeyLocations>,
    include_asset_bundles: bool,
) -> Map<Seq<char>, Set<Seq<char>>>
    decreases resources.len(),
{
    if resources.len() == 0 {
        before
    } else {
        let map = with_keys(before, resources.drop_last(), include_asset_bundles);
        let last = resources.last();
        if !include_asset_bundles && only_bundles(last.locations@) {
            map
        } else {
            map.insert(
                last.key@,
                group::under(map, last.key@).union(types_of(last.locations@)),
            )
        }
    }
}

/// The keys of all catalogs.
pub open spec fn all_keys(catalogs: Seq<Catalog>, include_asset_bundles: bool) -> Map<
    Seq<char>,
    Set<Seq<char>>,
>
    decreases catalogs.len(),
{
    if catalogs.len() == 0 {
        Map::empty()
    } else {
        with_keys(
            all_keys(catalogs.drop_last(), include_asset_bundles),
            catalogs.last().resources@,
            include_asset_bundles,
        )
    }
}

/// Whether a key stands for asset bundles only.
fn is_machinery(locations: &Vec<Location>) -> (r: bool)
    ensures
        r == only_bundles(locations@),
{
    if locations.len() == 0 {
        return false;
    }
    let mut i: usize = 0;
    while i < locations.len()
        invariant
            i <= locations@.len(),
            forall|k: int|
                0 <= k < i ==> (#[trigger] locations@[k]).provider == Provider::AssetBundle,
        decreases locations@.len() - i,
    {
        if locations[i].provider != Provider::AssetBundle {
            return false;
        }
        i += 1;
    }
    true
}

/// Adds one key with the asset types that it resolves to.
#[verifier::loop_isolation(false)]
fn put_key(keys: &mut Groups, resource: &KeyLocations)
    requires
        old(keys).wf(),
    ensures
        final(keys).wf(),
        final(keys)@ == old(keys)@.insert(
            resource.key@,
            group::under(old(keys)@, resource.key@).union(types_of(resource.locations@)),
        ),
{
    let ghost start = keys@;
    let ghost all = resource.locations@;
    keys.touch(resource.key.as_str());
    let mut i: usize = 0;
    proof {
        let types = group::under(start, resource.key@);
        assert(all.take(0) =~= Seq::empty());
        assert(types.union(types_of(all.take(0))) =~= types);
    }
    while i < resource.locations.len()
        invariant
            i <= all.len(),
            all == resource.locations@,
            keys.wf(),
            keys@ == start.insert(
                resource.key@,
                group::under(start, resource.key@).union(types_of(all.take(i as int))),
            ),
        decreases all.len() - i,
    {
        assert(all.take(i + 1).drop_last() =~= all.take(i as int));
        let ghost before = keys@;
        keys.put(resource.key.as_str(), resource.locations[i].asset_type.clone());
        proof {
            let types = group::under(start, resource.key@);
            assert(types.union(types_of(all.take(i + 1))) =~= types.union(
                types_of(all.take(i as int)),
            ).insert(all[i as int].asset_type@));
            assert(keys@ =~= start.insert(resource.key@, types.union(types_of(all.take(i + 1)))));
        }
        i += 1;
    }
    assert(all.take(i as int) =~= all);
}

/// Every addressables key mapped to the distinct asset type names it resolves to
/// (e.g. `AreaAbyss` → {`AtmosCue`, `MusicCue`}), in order. Empty without
/// addressables.
///
/// Unless `include_asset_bundles` is set, keys that resolve only to `AssetBundle`
/// resources (the internal `*.bundle` provider entries, `IAssetBundleResource`)
/// are skipped — they're load-machinery keys, not user-facing assets, and can't be
/// opened as an addressable anyway (use `bundle <path>` for those).
#[verifier::loop_isolation(false)]
pub fn addressable_keys(catalogs: &Option<Vec<Catalog>>, include_asset_bundles: bool) -> (keys:
    Groups)
    ensures
        keys.wf(),
        keys@ == (match *catalogs {
            Some(catalogs) => all_keys(catalogs@, include_asset_bundles),
            None => Map::empty(),
        }),
{
    let mut keys = Groups::new();
    if let Some(catalogs) = catalogs {
        let mut i: usize = 0;
        while i < catalogs.len()
            invariant
                i <= catalogs@.len(),
                keys.wf(),
                keys@ == all_keys(catalogs@.take(i as int), include_asset_bundles),
            decreases catalogs@.len() - i,
        {
            assert(catalogs@.take(i + 1).drop_last() =~= catalogs@.take(i as int));
            let ghost before = keys@;
            let resources = &catalogs[i].resources;
            let mut j: usize = 0;
            while j < resources.len()
                invariant
                    j <= resources@.len(),
                    keys.wf(),
                    keys@ == with_keys(before, resources@.take(j as int), include_asset_bundles),
                decreases resources@.len() - j,
            {
                assert(resources@.take(j + 1).drop_last() =~= resources@.take(j as int));
                if include_asset_bundles || !is_machinery(&resources[j].locations) {
                    put_key(&mut keys, &resources[j]);
                }
                j += 1;
            }
            assert(resources@.take(j as int) =~= resources@);
            i += 1;
        }
        assert(catalogs@.take(i as int) =~= catalogs@);
    }
    keys
}

/// Where a scene's data lives.
#[derive(Debug, PartialEq, Eq)]
pub enum SceneSource {
    /// A built-in scene: the `levelN` serialized file at this build index.
    Level(usize),
    /// An addressables scene, in this bundle (relative to the build folder).
    Bundle(String),
}

/// A scene and where its data lives.
#[derive(Debug, PartialEq, Eq)]
pub struct Scene {
    pub name: String,
    pub source: SceneSource,
}

impl SceneSource {
    /// Short label for listings/completion (`level3`, path/to/foo.bundle`).
    pub open spec fn label_text(self) -> Seq<char> {
        match self {
            SceneSource::Level(index) => Seq::<char>::empty() + "level"@ + number::decimal(
                index as nat,
            ),
            SceneSource::Bundle(path) => path@,
        }
    }

    /// Short label for listings/completion (`level3`, path/to/foo.bundle`).
    pub fn label(&self) -> (r: String)
        ensures
            r@ == self.label_text(),
    {
        match self {
            SceneSource::Level(index) => {
                let mut out = String::new();
                out.append("level");
                out.append(show_usize(*index).as_str());
                out
            },
            SceneSource::Bundle(path) => path.clone(),
        }
    }
}

/// The addressables scene that a location stands for: its name and its bundle.
pub open spec fn scene_at(location: Location) -> Option<(Seq<char>, Seq<char>)> {
    if location.provider == Provider::BundledAsset && location.full_type@ == scene_class() {
        match (location.stem, bundle_dependency(location.dependencies@)) {
            (Some(name), Some(bundle)) => Some((name@, bundle)),
            _ => None,
        }
    } else {
        None
    }
}

/// The addressables scenes of locations, added to those before: by name, the first
/// of a name counts, and a built-in scene outweighs one of its name.
pub open spec fn with_scenes(
    before: Map<Seq<char>, Seq<char>>,
    builtin: Seq<Seq<char>>,
    locations: Seq<Location>,
) -> Map<Seq<char>, Seq<char>>
    decreases locations.len(),
{
    if locations.len() == 0 {
        before
    } else {
        let map = with_scenes(before, builtin, locations.drop_last());
        match scene_at(locations.last()) {
            Some((name, bundle)) => if builtin.contains(name) || map.contains_key(name) {
                map
            } else {
                map.insert(name, bundle)
            },
            None => map,
        }
    }
}

/// The addressables scenes of catalogs.
pub open spec fn addressable_scenes(builtin: Seq<Seq<char>>, catalogs: Seq<Catalog>) -> Map<
    Seq<char>,
    Seq<char>,
>
    decreases catalogs.len(),
{
    if catalogs.len() == 0 {
        Map::empty()
    } else {
        with_scenes(
            addressable_scenes(builtin, catalogs.drop_last()),
            builtin,
            catalogs.last().locations@,
        )
    }
}

/// The names of scenes.
pub open spec fn scene_names(scenes: Seq<Scene>) -> Seq<Seq<char>> {
    scenes.map_values(|s: Scene| s.name@)
}

/// Whether scenes are the built-in ones in build order, followed by the
/// addressables ones in the order of their names.
pub open spec fn are_scenes(
    scenes: Seq<Scene>,
    builtin: Seq<Seq<char>>,
    addressable: Map<Seq<char>, Seq<char>>,
) -> bool {
    let n = builtin.len() as int;
    let rest = scenes.skip(n);
    &&& scenes.len() >= n
    &&& forall|i: int|
        0 <= i < n ==> (#[trigger] scenes[i]).name@ == builtin[i] && scenes[i].source
            == SceneSource::Level(i as usize)
    &&& group::ascending(scene_names(rest))
    &&& forall|name: Seq<char>|
        #[trigger] addressable.contains_key(name) <==> scene_names(rest).contains(name)
    &&& forall|i: int|
        0 <= i < rest.len() ==> ((#[trigger] rest[i]).source matches SceneSource::Bundle(path)
            && path@ == addressable[rest[i].name@])
}

/// Whether scenes are those of the map, in the order of their names.
pub open spec fn holds_scenes(scenes: Seq<Scene>, map: Map<Seq<char>, Seq<char>>) -> bool {
    &&& group::ascending(scene_names(scenes))
    &&& forall|name: Seq<char>|
        #[trigger] map.contains_key(name) <==> scene_names(scenes).contains(name)
    &&& forall|i: int|
        0 <= i < scenes.len() ==> ((#[trigger] scenes[i]).source matches SceneSource::Bundle(path)
            && path@ == map[scenes[i].name@])
}

/// Adds a scene, unless there is one of its name.
#[verifier::loop_isolation(false)]
fn put_scene(scenes: &mut Vec<Scene>, name: &str, bundle: String, Ghost(map): Ghost<
    Map<Seq<char>, Seq<char>>,
>)
    requires
        holds_scenes(old(scenes)@, map),
    ensures
        holds_scenes(
            final(scenes)@,
            if map.contains_key(name@) {
                map
            } else {
                map.insert(name@, bundle@)
            },
        ),
{
    let ghost all = scenes@;
    let ghost names = scene_names(all);
    let mut p: usize = 0;
    while p < scenes.len() && less(scenes[p].name.as_str(), name)
        invariant
            p <= scenes@.len(),
            scenes@ == all,
            forall|i: int| 0 <= i < p ==> text::sorts_before(#[trigger] names[i], name@),
        decreases scenes@.len() - p,
    {
        assert(names[p as int] == all[p as int].name@);
        p += 1;
    }
    if p < scenes.len() && same(scenes[p].name.as_str(), name) {
        assert(names[p as int] == name@);
        assert(names.contains(name@));
        return;
    }
    let ghost at = p as int;
    proof {
        if p < all.len() {
            assert(names[at] == all[at].name@);
            sort::lemma_text_order(names[at], name@);
        }
        assert(!names.contains(name@)) by {
            if names.contains(name@) {
                let i = choose|i: int| 0 <= i < names.len() && names[i] == name@;
                if i < at {
                    assert(text::sorts_before(names[i], name@));
                    sort::lemma_text_order(name@, name@);
                } else if i > at {
                    assert(text::sorts_before(names[at], names[i]));
                    sort::lemma_text_order(names[at], name@);
                }
            }
        }
        group::lemma_ascending_insert(names, at, name@);
    }
    let scene = Scene { name: name.to_owned(), source: SceneSource::Bundle(bundle) };
    scenes.insert(p, scene);
    proof {
        let out = scenes@;
        let more = map.insert(name@, bundle@);
        assert(scene_names(out) =~= names.insert(at, name@));
        assert forall|n: Seq<char>|
            #[trigger] more.contains_key(n) <==> scene_names(out).contains(n) by {
            assert(map.contains_key(n) <==> names.contains(n));
            if names.contains(n) {
                let i = choose|i: int| 0 <= i < names.len() && names[i] == n;
                if i < at {
                    assert(scene_names(out)[i] == n);
                } else {
                    assert(scene_names(out)[i + 1] == n);
                }
            }
            if n == name@ {
                assert(scene_names(out)[at] == n);
            }
            if scene_names(out).contains(n) && n != name@ {
                let i = choose|i: int| 0 <= i < out.len() && scene_names(out)[i] == n;
                if i < at {
                    assert(names[i] == n);
                } else {
                    assert(names[i - 1] == n);
                }
            }
        }
        assert forall|i: int| 0 <= i < out.len() implies ((#[trigger] out[i]).source matches
            SceneSource::Bundle(path) && path@ == more[out[i].name@]) by {
            if i < at {
                assert(out[i] == all[i]);
                assert(names[i] == all[i].name@);
                assert(names.contains(all[i].name@));
            } else if i > at {
                assert(out[i] == all[i - 1]);
                assert(names[i - 1] == all[i - 1].name@);
                assert(names.contains(all[i - 1].name@));
            }
        }
    }
}

/// The addressables scene that a location stands for.
fn location_scene(location: &Location) -> (r: Option<(String, String)>)
    ensures
        match r {
            Some((name, bundle)) => scene_at(*location) == Some((name@, bundle@)),
            None => scene_at(*location) is None,
        },
{
    if location.provider != Provider::BundledAsset || !same(
        location.full_type.as_str(),
        "UnityEngine.ResourceManagement.ResourceProviders.SceneInstance",
    ) {
        return None;
    }
    match &location.stem {
        // The scene's bundle is its `AssetBundle` dependency.
        Some(name) => match first_bundle(&location.dependencies) {
            Some(bundle) => Some((name.clone(), bundle)),
            None => None,
        },
        None => None,
    }
}

/// All scenes: built-in scenes (from `BuildSettings`, in build order) followed by
/// addressables scenes (deduped, sorted), each tagged with its source.
#[verifier::loop_isolation(false)]
pub fn scenes(builtin: &Vec<String>, catalogs: &Option<Vec<Catalog>>) -> (r: Vec<Scene>)
    ensures
        are_scenes(
            r@,
            text::texts(builtin@),
            match *catalogs {
                Some(catalogs) => addressable_scenes(text::texts(builtin@), catalogs@),
                None => Map::empty(),
            },
        ),
{
    let ghost known = text::texts(builtin@);
    let mut addressable: Vec<Scene> = Vec::new();
    let ghost mut map: Map<Seq<char>, Seq<char>> = Map::empty();
    assert(scene_names(addressable@) =~= Seq::empty());
    if let Some(catalogs) = catalogs {
        let mut i: usize = 0;
        while i < catalogs.len()
            invariant
                i <= catalogs@.len(),
                known == text::texts(builtin@),
                map == addressable_scenes(known, catalogs@.take(i as int)),
                holds_scenes(addressable@, map),
            decreases catalogs@.len() - i,
        {
            assert(catalogs@.take(i + 1).drop_last() =~= catalogs@.take(i as int));
            let ghost before = map;
            let locations = &catalogs[i].locations;
            let mut j: usize = 0;
            while j < locations.len()
                invariant
                    j <= locations@.len(),
                    map == with_scenes(before, known, locations@.take(j as int)),
                    holds_scenes(addressable@, map),
                decreases locations@.len() - j,
            {
                assert(locations@.take(j + 1).drop_last() =~= locations@.take(j as int));
                if let Some((name, bundle)) = location_scene(&locations[j]) {
                    if !is_listed(builtin, name.as_str()) {
                        let ghost path = bundle@;
                        put_scene(&mut addressable, name.as_str(), bundle, Ghost(map));
                        proof {
                            if !map.contains_key(name@) {
                                map = map.insert(name@, path);
                            }
                        }
                    }
                }
                j += 1;
            }
            assert(locations@.take(j as int) =~= locations@);
            i += 1;
        }
        assert(catalogs@.take(i as int) =~= catalogs@);
    }
    let mut out: Vec<Scene> = Vec::new();
    let mut i: usize = 0;
    while i < builtin.len()
        invariant
            i <= builtin@.len(),
            out@.len() == i,
            forall|k: int|
                0 <= k < i ==> (#[trigger] out@[k]).name@ == known[k] && out@[k].source
                    == SceneSource::Level(k as usize),
        decreases builtin@.len() - i,
    {
        out.push(Scene { name: builtin[i].clone(), source: SceneSource::Level(i) });
        i += 1;
    }
    let ghost rest = addressable@;
    out.append(&mut addressable);
    assert(out@.skip(known.len() as int) =~= rest);
    out
}

/// The first scene with the given name.
pub open spec fn scene_named(scenes: Seq<Scene>, name: Seq<char>) -> Option<Scene>
    decreases scenes.len(),
{
    if scenes.len() == 0 {
        None
    } else if scenes[0].name@ == name {
        Some(scenes[0])
    } else {
        scene_named(scenes.skip(1), name)
    }
}

/// The scene with the given name.
#[verifier::loop_isolation(false)]
pub fn open_scene<'a>(scenes: &'a Vec<Scene>, name: &str) -> (r: Result<&'a Scene, String>)
    ensures
        match scene_named(scenes@, name@) {
            Some(scene) => r == Ok::<&Scene, String>(&scene),
            None => r matches Err(e) && e@ == Seq::<char>::empty() + "no scene '"@ + name@
                + "' in build settings or addressables catalog"@,
        },
{
    let mut i: usize = 0;
    assert(scenes@.skip(0) =~= scenes@);
    while i < scenes.len()
        invariant
            i <= scenes@.len(),
            scene_named(scenes@, name@) == scene_named(scenes@.skip(i as int), name@),
        decreases scenes@.len() - i,
    {
        assert(scenes@.skip(i as int).skip(1) =~= scenes@.skip(i + 1));
        if same(scenes[i].name.as_str(), name) {
            return Ok(&scenes[i]);
        }
        i += 1;
    }
    let mut e = String::new();
    e.append("no scene '");
    e.append(name);
    e.append("' in build settings or addressables catalog");
    Err(e)
}

/// Whether some entry of the catalog lists a key.
pub open spec fn lists_key(
    resources: Seq<KeyLocations>,
    include_asset_bundles: bool,
    key: Seq<char>,
) -> bool {
    exists|i: int|
        0 <= i < resources.len() && (#[trigger] resources[i]).key@ == key && (include_asset_bundles
            || !only_bundles(resources[i].locations@))
}

proof fn lemma_with_keys(
    before: Map<Seq<char>, Set<Seq<char>>>,
    resources: Seq<KeyLocations>,
    include_asset_bundles: bool,
    key: Seq<char>,
)
    ensures
        with_keys(before, resources, include_asset_bundles).contains_key(key) <==> (
        before.contains_key(key) || lists_key(resources, include_asset_bundles, key)),
    decreases resources.len(),
{
    if resources.len() > 0 {
        let short = resources.drop_last();
        lemma_with_keys(before, short, include_asset_bundles, key);
        let last = resources.len() - 1;
        if lists_key(short, include_asset_bundles, key) {
            let i = choose|i: int|
                0 <= i < short.len() && (#[trigger] short[i]).key@ == key && (include_asset_bundles
                    || !only_bundles(short[i].locations@));
            assert(resources[i].key@ == key);
        }
        if lists_key(resources, include_asset_bundles, key) {
            let i = choose|i: int|
                0 <= i < resources.len() && (#[trigger] resources[i]).key@ == key && (
                include_asset_bundles || !only_bundles(resources[i].locations@));
            if i < last {
                assert(short[i].key@ == key);
            }
        }
        assert(resources[last] == resources.last());
    }
}

/// A key is listed exactly if some catalog maps it to anything but asset bundles
/// alone; with `include_asset_bundles`, if some catalog has it at all.
pub proof fn listed_keys(catalogs: Seq<Catalog>, include_asset_bundles: bool, key: Seq<char>)
    ensures
        all_keys(catalogs, include_asset_bundles).contains_key(key) <==> exists|c: int|
            0 <= c < catalogs.len() && lists_key(
                (#[trigger] catalogs[c]).resources@,
                include_asset_bundles,
                key,
            ),
    decreases catalogs.len(),
{
    if catalogs.len() > 0 {
        let short = catalogs.drop_last();
        let last = catalogs.len() - 1;
        listed_keys(short, include_asset_bundles, key);
        lemma_with_keys(
            all_keys(short, include_asset_bundles),
            catalogs.last().resources@,
            include_asset_bundles,
            key,
        );
        if exists|c: int|
            0 <= c < short.len() && lists_key(
                (#[trigger] short[c]).resources@,
                include_asset_bundles,
                key,
            ) {
            let c = choose|c: int|
                0 <= c < short.len() && lists_key(
                    (#[trigger] short[c]).resources@,
                    include_asset_bundles,
                    key,
                );
            assert(catalogs[c] == short[c]);
        }
        if exists|c: int|
            0 <= c < catalogs.len() && lists_key(
                (#[trigger] catalogs[c]).resources@,
                include_asset_bundles,
                key,
            ) {
            let c = choose|c: int|
                0 <= c < catalogs.len() && lists_key(
                    (#[trigger] catalogs[c]).resources@,
                    include_asset_bundles,
                    key,
                );
            if c < last {
                assert(short[c] == catalogs[c]);
            }
        }
        assert(catalogs[last] == catalogs.last());
    }
}

proof fn lemma_with_scenes_not_builtin(
    before: Map<Seq<char>, Seq<char>>,
    builtin: Seq<Seq<char>>,
    locations: Seq<Location>,
    name: Seq<char>,
)
    requires
        builtin.contains(name),
        !before.contains_key(name),
    ensures
        !with_scenes(before, builtin, locations).contains_key(name),
    decreases locations.len(),
{
    if locations.len() > 0 {
        lemma_with_scenes_not_builtin(before, builtin, locations.drop_last(), name);
    }
}

/// No addressables scene has the name of a built-in one.
pub proof fn addressable_scenes_do_not_shadow(
    builtin: Seq<Seq<char>>,
    catalogs: Seq<Catalog>,
    name: Seq<char>,
)
    requires
        builtin.contains(name),
    ensures
        !addressable_scenes(builtin, catalogs).contains_key(name),
    decreases catalogs.len(),
{
    if catalogs.len() > 0 {
        addressable_scenes_do_not_shadow(builtin, catalogs.drop_last(), name);
        lemma_with_scenes_not_builtin(
            addressable_scenes(builtin, catalogs.drop_last()),
            builtin,
            catalogs.last().locations@,
            name,
        );
    }
}

proof fn lemma_scene_found(scenes: Seq<Scene>, i: int)
    requires
        0 <= i < scenes.len(),
        forall|k: int| 0 <= k < i ==> (#[trigger] scenes[k]).name@ != scenes[i].name@,
    ensures
        scene_named(scenes, scenes[i].name@) == Some(scenes[i]),
    decreases i,
{
    if i > 0 {
        let rest = scenes.skip(1);
        assert forall|k: int| 0 <= k < i - 1 implies (#[trigger] rest[k]).name@
            != rest[i - 1].name@ by {
            assert(rest[k] == scenes[k + 1]);
        }
        lemma_scene_found(rest, i - 1);
    }
}

/// Every listed addressables scene is the one that its name opens.
pub proof fn listed_scene_opens(
    scenes: Seq<Scene>,
    builtin: Seq<Seq<char>>,
    catalogs: Seq<Catalog>,
    i: int,
)
    requires
        are_scenes(scenes, builtin, addressable_scenes(builtin, catalogs)),
        builtin.len() <= i < scenes.len(),
    ensures
        scene_named(scenes, scenes[i].name@) == Some(scenes[i]),
{
    let n = builtin.len() as int;
    let rest = scenes.skip(n);
    let name = scenes[i].name@;
    assert(scene_names(rest)[i - n] == name);
    assert(scene_names(rest).contains(name));
    assert(addressable_scenes(builtin, catalogs).contains_key(name));
    assert forall|k: int| 0 <= k < i implies (#[trigger] scenes[k]).name@ != name by {
        if k < n {
            if scenes[k].name@ == name {
                assert(builtin[k] == name);
                addressable_scenes_do_not_shadow(builtin, catalogs, name);
            }
        } else {
            assert(scene_names(rest)[k - n] == scenes[k].name@);
            assert(text::sorts_before(scene_names(rest)[k - n], scene_names(rest)[i - n]));
            sort::lemma_text_order(scenes[k].name@, name);
        }
    }
    lemma_scene_found(scenes, i);
}

} // verus!
