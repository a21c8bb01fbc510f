//! Addressables, scenes, bundles, steam games and the game summary.

use rabex_cli::cli::Context;
use rabex_cli::commands::addressable::{addressable_info, dependency_label};
use rabex_cli::commands::addressables::{
    addressable_ls, addressable_stats, sorted_breakdown, Count,
};
use rabex_cli::commands::bundle::{self, Bundles, FileEntry};
use rabex_cli::commands::file::preloads::{preloads, AssetBundle, AssetInfo};
use rabex_cli::commands::file::{bundle_name, CabBundle, External};
use rabex_cli::commands::files::Files;
use rabex_cli::commands::game::{self, Addressables, FoundScript};
use rabex_cli::commands::scenes::{self, SceneEntry, Scenes};
use rabex_cli::ctx::{
    addressable_keys, container_asset, find_locations, game_dir, location_bundle,
    open_addressable, open_scene, require_game, BundledAsset, Catalog, Dependency, GameSource,
    KeyLocations, Location, Provider, Scene, SceneSource,
};
use rabex_cli::group::Groups;
use rabex_cli::json::Json;
use rabex_cli::locate::{
    best_match, find_game, find_unity_data_dir, needle_for, no_app_id, no_data_dir, no_game,
    search_transform, DirEntry, Needle, SteamApp,
};
use rabex_cli::model::{Object, Pptr, SceneFile};
use rabex_cli::output::Render;

const SCENE_INSTANCE: &str = "UnityEngine.ResourceManagement.ResourceProviders.SceneInstance";

fn texts(list: &[&str]) -> Vec<String> {
    list.iter().map(|s| s.to_string()).collect()
}

fn dependency(provider: Provider, relative: &str) -> Dependency {
    let provider_name = match provider {
        Provider::AssetBundle => "AssetBundleProvider",
        Provider::BundledAsset => "BundledAssetProvider",
        Provider::Other => "TextDataProvider",
    };
    Dependency {
        provider,
        provider_name: provider_name.to_owned(),
        id: format!("aa/{relative}"),
        relative: relative.to_owned(),
    }
}

fn location(
    identity: u64,
    provider: Provider,
    asset_type: &str,
    id: &str,
    dependencies: Vec<Dependency>,
) -> Location {
    let like = dependency(provider, id);
    Location {
        identity,
        provider: like.provider,
        provider_name: like.provider_name,
        asset_type: asset_type.to_owned(),
        full_type: format!("UnityEngine.{asset_type}"),
        primary_key: format!("key/{id}.x"),
        stem: Some(id.to_owned()),
        id: like.id,
        relative: like.relative,
        dependencies,
    }
}

fn scene_location(identity: u64, name: Option<&str>, bundle: Option<&str>) -> Location {
    let dependencies = match bundle {
        Some(path) => vec![
            dependency(Provider::Other, "shared"),
            dependency(Provider::AssetBundle, path),
        ],
        None => Vec::new(),
    };
    Location {
        full_type: SCENE_INSTANCE.to_owned(),
        stem: name.map(str::to_owned),
        ..location(identity, Provider::BundledAsset, "SceneInstance", "scene", dependencies)
    }
}

fn key(key: &str, locations: Vec<Location>) -> KeyLocations {
    KeyLocations { key: key.to_owned(), locations }
}

fn catalogs() -> Option<Vec<Catalog>> {
    let abyss = || {
        location(
            1,
            Provider::BundledAsset,
            "MusicCue",
            "abyss",
            vec![
                dependency(Provider::AssetBundle, "music.bundle"),
                dependency(Provider::Other, "notes"),
            ],
        )
    };
    let atmos = || location(2, Provider::BundledAsset, "AtmosCue", "atmos", Vec::new());
    let bundle = || {
        location(3, Provider::AssetBundle, "IAssetBundleResource", "music.bundle", Vec::new())
    };
    let notes = || location(4, Provider::Other, "TextAsset", "notes", Vec::new());
    Some(vec![
        Catalog {
            resources: vec![
                key("AreaAbyss", vec![abyss(), atmos(), abyss()]),
                key("Abyss", vec![abyss()]),
                key("music.bundle", vec![bundle()]),
                key("Notes", vec![notes()]),
                key("Empty", Vec::new()),
            ],
            locations: vec![abyss(), atmos(), abyss(), abyss(), bundle(), notes()],
        },
        Catalog { resources: vec![key("Notes", vec![notes()])], locations: vec![notes()] },
    ])
}

#[test]
fn a_location_leads_to_its_bundle() {
    let at = |provider, dependencies| {
        location_bundle(&location(1, provider, "T", "self.bundle", dependencies))
    };
    assert_eq!(at(Provider::AssetBundle, Vec::new()), Some("self.bundle".to_owned()));
    assert_eq!(
        at(
            Provider::BundledAsset,
            vec![
                dependency(Provider::Other, "a"),
                dependency(Provider::AssetBundle, "b.bundle"),
                dependency(Provider::AssetBundle, "c.bundle"),
            ]
        ),
        Some("b.bundle".to_owned())
    );
    assert_eq!(at(Provider::BundledAsset, Vec::new()), None);
}

#[test]
fn a_key_opens_its_one_bundled_asset() {
    assert_eq!(
        open_addressable(&catalogs(), "Abyss"),
        Ok(BundledAsset {
            bundle: "music.bundle".to_owned(),
            container_key: "aa/abyss".to_owned(),
        })
    );
    assert_eq!(
        open_addressable(&catalogs(), "AreaAbyss"),
        Err("addressable 'AreaAbyss' resolves to 2 bundled assets (music.bundle, music.bundle); \
             open the bundle directly with `bundle <path> file <cab>`"
            .to_owned())
    );
    assert_eq!(
        open_addressable(&catalogs(), "Notes"),
        Err("addressable 'Notes' has no BundledAsset location to open (provider(s): \
             TextDataProvider, TextDataProvider); see `addressable Notes info`"
            .to_owned())
    );
    assert_eq!(
        open_addressable(&catalogs(), "Nope"),
        Err("no addressable with key 'Nope'".to_owned())
    );
    assert_eq!(
        open_addressable(&None, "Nope"),
        Err("this game has no addressables".to_owned())
    );
    assert_eq!(find_locations(&catalogs().unwrap(), "Notes").len(), 2);
}

fn asset_bundle() -> AssetBundle {
    AssetBundle {
        preload_table: vec![
            Pptr::local(1),
            Pptr { file_id: 1, path_id: 2 },
            Pptr { file_id: 2, path_id: 3 },
        ],
        container: vec![
            AssetInfo {
                address: "aa/abyss".to_owned(),
                asset: Pptr::local(1),
                preload_index: 0,
                preload_size: 3,
                range_start: 0,
                range_end: 3,
            },
            AssetInfo {
                address: "aa/walk".to_owned(),
                asset: Pptr::local(9),
                preload_index: 2,
                preload_size: 5,
                range_start: 2,
                range_end: 7,
            },
        ],
        dependencies: texts(&["dep.bundle"]),
    }
}

#[test]
fn a_container_leads_to_its_asset() {
    assert_eq!(container_asset(&Ok(Some(asset_bundle())), "aa/walk"), Ok(9));
    assert_eq!(
        container_asset(&Ok(Some(asset_bundle())), "aa/run"),
        Err("AssetBundle container has no entry 'aa/run'".to_owned())
    );
    assert_eq!(
        container_asset(&Ok(None), "aa/run"),
        Err("bundle's main file has no AssetBundle object".to_owned())
    );
    assert_eq!(container_asset(&Err("broken".to_owned()), "aa/run"), Err("broken".to_owned()));
}

#[test]
fn preloads_are_grouped_by_container_entry() {
    let file = SceneFile {
        objects: vec![Object {
            path_id: 1,
            class_id: 74,
            script: Ok(None),
            game_object: Err(String::new()),
            transform: Err(String::new()),
            owner: Err(String::new()),
            value: Ok(Json::Null),
            pointers: Ok(Vec::new()),
        }],
        transforms: Vec::new(),
        linked: Vec::new(),
    };
    let externals = vec![External {
        path: "archive:/CAB-2/CAB-2".to_owned(),
        archive: Some("CAB-2".to_owned()),
    }];
    let cabs = Some(vec![CabBundle { cab: "CAB-2".to_owned(), bundle: "dep.bundle".to_owned() }]);
    let listed =
        preloads(&file, &externals, &cabs, &Ok(Some(asset_bundle())), None, false).unwrap();
    let none = format!("{:<22}", "?");
    let clip = format!("{:<22}", "AnimationClip");
    assert_eq!(
        listed.render(false),
        format!(
            "preload table: 3 entries, container: 2 entries, 1 dependency bundle(s)\n\
             \n■ aa/abyss  [0..3] (3 object(s))\n  asset: local  {clip} #1\n\
             \x20   local  {clip} #1\n    EXT    {none} #2  @ dep.bundle\n    EXT    {none} #3\n\
             \n■ aa/walk  [2..7] (5 object(s))\n  asset: local  {none} #9\n"
        )
    );
    let some = preloads(&file, &externals, &cabs, &Ok(Some(asset_bundle())), Some("walk"), true);
    assert_eq!(some.unwrap().entries.len(), 1);
    assert_eq!(
        preloads(&file, &externals, &cabs, &Ok(None), None, false).unwrap_err(),
        "file has no AssetBundle object (not a bundle's main CAB?)"
    );
    // Without a catalog an external keeps its archive path.
    assert_eq!(bundle_name(&None, &externals[0]), "archive:/CAB-2/CAB-2");
    assert_eq!(bundle_name(&cabs, &externals[0]), "dep.bundle");
    assert_eq!(bundle_name(&Some(Vec::new()), &externals[0]), "archive:/CAB-2/CAB-2");
}

#[test]
fn keys_are_listed_with_their_types() {
    let list = |all: bool| addressable_ls(&addressable_keys(&catalogs(), all)).render(false);
    assert_eq!(
        list(false),
        "Abyss  (MusicCue)\nAreaAbyss  (AtmosCue, MusicCue)\nEmpty  ()\nNotes  (TextAsset)\n"
    );
    assert_eq!(
        list(true),
        "Abyss  (MusicCue)\nAreaAbyss  (AtmosCue, MusicCue)\nEmpty  ()\nNotes  (TextAsset)\n\
         music.bundle  (IAssetBundleResource)\n"
    );
    assert_eq!(addressable_ls(&addressable_keys(&None, true)).render(false), "");
}

#[test]
fn a_key_is_described() {
    let info = addressable_info(&catalogs(), "Abyss", true).unwrap();
    assert_eq!(
        info.render(false),
        "Abyss (1 location)\n  type:         MusicCue\n  primary key:  key/abyss.x\n  \
         internal id:  aa/abyss\n  provider:     BundledAssetProvider\n  \
         bundle:       music.bundle\n  dependencies: 2\n    music.bundle\n    \
         aa/notes  (TextDataProvider)\n"
    );
    let info = addressable_info(&catalogs(), "Notes", false).unwrap();
    assert_eq!(
        info.render(false),
        "Notes (2 locations)\n  type:         TextAsset\n  primary key:  key/notes.x\n  \
         internal id:  aa/notes\n  provider:     TextDataProvider\n\n  type:         TextAsset\n  \
         primary key:  key/notes.x\n  internal id:  aa/notes\n  provider:     TextDataProvider\n"
    );
    // A key without locations is as good as none.
    for missing in ["Empty", "Nope"] {
        assert_eq!(
            addressable_info(&catalogs(), missing, false).unwrap_err(),
            format!("no addressable with key '{missing}'")
        );
    }
    assert_eq!(
        addressable_info(&None, "Abyss", false).unwrap_err(),
        "this game has no addressables"
    );
    assert_eq!(dependency_label(&dependency(Provider::AssetBundle, "x.bundle")), "x.bundle");
}

#[test]
fn locations_are_counted_once() {
    let stats = addressable_stats(&catalogs(), 7).unwrap();
    assert_eq!(
        stats.render(false),
        "addressables\n  catalogs:  2\n  keys:      6\n  locations: 4 (7 refs)\n  \
         bundles:   7\n\n  by provider:\n         2  BundledAssetProvider\n         \
         1  AssetBundleProvider\n         1  TextDataProvider\n\n  by type:\n         \
         1  AtmosCue\n         1  IAssetBundleResource\n         1  MusicCue\n         \
         1  TextAsset\n"
    );
    assert_eq!(addressable_stats(&None, 0).unwrap_err(), "this game has no addressables");
}

#[test]
fn breakdowns_descend_by_count_and_ascend_by_name() {
    let count = |name: &str, count: usize| Count { name: name.to_owned(), count };
    assert_eq!(
        sorted_breakdown(vec![count("b", 1), count("c", 3), count("a", 1)]),
        vec![count("c", 3), count("a", 1), count("b", 1)]
    );
}

#[test]
fn built_in_scenes_come_first() {
    let catalog = Catalog {
        resources: Vec::new(),
        locations: vec![
            scene_location(1, Some("Zoo"), Some("zoo.bundle")),
            // Shadowed by a built-in scene, by an earlier location.
            scene_location(2, Some("Menu"), Some("menu.bundle")),
            scene_location(3, Some("Zoo"), Some("zoo2.bundle")),
            scene_location(4, Some("Abyss"), Some("abyss.bundle")),
            // No bundle, no name, no scene.
            scene_location(5, Some("Lost"), None),
            scene_location(6, None, Some("lost.bundle")),
            location(7, Provider::BundledAsset, "MusicCue", "cue", Vec::new()),
        ],
    };
    let all = rabex_cli::ctx::scenes(&texts(&["Menu", "Intro", "Menu"]), &Some(vec![catalog]));
    let at = |name: &str, source: SceneSource| Scene { name: name.to_owned(), source };
    assert_eq!(
        all,
        vec![
            at("Menu", SceneSource::Level(0)),
            at("Intro", SceneSource::Level(1)),
            at("Menu", SceneSource::Level(2)),
            at("Abyss", SceneSource::Bundle("abyss.bundle".to_owned())),
            at("Zoo", SceneSource::Bundle("zoo.bundle".to_owned())),
        ]
    );
    assert_eq!(open_scene(&all, "Menu"), Ok(&all[0]));
    for scene in &all {
        assert_eq!(open_scene(&all, &scene.name).unwrap().name, scene.name);
    }
    assert_eq!(
        open_scene(&all, "Nope"),
        Err("no scene 'Nope' in build settings or addressables catalog".to_owned())
    );
    assert_eq!(
        scenes::scenes(&all).render(false),
        "Menu   level0\nIntro  level1\nMenu   level2\nAbyss  abyss.bundle\nZoo    zoo.bundle\n"
    );
}

/// Names are padded by what they take on a terminal: a CJK character takes two
/// columns.
#[test]
fn wide_names_line_up() {
    let entry = |name: &str, source: &str| SceneEntry {
        name: name.to_owned(),
        source: source.to_owned(),
    };
    let scenes = Scenes(vec![entry("森林", "level0"), entry("abc", "level1"), entry("é", "b")]);
    assert_eq!(scenes.render(false), "森林  level0\nabc   level1\né     b\n");
    assert_eq!(
        Scenes(vec![entry("森", "x")]).render(true),
        "\x1b[32m森\x1b[0m  \x1b[2mx\x1b[0m\n"
    );
}

fn entries() -> Vec<FileEntry> {
    vec![
        FileEntry { size: 12, flags: 0, path: "CAB-test.resS".to_owned() },
        FileEntry { size: 4096, flags: 5, path: "CAB-test".to_owned() },
        FileEntry { size: 8, flags: 4, path: "CAB-test.sharedAssets".to_owned() },
    ]
}

/// `bundle <path> files` lists the bundle's contained files (CABs).
#[test]
fn bundle_files_lists_files() {
    let out = bundle::list_files(&entries()).render(false);
    assert!(out.contains("CAB-test"));
    assert_eq!(out, "CAB-test.resS\nCAB-test\nCAB-test.sharedAssets\n");
}

/// `bundle <path> info` lists the bundle's entries with sizes and kinds.
#[test]
fn bundle_info_lists_entries() {
    let out = bundle::info(&entries()).render(false);
    assert!(out.contains("bundle"));
    assert!(out.contains("serialized"));
    assert!(out.contains("CAB-test"));
    assert_eq!(
        out,
        "bundle (3 files)\n          12  resource     CAB-test.resS\n        \
         4096  serialized   CAB-test\n           8  serialized   CAB-test.sharedAssets\n"
    );
}

#[test]
fn a_bundle_entry_is_selected() {
    let all = entries();
    assert_eq!(bundle::select_entry(&all, Some("CAB-test.resS")), Ok(&all[0]));
    assert_eq!(
        bundle::select_entry(&all, Some("CAB-none")),
        Err("no file 'CAB-none' in bundle".to_owned())
    );
    assert_eq!(
        bundle::select_entry(&Vec::new(), None),
        Err("bundle contains no serialized file".to_owned())
    );
    // Without a CAB it is the main serialized file, as by its name.
    assert_eq!(bundle::select_entry(&all, None), Ok(&all[1]));
    assert_eq!(bundle::select_entry(&all, Some("CAB-test")), Ok(&all[1]));
    assert_eq!(Bundles(texts(&["a", "b"])).render(true), "a\nb\n");
}

/// A file that states its own unity version keeps it.
#[test]
fn the_games_version_fills_in() {
    assert_eq!(bundle::file_version(Some("2019"), Some("2022")), Some("2019"));
    assert_eq!(bundle::file_version(None, Some("2022")), Some("2022"));
    assert_eq!(bundle::file_version(Some("2019"), None), Some("2019"));
    assert_eq!(bundle::file_version::<u8>(None, None), None);
}

/// `files` lists the game's serialized files.
#[test]
fn files_lists_serialized_files() {
    let out = Files(texts(&["globalgamemanagers", "level0"])).render(false);
    assert!(out.contains("globalgamemanagers"));
    assert!(out.contains("level0"));
    assert_eq!(out, "globalgamemanagers\nlevel0\n");
}

fn found(scripts: &[(&str, &str)]) -> Groups {
    let found = scripts
        .iter()
        .map(|(script, location)| FoundScript {
            script: script.to_string(),
            location: location.to_string(),
        })
        .collect();
    game::group_scripts(&found)
}

#[test]
fn game_script_locations_maps_scripts_to_files() {
    let scripts = found(&[("HeroController", "level0"), ("EnemyController", "level0")]);
    let listed = game::script_locations(&scripts, None);
    // Sorted by script name; each maps to the file it lives in.
    let pairs: Vec<(&str, Vec<&str>)> = listed
        .0
        .iter()
        .map(|s| (s.script.as_str(), s.locations.iter().map(String::as_str).collect()))
        .collect();
    assert_eq!(
        pairs,
        vec![("EnemyController", vec!["level0"]), ("HeroController", vec!["level0"])]
    );
}

#[test]
fn game_script_locations_filter_narrows_by_name() {
    let scripts = found(&[("HeroController", "level0"), ("EnemyController", "level0")]);
    assert_eq!(
        game::script_locations(&scripts, Some("hero")).render(false),
        "HeroController\n  level0\n"
    );
}

#[test]
fn scripts_go_by_their_full_names() {
    assert_eq!(game::script_name("HutongGames", "Fsm"), "HutongGames.Fsm");
    assert_eq!(game::script_name("", "Fsm"), "Fsm");
}

#[test]
fn locations_of_a_script_are_distinct_and_sorted() {
    let scripts = found(&[("Hero", "level1"), ("Hero", "a.bundle"), ("Hero", "level1")]);
    assert_eq!(
        game::script_locations(&scripts, Some("HERO")).render(false),
        "Hero\n  a.bundle\n  level1\n"
    );
}

#[test]
fn game_info_reports_summary() {
    let (info, warning) = game::info(
        "Game_Data".to_owned(),
        Ok("2022.3.0f1".to_owned()),
        1,
        Addressables::Absent,
    );
    let out = info.render(false);
    assert!(out.contains("game directory"));
    assert!(out.contains("serialized files:"));
    assert!(out.contains("addressables:"));
    assert_eq!(
        out,
        "game directory\n  path: Game_Data\n  unity version: 2022.3.0f1\n  \
         serialized files: 1\n  addressables: no\n"
    );
    assert_eq!(warning, None);
}

#[test]
fn a_summary_survives_unreadable_parts() {
    let summary = |addressables| {
        game::info("G".to_owned(), Err("no version".to_owned()), 2, addressables)
    };
    let (info, warning) = summary(Addressables::Unreadable("bad catalog".to_owned()));
    assert_eq!(
        info.render(false),
        "game directory\n  path: G\n  unity version: <unknown: no version>\n  \
         serialized files: 2\n  addressables: no\n"
    );
    assert_eq!(warning.unwrap(), "warning: failed to read addressables: bad catalog");
    let (info, warning) = summary(Addressables::Present { bundles: Some(9) });
    assert!(info.render(false).ends_with("  addressables: yes\n  addressables bundles: 9\n"));
    assert_eq!(warning, None);
    let (info, _) = summary(Addressables::Present { bundles: None });
    assert!(info.render(false).ends_with("  addressables: yes\n"));
}

fn context(steam_game: Option<&str>, dir: Option<&str>) -> Context {
    Context {
        steam_game: steam_game.map(str::to_owned),
        game_dir: dir.map(str::to_owned),
    }
}

#[test]
fn flags_choose_the_game() {
    assert_eq!(game_dir(context(Some("Hollow"), Some("d"))), GameSource::Steam("Hollow".to_owned()));
    assert_eq!(game_dir(context(None, Some("d"))), GameSource::Dir("d".to_owned()));
    assert_eq!(game_dir(context(None, None)), GameSource::CurrentDir);
}

/// A game command without a game context errors clearly.
#[test]
fn game_command_without_context_errors() {
    let e = require_game::<u8>(None).unwrap_err();
    assert!(e.contains("no game"), "{e}");
    assert_eq!(require_game(Some(5u8)), Ok(5));
}

/// `bundles` (list all) needs a game context.
#[test]
fn bundles_without_context_needs_game() {
    let action = rabex_cli::run(rabex_cli::cli::Command::Bundles(rabex_cli::cli::BundlesArgs {
        verb: None,
    }));
    assert!(action.needs_game());
    let e = require_game::<u8>(None).unwrap_err();
    assert!(e.contains("no game"), "{e}");
}

fn app(app_id: u32, name: Option<&str>, install_dir: &str) -> SteamApp {
    SteamApp { app_id, name: name.map(str::to_owned), install_dir: install_dir.to_owned() }
}

#[test]
fn games_are_matched_without_case_and_space() {
    assert_eq!(search_transform("Hollow Knight\u{2003}X\tÉ"), "hollowknightxÉ");
    assert_eq!(needle_for(" 367 520 "), Needle::AppId(367520));
    assert_eq!(needle_for("4294967296"), Needle::Name("4294967296".to_owned()));
    assert_eq!(needle_for("Hollow Knight"), Needle::Name("hollowknight".to_owned()));
}

#[test]
fn the_closest_match_wins() {
    let apps = vec![
        app(1, Some("Hollow Knight: Silksong"), "hks"),
        app(2, Some("Hollow Knight"), "hk"),
        app(3, None, "hollow knight"),
        app(4, Some("Other"), "hollowknight"),
    ];
    assert_eq!(best_match(&apps, "hollowknight"), Some(1));
    assert_eq!(best_match(&apps, "silksong"), Some(0));
    assert_eq!(best_match(&apps, "celeste"), None);
    // The first library with a match settles it.
    let libraries = vec![vec![app(9, Some("Nope"), "n")], vec![app(1, Some("Hollow Knight 2"), "h")], apps];
    assert_eq!(find_game(&libraries, "hollowknight"), Some((1, 0)));
    assert_eq!(find_game(&libraries, "celeste"), None);
}

#[test]
fn missing_games_are_named() {
    assert_eq!(no_app_id(7), "no steam game with app id 7");
    assert_eq!(no_game("My Game"), "no steam game matching 'My Game'");
    assert_eq!(
        no_data_dir(&app(7, None, "dir"), "/steam/dir"),
        "'dir' has no unity `*_Data` directory at /steam/dir"
    );
    assert_eq!(app(7, Some("Name"), "dir").title(), "Name");
}

#[test]
fn the_data_dir_is_a_directory() {
    let entry = |name: Option<&str>, is_dir: bool| DirEntry {
        name: name.map(str::to_owned),
        is_dir,
    };
    let entries = vec![
        entry(Some("X_Data"), false),
        entry(None, true),
        entry(Some("Data"), true),
        entry(Some("Game_Data"), true),
        entry(Some("Other_Data"), true),
    ];
    assert_eq!(find_unity_data_dir(&entries), Some(3));
    assert_eq!(find_unity_data_dir(&Vec::new()), None);
}
