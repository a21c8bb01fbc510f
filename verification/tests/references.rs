//! Finding what references an object, and listing it.

use rabex_cli::commands::file::find_references::{
    candidates, scan_candidate, scan_objects, search_order, Candidate, Loaded, PathFilter, Query,
    ScanFile, Search, TypeFilter,
};
use rabex_cli::commands::file::references::{
    dedup, external_references, object_references, object_referencing_files, references_header,
    referrer_label, scene_name_lookup, FileExternals, ObjectReferences, QueryRun, Referral,
    Referrer, Sweep,
};
use rabex_cli::ctx::{Scene, SceneSource};
use rabex_cli::json::{Entry, Json, Number};
use rabex_cli::model::{GameObject, Object, Pptr, SceneFile, Transform};
use rabex_cli::output::Render;

fn unreadable<T>() -> Result<T, String> {
    Err("not of that type".to_owned())
}

fn object(entries: Vec<(&str, Json)>) -> Json {
    Json::Object(
        entries
            .into_iter()
            .map(|(key, value)| Entry { key: key.to_owned(), value })
            .collect(),
    )
}

fn pptr_json(path_id: i64) -> Json {
    object(vec![(
        "m_PathID",
        Json::Number(Number { text: path_id.to_string(), value: Some(path_id) }),
    )])
}

fn asset(path_id: i64, class_id: i32, name: &str, pointers: Vec<Pptr>) -> Object {
    Object {
        path_id,
        class_id,
        script: Ok(None),
        game_object: unreadable(),
        transform: unreadable(),
        owner: unreadable(),
        value: Ok(object(vec![("m_Name", Json::Text(name.to_owned()))])),
        pointers: Ok(pointers),
    }
}

/// `Player` (1) with its Transform (2), which points back at it.
fn player() -> Vec<Object> {
    let mut go = asset(1, 1, "Player", vec![Pptr::local(2)]);
    go.game_object =
        Ok(GameObject { name: "Player".to_owned(), components: vec![Pptr::local(2)] });
    let mut tr = asset(2, 4, "", vec![Pptr::local(1), Pptr::local(0)]);
    tr.owner = Ok(Pptr::local(1));
    tr.value = Ok(object(vec![("m_GameObject", pptr_json(1))]));
    tr.transform = Ok(Transform {
        game_object: Pptr::local(1),
        children: Vec::new(),
        father: Pptr::local(0),
    });
    vec![go, tr]
}

fn scene(objects: Vec<Object>) -> SceneFile {
    let transforms = objects.iter().filter(|o| o.class_id == 4).map(|o| o.path_id).collect();
    SceneFile { objects, transforms, linked: Vec::new() }
}

fn texts(list: &[&str]) -> Vec<String> {
    list.iter().map(|s| s.to_string()).collect()
}

fn query(include_preloads: bool, first_only: bool) -> Query {
    Query {
        target_file: "level0".to_owned(),
        target_path_id: 1,
        include_preloads,
        first_only,
        paths: PathFilter::new(&texts(&[]), &texts(&[])),
        types: TypeFilter::new(&texts(&[]), &texts(&[])),
    }
}

fn level0(objects: Vec<Object>) -> Loaded {
    Loaded::Plain(ScanFile {
        name: "level0".to_owned(),
        externals: Vec::new(),
        scene: scene(objects),
    })
}

fn scan(candidate: &Candidate, loaded: &Loaded, query: &Query) -> Result<Vec<Referral>, String> {
    let mut found = Vec::new();
    scan_candidate(candidate, loaded, query, &mut found)?;
    Ok(found)
}

fn plain() -> Candidate {
    Candidate::Plain("level0".to_owned())
}

/// `object <id> references` on a game whose only file is `level0`.
fn listing(objects: Vec<Object>, include_preloads: bool) -> String {
    let game = candidates(&texts(&[]), &texts(&["level0"]));
    let loaded = level0(objects);
    let mut search = Search::begin(None, false);
    for candidate in &game {
        search.take(scan(candidate, &loaded, &query(include_preloads, false)).unwrap());
    }
    let Loaded::Plain(file) = &loaded else {
        panic!("{loaded:?}");
    };
    object_references(&file.scene, 1, search.found, search.truncated, None, &Vec::new())
        .render(false)
}

/// `object <id> references` names the target by `m_Name` and labels each
/// referrer with its class and the GameObject it sits on (here the GameObject's
/// own Transform points back at it).
#[test]
fn file_object_references_resolves_names() {
    let out = listing(player(), false);
    assert!(out.contains("1 reference(s) to Player:"), "{out}");
    assert!(out.contains("Transform (on 'Player')"), "{out}");
    assert_eq!(out, "1 reference(s) to Player:\n- level0  2  Transform (on 'Player')\n");
}

/// `Player` with a `PreloadData` that lists it.
fn player_with_preload() -> Vec<Object> {
    let mut objects = player();
    objects.push(asset(3, 150, "", vec![Pptr::local(1)]));
    objects
}

/// `object <id> references` hides preload-table referrers (`PreloadData` /
/// `AssetBundle`) by default; `--include-preloads` brings them back.
#[test]
fn file_object_references_filters_preloads() {
    // Default: only the Transform (a real user); the PreloadData is hidden.
    let out = listing(player_with_preload(), false);
    assert!(out.contains("1 reference(s) to Player:"), "{out}");
    assert!(out.contains("Transform (on 'Player')"), "{out}");
    assert_eq!(out.matches("PreloadData").count(), 0);

    // With --include-preloads: the PreloadData referrer is listed too.
    let out = listing(player_with_preload(), true);
    assert!(out.contains("2 reference(s) to Player:"), "{out}");
    assert!(out.contains("PreloadData"), "{out}");
}

#[test]
fn asset_bundles_are_preload_tables_too() {
    let mut objects = player_with_preload();
    objects.push(asset(4, 142, "bundle", vec![Pptr::local(1)]));
    assert_eq!(
        listing(objects, true),
        "3 reference(s) to Player:\n- level0  2  Transform (on 'Player')\n\
         - level0  3  PreloadData\n- level0  4  AssetBundle 'bundle'\n"
    );
}

#[test]
fn loose_referrers_are_labelled_by_class() {
    let mut ghost = asset(5, 114, "inner", Vec::new());
    ghost.script = Ok(Some("Mover".to_owned()));
    ghost.value = Ok(object(vec![
        ("m_GameObject", pptr_json(7)),
        ("m_Name", Json::Text("inner".to_owned())),
    ]));
    let mut broken = asset(6, 114, "", Vec::new());
    broken.script = Err("no script".to_owned());
    let file = scene(vec![
        ghost,
        broken,
        // A GameObject outside any hierarchy.
        asset(7, 1, "Ghost", Vec::new()),
        asset(8, 74, "Walk", Vec::new()),
        asset(9, 74, "", Vec::new()),
    ]);
    assert_eq!(referrer_label(&file, 5), "Mover (on 'Ghost')");
    assert_eq!(referrer_label(&file, 6), "MonoBehaviour");
    assert_eq!(referrer_label(&file, 8), "AnimationClip 'Walk'");
    assert_eq!(referrer_label(&file, 9), "AnimationClip");
    // In the hierarchy, but without a readable name: the path tells it.
    let mut objects = player();
    objects[1].value = Err("unread".to_owned());
    assert_eq!(referrer_label(&scene(objects), 2), "Player@Transform");
    assert_eq!(referrer_label(&scene(player()), 1), "GameObject 'Player'");
    assert_eq!(referrer_label(&file, 1000), "");
}

#[test]
fn other_files_reach_the_target_through_their_externals() {
    let pointing = |file_id: i32| {
        Loaded::Plain(ScanFile {
            name: "level1".to_owned(),
            externals: texts(&["sharedassets0.assets", "level0"]),
            scene: scene(vec![asset(9, 74, "Walk", vec![Pptr { file_id, path_id: 1 }])]),
        })
    };
    let level1 = Candidate::Plain("level1".to_owned());
    let found = scan(&level1, &pointing(2), &query(false, false)).unwrap();
    assert_eq!(
        found,
        vec![Referral {
            file: "level1".to_owned(),
            load: "level1".to_owned(),
            path_id: 9,
            label: "AnimationClip 'Walk'".to_owned(),
        }]
    );
    // Into another file, into the file itself, into none.
    for file_id in [1, 0, 3, -1] {
        assert_eq!(scan(&level1, &pointing(file_id), &query(false, false)), Ok(Vec::new()));
    }
    // A file that does not list the target is not looked at.
    let stranger = Loaded::Plain(ScanFile {
        name: "level1".to_owned(),
        externals: Vec::new(),
        scene: scene(vec![Object {
            pointers: Err("unread".to_owned()),
            ..asset(9, 74, "Walk", Vec::new())
        }]),
    });
    assert_eq!(scan(&level1, &stranger, &query(false, false)), Ok(Vec::new()));
}

#[test]
fn bundles_are_scanned_file_by_file() {
    let entry = |name: &str| ScanFile {
        name: name.to_owned(),
        externals: texts(&["level0"]),
        scene: scene(vec![asset(9, 74, "", vec![Pptr { file_id: 1, path_id: 1 }])]),
    };
    let bundle = Candidate::Bundle("b.bundle".to_owned());
    let loaded = Loaded::Bundle {
        has_main: true,
        files: vec![Ok(entry("archive:/A/A")), Ok(entry("archive:/A/B"))],
    };
    let found = scan(&bundle, &loaded, &query(false, false)).unwrap();
    let at: Vec<(&str, &str)> =
        found.iter().map(|r| (r.file.as_str(), r.load.as_str())).collect();
    assert_eq!(at, vec![("b.bundle", "archive:/A/A"), ("b.bundle", "archive:/A/B")]);

    let headless = Loaded::Bundle { has_main: false, files: Vec::new() };
    assert_eq!(
        scan(&bundle, &headless, &query(false, false)),
        Err("bundle has no main serialized file".to_owned())
    );
    let bad = Loaded::Bundle { has_main: true, files: vec![Err("bad file".to_owned())] };
    assert_eq!(scan(&bundle, &bad, &query(false, false)), Err("bad file".to_owned()));
    let shut = Loaded::Unreadable("cannot open".to_owned());
    assert_eq!(scan(&bundle, &shut, &query(false, false)), Err("cannot open".to_owned()));
}

#[test]
fn what_was_found_before_a_failure_is_kept() {
    let pointing = |path_id: i64| asset(path_id, 74, "", vec![Pptr { file_id: 1, path_id: 1 }]);
    let unread =
        || Object { pointers: Err("unread".to_owned()), ..asset(7, 74, "", Vec::new()) };
    let entry = |objects: Vec<Object>| ScanFile {
        name: "archive:/A/A".to_owned(),
        externals: texts(&["level0"]),
        scene: scene(objects),
    };
    let bundle = Candidate::Bundle("b.bundle".to_owned());
    let scanned = |files: Vec<Result<ScanFile, String>>, first_only: bool| {
        let mut acc = vec![hit("earlier", 3)];
        let loaded = Loaded::Bundle { has_main: true, files };
        let outcome = scan_candidate(&bundle, &loaded, &query(false, first_only), &mut acc);
        (outcome, acc.iter().map(|r| r.path_id).collect::<Vec<i64>>())
    };
    // In the second file, behind its first object.
    assert_eq!(
        scanned(
            vec![
                Ok(entry(vec![pointing(4), pointing(5)])),
                Ok(entry(vec![pointing(6), unread(), pointing(8)])),
                Ok(entry(vec![pointing(9)])),
            ],
            false
        ),
        (Err("unread".to_owned()), vec![3, 4, 5, 6])
    );
    // The second file itself.
    assert_eq!(
        scanned(
            vec![
                Ok(entry(vec![pointing(4)])),
                Err("bad file".to_owned()),
                Ok(entry(vec![pointing(9)])),
            ],
            false
        )
        .1,
        vec![3, 4]
    );
    // One hit is enough: the object behind it is not looked at.
    assert_eq!(
        scanned(vec![Ok(entry(vec![pointing(4), unread()]))], true),
        (Ok(()), vec![3, 4])
    );
    // A bundle that cannot be opened adds nothing.
    let mut acc = vec![hit("earlier", 3)];
    let shut = Loaded::Unreadable("cannot open".to_owned());
    assert_eq!(
        scan_candidate(&bundle, &shut, &query(false, false), &mut acc),
        Err("cannot open".to_owned())
    );
    assert_eq!(acc, vec![hit("earlier", 3)]);
    let file = entry(vec![pointing(4), unread()]);
    assert_eq!(
        scan_objects(&file, &query(false, false), "b.bundle", &mut acc),
        Err("unread".to_owned())
    );
    assert_eq!(acc.len(), 2);
}

#[test]
fn unwanted_files_are_not_opened() {
    let mut narrow = query(false, false);
    narrow.paths = PathFilter::new(&texts(&[]), &texts(&["LEVEL"]));
    let shut = Loaded::Unreadable("cannot open".to_owned());
    assert_eq!(scan(&plain(), &shut, &narrow), Ok(Vec::new()));
}

#[test]
fn one_hit_per_file_is_enough_for_the_files() {
    let mut objects = player();
    objects.push(asset(9, 74, "", vec![Pptr::local(1)]));
    let found = scan(&plain(), &level0(objects), &query(false, true)).unwrap();
    assert_eq!(found.len(), 1);
    assert_eq!(found[0].label, "");
    let files = object_referencing_files(&scene(player()), 1, &found, false, None, &Vec::new());
    assert_eq!(files.render(false), "1 file referencing Player:\n- level0\n");
}

#[test]
fn paths_are_matched_without_case() {
    let filter = PathFilter::new(&texts(&["SCENES", "ÉTÉ"]), &texts(&["Menu"]));
    assert!(filter.accepts("scenes/a.bundle"));
    assert!(filter.accepts("été.bundle"));
    assert!(!filter.accepts("Scenes/MENU.bundle"));
    assert!(!filter.accepts("other.bundle"));
    assert!(PathFilter::new(&texts(&[]), &texts(&[])).accepts("anything"));
}

#[test]
fn types_are_matched_by_script_or_class() {
    let mut script = asset(5, 114, "", Vec::new());
    script.script = Ok(Some("PlayMakerFSM".to_owned()));
    let file = scene(vec![script, asset(6, 114, "", Vec::new())]);
    let only = |wanted: &str| TypeFilter::new(&texts(&[wanted]), &texts(&[]));
    let except = |unwanted: &str| TypeFilter::new(&texts(&[]), &texts(&[unwanted]));
    assert!(only("playmaker").accepts(&file, 114, 5));
    assert!(!only("MonoBehaviour").accepts(&file, 114, 5));
    assert!(only("MonoBehaviour").accepts(&file, 114, 6));
    assert!(only("monobehaviour").accepts(&file, 114, 77));
    assert!(only("clip").accepts(&file, 74, 9));
    assert!(!except("clip").accepts(&file, 74, 9));
    assert!(only("unknown").accepts(&file, 123456789, 9));
    assert!(only("x").is_empty() == false && except("x").is_empty() == false);
    assert!(TypeFilter::new(&texts(&[]), &texts(&[])).is_empty());
}

fn hit(file: &str, path_id: i64) -> Referral {
    Referral { file: file.to_owned(), load: file.to_owned(), path_id, label: String::new() }
}

#[test]
fn a_limit_stops_the_search() {
    let mut search = Search::begin(Some(2), false);
    assert!(search.wants_more());
    search.take(vec![hit("a", 1)]);
    assert!(search.wants_more());
    search.take(vec![hit("b", 1), hit("b", 2)]);
    assert!(!search.wants_more() && search.truncated);
    search.take(vec![hit("c", 1)]);
    assert_eq!(search.found, vec![hit("a", 1), hit("b", 1), hit("b", 2)]);
    let listed =
        object_references(&scene(player()), 1, search.found, true, Some(2), &Vec::new());
    assert_eq!(
        listed.render(false),
        "first 2 reference(s) to Player (--limit):\n- a  1\n- b  1\n"
    );
}

#[test]
fn a_limit_counts_files_where_files_are_asked_for() {
    let mut search = Search::begin(Some(2), true);
    search.take(vec![hit("a", 1), hit("a", 2)]);
    assert!(search.wants_more());
    search.take(Vec::new());
    assert!(search.wants_more());
    search.take(vec![hit("b", 1)]);
    assert!(!search.wants_more());
}

#[test]
fn searches_without_a_limit_find_all() {
    let mut search = Search::begin(None, false);
    for file in ["b", "a", "c"] {
        search.take(vec![hit(file, 1)]);
        assert!(search.wants_more());
    }
    assert!(!search.truncated);
    assert_eq!(search.found.len(), 3);
    let nothing = Search::begin(Some(0), false);
    assert!(!nothing.wants_more() && nothing.truncated);
}

#[test]
fn candidates_are_sorted_only_for_a_limit() {
    let all = || candidates(&texts(&["b", "d"]), &texts(&["c", "a"]));
    let display = |list: Vec<Candidate>| -> Vec<String> {
        list.iter().map(|c| c.display()).collect()
    };
    assert_eq!(display(search_order(all(), None)), texts(&["b", "d", "c", "a"]));
    assert_eq!(display(search_order(all(), Some(5))), texts(&["a", "b", "c", "d"]));
    assert_eq!(all()[2], Candidate::Plain("c".to_owned()));
}

/// The listing does not depend on the order in which referrers were found.
#[test]
fn listings_ignore_the_search_order() {
    let list = |found: Vec<Referral>| {
        object_references(&scene(player()), 1, found, false, None, &Vec::new())
    };
    let forth = list(vec![hit("a", 9), hit("a", -3), hit("b", 1)]);
    let back = list(vec![hit("b", 1), hit("a", -3), hit("a", 9)]);
    assert_eq!(forth, back);
    assert_eq!(forth.render(false), "3 reference(s) to Player:\n- a  -3\n- a   9\n- b   1\n");
}

#[test]
fn scenes_are_shown_by_name() {
    let scenes = vec![
        Scene { name: "Menu".to_owned(), source: SceneSource::Level(0) },
        Scene { name: "Abyss".to_owned(), source: SceneSource::Bundle("s/abyss.bundle".to_owned()) },
        Scene { name: "Abyss_2".to_owned(), source: SceneSource::Bundle("s/abyss.bundle".to_owned()) },
    ];
    assert_eq!(scene_name_lookup(&scenes, "level0"), Some("Menu".to_owned()));
    // The last scene of a file names it.
    assert_eq!(scene_name_lookup(&scenes, "s/abyss.bundle"), Some("Abyss_2".to_owned()));
    assert_eq!(scene_name_lookup(&scenes, "level1"), None);
    let found = vec![hit("level0", 1), hit("level1", 2), hit("level0", 3)];
    let files = object_referencing_files(&scene(player()), 77, &found, false, None, &scenes);
    assert_eq!(files.render(false), "2 files referencing #77:\n- Menu (level0)\n- level1\n");
    let files = object_referencing_files(&scene(player()), 77, &found, true, Some(1), &scenes);
    assert_eq!(
        files.render(true),
        "\x1b[1mfirst 1 file referencing #77 (--limit):\x1b[0m\n- \x1b[32mMenu (level0)\x1b[0m\n"
    );
}

/// Short ids line up with short ids, hash ids with hash ids; a long file name
/// overflows its column.
#[test]
fn columns_line_up() {
    let referrer = |file: &str, path_id: i64, label: &str| Referrer {
        file: file.to_owned(),
        scene: None,
        path_id,
        label: label.to_owned(),
    };
    let long = "x".repeat(45);
    let listed = ObjectReferences {
        target: "T".to_owned(),
        path_id: 1,
        truncated: false,
        referrers: vec![
            referrer("a", 5, "A"),
            referrer("b", 123, ""),
            referrer(&long, -8333449340390664235, "C"),
            referrer("d", 1234567890123, "D"),
        ],
    };
    let pad = |s: &str| format!("{s:<40}");
    assert_eq!(
        listed.render(false),
        format!(
            "4 reference(s) to T:\n- {}    5  A\n- {}  123\n- {long}  -8333449340390664235  C\n\
             - {}  {:>20}  D\n",
            pad("a"),
            pad("b"),
            pad("d"),
            1234567890123i64
        )
    );
}

#[test]
fn headers_count() {
    assert_eq!(references_header("ref", "refs", "X", 1, false), "1 ref X:");
    assert_eq!(references_header("ref", "refs", "X", 0, false), "0 refs X:");
    assert_eq!(references_header("ref", "refs", "X", 1, true), "first 1 ref X (--limit):");
}

#[test]
fn repeats_in_a_row_are_dropped() {
    assert_eq!(dedup(texts(&["a", "a", "b", "a"])), texts(&["a", "b", "a"]));
    assert_eq!(dedup(Vec::new()), texts(&[]));
}

#[test]
fn files_reference_files_through_externals() {
    let file = |path: &str, externals: &[&[&str]]| FileExternals {
        path: path.to_owned(),
        externals: externals.iter().map(|e| texts(e)).collect(),
    };
    let files = vec![
        file("a.bundle", &[&["x"], &["level0"]]),
        file("b.bundle", &[&["x"], &[]]),
        file("level1", &[&["level0", "level0"]]),
    ];
    assert_eq!(external_references(&files, "level0").render(false), "- a.bundle\n- level1\n");
    assert_eq!(external_references(&files, "none").render(false), "No references found\n");
}

#[test]
fn a_sweep_reports_failures_at_the_end() {
    let ok = QueryRun { results: texts(&["1", "2"]), error: None };
    let bad = QueryRun { results: texts(&["3"]), error: Some("cannot deref null".to_owned()) };
    let mut sweep = Sweep::begin();
    let report = sweep.record("level0", 4, &ok, false);
    assert_eq!((report.out.as_str(), report.err), ("1\n2\n", None));
    assert_eq!(sweep.finish(), Ok(()));
    let report = sweep.record("level0", -5, &bad, false);
    assert_eq!(report.out, "3\n");
    assert_eq!(report.err.unwrap(), "level0 #-5: cannot deref null");
    assert_eq!(sweep.finish(), Err("1 query failed".to_owned()));
    sweep.record("level1", 6, &bad, true);
    assert_eq!(sweep.finish(), Err("2 queries failed".to_owned()));
}

/// A game of three files: two scenes that point at the target twice, one that does not.
fn game() -> Vec<(Candidate, Loaded)> {
    let pointing = |name: &str, path_id: i64| {
        let pptr = Pptr { file_id: 1, path_id };
        let file = ScanFile {
            name: name.to_owned(),
            externals: texts(&["level0"]),
            scene: scene(vec![asset(8, 74, "A", vec![pptr]), asset(9, 74, "B", vec![pptr])]),
        };
        (Candidate::Plain(name.to_owned()), Loaded::Plain(file))
    };
    vec![pointing("level3", 1), pointing("level1", 1), pointing("level2", 7)]
}

fn run(query: &Query, limit: Option<usize>) -> Search {
    let mut game = game();
    if limit.is_some() {
        game.sort_by_key(|(candidate, _)| candidate.display());
    }
    let mut search = Search::begin(limit, query.first_only);
    for (candidate, loaded) in &game {
        if search.wants_more() {
            search.take(scan(candidate, loaded, query).unwrap());
        }
    }
    search
}

/// Nothing is missing unless the flag says so.
#[test]
fn a_limited_search_tells_what_is_missing() {
    let all = run(&query(false, false), None);
    assert_eq!((all.found.len(), all.truncated), (4, false));
    for limit in 0..7 {
        let some = run(&query(false, false), Some(limit));
        assert!(some.found.iter().all(|hit| all.found.contains(hit)));
        if some.truncated {
            assert!(some.found.len() >= limit);
        } else {
            assert_eq!(some.found.len(), all.found.len());
        }
    }
}

/// The files listed are those of the full listing, or the first of them.
#[test]
fn the_files_are_those_of_the_full_listing() {
    let files = |limit: Option<usize>| -> Vec<String> {
        let search = run(&query(false, true), limit);
        let listed = object_referencing_files(
            &scene(player()),
            1,
            &search.found,
            search.truncated,
            limit,
            &Vec::new(),
        );
        listed.files.into_iter().map(|file| file.file).collect()
    };
    let full = run(&query(false, false), None).found;
    let listed = object_references(&scene(player()), 1, full, false, None, &Vec::new());
    let mut expected: Vec<String> = listed.referrers.into_iter().map(|r| r.file).collect();
    expected.dedup();
    assert_eq!(expected, texts(&["level1", "level3"]));
    assert_eq!(files(None), expected);
    assert_eq!(files(Some(1)), texts(&["level1"]));
    assert_eq!(files(Some(5)), expected);
}
