//! Core logic over a small scene: one GameObject + Transform per name, each
//! GameObject a root.

use rabex_cli::cli::{
    BundleArgs, BundleFileArgs, BundleVerb, CatArgs, Command, FileArgs, FileVerb, FindArgs,
    InfoArgs, ObjectArgs, ObjectVerb, ObjectsArgs, ReferencesArgs, ReferencesVerb, TreeArgs,
};
use rabex_cli::commands::bundle::{self, FileEntry};
use rabex_cli::commands::file::tree::tree;
use rabex_cli::commands::file::{
    dump_path_id, find_component, object_hint, object_info, run_verb, Components, External,
    FileHeader, FileLocation, FilterSource, OpenFile, Step,
};
use rabex_cli::commands::{ls, obj};
use rabex_cli::dispatch::Action;
use rabex_cli::component_path::{parse as parse_path, parse_object_ref, ObjectRef};
use rabex_cli::json::{Entry, Json, Number};
use rabex_cli::model::{followed, GameObject, Object, Pptr, SceneFile, Transform};
use rabex_cli::output::Render;
use rabex_cli::qualify;
use rabex_cli::resolve;

fn text(s: &str) -> Json {
    Json::Text(s.to_owned())
}

fn number(n: i64) -> Json {
    Json::Number(Number { text: n.to_string(), value: Some(n) })
}

fn object(entries: Vec<(&str, Json)>) -> Json {
    Json::Object(
        entries
            .into_iter()
            .map(|(key, value)| Entry { key: key.to_owned(), value })
            .collect(),
    )
}

fn pptr_json(path_id: i64) -> Json {
    object(vec![("m_FileID", number(0)), ("m_PathID", number(path_id))])
}

fn unreadable<T>() -> Result<T, String> {
    Err("not of that type".to_owned())
}

fn game_object(path_id: i64, name: &str, components: Vec<i64>) -> Object {
    let pptrs: Vec<Pptr> = components.iter().map(|id| Pptr::local(*id)).collect();
    Object {
        path_id,
        class_id: 1,
        script: Ok(None),
        game_object: Ok(GameObject { name: name.to_owned(), components: pptrs.clone() }),
        transform: unreadable(),
        owner: unreadable(),
        value: Ok(object(vec![
            (
                "m_Component",
                Json::Array(
                    components
                        .iter()
                        .map(|id| object(vec![("component", pptr_json(*id))]))
                        .collect(),
                ),
            ),
            ("m_Name", text(name)),
        ])),
        pointers: Ok(pptrs),
    }
}

fn transform(path_id: i64, owner: i64, children: Vec<i64>, father: i64) -> Object {
    let mut pointers = vec![Pptr::local(owner), Pptr::local(father)];
    pointers.extend(children.iter().map(|id| Pptr::local(*id)));
    Object {
        path_id,
        class_id: 4,
        script: Ok(None),
        game_object: unreadable(),
        transform: Ok(Transform {
            game_object: Pptr::local(owner),
            children: children.iter().map(|id| Pptr::local(*id)).collect(),
            father: Pptr::local(father),
        }),
        owner: Ok(Pptr::local(owner)),
        value: Ok(object(vec![
            ("m_GameObject", pptr_json(owner)),
            ("m_Children", Json::Array(children.iter().map(|id| pptr_json(*id)).collect())),
            ("m_Father", pptr_json(father)),
        ])),
        pointers: Ok(pointers),
    }
}

fn script_component(path_id: i64, owner: i64, script: &str) -> Object {
    Object {
        path_id,
        class_id: 114,
        script: Ok(Some(script.to_owned())),
        game_object: unreadable(),
        transform: unreadable(),
        owner: Ok(Pptr::local(owner)),
        value: Ok(object(vec![("m_GameObject", pptr_json(owner)), ("m_Name", text(""))])),
        pointers: Ok(vec![Pptr::local(owner)]),
    }
}

fn mono_script(path_id: i64, name: &str) -> Object {
    Object {
        path_id,
        class_id: 115,
        script: Ok(None),
        game_object: unreadable(),
        transform: unreadable(),
        owner: unreadable(),
        value: Ok(object(vec![("m_Name", text(name)), ("m_ClassName", text(name))])),
        pointers: Ok(Vec::new()),
    }
}

fn scene(objects: Vec<Object>) -> SceneFile {
    let transforms = objects.iter().filter(|o| o.class_id == 4).map(|o| o.path_id).collect();
    SceneFile { objects, transforms, linked: Vec::new() }
}

/// A flat scene: one GameObject + Transform per name, written in order. Gives the
/// path ids of the GameObjects too.
fn flat(names: &[&str]) -> (SceneFile, Vec<i64>) {
    let mut objects = Vec::new();
    let mut ids = Vec::new();
    for (i, name) in names.iter().enumerate() {
        let go = 2 * i as i64 + 1;
        objects.push(game_object(go, name, vec![go + 1]));
        objects.push(transform(go + 1, go, Vec::new(), 0));
        ids.push(go);
    }
    (scene(objects), ids)
}

/// `Root` with the children `A`, `B`, `A`; the second `A` carries two scripts.
fn nested() -> SceneFile {
    scene(vec![
        game_object(10, "Root", vec![11]),
        transform(11, 10, vec![21, 31, 41], 0),
        game_object(20, "A", vec![21]),
        transform(21, 20, Vec::new(), 11),
        game_object(30, "B", vec![31]),
        transform(31, 30, Vec::new(), 11),
        game_object(40, "A", vec![41, 42, 43]),
        transform(41, 40, Vec::new(), 11),
        script_component(42, 40, "Mover"),
        script_component(43, 40, "Mover"),
    ])
}

fn open(scene: SceneFile) -> OpenFile {
    let objects = scene.objects.len();
    OpenFile {
        scene,
        header: FileHeader {
            unity_version: Some("2022.3.0f1".to_owned()),
            format_version: 22,
            endianness: "Little".to_owned(),
            file_size: 4096,
            type_tree: true,
            types: 2,
            objects,
            externals: vec![External {
                path: "Library/unity default resources".to_owned(),
                archive: None,
            }],
        },
        catalog: None,
        asset_bundle: Ok(None),
    }
}

fn get<'a>(value: &'a Json, key: &str) -> &'a Json {
    value.get(key).unwrap()
}

fn cat(scene: &SceneFile, reference: &str) -> Result<Json, String> {
    let path_id = resolve::resolve_object_ref(scene, &parse_object_ref(reference).unwrap())?;
    dump_path_id(scene, path_id)
}

#[test]
fn ls_lists_every_object() {
    let (scene, go_ids) = flat(&["Player", "Camera"]);
    let out = ls::list(&scene, None);

    // Two GameObjects + two Transforms.
    let lines: Vec<&str> = out.lines().collect();
    assert_eq!(lines.len(), 4);

    // Each GameObject id appears, tagged GameObject.
    for go_id in &go_ids {
        assert!(
            out.contains(&format!("{go_id:>12}  GameObject")),
            "missing GameObject line for {go_id} in:\n{out}"
        );
    }
    assert_eq!(out.matches("GameObject").count(), 2);
    assert_eq!(out.matches("Transform").count(), 2);
}

#[test]
fn ls_type_filter_matches_exact_class() {
    let (scene, _) = flat(&["Player", "Camera"]);
    let out = ls::list(&scene, Some("GameObject"));

    assert_eq!(out.lines().count(), 2);
    assert!(out.lines().all(|l| l.ends_with("GameObject")), "{out}");
}

#[test]
fn ls_type_filter_unknown_class_is_empty() {
    let (scene, _) = flat(&["Player"]);
    assert_eq!(ls::list(&scene, Some("Texture2D")).as_bytes(), b"");
}

#[test]
fn obj_dumps_named_gameobject_as_json() {
    let (scene, go_ids) = flat(&["Player"]);
    let value = dump_path_id(&scene, go_ids[0]).unwrap();
    assert_eq!(get(&value, "m_Name"), &text("Player"));
    let value = obj::dump(&scene, go_ids[0]).unwrap();
    assert_eq!(get(&value, "m_Name"), &text("Player"));
}

#[test]
fn tree_lists_roots_at_depth_zero() {
    let (scene, go_ids) = flat(&["Player", "Camera"]);
    let out = tree(&scene, None, Components::Hidden).unwrap().render(false);

    // A flat scene: every GameObject is a root, none indented.
    let lines: Vec<&str> = out.lines().collect();
    assert_eq!(
        lines,
        vec![
            format!("Player  #{}", go_ids[0]),
            format!("Camera  #{}", go_ids[1]),
        ]
    );
}

#[test]
fn tree_components_lists_each_components() {
    let (scene, go_ids) = flat(&["Player"]);
    let out = tree(&scene, None, Components::All).unwrap().render(false);

    // Each GameObject has a single Transform component.
    assert_eq!(out, format!("Player  #{}\n  - Transform\n", go_ids[0]));
}

#[test]
fn cat_dumps_component_by_path() {
    let (scene, _) = flat(&["Player"]);
    let value = cat(&scene, "Player@Transform").unwrap();

    // A Transform points back at its GameObject.
    assert!(value.get("m_GameObject").is_some());
}

#[test]
fn dump_qualifies_pptr_with_ref() {
    let (scene, _) = flat(&["Player"]);
    let value = cat(&scene, "Player@Transform").unwrap();

    // The Transform's m_GameObject PPtr gains a re-cat-able $ref.
    assert_eq!(get(get(&value, "m_GameObject"), "$ref"), &text("Player"));
    // A null PPtr is left untouched.
    assert_eq!(get(&value, "m_Father"), &pptr_json(0));
}

#[test]
fn cat_missing_path_errors() {
    let (scene, _) = flat(&["Player"]);
    let err = cat(&scene, "Nope").unwrap_err();
    assert!(err.contains("Nope"), "{err}");
}

#[test]
fn obj_missing_path_id_errors() {
    let (scene, _) = flat(&["Player"]);
    let err = dump_path_id(&scene, 9999).unwrap_err();
    assert!(err.contains("9999"), "error should mention the missing id: {err}");
}

fn objects_verb(class: Option<&str>) -> FileVerb {
    FileVerb::Objects(ObjectsArgs { class: class.map(str::to_owned) })
}

fn show(file: &OpenFile, verb: FileVerb) -> String {
    match run_verb(file, Some(verb)).unwrap() {
        Step::Info(info) => info.render(false),
        Step::Tree(tree) => tree.render(false),
        Step::Objects(objects) => objects.render(false),
        Step::Object(info) => info.render(false),
        Step::Matches(matches) => matches.render(false),
        Step::Preloads(preloads) => preloads.render(false),
        other => panic!("nothing to render: {other:?}"),
    }
}

fn object_verb(reference: &str, verb: Option<ObjectVerb>) -> FileVerb {
    FileVerb::Object(ObjectArgs { reference: parse_object_ref(reference).unwrap(), verb })
}

fn plain_cat() -> Option<ObjectVerb> {
    Some(ObjectVerb::Cat(CatArgs::default()))
}

/// `--game-dir DIR file NAME objects` takes the file relative to the game.
#[test]
fn file_objects_relative_to_game_dir() {
    let command = Command::File(FileArgs {
        path: "level0".to_owned(),
        verb: Some(objects_verb(None)),
    });
    match rabex_cli::run(command) {
        Action::File { path, verb } => {
            assert_eq!(path, "level0");
            let out = show(&open(flat(&["Player"]).0), verb.unwrap());
            assert!(out.contains("GameObject"));
        }
        other => panic!("{other:?}"),
    }
}

/// The CAB of a bundle with one serialized file.
const BUNDLE_CAB: &str = "CAB-test";

/// The file that `bundle <path> file [cab] <verb>` leads to, in a bundle that holds
/// `BUNDLE_CAB` after a resource.
fn in_bundle(cab: Option<&str>, verb: FileVerb) -> (String, Option<FileVerb>) {
    let entries = vec![
        FileEntry { size: 3, flags: 0, path: "CAB-test.resS".to_owned() },
        FileEntry { size: 4096, flags: 4, path: BUNDLE_CAB.to_owned() },
    ];
    let command = Command::Bundle(BundleArgs {
        path: "loose.bundle".to_owned(),
        verb: Some(BundleVerb::File(BundleFileArgs {
            cab: cab.map(str::to_owned),
            verb: Some(verb),
        })),
    });
    match rabex_cli::run(command) {
        Action::BundleFile { path, cab, verb } => {
            assert_eq!(path, "loose.bundle");
            let entry = bundle::select_entry(&entries, cab.as_deref()).unwrap();
            (entry.path.clone(), verb)
        }
        other => panic!("{other:?}"),
    }
}

/// `bundle <path> file <cab> objects` lists the objects in a contained file.
#[test]
fn bundle_file_objects_lists_objects() {
    let (cab, verb) = in_bundle(Some(BUNDLE_CAB), objects_verb(None));
    assert_eq!(cab, BUNDLE_CAB);
    let out = show(&open(flat(&["Player", "Camera"]).0), verb.unwrap());
    assert_eq!(out.matches("GameObject").count(), 2);
}

/// `bundle <path> file <cab> object <id> cat` dumps an object from a CAB.
#[test]
fn bundle_file_object_cat_dumps_json() {
    let (cab, verb) = in_bundle(Some(BUNDLE_CAB), object_verb("1", plain_cat()));
    assert_eq!(cab, BUNDLE_CAB);
    match run_verb(&open(flat(&["Player"]).0), verb) {
        Ok(Step::Dump(value)) => assert_eq!(get(&value, "m_Name"), &text("Player")),
        other => panic!("{other:?}"),
    }
}

/// `bundle <path> file objects` without a CAB defaults to the bundle's main
/// serialized file.
#[test]
fn bundle_file_default_cab_lists_objects() {
    let (cab, verb) = in_bundle(None, objects_verb(None));
    assert_eq!(cab, BUNDLE_CAB);
    let out = show(&open(flat(&["Player", "Camera"]).0), verb.unwrap());
    assert_eq!(out.matches("GameObject").count(), 2);
}

#[test]
fn file_objects_lists_objects() {
    let out = show(&open(flat(&["Player", "Camera"]).0), objects_verb(None));
    assert_eq!(out.matches("GameObject").count(), 2);
    assert_eq!(out.matches("Transform").count(), 2);
}

/// `objects` shows each object's `m_Name` by default (no `--names` flag).
#[test]
fn file_objects_shows_names_by_default() {
    let out = show(&open(flat(&["Player", "Camera"]).0), objects_verb(None));
    assert!(out.contains("Player"));
    assert!(out.contains("Camera"));
}

/// `objects --type <script>` matches MonoBehaviours by script class name and the
/// listing shows the script as `(Script)`.
#[test]
fn file_objects_type_matches_monobehaviour_script() {
    let file = open(scene(vec![
        game_object(1, "Player", vec![2, 3]),
        transform(2, 1, Vec::new(), 0),
        script_component(3, 1, "PlayMakerFSM"),
    ]));
    let out = show(&file, objects_verb(Some("PlayMakerFSM")));
    assert!(out.contains("MonoBehaviour"));
    assert!(out.contains("(PlayMakerFSM)"));
    assert_eq!(out, format!("{:>12}  {:<24}  (PlayMakerFSM)\n", 3, "MonoBehaviour"));
}

#[test]
fn file_objects_type_filter() {
    let out = show(&open(flat(&["Player", "Camera"]).0), objects_verb(Some("GameObject")));
    assert_eq!(out.matches("GameObject").count(), 2);
    assert_eq!(out.matches("Transform").count(), 0);
}

#[test]
fn file_object_cat_dumps_json() {
    let file = open(flat(&["Player"]).0);
    match run_verb(&file, Some(object_verb("1", plain_cat()))) {
        Ok(Step::Dump(value)) => assert_eq!(get(&value, "m_Name"), &text("Player")),
        other => panic!("{other:?}"),
    }
}

/// A negative path id (common in real bundles) must be accepted as the value. It
/// fails later as "no such object".
#[test]
fn file_object_accepts_negative_path_id() {
    let file = open(flat(&["Player"]).0);
    let e = run_verb(&file, Some(object_verb("-8333449340390664235", plain_cat())))
        .unwrap_err();
    assert!(e.contains("8333449340390664235"), "should fail looking up the id: {e}");
}

#[test]
fn file_object_missing_id_errors_without_redundancy() {
    let file = open(flat(&["Player"]).0);
    let e = run_verb(&file, Some(object_verb("9999", plain_cat()))).unwrap_err();
    assert!(e.contains("9999"), "{e}");
    assert!(!e.contains("Caused by"), "error should not be wrapped redundantly: {e}");
}

/// `object <component-path> cat` resolves by hierarchy path and dumps it.
#[test]
fn file_object_cat_by_component_path() {
    let file = open(flat(&["Player"]).0);
    match run_verb(&file, Some(object_verb("Player@Transform", plain_cat()))) {
        Ok(Step::Dump(value)) => assert!(value.get("m_GameObject").is_some()),
        other => panic!("{other:?}"),
    }
}

/// `file <path> find <TYPE>` lists the GameObject(s) carrying that component, with a
/// re-usable component path.
#[test]
fn file_find_lists_component_holders() {
    let file = open(flat(&["Player"]).0);
    let out = show(&file, FileVerb::Find(FindArgs { class: "Transform".to_owned() }));
    assert!(out.contains("Player@Transform"));
    assert_eq!(out, "Player@Transform  (GameObject #1, component #2)\n");
}

#[test]
fn file_info_reports_header() {
    let file = open(flat(&["Player", "Camera"]).0);
    let out = show(&file, FileVerb::Info(InfoArgs { externals: true }));
    assert!(out.contains("serialized file"));
    assert!(out.contains("objects: 4"));
    assert!(out.contains("unity version: 2022.3.0f1"));
    assert_eq!(
        out,
        "serialized file\n  unity version: 2022.3.0f1\n  format version: 22\n  \
         endianness: Little\n  file size: 4096\n  type tree: true\n  types: 2\n  objects: 4\n  \
         externals: 1\n  - Library/unity default resources\n"
    );
}

#[test]
fn without_a_verb_the_header_is_shown() {
    let file = open(flat(&["Player"]).0);
    match run_verb(&file, None) {
        Ok(Step::Info(info)) => {
            assert_eq!(info.externals, 1);
            assert!(info.external_bundles.is_empty());
        }
        other => panic!("{other:?}"),
    }
}

/// `bundle <path> file object <name>` selects an object by its `m_Name` — here a
/// `MonoScript`.
#[test]
fn bundle_file_object_by_name() {
    let file = open(scene(vec![mono_script(5, "PlayMakerFSM"), mono_script(6, "FsmTemplate")]));
    let out = show(&file, object_verb("PlayMakerFSM", Some(ObjectVerb::Info)));
    assert!(out.contains("MonoScript"));
    assert!(out.contains("PlayMakerFSM"));
    assert_eq!(out, "  path id: 5\n  class:   MonoScript\n  name:    PlayMakerFSM\n");
}

#[test]
fn a_singleton_is_selected_by_class() {
    let scene = scene(vec![mono_script(5, "One")]);
    let by_class = parse_object_ref("MonoScript").unwrap();
    assert_eq!(resolve::resolve_object_ref(&scene, &by_class), Ok(5));
}

#[test]
fn siblings_of_one_name_take_an_index() {
    let scene = nested();
    let resolved = |s: &str| resolve::resolve_object_ref(&scene, &parse_object_ref(s).unwrap());
    assert_eq!(resolved("Root/A:0"), Ok(20));
    assert_eq!(resolved("Root/A:1"), Ok(40));
    assert_eq!(resolved("Root/B"), Ok(30));
    assert_eq!(resolved("Root/A:1@Mover:1"), Ok(43));
    assert_eq!(
        resolved("Root/A"),
        Err("child object 'A' is ambiguous (2 matches); add ':<index>' (0..1)".to_owned())
    );
    assert_eq!(
        resolved("Root/A:7"),
        Err("child object 'A': index 7 out of range (2 match(es))".to_owned())
    );
    assert_eq!(resolved("Root/C"), Err("no child object matching 'C'".to_owned()));
    assert_eq!(resolved("Nope/C"), Err("no root object matching 'Nope'".to_owned()));
    assert_eq!(
        resolved("Root/B@Mover"),
        Err("no component matching 'Mover'".to_owned())
    );
    // A bare name that is no root falls back to objects by name.
    assert_eq!(resolved("B"), Ok(30));
    assert_eq!(
        resolved("A"),
        Err("object 'A' is ambiguous (2 matches); add ':<index>' (0..1)".to_owned())
    );
}

/// The path of every object leads back to it, and is among the listed ones.
#[test]
fn built_paths_lead_back() {
    let scene = nested();
    let listed: Vec<String> =
        qualify::all_paths(&scene).unwrap().iter().map(|p| p.to_text()).collect();
    assert_eq!(
        listed,
        vec![
            "Root",
            "Root@Transform",
            "Root/A:0",
            "Root/A:0@Transform",
            "Root/B",
            "Root/B@Transform",
            "Root/A:1",
            "Root/A:1@Transform",
            "Root/A:1@Mover:0",
            "Root/A:1@Mover:1",
        ]
    );
    for object in &scene.objects {
        let path = qualify::build_path(&scene, object.path_id).unwrap();
        assert_eq!(resolve::resolve_component_path(&scene, &path), Ok(object.path_id));
        assert!(listed.contains(&path.to_text()));
    }
}

#[test]
fn every_listed_path_resolves() {
    let scene = nested();
    for path in qualify::all_paths(&scene).unwrap() {
        assert!(resolve::resolve_component_path(&scene, &path).is_ok());
    }
}

#[test]
fn a_loose_asset_has_no_path() {
    let scene = scene(vec![mono_script(5, "One")]);
    assert_eq!(qualify::build_path(&scene, 5), None);
    assert_eq!(qualify::build_path(&scene, 6), None);
}

#[test]
fn circles_end() {
    // Each Transform is the father and the child of the other.
    let looped = scene(vec![
        game_object(1, "A", vec![2]),
        transform(2, 1, vec![4], 4),
        game_object(3, "B", vec![4]),
        transform(4, 3, vec![2], 2),
        game_object(5, "Root", vec![6]),
        transform(6, 5, vec![2], 0),
    ]);
    assert_eq!(qualify::build_path(&looped, 1), None);
    assert!(qualify::all_paths(&looped).is_none());
    assert!(tree(&looped, None, Components::Hidden).is_err());
    assert_eq!(
        find_component(&looped, "Transform").unwrap_err(),
        "the hierarchy runs in a circle"
    );
}

#[test]
fn deep_hierarchies_are_walked() {
    // A chain of Transforms, each the only child of the one before.
    let mut objects = Vec::new();
    for i in 0..50i64 {
        let child = if i < 49 { vec![2 * (i + 1) + 2] } else { Vec::new() };
        let father = if i == 0 { 0 } else { 2 * (i - 1) + 2 };
        objects.push(game_object(2 * i + 1, "N", vec![2 * i + 2]));
        objects.push(transform(2 * i + 2, 2 * i + 1, child, father));
    }
    let deep = scene(objects);
    let path = qualify::build_path(&deep, 99).unwrap();
    assert_eq!(path.segments.len(), 50);
    assert_eq!(qualify::all_paths(&deep).unwrap().len(), 100);
    assert!(tree(&deep, None, Components::Hidden).is_ok());
}

#[test]
fn a_tree_of_scripts_is_pruned() {
    let out = tree(&nested(), None, Components::Scripts).unwrap().render(false);
    assert_eq!(out, "Root  #10\n  A  #40\n    - Mover\n    - Mover\n");
}

#[test]
fn a_tree_can_start_anywhere() {
    let file = open(nested());
    let at = |path: &str| {
        FileVerb::Tree(TreeArgs {
            path: Some(parse_path(path).unwrap()),
            components: true,
            scripts: false,
        })
    };
    assert_eq!(show(&file, at("Root/B")), "B  #30\n  - Transform\n");
    assert_eq!(
        run_verb(&file, Some(at("Root/B@Transform"))).unwrap_err(),
        "tree takes a GameObject path, not a component (drop the `@…`)"
    );
}

#[test]
fn a_tree_counts_what_is_outside() {
    let (mut scene, _) = flat(&["My Player"]);
    scene.objects.push(mono_script(9, "Loose"));
    let out = tree(&scene, None, Components::Hidden).unwrap().render(false);
    assert_eq!(out, "'My Player'  #1\n1 object outside the hierarchy\n");
    scene.objects.push(mono_script(10, "Looser"));
    let counted = tree(&scene, None, Components::Hidden).unwrap();
    assert_eq!(
        counted.render(true),
        "\x1b[32m'My Player'\x1b[0m  \x1b[2m#1\x1b[0m\n\
         \x1b[2m2 objects outside the hierarchy\x1b[0m\n"
    );
}

#[test]
fn an_unreadable_transform_fails_the_tree() {
    let (mut scene, _) = flat(&["Player"]);
    scene.objects[1].transform = Err("broken".to_owned());
    match tree(&scene, None, Components::Hidden) {
        Err(fault) => assert_eq!(fault.to_text(), "broken"),
        Ok(_) => panic!("the transform cannot be read"),
    }
    assert_eq!(
        resolve::resolve_component_path(&scene, &parse_path("Player").unwrap()),
        Err("broken".to_owned())
    );
}

#[test]
fn a_script_is_summarised() {
    let info = object_info(&nested(), 42).unwrap();
    assert_eq!(info.render(false), "  path id: 42\n  class:   MonoBehaviour\n  script:  Mover\n");
    assert_eq!(
        object_info(&nested(), 7).unwrap_err(),
        "No object with path id 7 exists"
    );
}

#[test]
fn cat_takes_a_filter() {
    let file = open(nested());
    let cat = |jq: Option<&str>, jq_file: Option<&str>| {
        Some(ObjectVerb::Cat(CatArgs {
            jq: jq.map(str::to_owned),
            jq_file: jq_file.map(str::to_owned),
        }))
    };
    // `--jq` outweighs `--jq-file`.
    assert_eq!(
        run_verb(&file, Some(object_verb("42", cat(Some(".m_Name"), Some("f.jq"))))),
        Ok(Step::Query { path_id: 42, filter: FilterSource::Inline(".m_Name".to_owned()) })
    );
    assert_eq!(
        run_verb(&file, Some(object_verb("42", cat(None, Some("f.jq"))))),
        Ok(Step::Query { path_id: 42, filter: FilterSource::File("f.jq".to_owned()) })
    );
}

fn search(files_with_matches: bool, verb: Option<ReferencesVerb>) -> ReferencesArgs {
    ReferencesArgs {
        include_preloads: false,
        files_with_matches,
        include_paths: Vec::new(),
        exclude_paths: vec!["scenes".to_owned()],
        include_types: Vec::new(),
        exclude_types: Vec::new(),
        limit: Some(3),
        verb,
    }
}

#[test]
fn references_become_searches() {
    let file = open(nested());
    let run = |args: ReferencesArgs| {
        run_verb(&file, Some(object_verb("Root", Some(ObjectVerb::References(args)))))
    };
    assert_eq!(
        run(search(false, None)),
        Ok(Step::Referrers { path_id: 10, search: search(false, None) })
    );
    assert_eq!(
        run(search(true, None)),
        Ok(Step::ReferencingFiles { path_id: 10, search: search(true, None) })
    );
    assert_eq!(
        run(search(false, Some(ReferencesVerb::Cat(CatArgs::default())))),
        Ok(Step::QueryReferrers {
            path_id: 10,
            search: search(false, None),
            filter: FilterSource::Inline(".".to_owned()),
        })
    );
    assert_eq!(run_verb(&file, Some(FileVerb::References)), Ok(Step::FileReferences));
}

#[test]
fn a_file_is_known_to_others_by_its_location() {
    let file = FileLocation::File("level0".to_owned());
    assert_eq!(file.external_name(), "level0");
    let cab = FileLocation::Bundle {
        cab: "CAB-1".to_owned(),
        archive_path: "archive:/CAB-1/CAB-1".to_owned(),
    };
    assert_eq!(cab.external_name(), "archive:/CAB-1/CAB-1");
}

#[test]
fn the_hint_is_secondary_text() {
    assert_eq!(
        object_hint(false),
        "(metadata only, append `cat` to dump the object's fields)"
    );
    assert_eq!(
        object_hint(true),
        "\x1b[2m(metadata only, append `cat` to dump the object's fields)\x1b[0m"
    );
}

#[test]
fn a_path_id_needs_no_lookup() {
    let (scene, _) = flat(&["Player"]);
    assert_eq!(resolve::resolve_object_ref(&scene, &ObjectRef::PathId(77)), Ok(77));
}

/// Each result of `find` selects the component that was found.
#[test]
fn found_paths_select_their_components() {
    let scene = nested();
    for label in ["Transform", "Mover"] {
        for found in find_component(&scene, label).unwrap().0 {
            let reference = parse_object_ref(&found.path).unwrap();
            assert_eq!(
                resolve::resolve_object_ref(&scene, &reference),
                Ok(found.component_path_id)
            );
        }
    }
}

/// What `cat` prints as `$ref` can be given to `cat` again.
#[test]
fn annotations_lead_to_the_object() {
    let scene = nested();
    let value = cat(&scene, "Root@Transform").unwrap();
    let Json::Array(children) = get(&value, "m_Children") else {
        panic!("{value:?}");
    };
    let mut seen = Vec::new();
    for child in children {
        let written = get(child, "$ref").as_text().unwrap();
        let target = get(child, "m_PathID").as_int().unwrap();
        let reference = parse_object_ref(written).unwrap();
        assert_eq!(resolve::resolve_object_ref(&scene, &reference), Ok(target));
        seen.push(written.as_str());
    }
    assert_eq!(seen, vec!["Root/A:0@Transform", "Root/B@Transform", "Root/A:1@Transform"]);
}

/// A root named like a number is reached by its path id alone.
#[test]
fn a_numeric_name_reads_as_a_path_id() {
    let (scene, _) = flat(&["42"]);
    let path = qualify::build_path(&scene, 1).unwrap();
    assert_eq!(path.to_text(), "42");
    assert_eq!(parse_object_ref("42"), Ok(ObjectRef::PathId(42)));
    assert_eq!(resolve::resolve_component_path(&scene, &path), Ok(1));
}

/// Every listed path is that of the object it leads to, so no two lead to one object.
#[test]
fn listed_paths_differ() {
    let scene = nested();
    let mut seen = Vec::new();
    for path in qualify::all_paths(&scene).unwrap() {
        let target = resolve::resolve_component_path(&scene, &path).unwrap();
        assert_eq!(qualify::build_path(&scene, target), Some(path));
        assert!(!seen.contains(&target));
        seen.push(target);
    }
    assert_eq!(seen.len(), scene.objects.len());
}

#[test]
fn qualifying_again_changes_nothing() {
    let scene = nested();
    for id in [10, 11, 40, 42] {
        let mut value = dump_path_id(&scene, id).unwrap();
        let once = value.copy();
        qualify::qualify(&scene, &mut value);
        assert_eq!(value, once);
    }
}

#[test]
fn the_hierarchy_follows_components_and_relatives() {
    let scene = nested();
    let ids = |object: &Object| -> Vec<i64> {
        followed(object).iter().map(|pptr| pptr.path_id).collect()
    };
    // A GameObject, a Transform, a script.
    assert_eq!(ids(&scene.objects[6]), vec![41, 42, 43]);
    assert_eq!(ids(&scene.objects[1]), vec![10, 0, 21, 31, 41]);
    assert_eq!(ids(&scene.objects[8]), Vec::<i64>::new());
}
