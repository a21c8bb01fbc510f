use rabex_cli::commands::bundle::FileEntry;
use rabex_cli::complete::{
    self, completes_fields, is_jq_ident, jq_base, jq_paths, jq_prefix, peek, value_hint, ArgValue,
    Completion, Matches, Selected, Subcommand,
};
use rabex_cli::component_path::ObjectRef;
use rabex_cli::ctx::{Scene, SceneSource};
use rabex_cli::group::Groups;
use rabex_cli::json::{Entry, Json, Number};
use rabex_cli::locate::SteamApp;
use rabex_cli::model::{GameObject, Object, Pptr, SceneFile, Transform};

fn number(text: &str) -> Json {
    Json::Number(Number { text: text.to_owned(), value: text.parse().ok() })
}

#[test]
fn jq_ident_needs_a_leading_letter_or_underscore_then_word_chars() {
    assert!(is_jq_ident("m_Name"));
    assert!(is_jq_ident("_file"));
    assert!(is_jq_ident("a1_b"));

    assert!(!is_jq_ident(""));
    assert!(!is_jq_ident("1abc"));
    assert!(!is_jq_ident("data[0]"));
    assert!(!is_jq_ident("with space"));
    assert!(!is_jq_ident("a-b"));
}

#[test]
fn value_hint_summarises_each_json_kind() {
    let hint = |value: Json| value_hint(&peek(&value));
    assert_eq!(hint(Json::Null), "null");
    assert_eq!(hint(Json::Bool(true)), "true");
    assert_eq!(hint(number("3")), "3");
    assert_eq!(hint(Json::Text("hi".to_owned())), "\"hi\"");
    assert_eq!(hint(Json::Array(vec![number("1"), number("2"), number("3")])), "[3]");
    assert_eq!(
        hint(Json::Object(vec![
            Entry { key: "a".to_owned(), value: number("1") },
            Entry { key: "b".to_owned(), value: number("2") },
        ])),
        "{2}"
    );
}

#[test]
fn value_hint_truncates_long_strings_to_40_chars() {
    let long = "a".repeat(45);
    assert_eq!(
        value_hint(&peek(&Json::Text(long))),
        format!("\"{}…\"", "a".repeat(40))
    );
    let exact = "é".repeat(40);
    assert_eq!(value_hint(&peek(&Json::Text(exact.clone()))), format!("\"{exact}\""));
}

fn bare(value: &str) -> Completion {
    Completion { value: value.to_owned(), help: None }
}

fn helped(value: &str, help: &str) -> Completion {
    Completion { value: value.to_owned(), help: Some(help.to_owned()) }
}

fn results(documents: &[&str]) -> Vec<Vec<u8>> {
    documents.iter().map(|d| d.as_bytes().to_vec()).collect()
}

#[test]
fn expressions_are_left_alone() {
    assert!(completes_fields(""));
    assert!(completes_fields(".a[0].b"));
    assert!(!completes_fields("a"));
    assert!(!completes_fields(".a | .b"));
    assert!(!completes_fields(".a\u{2003}"));
    assert!(!completes_fields(".(a)"));
    assert_eq!(jq_paths(".a|", &results(&["{\"x\":1}"])), Vec::new());
}

#[test]
fn the_prefix_is_what_holds_the_fields() {
    let both = |token: &str| (jq_base(token), jq_prefix(token));
    assert_eq!(both(""), (".".to_owned(), ".".to_owned()));
    assert_eq!(both("."), (".".to_owned(), ".".to_owned()));
    assert_eq!(both(".m_Na"), (".".to_owned(), ".".to_owned()));
    assert_eq!(both(".a.b"), (".a.".to_owned(), ".a".to_owned()));
    assert_eq!(both(".a[0]."), (".a[0].".to_owned(), ".a[0]".to_owned()));
}

#[test]
fn fields_are_offered_once_and_quoted_where_needed() {
    let documents = results(&[
        "{\"m_Name\":\"x\",\"data[0]\":1}",
        "not json",
        "[1]",
        "{\"m_Name\":\"y\",\"m_List\":[],\"say \\\"hi\\\"\":null}",
    ]);
    let mut offered = jq_paths("", &documents);
    offered.sort_by(|a, b| a.value.cmp(&b.value));
    assert_eq!(
        offered,
        vec![
            helped(".\"data[0]\"", "1"),
            helped(".\"say \\\"hi\\\"\"", "null"),
            helped(".m_List", "[0]"),
            helped(".m_Name", "\"x\""),
        ]
    );
}

#[test]
fn a_sole_field_can_be_descended_into() {
    let documents = results(&["{\"m_Obj\":{\"a\":1},\"other\":2}"]);
    assert_eq!(
        jq_paths(".m", &documents),
        vec![helped(".m_Obj", "{1}"), helped(".m_Obj.", "{1}")]
    );
    let documents = results(&["{\"m_Arr\":[1,2]}"]);
    assert_eq!(
        jq_paths(".x.m", &documents),
        vec![helped(".x.m_Arr", "[2]"), helped(".x.m_Arr[", "[2]")]
    );
    // A scalar ends the path.
    let documents = results(&["{\"m_Num\":1.5}"]);
    assert_eq!(jq_paths(".m", &documents), vec![helped(".m_Num", "1.5")]);
}

fn matches(values: &[(&str, &str)], subcommand: Option<(&str, Matches)>) -> Matches {
    Matches {
        values: values
            .iter()
            .map(|(id, value)| ArgValue { id: id.to_string(), value: value.to_string() })
            .collect(),
        reference: None,
        subcommand: subcommand.map(|(name, matches)| {
            Box::new(Subcommand { name: name.to_owned(), matches })
        }),
    }
}

#[test]
fn the_selected_file_is_recovered() {
    let line = |name: &str, m: Matches| matches(&[], Some((name, m)));
    assert_eq!(
        complete::selected_target(&line("file", matches(&[("path", "level0")], None))),
        Some(Selected::File("level0".to_owned()))
    );
    assert_eq!(complete::selected_target(&line("file", matches(&[], None))), None);
    assert_eq!(
        complete::selected_target(&line("scene", matches(&[("name", "Menu")], None))),
        Some(Selected::Scene("Menu".to_owned()))
    );
    assert_eq!(
        complete::selected_target(&line("addressable", matches(&[("key", "K")], None))),
        Some(Selected::Addressable("K".to_owned()))
    );
    // A bundle needs its `file` subcommand; the CAB is optional.
    let bundle = |sub| line("bundle", matches(&[("path", "b")], sub));
    assert_eq!(complete::selected_target(&bundle(None)), None);
    assert_eq!(
        complete::selected_target(&bundle(Some(("file", matches(&[], None))))),
        Some(Selected::Bundle { path: "b".to_owned(), cab: None })
    );
    assert_eq!(
        complete::selected_target(&bundle(Some(("file", matches(&[("cab", "CAB-1")], None))))),
        Some(Selected::Bundle { path: "b".to_owned(), cab: Some("CAB-1".to_owned()) })
    );
    assert_eq!(complete::selected_target(&line("game", matches(&[], None))), None);
    assert_eq!(complete::selected_target(&matches(&[], None)), None);
}

#[test]
fn the_selected_object_is_found_at_any_depth() {
    let mut object = matches(&[], None);
    object.reference = Some(ObjectRef::PathId(7));
    let file = matches(&[], Some(("object", object)));
    let bundle = matches(&[], Some(("file", file)));
    let line = matches(&[], Some(("bundle", bundle)));
    assert_eq!(complete::selected_object_ref(&line), Some(&ObjectRef::PathId(7)));
    assert_eq!(complete::selected_object_ref(&matches(&[], None)), None);
}

fn unreadable<T>() -> Result<T, String> {
    Err("not of that type".to_owned())
}

fn named(path_id: i64, class_id: i32, name: &str) -> Object {
    Object {
        path_id,
        class_id,
        script: Ok(None),
        game_object: unreadable(),
        transform: unreadable(),
        owner: unreadable(),
        value: Ok(Json::Object(vec![Entry {
            key: "m_Name".to_owned(),
            value: Json::Text(name.to_owned()),
        }])),
        pointers: Ok(Vec::new()),
    }
}

/// `Player` and `Camera`, each a GameObject with its Transform, and a script asset.
fn small_scene() -> SceneFile {
    let mut objects = Vec::new();
    for (go, name) in [(1, "Player"), (3, "Camera")] {
        let mut object = named(go, 1, name);
        object.game_object = Ok(GameObject {
            name: name.to_owned(),
            components: vec![Pptr::local(go + 1)],
        });
        objects.push(object);
        let mut object = named(go + 1, 4, "");
        object.owner = Ok(Pptr::local(go));
        object.transform = Ok(Transform {
            game_object: Pptr::local(go),
            children: Vec::new(),
            father: Pptr::local(0),
        });
        objects.push(object);
    }
    objects.push(named(20, 115, "PlayMakerFSM"));
    SceneFile { objects, transforms: vec![2, 4], linked: Vec::new() }
}

/// Empty ref token must offer every path id.
#[test]
fn completion_empty_object_ref_offers_all_ids() {
    let offered = complete::object_refs(&small_scene()).unwrap();
    for id in [1, 3] {
        assert!(offered.contains(&helped(&id.to_string(), "GameObject")));
    }
}

/// `bundle <path> file object <TAB>` completes object refs.
#[test]
fn bundle_file_object_completes_with_default_cab() {
    let scripts = SceneFile {
        objects: vec![named(1, 115, "PlayMakerFSM"), named(2, 115, "FsmTemplate")],
        transforms: Vec::new(),
        linked: Vec::new(),
    };
    let offered = complete::object_refs(&scripts).unwrap();
    assert!(offered.iter().any(|c| c.value == "PlayMakerFSM"));
}

#[test]
fn object_refs_come_in_order_without_repeats() {
    assert_eq!(
        complete::object_refs(&small_scene()).unwrap(),
        vec![
            helped("1", "GameObject"),
            helped("2", "Transform"),
            helped("3", "GameObject"),
            helped("4", "Transform"),
            helped("20", "MonoScript"),
            // Names that are also component paths are not offered again.
            helped("GameObject", "class"),
            helped("Transform", "class"),
            helped("MonoScript", "class"),
            helped("PlayMakerFSM", "MonoScript"),
            bare("Player"),
            bare("Player@Transform"),
            bare("Camera"),
            bare("Camera@Transform"),
        ]
    );
}

#[test]
fn types_are_offered_once() {
    let mut scene = small_scene();
    let mut script = named(30, 114, "");
    script.script = Ok(Some("Mover".to_owned()));
    scene.objects.push(script);
    assert_eq!(
        complete::object_types(&scene),
        vec![
            bare("GameObject"),
            bare("Transform"),
            bare("MonoScript"),
            bare("MonoBehaviour"),
            helped("Mover", "script"),
        ]
    );
    assert_eq!(complete::component_types(&scene), Some(vec![bare("Transform")]));
    assert_eq!(complete::gameobject_paths(&scene), Some(vec![bare("Player"), bare("Camera")]));
}

#[test]
fn only_serialized_files_complete_a_cab() {
    let entries = vec![
        FileEntry { size: 1, flags: 4, path: "CAB-1".to_owned() },
        FileEntry { size: 1, flags: 0, path: "CAB-1.resS".to_owned() },
    ];
    assert_eq!(complete::bundle_cabs(&entries), vec![bare("CAB-1")]);
}

#[test]
fn keys_scenes_and_games_come_with_help() {
    let mut keys = Groups::new();
    keys.put("Area", "MusicCue".to_owned());
    keys.put("Area", "AtmosCue".to_owned());
    assert_eq!(complete::addressable_keys(&keys), vec![helped("Area", "AtmosCue, MusicCue")]);
    let scenes = vec![Scene { name: "Menu".to_owned(), source: SceneSource::Level(1) }];
    assert_eq!(complete::scene_names(&scenes), vec![helped("Menu", "level1")]);
    let apps = vec![
        SteamApp { app_id: 5, name: Some("Game".to_owned()), install_dir: "dir".to_owned() },
        SteamApp { app_id: 6, name: None, install_dir: "other".to_owned() },
    ];
    assert_eq!(complete::steam_games(&apps), vec![helped("Game", "5"), helped("other", "6")]);
    assert_eq!(
        complete::bare_candidates(&vec!["level0".to_owned()]),
        vec![bare("level0")]
    );
}
