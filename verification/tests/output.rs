//! Texts, numbers, styling and the choice of what a command line does.

use rabex_cli::classes::{class_label, class_label_of};
use rabex_cli::cli::{
    AddressableArgs, AddressableFileArgs, AddressableInfoArgs, AddressableVerb, AddressablesArgs,
    AddressablesVerb, BundleArgs, BundleVerb, BundlesArgs, CatArgs, ColorChoice, Command, FileArgs,
    FileVerb, FilesArgs, Format, GameArgs, GameVerb, InfoArgs, ObjectArgs, ObjectVerb, SceneArgs,
    ScenesArgs, ScriptArgs, ScriptLocationsArgs,
};
use rabex_cli::commands::files::Files;
use rabex_cli::component_path::ObjectRef;
use rabex_cli::dispatch::{cat_verb, object_verb, Action};
use rabex_cli::group::{insert_text, Groups};
use rabex_cli::json::{Entry, Json, Number};
use rabex_cli::number::{parse_i64, parse_u32, parse_usize, show_i64, show_u64, show_usize};
use rabex_cli::output::style::{class, dim, header, name};
use rabex_cli::output::{emit, set_color, use_color, Color, Dump};
use rabex_cli::sort::sort;
use rabex_cli::text::{
    align_left, align_right, contains, ends_with, is_whitespace, join, less, repeated,
    starts_with, to_ascii_lower,
};

fn texts(list: &[&str]) -> Vec<String> {
    list.iter().map(|s| s.to_string()).collect()
}

#[test]
fn numbers_read_back() {
    for n in [0, 7, -1, 10, i64::MAX, i64::MIN] {
        assert_eq!(show_i64(n), n.to_string());
        assert_eq!(parse_i64(&show_i64(n)), Some(n));
    }
    assert_eq!(show_u64(u64::MAX), "18446744073709551615");
    assert_eq!(parse_usize(&show_usize(90210)), Some(90210));
}

#[test]
fn numbers_are_read_as_std_reads_them() {
    for s in ["", "+", "-", "+5", "-5", "-0", "007", "1_0", " 1", "4294967295", "4294967296", "x"] {
        assert_eq!(parse_u32(s), s.parse::<u32>().ok(), "{s}");
        assert_eq!(parse_i64(s), s.parse::<i64>().ok(), "{s}");
        assert_eq!(parse_usize(s), s.parse::<usize>().ok(), "{s}");
    }
    assert_eq!(parse_i64("-9223372036854775809"), None);
    assert_eq!(parse_i64("-9223372036854775808"), Some(i64::MIN));
}

#[test]
fn texts_are_compared_and_searched() {
    assert!(less("a", "b") && less("", "a") && less("a", "ab") && less("Z", "a"));
    assert!(!less("a", "a") && !less("é", "z"));
    assert!(contains("abcd", "bc") && contains("x", "") && !contains("ab", "abc"));
    assert!(starts_with("abc", "ab") && !starts_with("abc", "b"));
    assert!(ends_with("Game_Data", "_Data") && !ends_with("Data", "_Data"));
    assert_eq!(to_ascii_lower("AbÉ"), "abÉ");
}

#[test]
fn whitespace_is_what_std_says() {
    for c in '\0'..=char::MAX {
        assert_eq!(is_whitespace(c), c.is_whitespace(), "{c:?}");
    }
}

#[test]
fn texts_are_padded_by_characters() {
    assert_eq!(align_right("é1", 4), format!("{:>4}", "é1"));
    assert_eq!(align_left("é1", 4), format!("{:<4}", "é1"));
    assert_eq!(align_left("long", 2), "long");
    assert_eq!(repeated('x', 3), "xxx");
    assert_eq!(join(&texts(&["a", "b", "c"]), ", "), "a, b, c");
    assert_eq!(join(&texts(&[]), ", "), "");
}

#[test]
fn sorting_orders_texts() {
    let sorted = sort(texts(&["b", "a", "B", "ab", "a"]));
    assert_eq!(sorted, texts(&["B", "a", "a", "ab", "b"]));
}

#[test]
fn groups_keep_keys_and_values_distinct() {
    let mut groups = Groups::new();
    groups.touch("empty");
    groups.put("b", "2".to_owned());
    groups.put("a", "1".to_owned());
    groups.put("b", "1".to_owned());
    groups.put("b", "2".to_owned());
    let entries: Vec<(&str, &Vec<String>)> =
        groups.entries.iter().map(|g| (g.key.as_str(), &g.values)).collect();
    assert_eq!(
        entries,
        vec![("a", &texts(&["1"])), ("b", &texts(&["1", "2"])), ("empty", &texts(&[]))]
    );
    let mut list = texts(&["a", "c"]);
    insert_text(&mut list, "b".to_owned());
    insert_text(&mut list, "c".to_owned());
    assert_eq!(list, texts(&["a", "b", "c"]));
}

#[test]
fn classes_are_labelled_by_name() {
    assert_eq!(class_label(1), "GameObject");
    assert_eq!(class_label(114), "MonoBehaviour");
    assert_eq!(class_label(115), "MonoScript");
    assert_eq!(class_label(224), "RectTransform");
    let unknown = format!("{:?}", rabex::objects::ClassId(123456789));
    assert_eq!(class_label(123456789), unknown);
    assert_eq!(class_label(4), format!("{:?}", rabex::objects::ClassId(4)));
    assert_eq!(class_label_of(Some("Any".to_owned()), 9), "Any");
}

#[test]
fn color_is_decided_once() {
    let mut color = Color::undecided();
    assert!(!color.color_enabled());
    set_color(&mut color, true);
    assert!(color.color_enabled());
    set_color(&mut color, false);
    assert!(color.color_enabled());
    assert!(use_color(ColorChoice::Always, true, false));
    assert!(!use_color(ColorChoice::Never, false, true));
    assert!(use_color(ColorChoice::Auto, false, true));
    assert!(!use_color(ColorChoice::Auto, true, true));
    assert!(!use_color(ColorChoice::Auto, false, false));
}

#[test]
fn styles_are_plain_without_color() {
    assert_eq!(header("x", true), "\x1b[1mx\x1b[0m");
    assert_eq!(dim("x", true), "\x1b[2mx\x1b[0m");
    assert_eq!(class("x", true), "\x1b[36mx\x1b[0m");
    assert_eq!(name("x", true), "\x1b[32mx\x1b[0m");
    for plain in [header("x", false), dim("x", false), class("x", false), name("x", false)] {
        assert_eq!(plain, "x");
    }
}

#[test]
fn results_come_in_the_chosen_format() {
    let files = Files(texts(&["level0"]));
    assert_eq!(emit(&files, Format::Pretty, false, "[\"level0\"]"), "level0\n");
    assert_eq!(emit(&files, Format::Json, true, "[\"level0\"]"), "[\"level0\"]\n");
}

#[test]
fn dumps_print_alike_in_both_formats() {
    let dump = Dump("{\n  \"a\": 1\n}".to_owned());
    for format in [Format::Pretty, Format::Json] {
        assert_eq!(emit(&dump, format, true, &dump.0), "{\n  \"a\": 1\n}\n");
    }
}

#[test]
fn json_is_read_by_key() {
    let entry = |key: &str, value: Json| Entry { key: key.to_owned(), value };
    let value = Json::Object(vec![
        entry("a", Json::Number(Number { text: "5".to_owned(), value: Some(5) })),
        entry("b", Json::Number(Number { text: "1.5".to_owned(), value: None })),
        entry("c", Json::Text("t".to_owned())),
    ]);
    assert_eq!(value.get("a").unwrap().as_int(), Some(5));
    assert_eq!(value.get("b").unwrap().as_int(), None);
    assert_eq!(value.get("c").unwrap().as_text(), Some(&"t".to_owned()));
    assert_eq!(value.get("a").unwrap().as_text(), None);
    assert_eq!(value.get("d"), None);
    assert_eq!(Json::Null.get("a"), None);
    assert_eq!(value.copy(), value);
}

#[test]
fn plurals_list() {
    let run = rabex_cli::run;
    assert_eq!(run(Command::Game(GameArgs { verb: None })), Action::GameInfo);
    assert_eq!(
        run(Command::Game(GameArgs {
            verb: Some(GameVerb::ScriptLocations(ScriptLocationsArgs {
                filter: Some("hero".to_owned()),
            })),
        })),
        Action::ScriptLocations { filter: Some("hero".to_owned()) }
    );
    assert_eq!(run(Command::Scenes(ScenesArgs { verb: None })), Action::Scenes);
    assert_eq!(run(Command::Files(FilesArgs { verb: None })), Action::Files);
    assert_eq!(run(Command::Bundles(BundlesArgs { verb: None })), Action::Bundles);
    let addressables = |verb: Option<AddressablesVerb>| {
        run(Command::Addressables(AddressablesArgs { verb, include_asset_bundles: true }))
    };
    assert_eq!(addressables(None), Action::AddressableKeys { include_asset_bundles: true });
    assert_eq!(addressables(Some(AddressablesVerb::Stats)), Action::AddressableStats);
}

#[test]
fn singulars_select() {
    let run = rabex_cli::run;
    assert_eq!(
        run(Command::Scene(SceneArgs { name: "Menu".to_owned(), verb: None })),
        Action::Scene { name: "Menu".to_owned(), verb: None }
    );
    let bundle = |verb: Option<BundleVerb>| {
        run(Command::Bundle(BundleArgs { path: "b".to_owned(), verb }))
    };
    assert_eq!(bundle(None), Action::BundleInfo { path: "b".to_owned() });
    assert_eq!(bundle(Some(BundleVerb::Files)), Action::BundleFiles { path: "b".to_owned() });
    let addressable = |verb: Option<AddressableVerb>| {
        run(Command::Addressable(AddressableArgs { key: "K".to_owned(), verb }))
    };
    assert_eq!(
        addressable(None),
        Action::AddressableInfo { key: "K".to_owned(), dependencies: false }
    );
    assert_eq!(
        addressable(Some(AddressableVerb::Info(AddressableInfoArgs { dependencies: true }))),
        Action::AddressableInfo { key: "K".to_owned(), dependencies: true }
    );
    assert_eq!(
        addressable(Some(AddressableVerb::Cat)),
        Action::AddressableCat { key: "K".to_owned() }
    );
    assert_eq!(
        addressable(Some(AddressableVerb::File(AddressableFileArgs {
            verb: Some(FileVerb::References),
        }))),
        Action::AddressableFile { key: "K".to_owned(), verb: Some(FileVerb::References) }
    );
    assert_eq!(
        run(Command::Script(ScriptArgs { name: "Hero".to_owned(), verb: None })),
        Action::Script { name: "Hero".to_owned(), verb: None }
    );
}

#[test]
fn only_paths_do_without_a_game() {
    let file = rabex_cli::run(Command::File(FileArgs { path: "level0".to_owned(), verb: None }));
    assert!(!file.needs_game());
    let bundle =
        rabex_cli::run(Command::Bundle(BundleArgs { path: "b".to_owned(), verb: None }));
    assert!(!bundle.needs_game());
    assert!(Action::GameInfo.needs_game());
    assert!(Action::Scene { name: "Menu".to_owned(), verb: None }.needs_game());
}

#[test]
fn an_asset_is_an_object_by_path_id() {
    assert_eq!(
        cat_verb(5),
        FileVerb::Object(ObjectArgs {
            reference: ObjectRef::PathId(5),
            verb: Some(ObjectVerb::Cat(CatArgs { jq: None, jq_file: None })),
        })
    );
    assert_eq!(
        object_verb(6, Some(ObjectVerb::Info)),
        FileVerb::Object(ObjectArgs {
            reference: ObjectRef::PathId(6),
            verb: Some(ObjectVerb::Info),
        })
    );
    assert!(!InfoArgs::default().externals);
}
