use rabex_cli::commands::info;
use rabex_cli::target::{looks_like_bundle, Target};

#[test]
fn bundle_magic_detection() {
    assert!(looks_like_bundle(b"UnityFS\0\0\0"));
    assert!(!looks_like_bundle(b"\x00\x00\x00\x00not a bundle"));
    // A serialized file does not start with the bundle magic.
    assert!(!looks_like_bundle(b"Unity"));
    assert!(!looks_like_bundle(b""));
}

#[test]
fn detection_goes_by_kind_and_magic() {
    let path = || "some/path".to_owned();
    assert_eq!(Target::detect(path(), true, None), Target::GameDir(path()));
    assert_eq!(Target::detect(path(), false, Some(b"UnityFS")), Target::Bundle(path()));
    assert_eq!(Target::detect(path(), false, Some(b"serial.")), Target::SerializedFile(path()));
    assert_eq!(Target::detect(path(), false, None), Target::SerializedFile(path()));
}

#[test]
fn a_target_is_told_in_a_line() {
    assert_eq!(info::run(&Target::SerializedFile("level0".to_owned())), "serialized file: level0\n");
    assert_eq!(info::run(&Target::Bundle("x.bundle".to_owned())), "bundle: x.bundle\n");
    assert_eq!(info::run(&Target::GameDir("Game_Data".to_owned())), "game dir: Game_Data\n");
}
