use rabex_cli::component_path::{
    escape, parse, parse_field, parse_object_ref, split_keep_escapes, unescape, ComponentPath,
    Field, ObjectRef,
};

fn field(name: &str, index: Option<usize>) -> Field {
    Field { name: name.to_owned(), index }
}

#[test]
fn plain_path_no_component() {
    assert_eq!(
        parse("Root/Child").unwrap(),
        ComponentPath {
            segments: vec![field("Root", None), field("Child", None)],
            component: None,
        }
    );
}

#[test]
fn path_with_component() {
    assert_eq!(
        parse("Object/Path@SpriteRenderer").unwrap(),
        ComponentPath {
            segments: vec![field("Object", None), field("Path", None)],
            component: Some(field("SpriteRenderer", None)),
        }
    );
}

#[test]
fn indices_on_segments_and_component() {
    assert_eq!(
        parse("Path/To:3/Component@FsmStateMachine:6").unwrap(),
        ComponentPath {
            segments: vec![
                field("Path", None),
                field("To", Some(3)),
                field("Component", None),
            ],
            component: Some(field("FsmStateMachine", Some(6))),
        }
    );
}

#[test]
fn escaped_colon_in_name() {
    assert_eq!(
        parse(r"weird\:name@Comp").unwrap(),
        ComponentPath {
            segments: vec![field("weird:name", None)],
            component: Some(field("Comp", None)),
        }
    );
}

#[test]
fn escaped_slash_and_at_in_name() {
    assert_eq!(
        parse(r"a\/b\@c").unwrap(),
        ComponentPath {
            segments: vec![field("a/b@c", None)],
            component: None,
        }
    );
}

#[test]
fn display_roundtrips_through_parse() {
    for s in [
        "Root/Child",
        "Object/Path@SpriteRenderer",
        "Path/To:3@FsmStateMachine:6",
        r"weird\:name@Comp",
        r"a\/b\@c",
    ] {
        assert_eq!(parse(s).unwrap().to_text(), s);
    }
}

#[test]
fn errors() {
    assert!(parse("").is_err());
    assert!(parse("a//b").is_err());
    assert!(parse("a@b@c").is_err());
    assert!(parse("a:notanumber").is_err());
    assert!(parse("a:1:2").is_err());
}

/// A malformed component path is rejected at parse time, before doing any work.
#[test]
fn file_object_rejects_bad_index() {
    let e = parse_object_ref("Player:x").unwrap_err();
    assert!(e.contains("invalid index"), "{e}");
}

#[test]
fn a_number_is_a_path_id() {
    assert_eq!(
        parse_object_ref("-8333449340390664235"),
        Ok(ObjectRef::PathId(-8333449340390664235))
    );
    assert_eq!(parse_object_ref("9223372036854775807"), Ok(ObjectRef::PathId(i64::MAX)));
    // One more than fits is a name.
    assert_eq!(
        parse_object_ref("9223372036854775808"),
        Ok(ObjectRef::Path(ComponentPath {
            segments: vec![field("9223372036854775808", None)],
            component: None,
        }))
    );
}

#[test]
fn escaping_is_undone() {
    assert_eq!(escape(r"a/b@c:d\e"), r"a\/b\@c\:d\\e");
    assert_eq!(unescape(r"a\/b\@c\:d\\e"), r"a/b@c:d\e");
    assert_eq!(unescape("plain"), "plain");
}

#[test]
fn splitting_keeps_escapes() {
    assert_eq!(split_keep_escapes(r"a\/b/c", '/'), vec![r"a\/b".to_owned(), "c".to_owned()]);
    assert_eq!(split_keep_escapes("", '/'), vec![String::new()]);
    assert_eq!(split_keep_escapes("a/", '/'), vec!["a".to_owned(), String::new()]);
}

#[test]
fn a_field_reads_back() {
    let f = field("we:ird", Some(12));
    assert_eq!(f.to_text(), r"we\:ird:12");
    assert_eq!(parse_field(&f.to_text(), "segment"), Ok(f));
}
