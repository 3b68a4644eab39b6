use wac_plug::error::PlugError;
use wac_plug::naming::{assign_names, dec_string, file_stem, PackageRef};

fn stem(p: &str) -> Option<String> {
    file_stem(&p.to_string())
}

#[test]
fn file_stem_ordinary_path() {
    assert_eq!(stem("a/foo.wasm"), Some("foo".to_string()));
    assert_eq!(stem("foo.wasm"), Some("foo".to_string()));
    assert_eq!(stem("foo"), Some("foo".to_string()));
}

#[test]
fn file_stem_dot_handling() {
    assert_eq!(stem("a.b.c"), Some("a.b".to_string()));
    assert_eq!(stem("foo."), Some("foo".to_string()));
    assert_eq!(stem(".hidden"), Some(".hidden".to_string()));
}

#[test]
fn file_stem_special_components() {
    assert_eq!(stem("a/.."), None);
    assert_eq!(stem(".."), None);
    assert_eq!(stem("."), None);
    assert_eq!(stem(""), None);
    assert_eq!(stem("/"), None);
    assert_eq!(stem("a/"), Some("a".to_string()));
    assert_eq!(stem("a/."), Some("a".to_string()));
    assert_eq!(stem("a/./b.wasm"), Some("b".to_string()));
}

#[test]
fn dec_string_renders_decimal() {
    assert_eq!(dec_string(0), "0");
    assert_eq!(dec_string(7), "7");
    assert_eq!(dec_string(10), "10");
    assert_eq!(dec_string(123), "123");
}

#[test]
fn parse_classifies_registry_names() {
    assert!(matches!(
        PackageRef::parse(&"ns:pkg".to_string()),
        PackageRef::RegistryPackage(_)
    ));
    assert!(matches!(
        PackageRef::parse(&"wasi:http-client".to_string()),
        PackageRef::RegistryPackage(_)
    ));
}

#[test]
fn parse_classifies_paths() {
    assert!(matches!(
        PackageRef::parse(&"./x.wasm".to_string()),
        PackageRef::LocalPath(_)
    ));
    assert!(matches!(
        PackageRef::parse(&"foo:Bar".to_string()),
        PackageRef::LocalPath(_)
    ));
    assert!(matches!(
        PackageRef::parse(&"plain".to_string()),
        PackageRef::LocalPath(_)
    ));
}

#[test]
fn parse_via_from_str() {
    let r: PackageRef = "ns:pkg".parse().unwrap();
    assert!(matches!(r, PackageRef::RegistryPackage(_)));
    assert_eq!(r.display(), "ns:pkg");
}

fn local(p: &str) -> PackageRef {
    PackageRef::LocalPath(p.to_string())
}

fn names_of(refs: Vec<PackageRef>) -> Vec<(String, usize)> {
    assign_names(&refs)
        .unwrap()
        .into_iter()
        .map(|n| (n.name, n.index))
        .collect()
}

#[test]
fn two_local_plugs_named_foo_are_disambiguated() {
    let out = names_of(vec![local("a/foo.wasm"), local("b/foo.wasm")]);
    assert_eq!(
        out,
        vec![("plug:foo0".to_string(), 0), ("plug:foo1".to_string(), 1)]
    );
}

#[test]
fn single_local_plug_keeps_plain_marked_name() {
    let out = names_of(vec![local("x/http.wasm")]);
    assert_eq!(out, vec![("plug:http".to_string(), 0)]);
}

#[test]
fn registry_plug_is_never_prefixed() {
    let out = names_of(vec![PackageRef::RegistryPackage("ns:pkg".to_string())]);
    assert_eq!(out, vec![("ns:pkg".to_string(), 0)]);
}

#[test]
fn groups_keep_first_occurrence_order() {
    let out = names_of(vec![local("b.wasm"), local("a.wasm"), local("d/b.wasm")]);
    assert_eq!(
        out,
        vec![
            ("plug:b0".to_string(), 0),
            ("plug:b1".to_string(), 2),
            ("plug:a".to_string(), 1),
        ]
    );
}

#[test]
fn eleventh_member_gets_two_digit_suffix() {
    let refs: Vec<PackageRef> = (0..11).map(|_| local("x.wasm")).collect();
    let out = names_of(refs);
    assert_eq!(out[10].0, "plug:x10");
    assert_eq!(out[0].0, "plug:x0");
}

#[test]
fn path_without_file_name_is_rejected() {
    match assign_names(&vec![local("..")]) {
        Err(PlugError::InvalidPlugName { reference }) => assert_eq!(reference, ".."),
        other => panic!("expected InvalidPlugName, got {:?}", other),
    }
}

#[test]
fn first_bad_reference_is_reported() {
    match assign_names(&vec![local("ok.wasm"), local("a/.."), local("..")]) {
        Err(PlugError::InvalidPlugName { reference }) => assert_eq!(reference, "a/.."),
        other => panic!("expected InvalidPlugName, got {:?}", other),
    }
}
