use wac_plug::error::PlugError;
use wac_plug::graph::{ComposeGraph, ValueRef};
use wac_plug::sig::{NamedType, PackageSig};

fn sig(name: &str, imports: &[(&str, usize)], exports: &[(&str, usize)]) -> PackageSig {
    PackageSig {
        name: name.to_string(),
        imports: imports
            .iter()
            .map(|(n, t)| NamedType { name: n.to_string(), ty: *t })
            .collect(),
        exports: exports
            .iter()
            .map(|(n, t)| NamedType { name: n.to_string(), ty: *t })
            .collect(),
    }
}

#[test]
fn register_assigns_consecutive_identifiers() {
    let mut g = ComposeGraph::new();
    let a = g.register(sig("a", &[], &[]));
    let b = g.register(sig("b", &[], &[]));
    assert_eq!(a, 0);
    assert_eq!(b, 1);
    assert_eq!(g.packages.len(), 2);
}

#[test]
fn instantiate_starts_with_no_arguments() {
    let mut g = ComposeGraph::new();
    let p = g.register(sig("a", &[("imp", 0)], &[]));
    let i = g.instantiate(p);
    assert_eq!(i, 0);
    assert_eq!(g.argument_count(i), 0);
}

#[test]
fn alias_export_known_name() {
    let mut g = ComposeGraph::new();
    let p = g.register(sig("a", &[], &[("out", 3)]));
    let i = g.instantiate(p);
    let v = g.alias_export(i, &"out".to_string()).unwrap();
    assert_eq!(v.instance, i);
    assert_eq!(v.export, "out");
}

#[test]
fn alias_export_unknown_name() {
    let mut g = ComposeGraph::new();
    let p = g.register(sig("a", &[], &[("out", 3)]));
    let i = g.instantiate(p);
    match g.alias_export(i, &"missing".to_string()) {
        Err(PlugError::UnknownExport { name }) => assert_eq!(name, "missing"),
        other => panic!("expected UnknownExport, got {:?}", other),
    }
}

#[test]
fn set_argument_unknown_import() {
    let mut g = ComposeGraph::new();
    let p = g.register(sig("prod", &[], &[("out", 1)]));
    let s = g.register(sig("sock", &[("in", 2)], &[]));
    let pi = g.instantiate(p);
    let si = g.instantiate(s);
    let v = g.alias_export(pi, &"out".to_string()).unwrap();
    match g.set_argument(si, &"nope".to_string(), v) {
        Err(PlugError::UnknownImport { name }) => assert_eq!(name, "nope"),
        other => panic!("expected UnknownImport, got {:?}", other),
    }
}

#[test]
fn set_argument_twice_is_rejected() {
    let mut g = ComposeGraph::new();
    let p = g.register(sig("prod", &[], &[("out", 1)]));
    let s = g.register(sig("sock", &[("in", 2)], &[]));
    let pi = g.instantiate(p);
    let si = g.instantiate(s);
    let v1 = g.alias_export(pi, &"out".to_string()).unwrap();
    let v2 = g.alias_export(pi, &"out".to_string()).unwrap();
    assert!(g.set_argument(si, &"in".to_string(), v1).is_ok());
    match g.set_argument(si, &"in".to_string(), v2) {
        Err(PlugError::AlreadySet { name }) => assert_eq!(name, "in"),
        other => panic!("expected AlreadySet, got {:?}", other),
    }
    assert_eq!(g.argument_count(si), 1);
}

#[test]
fn duplicate_export_is_rejected() {
    let mut g = ComposeGraph::new();
    let p = g.register(sig("prod", &[], &[("out", 1)]));
    let pi = g.instantiate(p);
    let v1 = g.alias_export(pi, &"out".to_string()).unwrap();
    let v2 = g.alias_export(pi, &"out".to_string()).unwrap();
    assert!(g.export(v1, &"e".to_string()).is_ok());
    match g.export(v2, &"e".to_string()) {
        Err(PlugError::DuplicateExport { name }) => assert_eq!(name, "e"),
        other => panic!("expected DuplicateExport, got {:?}", other),
    }
    assert_eq!(g.exports.len(), 1);
}

#[test]
fn unsatisfied_imports_shrink_as_arguments_arrive() {
    let mut g = ComposeGraph::new();
    let p = g.register(sig("prod", &[], &[("out", 1)]));
    let s = g.register(sig("sock", &[("x", 2), ("y", 3)], &[]));
    let pi = g.instantiate(p);
    let si = g.instantiate(s);
    assert_eq!(g.unsatisfied_imports(si), vec!["x".to_string(), "y".to_string()]);
    let v = g.alias_export(pi, &"out".to_string()).unwrap();
    g.set_argument(si, &"x".to_string(), v).unwrap();
    assert_eq!(g.unsatisfied_imports(si), vec!["y".to_string()]);
}

#[test]
fn error_messages_name_the_subject() {
    let e = PlugError::AlreadySet { name: "logger".to_string() };
    assert!(e.message().contains("logger"));
    let e = PlugError::NoMatchingImports;
    assert!(e.message().contains("no matching imports"));
    let e = PlugError::InvalidPackage { name: "socket".to_string() };
    assert!(e.message().contains("socket"));
    let e = PlugError::InvalidPlugName { reference: "..".to_string() };
    assert!(e.message().contains(".."));
    assert!(PlugError::EncodeFailed.message().contains("encode"));
    assert!(PlugError::TextConversionFailed.message().contains("text"));
}

#[test]
fn package_signature_reads_back_the_registered_package() {
    let mut g = ComposeGraph::new();
    let p = g.register(sig("prod", &[("need", 7)], &[("out", 1)]));
    let s = g.package_signature(p);
    assert_eq!(s.name, "prod");
    assert_eq!(s.imports.len(), 1);
    assert_eq!(s.imports[0].name, "need");
    assert_eq!(s.imports[0].ty, 7);
    assert_eq!(s.exports[0].name, "out");
}

#[test]
fn value_ref_is_non_owning_lookup() {
    let mut g = ComposeGraph::new();
    let p = g.register(sig("prod", &[], &[("out", 1)]));
    let pi = g.instantiate(p);
    let v = g.alias_export(pi, &"out".to_string()).unwrap();
    let ValueRef { instance, export } = v;
    assert_eq!(instance, pi);
    assert_eq!(export, "out");
}
