use wac_plug::error::PlugError;
use wac_plug::graph::ComposeGraph;
use wac_plug::resolver::{candidates, resolve_with_answers, select_matches};
use wac_plug::sig::{NamedType, PackageSig};

fn sig(name: &str, imports: &[(&str, usize)], exports: &[(&str, usize)]) -> PackageSig {
    PackageSig {
        name: name.to_string(),
        imports: imports
            .iter()
            .map(|(n, t)| NamedType { name: n.to_string(), ty: *t })
            .collect(),
        exports: exports
            .iter()
            .map(|(n, t)| NamedType { name: n.to_string(), ty: *t })
            .collect(),
    }
}

fn export_names(g: &ComposeGraph) -> Vec<String> {
    g.exports.iter().map(|e| e.name.clone()).collect()
}

fn socket_arg_names(g: &ComposeGraph) -> Vec<String> {
    g.instances[0].arguments.iter().map(|a| a.name.clone()).collect()
}

#[test]
fn one_matching_plug_composes() {
    // The socket wants a logger; the plug provides one of a compatible shape.
    let socket = sig("socket", &[("logger", 0)], &[("api", 1)]);
    let plug = sig("plug:log", &[], &[("logger", 2)]);
    let g = resolve_with_answers(socket, vec![plug], &vec![vec![true]]).unwrap();
    assert_eq!(export_names(&g), vec!["api".to_string()]);
    assert_eq!(socket_arg_names(&g), vec!["logger".to_string()]);
    assert_eq!(g.instances.len(), 2);
    assert_eq!(g.instances[1].package, 1);
    assert_eq!(g.instances[0].arguments[0].value.instance, 1);
    assert_eq!(g.instances[0].arguments[0].value.export, "logger");
}

#[test]
fn disjoint_names_never_match() {
    // No name overlap at all: resolution must refuse, whatever the types.
    let socket = sig("socket", &[("logger", 0)], &[("api", 1)]);
    let plug = sig("plug:m", &[], &[("metrics", 2)]);
    match resolve_with_answers(socket, vec![plug], &vec![vec![true]]) {
        Err(PlugError::NoMatchingImports) => {},
        other => panic!("expected NoMatchingImports, got {:?}", other),
    }
}

#[test]
fn socket_without_imports_rejects_any_plug_set() {
    let socket = sig("socket", &[], &[("api", 1)]);
    let plug = sig("plug:p", &[], &[("anything", 2)]);
    match resolve_with_answers(socket, vec![plug], &vec![vec![true]]) {
        Err(PlugError::NoMatchingImports) => {},
        other => panic!("expected NoMatchingImports, got {:?}", other),
    }
}

#[test]
fn incompatible_types_do_not_wire() {
    let socket = sig("socket", &[("logger", 0)], &[("api", 1)]);
    let plug = sig("plug:log", &[], &[("logger", 2)]);
    match resolve_with_answers(socket, vec![plug], &vec![vec![false]]) {
        Err(PlugError::NoMatchingImports) => {},
        other => panic!("expected NoMatchingImports, got {:?}", other),
    }
}

#[test]
fn one_plug_satisfying_two_imports_is_instantiated_once() {
    let socket = sig("socket", &[("a", 0), ("b", 1)], &[("api", 2)]);
    let plug = sig("plug:p", &[], &[("a", 3), ("b", 4)]);
    let g = resolve_with_answers(socket, vec![plug], &vec![vec![true, true]]).unwrap();
    // One socket instance, one plug instance, nothing more.
    assert_eq!(g.instances.len(), 2);
    assert_eq!(socket_arg_names(&g), vec!["a".to_string(), "b".to_string()]);
    assert_eq!(g.instances[0].arguments[0].value.instance, 1);
    assert_eq!(g.instances[0].arguments[1].value.instance, 1);
}

#[test]
fn plug_without_matches_is_registered_but_not_instantiated() {
    let socket = sig("socket", &[("a", 0)], &[("api", 1)]);
    let dud = sig("plug:dud", &[], &[("unrelated", 2)]);
    let hit = sig("plug:hit", &[], &[("a", 3)]);
    let g = resolve_with_answers(
        socket,
        vec![dud, hit],
        &vec![vec![true], vec![true]],
    )
    .unwrap();
    // Both plugs are registered as packages, only one became an instance.
    assert_eq!(g.packages.len(), 3);
    assert_eq!(g.packages[1].name, "plug:dud");
    assert_eq!(g.instances.len(), 2);
    assert_eq!(g.instances[1].package, 2);
}

#[test]
fn second_claim_on_same_import_is_a_hard_error() {
    let socket = sig("socket", &[("logger", 0)], &[("api", 1)]);
    let first = sig("plug:one", &[], &[("logger", 2)]);
    let second = sig("plug:two", &[], &[("logger", 3)]);
    match resolve_with_answers(
        socket,
        vec![first, second],
        &vec![vec![true], vec![true]],
    ) {
        Err(PlugError::AlreadySet { name }) => assert_eq!(name, "logger"),
        other => panic!("expected AlreadySet, got {:?}", other),
    }
}

#[test]
fn exports_keep_the_socket_order() {
    let socket = sig("socket", &[("x", 0)], &[("b", 1), ("a", 2), ("c", 3)]);
    let plug = sig("plug:p", &[], &[("x", 4)]);
    let g = resolve_with_answers(socket, vec![plug], &vec![vec![true]]).unwrap();
    assert_eq!(
        export_names(&g),
        vec!["b".to_string(), "a".to_string(), "c".to_string()]
    );
}

#[test]
fn resolution_is_deterministic() {
    let mk = || {
        (
            sig("socket", &[("a", 0), ("b", 1)], &[("api", 2)]),
            vec![
                sig("plug:p", &[], &[("a", 3)]),
                sig("plug:q", &[], &[("b", 4)]),
            ],
            vec![vec![true], vec![true]],
        )
    };
    let (s1, p1, a1) = mk();
    let (s2, p2, a2) = mk();
    let g1 = resolve_with_answers(s1, p1, &a1).unwrap();
    let g2 = resolve_with_answers(s2, p2, &a2).unwrap();
    assert_eq!(export_names(&g1), export_names(&g2));
    assert_eq!(socket_arg_names(&g1), socket_arg_names(&g2));
    assert_eq!(g1.instances.len(), g2.instances.len());
    for (i1, i2) in g1.instances.iter().zip(g2.instances.iter()) {
        assert_eq!(i1.package, i2.package);
        for (x, y) in i1.arguments.iter().zip(i2.arguments.iter()) {
            assert_eq!(x.name, y.name);
            assert_eq!(x.value.instance, y.value.instance);
            assert_eq!(x.value.export, y.value.export);
        }
    }
}

#[test]
fn candidates_pair_exact_names_only() {
    let plug = sig("plug:p", &[], &[("a", 10), ("b", 11), ("c", 12)]);
    let socket = sig("socket", &[("b", 20), ("c", 21), ("d", 22)], &[]);
    let cands = candidates(&plug, &socket);
    let names: Vec<String> = cands.iter().map(|c| c.name.clone()).collect();
    assert_eq!(names, vec!["b".to_string(), "c".to_string()]);
    assert_eq!(cands[0].plug_ty, 11);
    assert_eq!(cands[0].socket_ty, 20);
}

#[test]
fn missing_answers_count_as_incompatible() {
    let plug = sig("plug:p", &[], &[("a", 10), ("b", 11)]);
    let socket = sig("socket", &[("a", 20), ("b", 21)], &[]);
    let cands = candidates(&plug, &socket);
    let kept = select_matches(&cands, &vec![true]);
    let names: Vec<String> = kept.iter().map(|c| c.name.clone()).collect();
    assert_eq!(names, vec!["a".to_string()]);
    let none = select_matches(&cands, &vec![]);
    assert!(none.is_empty());
}
