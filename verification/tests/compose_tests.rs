use wac_plug::compose::{compose, PlugInput};
use wac_plug::error::PlugError;
use wac_plug::ext::component_text;
use wac_plug::naming::PackageRef;

// The standard binary header of an (empty, valid) WebAssembly component.
fn empty_component() -> Vec<u8> {
    vec![0x00, 0x61, 0x73, 0x6d, 0x0d, 0x00, 0x01, 0x00]
}

// A type section declaring one empty instance type.
fn instance_type_section() -> Vec<u8> {
    vec![0x07, 0x03, 0x01, 0x42, 0x00]
}

// An import of `name` as an instance of type index 0.
fn instance_import_section(name: &str) -> Vec<u8> {
    let mut contents = vec![0x01, 0x00, name.len() as u8];
    contents.extend_from_slice(name.as_bytes());
    contents.extend_from_slice(&[0x05, 0x00]);
    let mut s = vec![0x0A, contents.len() as u8];
    s.extend_from_slice(&contents);
    s
}

// An export of instance index 0 under `name`.
fn instance_export_section(name: &str) -> Vec<u8> {
    let mut contents = vec![0x01, 0x00, name.len() as u8];
    contents.extend_from_slice(name.as_bytes());
    contents.extend_from_slice(&[0x05, 0x00, 0x00]);
    let mut s = vec![0x0B, contents.len() as u8];
    s.extend_from_slice(&contents);
    s
}

// A component importing an empty instance named `name`.
fn socket_component(name: &str) -> Vec<u8> {
    let mut b = empty_component();
    b.extend_from_slice(&instance_type_section());
    b.extend_from_slice(&instance_import_section(name));
    b
}

// A component importing an empty instance named `dep` and re-exporting it
// under `name`.
fn plug_component(name: &str) -> Vec<u8> {
    let mut b = empty_component();
    b.extend_from_slice(&instance_type_section());
    b.extend_from_slice(&instance_import_section("dep"));
    b.extend_from_slice(&instance_export_section(name));
    b
}

fn plug_input(path: &str, bytes: Vec<u8>) -> PlugInput {
    PlugInput { reference: PackageRef::LocalPath(path.to_string()), bytes }
}

#[test]
fn invalid_socket_bytes_are_rejected() {
    let garbage = vec![1u8, 2, 3, 4];
    match compose(&garbage, &vec![plug_input("p.wasm", empty_component())]) {
        Err(PlugError::InvalidPackage { name }) => assert_eq!(name, "socket"),
        other => panic!("expected InvalidPackage, got {:?}", other),
    }
}

#[test]
fn invalid_plug_bytes_are_rejected_under_their_final_name() {
    match compose(&empty_component(), &vec![plug_input("a/p.wasm", vec![9u8, 9, 9])]) {
        Err(PlugError::InvalidPackage { name }) => assert_eq!(name, "plug:p"),
        other => panic!("expected InvalidPackage, got {:?}", other),
    }
}

#[test]
fn socket_without_imports_yields_no_matching_imports() {
    // An empty component imports nothing, so no plug set can apply.
    match compose(&empty_component(), &vec![plug_input("a/p.wasm", empty_component())]) {
        Err(PlugError::NoMatchingImports) => {},
        other => panic!("expected NoMatchingImports, got {:?}", other),
    }
}

#[test]
fn plug_path_without_file_name_is_rejected() {
    match compose(&empty_component(), &vec![plug_input("..", empty_component())]) {
        Err(PlugError::InvalidPlugName { reference }) => assert_eq!(reference, ".."),
        other => panic!("expected InvalidPlugName, got {:?}", other),
    }
}

#[test]
fn matching_plug_composes_end_to_end() {
    // The socket wants a `logger` instance; the plug provides one.
    let socket = socket_component("logger");
    let plug = plug_component("logger");
    let c = compose(&socket, &vec![plug_input("a/log.wasm", plug)]).unwrap();
    assert_eq!(c.graph.packages.len(), 2);
    assert_eq!(c.graph.packages[1].name, "plug:log");
    assert_eq!(c.graph.instances.len(), 2);
    assert_eq!(c.graph.instances[0].arguments.len(), 1);
    assert_eq!(c.graph.instances[0].arguments[0].name, "logger");
    assert_eq!(c.graph.instances[0].arguments[0].value.instance, 1);
    // The artifact exports exactly what the socket exports: nothing here.
    assert!(c.graph.exports.is_empty());
    // The encoded artifact is itself a binary component.
    assert!(c.bytes.starts_with(&[0x00, 0x61, 0x73, 0x6d]));
    assert!(component_text(&c.bytes).is_ok());
}

#[test]
fn mismatched_export_name_never_satisfies_another_import() {
    // Same shapes, different names: exact-name matching must refuse.
    let socket = socket_component("logger");
    let plug = plug_component("metrics");
    match compose(&socket, &vec![plug_input("a/m.wasm", plug)]) {
        Err(PlugError::NoMatchingImports) => {},
        other => panic!("expected NoMatchingImports, got {:?}", other),
    }
}

#[test]
fn second_plug_claiming_same_import_fails_end_to_end() {
    let socket = socket_component("logger");
    let one = plug_component("logger");
    let two = plug_component("logger");
    match compose(
        &socket,
        &vec![plug_input("a/one.wasm", one), plug_input("b/two.wasm", two)],
    ) {
        Err(PlugError::AlreadySet { name }) => assert_eq!(name, "logger"),
        other => panic!("expected AlreadySet, got {:?}", other),
    }
}

#[test]
fn useless_plug_is_registered_without_an_instance() {
    let socket = socket_component("logger");
    let dud = empty_component();
    let hit = plug_component("logger");
    let c = compose(
        &socket,
        &vec![plug_input("a/dud.wasm", dud), plug_input("b/hit.wasm", hit)],
    )
    .unwrap();
    assert_eq!(c.graph.packages.len(), 3);
    assert_eq!(c.graph.packages[1].name, "plug:dud");
    // Only the socket and the one useful plug became instances.
    assert_eq!(c.graph.instances.len(), 2);
    assert_eq!(c.graph.instances[1].package, 2);
}

#[test]
fn colliding_disambiguated_names_are_rejected_at_registration() {
    // A singleton group `foo0` takes the name `plug:foo0`; the first member
    // of the duplicated group `foo` then asks for the same name and the
    // registration is refused.
    let socket = socket_component("logger");
    match compose(
        &socket,
        &vec![
            plug_input("a/foo0.wasm", empty_component()),
            plug_input("b/foo.wasm", empty_component()),
            plug_input("c/foo.wasm", empty_component()),
        ],
    ) {
        Err(PlugError::InvalidPackage { name }) => assert_eq!(name, "plug:foo0"),
        other => panic!("expected InvalidPackage, got {:?}", other),
    }
}

#[test]
fn component_text_renders_a_component() {
    let text = component_text(&empty_component()).unwrap();
    assert!(text.starts_with("(component"));
}

#[test]
fn component_text_rejects_garbage() {
    match component_text(&vec![0u8, 1, 2]) {
        Err(PlugError::TextConversionFailed) => {},
        other => panic!("expected TextConversionFailed, got {:?}", other),
    }
}
