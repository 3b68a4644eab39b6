use vstd::prelude::*;
use crate::sig::{NamedType, PackageSig, wf_sig};
use crate::error::PlugError;

verus! {

#[verifier::external_type_specification]
#[verifier::external_body]
pub struct ExCompositionGraph(wac_graph::CompositionGraph);

#[verifier::external_type_specification]
#[verifier::external_body]
pub struct ExPackageId(wac_graph::PackageId);

#[verifier::external_type_specification]
#[verifier::external_body]
pub struct ExNodeId(wac_graph::NodeId);

#[verifier::external_type_specification]
#[verifier::external_body]
pub struct ExItemKind(wac_types::ItemKind);

/// Everything one composition run holds of the outside world: the real
/// composition graph, the one subtype-check cache shared by every oracle
/// query of the run, the table of opaque type descriptors behind the type
/// handles, and the identifiers the real graph handed out.
///
/// The package and node identifier lists are only ever extended with
/// identifiers returned by this same graph, so the indices the verified
/// code passes around always denote live entries of the real graph.
pub(crate) struct Store {
    /// The real composition graph of this run.
    pub(crate) graph: wac_graph::CompositionGraph,
    /// The run's one subtype-check cache, threaded through every query.
    pub(crate) cache: std::collections::HashSet<(wac_types::ItemKind, wac_types::ItemKind)>,
    /// The opaque type descriptor behind each handle.
    pub(crate) kinds: Vec<wac_types::ItemKind>,
    /// The real identifier of each registered package, in registration order.
    pub(crate) packages: Vec<wac_graph::PackageId>,
    /// The real identifier of each instance node, in creation order.
    pub(crate) nodes: Vec<wac_graph::NodeId>,
    /// The names registered so far, in registration order; mirrors exactly
    /// the package keys the real graph holds (every registration goes
    /// through this store, always without a version).
    pub(crate) names: Vec<String>,
    /// The oracle queries made so far, in order, each as the pair of type
    /// handles asked about: the exporter's first, the importer's second.
    pub(crate) queries: Ghost<Seq<(int, int)>>,
}

/// Whether some registered name reads `n`.
pub open spec fn names_contain(names: Seq<String>, n: Seq<char>) -> bool {
    exists|i: int| 0 <= i < names.len() && names[i]@ == n
}

/// Relies on `wac_graph::CompositionGraph::new`: a fresh empty graph.
#[verifier::external_body]
fn graph_new() -> (g: wac_graph::CompositionGraph) {
    wac_graph::CompositionGraph::new()
}

/// Relies on `HashSet::new`: a fresh empty subtype-check cache.
#[verifier::external_body]
fn cache_new() -> (c: std::collections::HashSet<(wac_types::ItemKind, wac_types::ItemKind)>) {
    std::collections::HashSet::new()
}

/// Creates the store of one composition run.
pub(crate) fn store_new() -> (s: Store)
    ensures
        s.kinds@.len() == 0,
        s.packages@.len() == 0,
        s.nodes@.len() == 0,
        s.names@.len() == 0,
        s.queries@.len() == 0,
{
    Store {
        graph: graph_new(),
        cache: cache_new(),
        kinds: Vec::new(),
        packages: Vec::new(),
        nodes: Vec::new(),
        names: Vec::new(),
        queries: Ghost(Seq::empty()),
    }
}

/// Whether the names of a decoded slot list are pairwise distinct.
pub open spec fn pair_names_distinct(s: Seq<(String, wac_types::ItemKind)>) -> bool {
    forall|i: int, j: int| 0 <= i < j < s.len() ==> s[i].0@ != s[j].0@
}

/// Whether the bytes parse and validate as a binary component, i.e.
/// whether `wac_types::Package::from_bytes` succeeds on them; it depends
/// on the bytes alone (the name only labels errors, and the type
/// collection is an output).
pub uninterp spec fn decodes_ok(b: Seq<u8>) -> bool;

/// Relies on `wac_types::Package::from_bytes` and
/// `wac_graph::CompositionGraph::register_package`: decodes the bytes as a
/// binary component against this graph's type collection and registers the
/// package.  The two calls are paired in one body because
/// `register_package` asserts that the package's type lives in the graph's
/// own collection, which decoding against `types_mut()` guarantees.  The
/// returned import and export lists mirror the package world's two
/// `IndexMap`s, whose keys are unique, in their insertion order.
///
/// Success is pinned down: `from_bytes` succeeds exactly on bytes with
/// `decodes_ok`, and `register_package` rejects exactly a package key
/// (name, no version) already registered — the store's `names` list
/// mirrors those keys, since this graph is reached through this store
/// alone and every registration passes here.
#[verifier::external_body]
fn register_bytes(st: &mut Store, name: &String, bytes: &Vec<u8>) -> (r: Option<
    (Vec<(String, wac_types::ItemKind)>, Vec<(String, wac_types::ItemKind)>),
>)
    ensures
        r is Some <==> decodes_ok(bytes@) && !names_contain(old(st).names@, name@),
        r matches Some(t) ==> {
            &&& pair_names_distinct(t.0@)
            &&& pair_names_distinct(t.1@)
            &&& final(st).packages@.len() == old(st).packages@.len() + 1
            &&& final(st).names@ == old(st).names@.push(*name)
            &&& final(st).nodes@ == old(st).nodes@
            &&& final(st).kinds@ == old(st).kinds@
            &&& final(st).queries == old(st).queries
        },
        r is None ==> {
            &&& final(st).packages@ == old(st).packages@
            &&& final(st).names@ == old(st).names@
            &&& final(st).nodes@ == old(st).nodes@
            &&& final(st).kinds@ == old(st).kinds@
            &&& final(st).queries == old(st).queries
        },
{
    let pkg = wac_types::Package::from_bytes(name, None, bytes.clone(), st.graph.types_mut())
        .ok()?;
    let world = &st.graph.types()[pkg.ty()];
    let imports: Vec<(String, wac_types::ItemKind)> =
        world.imports.iter().map(|(n, k)| (n.clone(), *k)).collect();
    let exports: Vec<(String, wac_types::ItemKind)> =
        world.exports.iter().map(|(n, k)| (n.clone(), *k)).collect();
    let id = st.graph.register_package(pkg).ok()?;
    st.packages.push(id);
    st.names.push(name.clone());
    Some((imports, exports))
}

/// Relies on `wac_types::SubtypeChecker::is_subtype`: decides structural
/// subtype compatibility of two type descriptors against this graph's type
/// collection, memoized in the given cache.  Nothing is assumed of the
/// verdict.
#[verifier::external_body]
fn check_subtype(
    g: &wac_graph::CompositionGraph,
    cache: &mut std::collections::HashSet<(wac_types::ItemKind, wac_types::ItemKind)>,
    a: &wac_types::ItemKind,
    b: &wac_types::ItemKind,
) -> (r: bool) {
    let mut checker = wac_types::SubtypeChecker::new(cache);
    checker.is_subtype(*a, g.types(), *b, g.types()).is_ok()
}

/// Relies on `wac_graph::CompositionGraph::instantiate`: adds an
/// instantiation node for a registered package.  The identifier must be
/// one this graph handed out, which the store's list guarantees.
#[verifier::external_body]
fn instantiate_raw(
    g: &mut wac_graph::CompositionGraph,
    pkg: &wac_graph::PackageId,
) -> (r: wac_graph::NodeId) {
    g.instantiate(*pkg)
}

/// Relies on `wac_graph::CompositionGraph::alias_instance_export`: returns
/// an alias node for the named export of an instance node, or `None` when
/// the graph rejects the alias.
#[verifier::external_body]
fn alias_raw(
    g: &mut wac_graph::CompositionGraph,
    node: &wac_graph::NodeId,
    name: &String,
) -> (r: Option<wac_graph::NodeId>) {
    g.alias_instance_export(*node, name.as_str()).ok()
}

/// Relies on `wac_graph::CompositionGraph::set_instantiation_argument`:
/// supplies an alias node as the named argument of an instance node,
/// reporting success.
#[verifier::external_body]
fn set_arg_raw(
    g: &mut wac_graph::CompositionGraph,
    inst: &wac_graph::NodeId,
    name: &String,
    arg: &wac_graph::NodeId,
) -> (r: bool) {
    g.set_instantiation_argument(*inst, name.as_str(), *arg).is_ok()
}

/// Relies on `wac_graph::CompositionGraph::export`: marks a node as a
/// top-level export of the encoded artifact, reporting success.
#[verifier::external_body]
fn export_raw(
    g: &mut wac_graph::CompositionGraph,
    node: &wac_graph::NodeId,
    name: &String,
) -> (r: bool) {
    g.export(*node, name.as_str()).is_ok()
}

/// Relies on `wac_graph::CompositionGraph::encode`: serializes the graph
/// to a validated binary component, or `None` when the graph is rejected.
#[verifier::external_body]
fn encode_raw(g: &wac_graph::CompositionGraph) -> (r: Option<Vec<u8>>) {
    g.encode(wac_graph::EncodeOptions::default()).ok()
}

/// The text rendering of a binary component, or nothing when the bytes do
/// not print; both the text and the success depend on the bytes alone.
pub uninterp spec fn wat_text_of(b: Seq<u8>) -> Option<Seq<char>>;

/// Relies on `wasmprinter::print_bytes`: renders a binary module or
/// component in its standard text format, a deterministic function of the
/// bytes alone, succeeding exactly when they print.
#[verifier::external_body]
fn print_bytes_raw(bytes: &Vec<u8>) -> (r: Option<String>)
    ensures
        r is Some <==> wat_text_of(bytes@) is Some,
        r matches Some(s) ==> wat_text_of(bytes@) == Some(s@),
{
    wasmprinter::print_bytes(bytes.as_slice()).ok()
}

/// Whether a string is a valid registry package name; it depends on the
/// characters alone.
pub uninterp spec fn valid_package_name(s: Seq<char>) -> bool;

/// Relies on `warg_protocol::registry::PackageName::new`: accepts exactly
/// the strings of the form `namespace:name` whose parts are lower-case
/// kebab identifiers, a function of the characters alone.
#[verifier::external_body]
pub fn is_package_name(s: &String) -> (r: bool)
    ensures
        r == valid_package_name(s@),
{
    warg_protocol::registry::PackageName::new(s.as_str()).is_ok()
}

/// Every type handle of a signature lies below the bound.
pub open spec fn sig_handles_ok(s: crate::sig::SigV, bound: int) -> bool {
    &&& forall|k: int| 0 <= k < s.imports.len() ==> 0 <= #[trigger] s.imports[k].1 < bound
    &&& forall|k: int| 0 <= k < s.exports.len() ==> 0 <= #[trigger] s.exports[k].1 < bound
}

/// Interns a decoded slot list: each opaque descriptor goes into the
/// store's handle table and is replaced by its handle.
fn intern(kinds: &mut Vec<wac_types::ItemKind>, list: Vec<(String, wac_types::ItemKind)>) -> (r:
    Vec<NamedType>)
    ensures
        r@.len() == list@.len(),
        forall|k: int| 0 <= k < r@.len() ==> #[trigger] r@[k].name@ == list@[k].0@,
        forall|k: int|
            0 <= k < r@.len() ==> old(kinds)@.len() <= #[trigger] r@[k].ty < final(kinds)@.len(),
        final(kinds)@.len() == old(kinds)@.len() + list@.len(),
    decreases list@.len(),
{
    let ghost orig = list@;
    let mut list = list;
    let mut out: Vec<NamedType> = Vec::new();
    let mut i: usize = 0;
    let n = list.len();
    while i < n
        invariant
            0 <= i <= n,
            n == orig.len(),
            list@ =~= orig.skip(i as int),
            out@.len() == i,
            forall|k: int| 0 <= k < i ==> #[trigger] out@[k].name@ == orig[k].0@,
            forall|k: int|
                0 <= k < i ==> old(kinds)@.len() <= #[trigger] out@[k].ty < kinds@.len(),
            kinds@.len() == old(kinds)@.len() + i,
        decreases n - i,
    {
        proof {
            assert(orig.skip(i as int)[0] == orig[i as int]);
            assert(orig.skip(i as int).remove(0) =~= orig.skip(i as int + 1));
        }
        let (nm, kind) = list.remove(0);
        let h = kinds.len();
        kinds.push(kind);
        out.push(NamedType { name: nm, ty: h });
        i = i + 1;
    }
    out
}

/// Decodes and registers a package under the given name, returning its
/// signature with the type descriptors interned as handles.
///
/// Succeeds exactly when the bytes decode as a binary component and the
/// name is not yet registered; otherwise fails with `InvalidPackage`
/// carrying the name.
pub(crate) fn load_package(st: &mut Store, name: &String, bytes: &Vec<u8>) -> (r: Result<
    PackageSig,
    PlugError,
>)
    ensures
        r is Ok <==> decodes_ok(bytes@) && !names_contain(old(st).names@, name@),
        match r {
            Ok(sig) => {
                &&& wf_sig(sig@)
                &&& sig@.name == name@
                &&& sig_handles_ok(sig@, final(st).kinds@.len() as int)
                &&& final(st).packages@.len() == old(st).packages@.len() + 1
                &&& final(st).names@ == old(st).names@.push(*name)
                &&& final(st).nodes@ == old(st).nodes@
                &&& final(st).kinds@.len() >= old(st).kinds@.len()
                &&& final(st).queries == old(st).queries
            },
            Err(e) => {
                &&& e matches PlugError::InvalidPackage { name: m } && m@ == name@
                &&& final(st).packages@ == old(st).packages@
                &&& final(st).names@ == old(st).names@
                &&& final(st).nodes@ == old(st).nodes@
                &&& final(st).kinds@ == old(st).kinds@
                &&& final(st).queries == old(st).queries
            },
        },
{
    match register_bytes(st, name, bytes) {
        None => Err(PlugError::InvalidPackage { name: name.clone() }),
        Some((imps, exps)) => {
            let ghost iv = imps@;
            let ghost ev = exps@;
            let imports = intern(&mut st.kinds, imps);
            let exports = intern(&mut st.kinds, exps);
            let sig = PackageSig { name: name.clone(), imports, exports };
            proof {
                assert forall|i: int, j: int|
                    0 <= i < j < sig@.imports.len() implies sig@.imports[i].0
                    != sig@.imports[j].0 by {
                    assert(sig@.imports[i].0 == sig.imports@[i].name@);
                    assert(sig.imports@[i].name@ == iv[i].0@);
                    assert(sig.imports@[j].name@ == iv[j].0@);
                }
                assert forall|i: int, j: int|
                    0 <= i < j < sig@.exports.len() implies sig@.exports[i].0
                    != sig@.exports[j].0 by {
                    assert(sig@.exports[i].0 == sig.exports@[i].name@);
                    assert(sig.exports@[i].name@ == ev[i].0@);
                    assert(sig.exports@[j].name@ == ev[j].0@);
                }
                assert forall|k: int|
                    0 <= k < sig@.imports.len() implies 0 <= #[trigger] sig@.imports[k].1
                    < st.kinds@.len() by {
                    assert(sig@.imports[k].1 == sig.imports@[k].ty as int);
                }
                assert forall|k: int|
                    0 <= k < sig@.exports.len() implies 0 <= #[trigger] sig@.exports[k].1
                    < st.kinds@.len() by {
                    assert(sig@.exports[k].1 == sig.exports@[k].ty as int);
                }
            }
            Ok(sig)
        },
    }
}

/// Asks the subtype oracle once whether the export behind handle `a` can
/// satisfy the import behind handle `b` — the exporter's descriptor is
/// handed over first, the importer's second — memoized in the run's one
/// shared cache.  The query is recorded in the store's log.  A handle out
/// of range (which the resolver never produces) counts as incompatible.
pub(crate) fn compat(st: &mut Store, a: usize, b: usize) -> (r: bool)
    ensures
        final(st).kinds@ == old(st).kinds@,
        final(st).packages@ == old(st).packages@,
        final(st).nodes@ == old(st).nodes@,
        final(st).names@ == old(st).names@,
        final(st).queries@ == old(st).queries@.push((a as int, b as int)),
{
    proof {
        st.queries@ = st.queries@.push((a as int, b as int));
    }
    if a < st.kinds.len() && b < st.kinds.len() {
        check_subtype(&st.graph, &mut st.cache, &st.kinds[a], &st.kinds[b])
    } else {
        false
    }
}

/// Creates a real instance node for a registered package and returns its
/// node index.
pub(crate) fn instantiate_node(st: &mut Store, pkg: usize) -> (r: usize)
    requires
        pkg < old(st).packages@.len(),
    ensures
        r == old(st).nodes@.len(),
        final(st).nodes@.len() == old(st).nodes@.len() + 1,
        final(st).kinds@ == old(st).kinds@,
        final(st).packages@ == old(st).packages@,
{
    let id = instantiate_raw(&mut st.graph, &st.packages[pkg]);
    let r = st.nodes.len();
    st.nodes.push(id);
    r
}

/// Aliases the named export of a real instance node.
///
/// The error stands for any rejection by the real graph at this step;
/// under the verified model none is reachable, but a rejection is
/// reported rather than swallowed.
pub(crate) fn alias_node(st: &mut Store, node: usize, name: &String) -> (r: Result<
    wac_graph::NodeId,
    PlugError,
>)
    requires
        node < old(st).nodes@.len(),
    ensures
        final(st).kinds@ == old(st).kinds@,
        final(st).packages@ == old(st).packages@,
        final(st).nodes@ == old(st).nodes@,
        r matches Err(e) ==> e matches PlugError::UnknownExport { name: m } && m@ == name@,
{
    match alias_raw(&mut st.graph, &st.nodes[node], name) {
        Some(id) => Ok(id),
        None => Err(PlugError::UnknownExport { name: name.clone() }),
    }
}

/// Supplies an alias as the named argument of a real instance node.
///
/// The error stands for any rejection by the real graph at this step
/// (unknown or already-passed argument name, or a failed re-check of the
/// argument's type); under the verified model none is reachable, but a
/// rejection is reported rather than swallowed.
pub(crate) fn set_arg_node(st: &mut Store, inst: usize, name: &String, arg: &wac_graph::NodeId) -> (r:
    Result<(), PlugError>)
    requires
        inst < old(st).nodes@.len(),
    ensures
        final(st).kinds@ == old(st).kinds@,
        final(st).packages@ == old(st).packages@,
        final(st).nodes@ == old(st).nodes@,
        r matches Err(e) ==> e matches PlugError::UnknownImport { name: m } && m@ == name@,
{
    if set_arg_raw(&mut st.graph, &st.nodes[inst], name, arg) {
        Ok(())
    } else {
        Err(PlugError::UnknownImport { name: name.clone() })
    }
}

/// Marks a real node as a top-level export.
///
/// The error stands for any rejection by the real graph at this step (an
/// existing or invalid extern name); under the verified model none is
/// reachable, but a rejection is reported rather than swallowed.
pub(crate) fn export_node(st: &mut Store, node: &wac_graph::NodeId, name: &String) -> (r: Result<
    (),
    PlugError,
>)
    ensures
        final(st).kinds@ == old(st).kinds@,
        final(st).packages@ == old(st).packages@,
        final(st).nodes@ == old(st).nodes@,
        r matches Err(e) ==> e matches PlugError::DuplicateExport { name: m } && m@ == name@,
{
    if export_raw(&mut st.graph, node, name) {
        Ok(())
    } else {
        Err(PlugError::DuplicateExport { name: name.clone() })
    }
}

/// Serializes the real graph to a binary component.
pub(crate) fn encode_store(st: &Store) -> (r: Result<Vec<u8>, PlugError>)
    ensures
        r matches Err(e) ==> e matches PlugError::EncodeFailed,
{
    match encode_raw(&st.graph) {
        Some(b) => Ok(b),
        None => Err(PlugError::EncodeFailed),
    }
}

/// Renders a binary component in the standard text format.
///
/// Succeeds exactly when the bytes print; otherwise fails with
/// `TextConversionFailed`.
pub fn component_text(bytes: &Vec<u8>) -> (r: Result<String, PlugError>)
    ensures
        r is Ok <==> wat_text_of(bytes@) is Some,
        r matches Ok(s) ==> wat_text_of(bytes@) == Some(s@),
        r matches Err(e) ==> e matches PlugError::TextConversionFailed,
{
    match print_bytes_raw(bytes) {
        Some(s) => Ok(s),
        None => Err(PlugError::TextConversionFailed),
    }
}

} // verus!
