use vstd::prelude::*;
use vstd::string::StringExecFns;
use crate::sig::{PackageSig, SigV, wf_sig, names_of};
use crate::graph::{ComposeGraph, GraphV, RefV, wf_graph, wf_inst, wf_ref};
use crate::naming::{
    PackageRef, PackageRefV, assign_names, spec_assign, spec_base_name, spec_display,
    named_list_view, lemma_assign_len,
};
use crate::resolver::{
    candidates, cands_view, cand_view, pair_queries, query_plan, lemma_query_plan_push,
    resolve_with_answers, spec_resolve, spec_candidates, run_plugs, spec_wire, spec_base,
    spec_finalize, ResolutionV,
};
use crate::error::PlugError;
use crate::ext::{
    Store, store_new, load_package, compat, instantiate_node, alias_node, set_arg_node,
    export_node, encode_store, decodes_ok, names_contain,
};

verus! {

/// Plugs the exports of any number of plug components into the imports of
/// a socket component.
#[derive(Debug)]
pub struct PlugCommand {
    /// The plug references; more than one plug can be supplied.
    pub plugs: Vec<PackageRef>,
    /// The socket reference.
    pub socket: PackageRef,
    /// Whether to emit the text format instead of binary.
    pub wat: bool,
    /// The path to write the output to; standard output when absent.
    pub output: Option<String>,
    /// The URL of the registry to use.
    pub registry: Option<String>,
}

/// One plug input: the reference as the user gave it, and its raw bytes
/// as the resolution collaborator fetched them.
#[derive(Debug)]
pub struct PlugInput {
    /// The plug's reference.
    pub reference: PackageRef,
    /// The plug component's bytes.
    pub bytes: Vec<u8>,
}

/// A successful composition: the resolved graph and the encoded artifact.
#[derive(Debug)]
pub struct Composition {
    /// The resolved composition graph.
    pub graph: ComposeGraph,
    /// The encoded binary component.
    pub bytes: Vec<u8>,
}

/// The references of the plug inputs, in order.
pub open spec fn input_refs(plugs: Seq<PlugInput>) -> Seq<PackageRefV> {
    plugs.map_values(|p: PlugInput| p.reference@)
}

/// The bytes of the plug inputs, in order.
pub open spec fn input_bytes(plugs: Seq<PlugInput>) -> Seq<Seq<u8>> {
    plugs.map_values(|p: PlugInput| p.bytes@)
}

/// Whether some reference has no base name (a local path without a file
/// stem).
pub open spec fn some_nameless(rv: Seq<PackageRefV>) -> bool {
    exists|i: int| 0 <= i < rv.len() && spec_base_name(#[trigger] rv[i]) is None
}

/// The base names of fully named references.
pub open spec fn base_names(rv: Seq<PackageRefV>) -> Seq<Seq<char>> {
    rv.map_values(|x: PackageRefV| spec_base_name(x)->Some_0)
}

/// The name of the first registration that fails, walking the assigned
/// plugs in processing order with the names taken so far: a plug fails
/// when its bytes do not decode or its name is already taken.
pub open spec fn first_load_failure(
    assigned: Seq<(Seq<char>, int)>,
    byteses: Seq<Seq<u8>>,
    taken: Seq<Seq<char>>,
) -> Option<Seq<char>>
    decreases assigned.len(),
{
    if assigned.len() == 0 {
        None
    } else {
        let n = assigned[0].0;
        if !decodes_ok(byteses[assigned[0].1]) || taken.contains(n) {
            Some(n)
        } else {
            first_load_failure(assigned.skip(1), byteses, taken.push(n))
        }
    }
}

/// The composition's outcome is the resolution of the decoded signatures
/// under the oracle's answers: the socket signature carries the synthetic
/// socket name, the plug signatures carry the assigned names in order,
/// the answers hold exactly one verdict per candidate pair, and the
/// result mirrors the resolution — a finished graph (unless the real
/// graph or the encoder rejected the replay), the completeness error, or
/// the collision error with the contested import's name.
pub open spec fn reflects_resolution(
    sv: SigV,
    psv: Seq<SigV>,
    ansv: Seq<Seq<bool>>,
    assigned: Seq<(Seq<char>, int)>,
    r: Result<Composition, PlugError>,
) -> bool {
    &&& sv.name == "socket"@
    &&& wf_sig(sv)
    &&& psv.len() == assigned.len()
    &&& (forall|i: int| 0 <= i < psv.len() ==> #[trigger] psv[i].name == assigned[i].0)
    &&& ansv.len() == psv.len()
    &&& (forall|i: int|
        0 <= i < ansv.len() ==> #[trigger] ansv[i].len() == spec_candidates(
            psv[i].exports,
            sv.imports,
        ).len())
    &&& match spec_resolve(sv, psv, ansv) {
        ResolutionV::Done(gv) => (r matches Ok(c) && c.graph@ == gv) || (r matches Err(e) && (
        e matches PlugError::EncodeFailed || e matches PlugError::UnknownExport { .. }
            || e matches PlugError::UnknownImport { .. }
            || e matches PlugError::DuplicateExport { .. })),
        ResolutionV::NoMatch => r matches Err(PlugError::NoMatchingImports),
        ResolutionV::Collision(n) => (r matches Err(PlugError::AlreadySet { name: m }) && m@
            == n),
    }
}

/// Every `Ok` result of `run_plugs` keeps the base graph's shape: the
/// plugs' packages are appended, the exports are untouched, and the socket
/// instance keeps its package while only gaining arguments.
pub proof fn lemma_run_facts(g: GraphV, socket: SigV, plugs: Seq<SigV>, answers: Seq<Seq<bool>>)
    requires
        0 < g.instances.len(),
    ensures
        run_plugs(g, socket, plugs, answers) matches Ok(g2) ==> {
            &&& g2.packages == g.packages + plugs
            &&& g2.exports == g.exports
            &&& 0 < g2.instances.len()
            &&& g2.instances[0].package == g.instances[0].package
            &&& g2.instances[0].arguments.len() >= g.instances[0].arguments.len()
        },
    decreases plugs.len(),
{
    if plugs.len() == 0 {
        assert(g.packages + plugs =~= g.packages);
    } else {
        let g1 = GraphV { packages: g.packages.push(plugs[0]), ..g };
        let ans = if answers.len() > 0 {
            answers[0]
        } else {
            Seq::empty()
        };
        let names = crate::resolver::sel_names(socket, plugs[0], ans);
        let rest_a = if answers.len() > 0 {
            answers.skip(1)
        } else {
            answers
        };
        match spec_wire(g1, 0, g1.packages.len() - 1, names) {
            Ok(g2a) => {
                lemma_run_facts(g2a, socket, plugs.skip(1), rest_a);
                assert(g2a.packages == g1.packages);
                assert(g.packages.push(plugs[0]) + plugs.skip(1) =~= g.packages + plugs);
                assert(g2a.exports == g.exports);
                assert(0 < g2a.instances.len());
                assert(g2a.instances[0].package == g.instances[0].package);
                assert(g2a.instances[0].arguments.len() >= g.instances[0].arguments.len());
            },
            Err(_) => {},
        }
    }
}

/// Collects the oracle's verdicts for every plug against the socket: one
/// query per candidate pair, in plug order then candidate order, the
/// exporter's type handle handed over first and the importer's second,
/// all through the run's one shared cache.  The store's query log grows
/// by exactly the run's query plan.
#[verifier::loop_isolation(false)]
fn gather_answers(st: &mut Store, socket: &PackageSig, plug_sigs: &Vec<PackageSig>) -> (r: Vec<
    Vec<bool>,
>)
    ensures
        r@.len() == plug_sigs@.len(),
        forall|i: int|
            0 <= i < r@.len() ==> #[trigger] r@[i]@.len() == spec_candidates(
                plug_sigs@[i]@.exports,
                socket@.imports,
            ).len(),
        final(st).kinds@ == old(st).kinds@,
        final(st).packages@ == old(st).packages@,
        final(st).nodes@ == old(st).nodes@,
        final(st).names@ == old(st).names@,
        final(st).queries@ == old(st).queries@ + query_plan(
            socket@,
            plug_sigs@.map_values(|p: PackageSig| p@),
        ),
{
    let ghost pv = plug_sigs@.map_values(|p: PackageSig| p@);
    let ghost q0 = st.queries@;
    let mut answers: Vec<Vec<bool>> = Vec::new();
    proof {
        assert(pv.take(0) =~= Seq::<SigV>::empty());
        assert(st.queries@ =~= q0 + query_plan(socket@, pv.take(0)));
    }
    let mut i: usize = 0;
    while i < plug_sigs.len()
        invariant
            0 <= i <= plug_sigs.len(),
            pv.len() == plug_sigs@.len(),
            answers@.len() == i,
            forall|k: int|
                0 <= k < i ==> #[trigger] answers@[k]@.len() == spec_candidates(
                    pv[k].exports,
                    socket@.imports,
                ).len(),
            st.kinds@ == old(st).kinds@,
            st.packages@ == old(st).packages@,
            st.nodes@ == old(st).nodes@,
            st.names@ == old(st).names@,
            st.queries@ == q0 + query_plan(socket@, pv.take(i as int)),
        decreases plug_sigs.len() - i,
    {
        proof {
            assert(pv[i as int] == plug_sigs@[i as int]@);
        }
        let cands = candidates(&plug_sigs[i], socket);
        let ghost cv = spec_candidates(pv[i as int].exports, socket@.imports);
        let ghost qg = st.queries@;
        proof {
            assert(cands_view(cands@) == cv);
            assert(pair_queries(cv).take(0) =~= Seq::<(int, int)>::empty());
            assert(st.queries@ =~= qg + pair_queries(cv).take(0));
        }
        let mut a: Vec<bool> = Vec::new();
        let mut j: usize = 0;
        while j < cands.len()
            invariant
                0 <= j <= cands.len(),
                cands_view(cands@) == cv,
                cv.len() == cands.len(),
                a@.len() == j,
                st.kinds@ == old(st).kinds@,
                st.packages@ == old(st).packages@,
                st.nodes@ == old(st).nodes@,
                st.names@ == old(st).names@,
                st.queries@ == qg + pair_queries(cv).take(j as int),
            decreases cands.len() - j,
        {
            proof {
                assert(cv[j as int] == cand_view(cands@[j as int]));
            }
            a.push(compat(st, cands[j].plug_ty, cands[j].socket_ty));
            proof {
                assert(pair_queries(cv)[j as int] == (cv[j as int].1, cv[j as int].2));
                assert(pair_queries(cv).take(j as int + 1) =~= pair_queries(cv).take(
                    j as int,
                ).push(pair_queries(cv)[j as int]));
                assert(st.queries@ =~= qg + pair_queries(cv).take(j as int + 1));
            }
            j = j + 1;
        }
        answers.push(a);
        proof {
            assert(pair_queries(cv).take(cands.len() as int) =~= pair_queries(cv));
            assert(pv.take(i as int + 1) =~= pv.take(i as int).push(pv[i as int]));
            lemma_query_plan_push(socket@, pv.take(i as int), pv[i as int]);
            assert((q0 + query_plan(socket@, pv.take(i as int))) + pair_queries(cv) =~= q0
                + (query_plan(socket@, pv.take(i as int)) + pair_queries(cv)));
            assert(st.queries@ =~= q0 + query_plan(socket@, pv.take(i as int + 1)));
        }
        i = i + 1;
    }
    proof {
        assert(pv.take(plug_sigs.len() as int) =~= pv);
    }
    answers
}

/// Composes one socket with a list of plugs: derives the plugs'
/// disambiguated names, decodes and registers every package, asks the
/// subtype oracle about every same-named export/import pair, resolves the
/// wiring, replays the resolved graph on the real composition graph, and
/// encodes it.
///
/// The contract walks the pipeline: naming fails with `InvalidPlugName`
/// exactly when some local path has no file stem, carrying the first
/// offender; `InvalidPackage` comes exactly for the first bytes that do
/// not decode or the first name already registered, the socket before any
/// plug; past loading, the result mirrors the resolution of the decoded
/// signatures under the oracle's answers (`reflects_resolution`).  On
/// success the graph holds the socket (named `socket`, package 0) and
/// every plug under its assigned name, the socket instance has at least
/// one argument wired, and the top-level exports are exactly the socket
/// package's exports, by name and in order.
#[verifier::loop_isolation(false)]
pub fn compose(socket_bytes: &Vec<u8>, plugs: &Vec<PlugInput>) -> (r: Result<
    Composition,
    PlugError,
>)
    ensures
        ({
            let rv = input_refs(plugs@);
            let bv = base_names(rv);
            let assigned = spec_assign(rv, bv);
            let byteses = input_bytes(plugs@);
            &&& (some_nameless(rv) <==> r matches Err(PlugError::InvalidPlugName { .. }))
            &&& (r matches Err(PlugError::InvalidPlugName { reference: m }) ==> exists|fi: int|
                0 <= fi < rv.len() && spec_base_name(#[trigger] rv[fi]) is None && (forall|
                    j: int,
                |
                    0 <= j < fi ==> spec_base_name(#[trigger] rv[j]) is Some) && m@
                    == spec_display(rv[fi]))
            &&& (!some_nameless(rv) && !decodes_ok(socket_bytes@) ==> (r matches Err(
                PlugError::InvalidPackage { name: m },
            ) && m@ == "socket"@))
            &&& (!some_nameless(rv) && decodes_ok(socket_bytes@) ==> match first_load_failure(
                assigned,
                byteses,
                seq!["socket"@],
            ) {
                Some(n) => r matches Err(PlugError::InvalidPackage { name: m }) && m@ == n,
                None => !(r matches Err(PlugError::InvalidPackage { .. })),
            })
            &&& (!some_nameless(rv) && decodes_ok(socket_bytes@) && first_load_failure(
                assigned,
                byteses,
                seq!["socket"@],
            ) is None ==> exists|sv: SigV, psv: Seq<SigV>, ansv: Seq<Seq<bool>>|
                #[trigger] reflects_resolution(sv, psv, ansv, assigned, r))
            &&& (r matches Ok(c) ==> {
                &&& wf_graph(c.graph@)
                &&& c.graph@.packages.len() == 1 + plugs@.len()
                &&& c.graph@.packages[0].name == "socket"@
                &&& (forall|i: int|
                    0 <= i < assigned.len() ==> #[trigger] c.graph@.packages[i + 1].name
                        == assigned[i].0)
                &&& 0 < c.graph@.instances.len()
                &&& c.graph@.instances[0].package == 0
                &&& c.graph@.instances[0].arguments.len() >= 1
                &&& c.graph@.exports.map_values(|e: (Seq<char>, RefV)| e.0) == names_of(
                    c.graph@.packages[0].exports,
                )
                &&& exists|ansv: Seq<Seq<bool>>|
                    #[trigger] spec_resolve(
                        c.graph@.packages[0],
                        c.graph@.packages.skip(1),
                        ansv,
                    ) == ResolutionV::Done(c.graph@)
            })
        }),
{
    let ghost rv = input_refs(plugs@);
    let ghost bv = base_names(rv);
    let ghost assigned = spec_assign(rv, bv);
    let ghost byteses = input_bytes(plugs@);
    let ghost taken0 = seq!["socket"@];
    // Derive the plugs' final names.
    let mut refs: Vec<PackageRef> = Vec::new();
    let mut i: usize = 0;
    while i < plugs.len()
        invariant
            0 <= i <= plugs.len(),
            refs@.len() == i,
            forall|j: int| 0 <= j < i ==> #[trigger] refs@[j]@ == plugs@[j].reference@,
        decreases plugs.len() - i,
    {
        refs.push(plugs[i].reference.duplicate());
        i = i + 1;
    }
    proof {
        assert(crate::naming::refs_view(refs@) =~= rv);
    }
    let named = match assign_names(&refs) {
        Ok(n) => n,
        Err(e) => {
            proof {
                assert(some_nameless(rv));
            }
            return Err(e);
        },
    };
    proof {
        assert(!some_nameless(rv));
        assert(bv =~= crate::naming::refs_view(refs@).map_values(
            (|x: PackageRefV| spec_base_name(x)->Some_0),
        ));
        assert(named_list_view(named@) == assigned);
        lemma_assign_len(rv, bv);
        assert(assigned.len() == plugs@.len());
    }
    // Decode and register the socket and every plug.
    let mut st = store_new();
    let socket_label: String = "socket".to_owned();
    let socket_sig = match load_package(&mut st, &socket_label, socket_bytes) {
        Ok(s) => s,
        Err(e) => {
            proof {
                assert(!decodes_ok(socket_bytes@));
            }
            return Err(e);
        },
    };
    proof {
        assert(decodes_ok(socket_bytes@));
        assert(st.names@.map_values(|s: String| s@) =~= taken0);
        assert(assigned.skip(0) =~= assigned);
        assert(assigned.take(0).map_values(|e: (Seq<char>, int)| e.0) =~= Seq::<
            Seq<char>,
        >::empty());
    }
    let mut plug_sigs: Vec<PackageSig> = Vec::new();
    let mut i: usize = 0;
    while i < named.len()
        invariant
            0 <= i <= named.len(),
            named.len() == assigned.len(),
            plug_sigs@.len() == i,
            st.packages@.len() == 1 + i,
            st.nodes@.len() == 0,
            st.queries@.len() == 0,
            forall|k: int| 0 <= k < i ==> wf_sig(#[trigger] plug_sigs@[k]@),
            forall|k: int| 0 <= k < i ==> #[trigger] plug_sigs@[k]@.name == assigned[k].0,
            st.names@.map_values(|s: String| s@) =~= taken0 + assigned.take(
                i as int,
            ).map_values(|e: (Seq<char>, int)| e.0),
            first_load_failure(assigned, byteses, taken0) == first_load_failure(
                assigned.skip(i as int),
                byteses,
                st.names@.map_values(|s: String| s@),
            ),
        decreases named.len() - i,
    {
        let idx = named[i].index;
        let ghost taken_i = st.names@.map_values(|s: String| s@);
        proof {
            assert(named_list_view(named@)[i as int] == assigned[i as int]);
            assert(named@[i as int].name@ == assigned[i as int].0);
            assert(named@[i as int].index as int == assigned[i as int].1);
            assert(idx < plugs.len());
            assert(byteses[assigned[i as int].1] == plugs@[idx as int].bytes@);
            assert(assigned.skip(i as int)[0] == assigned[i as int]);
        }
        let sig = match load_package(&mut st, &named[i].name, &plugs[idx].bytes) {
            Ok(s) => s,
            Err(e) => {
                proof {
                    assert(!decodes_ok(plugs@[idx as int].bytes@) || names_contain(
                        st.names@,
                        named@[i as int].name@,
                    ));
                    if names_contain(st.names@, named@[i as int].name@) {
                        let w = choose|w: int|
                            0 <= w < st.names@.len() && st.names@[w]@ == named@[i as int].name@;
                        assert(taken_i[w] == named@[i as int].name@);
                        assert(taken_i.contains(assigned[i as int].0));
                    }
                    assert(!decodes_ok(byteses[assigned[i as int].1]) || taken_i.contains(
                        assigned[i as int].0,
                    ));
                    assert(assigned.skip(i as int).len() > 0);
                    assert(first_load_failure(assigned.skip(i as int), byteses, taken_i)
                        == Some(assigned[i as int].0));
                }
                return Err(e);
            },
        };
        plug_sigs.push(sig);
        proof {
            // The step succeeded, so the walk moves past this plug.
            assert(decodes_ok(byteses[assigned[i as int].1]));
            assert(!taken_i.contains(assigned[i as int].0)) by {
                if taken_i.contains(assigned[i as int].0) {
                    let w = choose|w: int|
                        0 <= w < taken_i.len() && taken_i[w] == assigned[i as int].0;
                    assert(st.names@.len() > w);
                    assert(false);
                }
            }
            assert(first_load_failure(assigned.skip(i as int), byteses, taken_i)
                == first_load_failure(
                assigned.skip(i as int).skip(1),
                byteses,
                taken_i.push(assigned[i as int].0),
            ));
            assert(assigned.skip(i as int).skip(1) =~= assigned.skip(i as int + 1));
            assert(st.names@.map_values(|s: String| s@) =~= taken_i.push(
                assigned[i as int].0,
            ));
            assert(assigned.take(i as int + 1).map_values(|e: (Seq<char>, int)| e.0)
                =~= assigned.take(i as int).map_values(|e: (Seq<char>, int)| e.0).push(
                assigned[i as int].0,
            ));
            assert(taken0 + assigned.take(i as int + 1).map_values(
                (|e: (Seq<char>, int)| e.0),
            ) =~= (taken0 + assigned.take(i as int).map_values(
                (|e: (Seq<char>, int)| e.0),
            )).push(assigned[i as int].0));
        }
        i = i + 1;
    }
    proof {
        assert(assigned.skip(named.len() as int) =~= Seq::<(Seq<char>, int)>::empty());
        assert(first_load_failure(assigned, byteses, taken0) is None);
    }
    // Ask the oracle about every candidate pair, one shared cache per run.
    let answers = gather_answers(&mut st, &socket_sig, &plug_sigs);
    // Resolve the wiring on the verified graph model.
    let ghost socket_v = socket_sig@;
    let ghost pv = plug_sigs@.map_values(|p: PackageSig| p@);
    let ghost av = answers@.map_values(|a: Vec<bool>| a@);
    let ghost n_pkgs = st.packages@.len();
    proof {
        assert(socket_v.name == "socket"@);
        assert(pv.len() == assigned.len());
        assert(forall|k: int| 0 <= k < pv.len() ==> #[trigger] pv[k].name == assigned[k].0);
        assert(av.len() == pv.len());
        assert(forall|k: int|
            0 <= k < av.len() ==> #[trigger] av[k].len() == spec_candidates(
                pv[k].exports,
                socket_v.imports,
            ).len());
    }
    let g = match resolve_with_answers(socket_sig, plug_sigs, &answers) {
        Ok(g) => g,
        Err(e) => {
            let res: Result<Composition, PlugError> = Err(e);
            proof {
                assert(reflects_resolution(socket_v, pv, av, assigned, res));
            }
            return res;
        },
    };
    proof {
        match spec_resolve(socket_v, pv, av) {
            ResolutionV::Done(gv) => {
                assert(g@ == gv);
                match run_plugs(spec_base(socket_v), socket_v, pv, av) {
                    Ok(g2) => {
                        lemma_run_facts(spec_base(socket_v), socket_v, pv, av);
                        assert(gv == spec_finalize(g2, socket_v));
                        assert(g2.packages =~= seq![socket_v] + pv);
                        assert(gv.packages.len() == 1 + pv.len());
                        assert(gv.packages[0] == socket_v);
                        assert(forall|k: int|
                            0 <= k < pv.len() ==> #[trigger] gv.packages[k + 1] == pv[k]);
                        assert(gv.instances[0].package == 0);
                        assert(gv.instances[0].arguments.len() >= 1) by {
                            assert(g2.instances[0].arguments.len() != 0);
                        }
                        assert(gv.exports =~= socket_v.exports.map_values(
                            (|e: (Seq<char>, int)| (e.0, RefV { instance: 0, export: e.0 })),
                        ));
                        assert(gv.exports.map_values(|e: (Seq<char>, RefV)| e.0)
                            =~= names_of(socket_v.exports));
                    },
                    Err(_) => {
                        assert(false);
                    },
                }
            },
            ResolutionV::NoMatch => {
                assert(false);
            },
            ResolutionV::Collision(_) => {
                assert(false);
            },
        }
        assert(g@.packages.len() == n_pkgs);
        assert(g@.packages.skip(1) =~= pv);
    }
    // Replay the resolved graph on the real composition graph.
    let socket_node = instantiate_node(&mut st, 0);
    let mut k: usize = 1;
    while k < g.instances.len()
        invariant
            1 <= k <= g.instances.len(),
            st.packages@.len() == n_pkgs,
            st.nodes@.len() == k,
        decreases g.instances.len() - k,
    {
        proof {
            assert(wf_inst(g@, g@.instances[k as int]));
            assert(g@.instances[k as int] == g.instances@[k as int]@);
        }
        instantiate_node(&mut st, g.instances[k].package);
        k = k + 1;
    }
    let n_args = g.instances[0].arguments.len();
    let mut q: usize = 0;
    while q < n_args
        invariant
            0 <= q <= n_args,
            n_args == g@.instances[0].arguments.len(),
            st.packages@.len() == n_pkgs,
            st.nodes@.len() == g@.instances.len(),
        decreases n_args - q,
    {
        proof {
            assert(wf_inst(g@, g@.instances[0]));
            assert(wf_ref(g@, g@.instances[0].arguments[q as int].1));
            assert(g@.instances[0] == g.instances@[0]@);
        }
        let src = g.instances[0].arguments[q].value.instance;
        let alias = match alias_node(&mut st, src, &g.instances[0].arguments[q].value.export) {
            Ok(a) => a,
            Err(e) => {
                let res: Result<Composition, PlugError> = Err(e);
                proof {
                    assert(reflects_resolution(socket_v, pv, av, assigned, res));
                }
                return res;
            },
        };
        match set_arg_node(&mut st, socket_node, &g.instances[0].arguments[q].name, &alias) {
            Ok(()) => {},
            Err(e) => {
                let res: Result<Composition, PlugError> = Err(e);
                proof {
                    assert(reflects_resolution(socket_v, pv, av, assigned, res));
                }
                return res;
            },
        }
        q = q + 1;
    }
    let n_exports = g.exports.len();
    let mut q: usize = 0;
    while q < n_exports
        invariant
            0 <= q <= n_exports,
            n_exports == g@.exports.len(),
            st.packages@.len() == n_pkgs,
            st.nodes@.len() == g@.instances.len(),
        decreases n_exports - q,
    {
        proof {
            assert(wf_ref(g@, g@.exports[q as int].1));
            assert(g@.exports[q as int] == crate::graph::export_view(g.exports@[q as int]));
        }
        let src = g.exports[q].value.instance;
        let alias = match alias_node(&mut st, src, &g.exports[q].value.export) {
            Ok(a) => a,
            Err(e) => {
                let res: Result<Composition, PlugError> = Err(e);
                proof {
                    assert(reflects_resolution(socket_v, pv, av, assigned, res));
                }
                return res;
            },
        };
        match export_node(&mut st, &alias, &g.exports[q].name) {
            Ok(()) => {},
            Err(e) => {
                let res: Result<Composition, PlugError> = Err(e);
                proof {
                    assert(reflects_resolution(socket_v, pv, av, assigned, res));
                }
                return res;
            },
        }
        q = q + 1;
    }
    let bytes = match encode_store(&st) {
        Ok(b) => b,
        Err(e) => {
            let res: Result<Composition, PlugError> = Err(e);
            proof {
                assert(reflects_resolution(socket_v, pv, av, assigned, res));
            }
            return res;
        },
    };
    let res: Result<Composition, PlugError> = Ok(Composition { graph: g, bytes });
    proof {
        assert(res matches Ok(c) && c.graph@ == g@);
        assert(reflects_resolution(socket_v, pv, av, assigned, res));
        assert(spec_resolve(socket_v, pv, av) == ResolutionV::Done(g@));
        match &res {
            Ok(c) => {
                assert(spec_resolve(c.graph@.packages[0], c.graph@.packages.skip(1), av)
                    == ResolutionV::Done(c.graph@));
            },
            Err(_) => {},
        }
    }
    res
}

} // verus!
