use vstd::prelude::*;
use crate::sig::{
    PackageSig, SigV, entries_view, spec_has, spec_lookup, wf_sig, lemma_lookup_exists,
};
use crate::graph::{ComposeGraph, GraphV, InstV, RefV, spec_arg_has, wf_graph, wf_ref};
use crate::error::PlugError;

verus! {

/// One matching candidate: a plug export and a socket import that share a
/// name.  The two type handles are what the subtype oracle is asked about.
#[derive(Debug)]
pub struct Candidate {
    /// The shared name.
    pub name: String,
    /// The type handle of the plug's export.
    pub plug_ty: usize,
    /// The type handle of the socket's import.
    pub socket_ty: usize,
}

pub open spec fn cand_view(c: Candidate) -> (Seq<char>, int, int) {
    (c.name@, c.plug_ty as int, c.socket_ty as int)
}

pub open spec fn cands_view(s: Seq<Candidate>) -> Seq<(Seq<char>, int, int)> {
    s.map_values(|c: Candidate| cand_view(c))
}

/// The names of a candidate list, in order.
pub open spec fn cand_names(s: Seq<(Seq<char>, int, int)>) -> Seq<Seq<char>> {
    s.map_values(|c: (Seq<char>, int, int)| c.0)
}

/// The candidate pairs of a plug's exports against a socket's imports:
/// for every export whose exact name is also an import name, the export's
/// and the import's type handles, in export order.  Name equality is exact;
/// there is no fuzzy or prefix matching.
pub open spec fn spec_candidates(
    exports: Seq<(Seq<char>, int)>,
    imports: Seq<(Seq<char>, int)>,
) -> Seq<(Seq<char>, int, int)>
    decreases exports.len(),
{
    if exports.len() == 0 {
        Seq::empty()
    } else {
        let pre = spec_candidates(exports.drop_last(), imports);
        let e = exports.last();
        match spec_lookup(imports, e.0) {
            Some(t) => pre.push((e.0, e.1, t)),
            None => pre,
        }
    }
}

/// Every candidate's name occurs among the exports and among the imports,
/// and, when the export names are distinct, the candidate names are
/// distinct as well.
pub proof fn lemma_candidates_props(
    exports: Seq<(Seq<char>, int)>,
    imports: Seq<(Seq<char>, int)>,
)
    ensures
        forall|k: int|
            0 <= k < spec_candidates(exports, imports).len() ==> spec_has(
                exports,
                #[trigger] spec_candidates(exports, imports)[k].0,
            ) && spec_has(imports, spec_candidates(exports, imports)[k].0),
        crate::sig::distinct_names(exports) ==> forall|k: int, l: int|
            0 <= k < l < spec_candidates(exports, imports).len()
                ==> spec_candidates(exports, imports)[k].0 != spec_candidates(
                exports,
                imports,
            )[l].0,
    decreases exports.len(),
{
    if exports.len() > 0 {
        let pre_e = exports.drop_last();
        lemma_candidates_props(pre_e, imports);
        let cs = spec_candidates(exports, imports);
        let pre = spec_candidates(pre_e, imports);
        lemma_lookup_exists(exports, exports.last().0);
        assert forall|k: int| 0 <= k < pre.len() implies spec_has(
            exports,
            #[trigger] pre[k].0,
        ) by {
            lemma_lookup_exists(pre_e, pre[k].0);
            lemma_lookup_exists(exports, pre[k].0);
            let i = choose|i: int| 0 <= i < pre_e.len() && pre_e[i].0 == pre[k].0;
            assert(exports[i].0 == pre[k].0);
        }
        if spec_lookup(imports, exports.last().0) is Some {
            assert(cs == pre.push((exports.last().0, exports.last().1, spec_lookup(
                imports,
                exports.last().0,
            )->Some_0)));
            if crate::sig::distinct_names(exports) {
                assert(crate::sig::distinct_names(pre_e)) by {
                    assert(forall|i: int|
                        0 <= i < pre_e.len() ==> pre_e[i] == exports[i]);
                }
                assert forall|k: int| 0 <= k < pre.len() implies pre[k].0
                    != exports.last().0 by {
                    lemma_lookup_exists(pre_e, pre[k].0);
                    let i = choose|i: int| 0 <= i < pre_e.len() && pre_e[i].0 == pre[k].0;
                    assert(exports[i].0 == pre[k].0);
                    assert(exports[exports.len() - 1].0 == exports.last().0);
                }
            }
        } else {
            if crate::sig::distinct_names(exports) {
                assert(crate::sig::distinct_names(pre_e)) by {
                    assert(forall|i: int|
                        0 <= i < pre_e.len() ==> pre_e[i] == exports[i]);
                }
            }
        }
    }
}

/// Computes the candidate pairs of `plug`'s exports against `socket`'s
/// imports, in export order.
pub fn candidates(plug: &PackageSig, socket: &PackageSig) -> (r: Vec<Candidate>)
    ensures
        cands_view(r@) == spec_candidates(plug@.exports, socket@.imports),
{
    let ghost ev = plug@.exports;
    let ghost iv = socket@.imports;
    let mut out: Vec<Candidate> = Vec::new();
    proof {
        assert(cands_view(out@) =~= spec_candidates(ev.take(0), iv)) by {
            assert(ev.take(0).len() == 0);
        }
    }
    let mut j: usize = 0;
    while j < plug.exports.len()
        invariant
            0 <= j <= plug.exports.len(),
            ev == plug@.exports,
            iv == socket@.imports,
            ev.len() == plug.exports.len(),
            cands_view(out@) == spec_candidates(ev.take(j as int), iv),
        decreases plug.exports.len() - j,
    {
        let ghost pre_out = out@;
        proof {
            assert(ev[j as int] == crate::sig::entry_view(plug.exports@[j as int]));
        }
        match crate::sig::lookup(&socket.imports, &plug.exports[j].name) {
            Some(t) => {
                let c = Candidate {
                    name: plug.exports[j].name.clone(),
                    plug_ty: plug.exports[j].ty,
                    socket_ty: t,
                };
                proof {
                    assert(cand_view(c) == (ev[j as int].0, ev[j as int].1, t as int));
                }
                out.push(c);
                proof {
                    assert(cands_view(out@) =~= cands_view(pre_out).push(
                        (ev[j as int].0, ev[j as int].1, t as int),
                    ));
                }
            },
            None => {},
        }
        proof {
            let t1 = ev.take(j + 1);
            assert(t1.drop_last() =~= ev.take(j as int));
            assert(t1.last() == ev[j as int]);
            assert(cands_view(out@) =~= spec_candidates(ev.take(j + 1), iv));
        }
        j = j + 1;
    }
    proof {
        assert(ev.take(plug.exports.len() as int) =~= ev);
    }
    out
}

/// The type-handle pairs of a candidate list, in order: the exporter's
/// handle first, the importer's second.
pub open spec fn pair_queries(cands: Seq<(Seq<char>, int, int)>) -> Seq<(int, int)> {
    cands.map_values(|c: (Seq<char>, int, int)| (c.1, c.2))
}

/// The oracle queries one run owes: for every plug, in order, exactly one
/// query per candidate pair, exporter first, importer second.
pub open spec fn query_plan(socket: SigV, plugs: Seq<SigV>) -> Seq<(int, int)>
    decreases plugs.len(),
{
    if plugs.len() == 0 {
        Seq::empty()
    } else {
        pair_queries(spec_candidates(plugs[0].exports, socket.imports)) + query_plan(
            socket,
            plugs.skip(1),
        )
    }
}

/// One more plug appends exactly its candidate pairs to the plan.
pub proof fn lemma_query_plan_push(socket: SigV, plugs: Seq<SigV>, p: SigV)
    ensures
        query_plan(socket, plugs.push(p)) == query_plan(socket, plugs) + pair_queries(
            spec_candidates(p.exports, socket.imports),
        ),
    decreases plugs.len(),
{
    if plugs.len() == 0 {
        let pqp = pair_queries(spec_candidates(p.exports, socket.imports));
        assert(plugs.push(p)[0] == p);
        assert(plugs.push(p).skip(1) =~= Seq::<SigV>::empty());
        assert(query_plan(socket, Seq::<SigV>::empty()) == Seq::<(int, int)>::empty());
        assert(query_plan(socket, plugs.push(p)) == pqp + query_plan(
            socket,
            plugs.push(p).skip(1),
        ));
        assert(query_plan(socket, plugs) == Seq::<(int, int)>::empty());
        assert(pqp + Seq::<(int, int)>::empty() =~= Seq::<(int, int)>::empty() + pqp);
    } else {
        let c0 = pair_queries(spec_candidates(plugs[0].exports, socket.imports));
        let pqp = pair_queries(spec_candidates(p.exports, socket.imports));
        assert(plugs.push(p)[0] == plugs[0]);
        assert(plugs.push(p).skip(1) =~= plugs.skip(1).push(p));
        lemma_query_plan_push(socket, plugs.skip(1), p);
        assert(query_plan(socket, plugs.push(p)) == c0 + query_plan(
            socket,
            plugs.skip(1).push(p),
        ));
        assert(query_plan(socket, plugs.skip(1).push(p)) == query_plan(socket, plugs.skip(1))
            + pqp);
        assert(query_plan(socket, plugs) == c0 + query_plan(socket, plugs.skip(1)));
        assert(c0 + (query_plan(socket, plugs.skip(1)) + pqp) =~= (c0 + query_plan(
            socket,
            plugs.skip(1),
        )) + pqp);
    }
}

/// The candidates kept by the oracle's answers: candidate `j` is kept
/// exactly when answer `j` exists and is `true`, in candidate order.
pub open spec fn spec_select(
    cands: Seq<(Seq<char>, int, int)>,
    answers: Seq<bool>,
) -> Seq<(Seq<char>, int, int)>
    decreases cands.len(),
{
    if cands.len() == 0 {
        Seq::empty()
    } else {
        let pre = spec_select(cands.drop_last(), answers);
        let j = cands.len() - 1;
        if j < answers.len() && answers[j] {
            pre.push(cands.last())
        } else {
            pre
        }
    }
}

/// Every selected candidate is one of the given candidates.
pub proof fn lemma_select_subset(cands: Seq<(Seq<char>, int, int)>, answers: Seq<bool>)
    ensures
        forall|k: int|
            0 <= k < spec_select(cands, answers).len() ==> exists|j: int|
                0 <= j < cands.len() && #[trigger] spec_select(cands, answers)[k] == cands[j],
    decreases cands.len(),
{
    if cands.len() > 0 {
        let pre_c = cands.drop_last();
        lemma_select_subset(pre_c, answers);
        assert forall|k: int| 0 <= k < spec_select(cands, answers).len() implies exists|j: int|
            0 <= j < cands.len() && #[trigger] spec_select(cands, answers)[k] == cands[j] by {
            let sel = spec_select(cands, answers);
            let pre = spec_select(pre_c, answers);
            if k < pre.len() {
                let j = choose|j: int| 0 <= j < pre_c.len() && pre[k] == pre_c[j];
                assert(cands[j] == pre_c[j]);
                assert(sel[k] == cands[j]);
            } else {
                assert(sel[k] == cands[cands.len() - 1]);
            }
        }
    }
}

/// Keeps the candidates the oracle approved, in order.
pub fn select_matches(cands: &Vec<Candidate>, answers: &Vec<bool>) -> (r: Vec<Candidate>)
    ensures
        cands_view(r@) == spec_select(cands_view(cands@), answers@),
{
    let ghost cv = cands_view(cands@);
    let mut out: Vec<Candidate> = Vec::new();
    proof {
        assert(cands_view(out@) =~= spec_select(cv.take(0), answers@));
    }
    let mut j: usize = 0;
    while j < cands.len()
        invariant
            0 <= j <= cands.len(),
            cv == cands_view(cands@),
            cv.len() == cands.len(),
            cands_view(out@) == spec_select(cv.take(j as int), answers@),
        decreases cands.len() - j,
    {
        let ghost pre_out = out@;
        if j < answers.len() && answers[j] {
            let c = Candidate {
                name: cands[j].name.clone(),
                plug_ty: cands[j].plug_ty,
                socket_ty: cands[j].socket_ty,
            };
            proof {
                assert(cand_view(c) == cv[j as int]);
            }
            out.push(c);
            proof {
                assert(cands_view(out@) =~= cands_view(pre_out).push(cv[j as int]));
            }
        }
        proof {
            let t1 = cv.take(j + 1);
            assert(t1.drop_last() =~= cv.take(j as int));
            assert(t1.last() == cv[j as int]);
            assert(t1.len() - 1 == j);
            assert(cands_view(out@) =~= spec_select(cv.take(j + 1), answers@));
        }
        j = j + 1;
    }
    proof {
        assert(cv.take(cands.len() as int) =~= cv);
    }
    out
}

/// The first of the selected names that already has an argument on the
/// socket instance, if any.
pub open spec fn first_conflict(
    args: Seq<(Seq<char>, RefV)>,
    names: Seq<Seq<char>>,
) -> Option<Seq<char>>
    decreases names.len(),
{
    if names.len() == 0 {
        None
    } else if spec_arg_has(args, names[0]) {
        Some(names[0])
    } else {
        first_conflict(args, names.skip(1))
    }
}

/// Without a conflict, none of the names has an argument yet.
pub proof fn lemma_no_conflict(args: Seq<(Seq<char>, RefV)>, names: Seq<Seq<char>>)
    requires
        first_conflict(args, names) is None,
    ensures
        forall|k: int| 0 <= k < names.len() ==> !spec_arg_has(args, #[trigger] names[k]),
    decreases names.len(),
{
    if names.len() > 0 {
        lemma_no_conflict(args, names.skip(1));
        assert(forall|k: int|
            0 <= k < names.skip(1).len() ==> names.skip(1)[k] == names[k + 1]);
        assert forall|k: int| 0 <= k < names.len() implies !spec_arg_has(
            args,
            #[trigger] names[k],
        ) by {
            if k == 0 {
                assert(!spec_arg_has(args, names[0]));
            } else {
                assert(names[k] == names.skip(1)[k - 1]);
                assert(!spec_arg_has(args, names.skip(1)[k - 1]));
            }
        }
    }
}

/// The graph after wiring the selected names: one new instance of the plug
/// package, and the socket instance's arguments extended, in order, by one
/// argument per name, each aliasing the new instance's export of that name.
pub open spec fn spec_wired_graph(g: GraphV, si: int, pp: int, names: Seq<Seq<char>>) -> GraphV {
    let ni = g.instances.len() as int;
    let with_inst = g.instances.push(InstV { package: pp, arguments: Seq::empty() });
    let new_args = names.map_values(
        |n: Seq<char>| (n, RefV { instance: ni, export: n }),
    );
    GraphV {
        instances: with_inst.update(
            si,
            InstV {
                package: g.instances[si].package,
                arguments: g.instances[si].arguments + new_args,
            },
        ),
        ..g
    }
}

/// The effect of plugging one plug into the socket, given the selected
/// names: with no selected name the graph is unchanged (the plug is never
/// instantiated); with a name that already has an argument the whole step
/// fails with that name (the earlier plug keeps the wiring); otherwise the
/// plug is instantiated exactly once and every selected name is wired.
pub open spec fn spec_wire(g: GraphV, si: int, pp: int, names: Seq<Seq<char>>) -> Result<
    GraphV,
    Seq<char>,
> {
    if names.len() == 0 {
        Ok(g)
    } else {
        match first_conflict(g.instances[si].arguments, names) {
            Some(n) => Err(n),
            None => Ok(spec_wired_graph(g, si, pp, names)),
        }
    }
}

/// Selected names fit for wiring: each is an export of the plug package and
/// an import of the socket instance's package, and no name repeats.
pub open spec fn matches_valid(g: GraphV, si: int, pp: int, names: Seq<Seq<char>>) -> bool {
    &&& forall|k: int|
        0 <= k < names.len() ==> spec_has(g.packages[pp].exports, #[trigger] names[k])
    &&& forall|k: int|
        0 <= k < names.len() ==> spec_has(
            g.packages[g.instances[si].package].imports,
            #[trigger] names[k],
        )
    &&& forall|k: int, l: int| 0 <= k < l < names.len() ==> names[k] != names[l]
}

/// Wires one plug into the socket instance.
///
/// The plug package is instantiated lazily: not at all when no name was
/// selected, and exactly once otherwise, however many names it satisfies.
/// If some selected name already has an argument, the first such name is
/// reported as an `AlreadySet` error and the graph is left unchanged.
pub fn wire_plug(
    g: &mut ComposeGraph,
    socket_instance: usize,
    plug_package: usize,
    matched: &Vec<Candidate>,
) -> (r: Result<(), PlugError>)
    requires
        wf_graph(old(g)@),
        socket_instance < old(g)@.instances.len(),
        plug_package < old(g)@.packages.len(),
        matches_valid(
            old(g)@,
            socket_instance as int,
            plug_package as int,
            cand_names(cands_view(matched@)),
        ),
    ensures
        wf_graph(final(g)@),
        ({
            let names = cand_names(cands_view(matched@));
            match spec_wire(old(g)@, socket_instance as int, plug_package as int, names) {
                Ok(g2) => r is Ok && final(g)@ == g2,
                Err(n) => (r matches Err(PlugError::AlreadySet { name: m }) && m@ == n)
                    && final(g)@ == old(g)@,
            }
        }),
{
    let ghost names = cand_names(cands_view(matched@));
    let ghost old_g = g@;
    let ghost si = socket_instance as int;
    let ghost pp = plug_package as int;
    let ghost old_args = old_g.instances[si].arguments;
    proof {
        assert(forall|k: int|
            0 <= k < matched@.len() ==> names[k] == #[trigger] matched@[k].name@);
        assert(names.skip(0) =~= names);
    }
    let mut k: usize = 0;
    while k < matched.len()
        invariant
            0 <= k <= matched.len(),
            g@ == old_g,
            old(g)@ == old_g,
            wf_graph(old_g),
            socket_instance < old_g.instances.len(),
            si == socket_instance as int,
            old_args == old_g.instances[si].arguments,
            names == cand_names(cands_view(matched@)),
            names.len() == matched.len(),
            forall|j: int|
                0 <= j < matched@.len() ==> names[j] == #[trigger] matched@[j].name@,
            first_conflict(old_args, names) == first_conflict(old_args, names.skip(k as int)),
        decreases matched.len() - k,
    {
        proof {
            assert(names.skip(k as int)[0] == names[k as int]);
            assert(old_g.instances[si] == g.instances@[si]@);
        }
        if crate::graph::find_arg(&g.instances[socket_instance].arguments, &matched[k].name) {
            proof {
                assert(spec_arg_has(old_args, names[k as int]));
                assert(first_conflict(old_args, names) == Some(names[k as int]));
            }
            return Err(PlugError::AlreadySet { name: matched[k].name.clone() });
        }
        proof {
            assert(!spec_arg_has(old_args, names[k as int]));
            assert(names.skip(k as int).skip(1) =~= names.skip(k as int + 1));
        }
        k = k + 1;
    }
    proof {
        assert(names.skip(matched.len() as int) =~= Seq::<Seq<char>>::empty());
        assert(first_conflict(old_args, names) is None);
        lemma_no_conflict(old_args, names);
    }
    if matched.len() == 0 {
        return Ok(());
    }
    let ni = g.instantiate(plug_package);
    let ghost new_ref_of = |n: Seq<char>| (n, RefV { instance: ni as int, export: n });
    let ghost with_inst = old_g.instances.push(
        InstV { package: pp, arguments: Seq::empty() },
    );
    let mut k: usize = 0;
    proof {
        assert(names.take(0).map_values(new_ref_of) =~= Seq::<(Seq<char>, RefV)>::empty());
        assert(old_args + names.take(0).map_values(new_ref_of) =~= old_args);
        assert(with_inst.update(
            si,
            InstV { package: old_g.instances[si].package, arguments: old_args },
        ) =~= with_inst) by {
            assert(with_inst[si] == old_g.instances[si]);
        }
        assert(g@.instances =~= with_inst.update(
            si,
            InstV {
                package: old_g.instances[si].package,
                arguments: old_args + names.take(0).map_values(new_ref_of),
            },
        ));
    }
    while k < matched.len()
        invariant
            0 <= k <= matched.len(),
            wf_graph(g@),
            old(g)@ == old_g,
            wf_graph(old_g),
            si == socket_instance as int,
            pp == plug_package as int,
            0 <= si < old_g.instances.len(),
            pp < old_g.packages.len(),
            ni == old_g.instances.len(),
            old_args == old_g.instances[si].arguments,
            names == cand_names(cands_view(matched@)),
            names.len() == matched.len(),
            matched.len() > 0,
            forall|j: int|
                0 <= j < matched@.len() ==> names[j] == #[trigger] matched@[j].name@,
            matches_valid(old_g, si, pp, names),
            forall|j: int|
                0 <= j < names.len() ==> !spec_arg_has(old_args, #[trigger] names[j]),
            new_ref_of == (|n: Seq<char>| (n, RefV { instance: ni as int, export: n })),
            with_inst == old_g.instances.push(
                (InstV { package: pp, arguments: Seq::empty() }),
            ),
            g@.packages == old_g.packages,
            g@.exports == old_g.exports,
            g@.instances == with_inst.update(
                si,
                (InstV {
                    package: old_g.instances[si].package,
                    arguments: old_args + names.take(k as int).map_values(new_ref_of),
                }),
            ),
        decreases matched.len() - k,
    {
        let ghost cur_g = g@;
        let ghost cur_args = cur_g.instances[si].arguments;
        proof {
            assert(cur_g.instances.len() == old_g.instances.len() + 1);
            assert(ni < cur_g.instances.len());
            assert(cur_g.instances[ni as int].package == pp);
            assert(names[k as int] == matched@[k as int].name@);
        }
        let v = match g.alias_export(ni, &matched[k].name) {
            Ok(v) => v,
            Err(e) => {
                proof {
                    assert(false);
                }
                return Err(e);
            },
        };
        proof {
            assert(v@ == (RefV { instance: ni as int, export: names[k as int] }));
            assert(cur_g.instances[si].package == old_g.instances[si].package);
            assert(spec_has(
                cur_g.packages[cur_g.instances[si].package].imports,
                names[k as int],
            ));
            let prefix = names.take(k as int).map_values(new_ref_of);
            assert(cur_args == old_args + prefix);
            assert forall|idx: int| 0 <= idx < cur_args.len() implies cur_args[idx].0
                != names[k as int] by {
                if idx < old_args.len() {
                    assert(cur_args[idx] == old_args[idx]);
                    if cur_args[idx].0 == names[k as int] {
                        assert(spec_arg_has(old_args, names[k as int]));
                    }
                } else {
                    let j = idx - old_args.len();
                    assert(cur_args[idx] == prefix[j]);
                    assert(prefix[j].0 == names[j]);
                    assert(names[j] != names[k as int]);
                }
            }
            if spec_arg_has(cur_args, names[k as int]) {
                let w = choose|w: int|
                    0 <= w < cur_args.len() && cur_args[w].0 == names[k as int];
                assert(false);
            }
        }
        match g.set_argument(socket_instance, &matched[k].name, v) {
            Ok(()) => {},
            Err(e) => {
                proof {
                    assert(false);
                }
                return Err(e);
            },
        }
        proof {
            let prefix1 = names.take(k as int + 1).map_values(new_ref_of);
            assert(names.take(k as int + 1) =~= names.take(k as int).push(names[k as int]));
            assert(prefix1 =~= names.take(k as int).map_values(new_ref_of).push(
                new_ref_of(names[k as int]),
            ));
            assert((old_args + names.take(k as int).map_values(new_ref_of)).push(
                (names[k as int], v@),
            ) =~= old_args + prefix1);
            assert(g@.instances =~= with_inst.update(
                si,
                InstV {
                    package: old_g.instances[si].package,
                    arguments: old_args + prefix1,
                },
            ));
        }
        k = k + 1;
    }
    proof {
        assert(names.take(matched.len() as int) =~= names);
        let wired = spec_wired_graph(old_g, si, pp, names);
        assert(names.map_values(new_ref_of) =~= names.map_values(
            |n: Seq<char>| (n, RefV { instance: old_g.instances.len() as int, export: n }),
        ));
        assert(g@.instances =~= wired.instances);
        assert(g@ == wired) by {
            assert(g@.packages == wired.packages);
            assert(g@.exports == wired.exports);
        }
    }
    Ok(())
}

/// When the candidate names are distinct, so are the selected names.
pub proof fn lemma_select_distinct(cands: Seq<(Seq<char>, int, int)>, answers: Seq<bool>)
    requires
        forall|k: int, l: int| 0 <= k < l < cands.len() ==> cands[k].0 != cands[l].0,
    ensures
        forall|k: int, l: int|
            0 <= k < l < spec_select(cands, answers).len() ==> spec_select(
                cands,
                answers,
            )[k].0 != spec_select(cands, answers)[l].0,
    decreases cands.len(),
{
    if cands.len() > 0 {
        let pre_c = cands.drop_last();
        assert(forall|i: int| 0 <= i < pre_c.len() ==> pre_c[i] == cands[i]);
        lemma_select_distinct(pre_c, answers);
        lemma_select_subset(pre_c, answers);
        let sel = spec_select(cands, answers);
        let pre = spec_select(pre_c, answers);
        assert forall|k: int, l: int|
            0 <= k < l < sel.len() implies sel[k].0 != sel[l].0 by {
            if l < pre.len() {
                assert(sel[k] == pre[k] && sel[l] == pre[l]);
            } else {
                assert(sel[l] == cands.last());
                assert(sel[k] == pre[k]);
                let j = choose|j: int| 0 <= j < pre_c.len() && pre[k] == pre_c[j];
                assert(cands[j].0 != cands[cands.len() - 1].0);
            }
        }
    }
}

/// The names selected from one plug against the socket, given that plug's
/// oracle answers.
pub open spec fn sel_names(socket: SigV, plug: SigV, ans: Seq<bool>) -> Seq<Seq<char>> {
    cand_names(spec_select(spec_candidates(plug.exports, socket.imports), ans))
}

/// The graph at the start of a run: the socket registered as package 0 and
/// instantiated as instance 0, with nothing else.
pub open spec fn spec_base(socket: SigV) -> GraphV {
    GraphV {
        packages: seq![socket],
        instances: seq![InstV { package: 0, arguments: Seq::empty() }],
        exports: Seq::empty(),
    }
}

/// Registers and wires each plug in input order.  Processing stops at the
/// first collision; a missing answer list counts as all-incompatible.
pub open spec fn run_plugs(
    g: GraphV,
    socket: SigV,
    plugs: Seq<SigV>,
    answers: Seq<Seq<bool>>,
) -> Result<GraphV, Seq<char>>
    decreases plugs.len(),
{
    if plugs.len() == 0 {
        Ok(g)
    } else {
        let g1 = GraphV { packages: g.packages.push(plugs[0]), ..g };
        let ans = if answers.len() > 0 {
            answers[0]
        } else {
            Seq::empty()
        };
        let names = sel_names(socket, plugs[0], ans);
        match spec_wire(g1, 0, g1.packages.len() - 1, names) {
            Ok(g2) => run_plugs(
                g2,
                socket,
                plugs.skip(1),
                if answers.len() > 0 {
                    answers.skip(1)
                } else {
                    answers
                },
            ),
            Err(n) => Err(n),
        }
    }
}

/// The answer lists still unconsumed after `i` plugs.
pub open spec fn drop_answers(answers: Seq<Seq<bool>>, i: int) -> Seq<Seq<bool>> {
    if 0 <= i <= answers.len() {
        answers.skip(i)
    } else {
        Seq::empty()
    }
}

/// The finished graph: every export of the socket package, republished in
/// the socket's own order as a top-level export aliasing instance 0.
pub open spec fn spec_finalize(g: GraphV, socket: SigV) -> GraphV {
    GraphV {
        exports: g.exports + socket.exports.map_values(
            |e: (Seq<char>, int)| (e.0, RefV { instance: 0, export: e.0 }),
        ),
        ..g
    }
}

/// The outcome of one resolution run.
pub enum ResolutionV {
    /// Resolution succeeded with this graph.
    Done(GraphV),
    /// No plug export matched any socket import.
    NoMatch,
    /// Two plugs claimed the same socket import; the name is reported.
    Collision(Seq<char>),
}

/// The whole resolution, as a function of the socket signature, the plug
/// signatures in processing order, and the oracle's answers: identical
/// inputs always produce the identical outcome.
pub open spec fn spec_resolve(
    socket: SigV,
    plugs: Seq<SigV>,
    answers: Seq<Seq<bool>>,
) -> ResolutionV {
    match run_plugs(spec_base(socket), socket, plugs, answers) {
        Err(n) => ResolutionV::Collision(n),
        Ok(g) => if g.instances[0].arguments.len() == 0 {
            ResolutionV::NoMatch
        } else {
            ResolutionV::Done(spec_finalize(g, socket))
        },
    }
}

/// The answers for plug `i`: its own list, or none at all.
pub open spec fn ans_at(answers: Seq<Seq<bool>>, i: int) -> Seq<bool> {
    if 0 <= i < answers.len() {
        answers[i]
    } else {
        Seq::empty()
    }
}

/// The answers left for the tail of the plug list.
pub open spec fn tail_answers(answers: Seq<Seq<bool>>) -> Seq<Seq<bool>> {
    if answers.len() > 0 {
        answers.skip(1)
    } else {
        answers
    }
}

/// Shifting the tail: plug `i + 1`'s answers are the tail's `i`-th.
pub proof fn lemma_ans_at_tail(answers: Seq<Seq<bool>>, i: int)
    requires
        0 <= i,
    ensures
        ans_at(tail_answers(answers), i) == ans_at(answers, i + 1),
{
}

/// Resolution is a function of the socket, the plug signatures in
/// processing order, and the oracle's answers: two runs on identical
/// inputs produce the identical outcome, wiring edges included.
pub proof fn lemma_determinism(
    socket: SigV,
    plugs: Seq<SigV>,
    answers: Seq<Seq<bool>>,
    r1: ResolutionV,
    r2: ResolutionV,
)
    requires
        r1 == spec_resolve(socket, plugs, answers),
        r2 == spec_resolve(socket, plugs, answers),
    ensures
        r1 == r2,
{
}

/// A plug export named `x` is only ever a candidate for the socket import
/// named exactly `x`: if no import carries a name, no candidate does.
pub proof fn lemma_exact_name_matching(
    exports: Seq<(Seq<char>, int)>,
    imports: Seq<(Seq<char>, int)>,
    n: Seq<char>,
)
    requires
        !spec_has(imports, n),
    ensures
        forall|k: int|
            0 <= k < spec_candidates(exports, imports).len() ==> spec_candidates(
                exports,
                imports,
            )[k].0 != n,
{
    lemma_candidates_props(exports, imports);
}

/// How many plugs the run instantiates: those with at least one selected
/// name.
pub open spec fn count_instantiated(
    socket: SigV,
    plugs: Seq<SigV>,
    answers: Seq<Seq<bool>>,
) -> nat
    decreases plugs.len(),
{
    if plugs.len() == 0 {
        0
    } else {
        (if sel_names(socket, plugs[0], ans_at(answers, 0)).len() > 0 {
            1nat
        } else {
            0nat
        }) + count_instantiated(socket, plugs.skip(1), tail_answers(answers))
    }
}

/// How many wiring edges the run creates in all: the selected names of
/// every plug together.
pub open spec fn total_selected(socket: SigV, plugs: Seq<SigV>, answers: Seq<Seq<bool>>) -> nat
    decreases plugs.len(),
{
    if plugs.len() == 0 {
        0
    } else {
        sel_names(socket, plugs[0], ans_at(answers, 0)).len() + total_selected(
            socket,
            plugs.skip(1),
            tail_answers(answers),
        )
    }
}

/// A successful run creates exactly one instance per plug with a selected
/// name — single and lazy instantiation in one count — and exactly one
/// socket argument per selected name.
pub proof fn lemma_run_counts(g: GraphV, socket: SigV, plugs: Seq<SigV>, answers: Seq<Seq<bool>>)
    requires
        0 < g.instances.len(),
    ensures
        run_plugs(g, socket, plugs, answers) matches Ok(g2) ==> {
            &&& g2.instances.len() == g.instances.len() + count_instantiated(
                socket,
                plugs,
                answers,
            )
            &&& g2.instances[0].arguments.len() == g.instances[0].arguments.len()
                + total_selected(socket, plugs, answers)
        },
    decreases plugs.len(),
{
    if plugs.len() > 0 {
        let g1 = GraphV { packages: g.packages.push(plugs[0]), ..g };
        let names = sel_names(socket, plugs[0], ans_at(answers, 0));
        match spec_wire(g1, 0, g1.packages.len() - 1, names) {
            Ok(g2a) => {
                lemma_run_counts(g2a, socket, plugs.skip(1), tail_answers(answers));
                if names.len() == 0 {
                } else {
                    assert(g2a.instances.len() == g.instances.len() + 1);
                    assert(g2a.instances[0].arguments.len() == g.instances[0].arguments.len()
                        + names.len()) by {
                        assert(g2a.instances[0] == spec_wired_graph(
                            g1,
                            0,
                            g1.packages.len() - 1,
                            names,
                        ).instances[0]);
                    }
                }
            },
            Err(_) => {},
        }
    }
}

/// The instance packages of a graph are pairwise distinct.
pub open spec fn one_instance_per_package(g: GraphV) -> bool {
    forall|i: int, j: int|
        0 <= i < j < g.instances.len() ==> g.instances[i].package != g.instances[j].package
}

/// A successful run never instantiates the same package twice.
pub proof fn lemma_run_single_instance(
    g: GraphV,
    socket: SigV,
    plugs: Seq<SigV>,
    answers: Seq<Seq<bool>>,
)
    requires
        0 < g.instances.len(),
        one_instance_per_package(g),
        forall|k: int|
            0 <= k < g.instances.len() ==> 0 <= #[trigger] g.instances[k].package
                < g.packages.len(),
    ensures
        run_plugs(g, socket, plugs, answers) matches Ok(g2) ==> one_instance_per_package(g2)
            && (forall|k: int|
            0 <= k < g2.instances.len() ==> 0 <= #[trigger] g2.instances[k].package
                < g2.packages.len()),
    decreases plugs.len(),
{
    if plugs.len() > 0 {
        let g1 = GraphV { packages: g.packages.push(plugs[0]), ..g };
        let names = sel_names(socket, plugs[0], ans_at(answers, 0));
        match spec_wire(g1, 0, g1.packages.len() - 1, names) {
            Ok(g2a) => {
                if names.len() == 0 {
                    lemma_run_single_instance(g1, socket, plugs.skip(1), tail_answers(answers));
                } else {
                    let w = spec_wired_graph(g1, 0, g1.packages.len() - 1, names);
                    assert(w.instances.len() == g.instances.len() + 1);
                    assert(forall|k: int|
                        0 <= k < g.instances.len() ==> w.instances[k].package
                            == g.instances[k].package);
                    assert(w.instances[g.instances.len() as int].package == g.packages.len());
                    assert(one_instance_per_package(w));
                    lemma_run_single_instance(w, socket, plugs.skip(1), tail_answers(answers));
                }
            },
            Err(_) => {},
        }
    }
}

/// Single instantiation: in a finished resolution no package has more
/// than one instance, however many imports one plug satisfied.
pub proof fn lemma_single_instantiation(socket: SigV, plugs: Seq<SigV>, answers: Seq<Seq<bool>>)
    ensures
        spec_resolve(socket, plugs, answers) matches ResolutionV::Done(gv)
            ==> one_instance_per_package(gv),
{
    let base = spec_base(socket);
    lemma_run_single_instance(base, socket, plugs, answers);
}

/// Lazy instantiation, counted: a finished resolution holds the socket
/// instance plus exactly one instance per plug with a selected name; a
/// plug with none stays registered without an instance.
pub proof fn lemma_lazy_instantiation(socket: SigV, plugs: Seq<SigV>, answers: Seq<Seq<bool>>)
    ensures
        spec_resolve(socket, plugs, answers) matches ResolutionV::Done(gv) ==> gv.instances.len()
            == 1 + count_instantiated(socket, plugs, answers),
{
    let base = spec_base(socket);
    lemma_run_counts(base, socket, plugs, answers);
}

/// With no selected name anywhere, the run only registers packages.
pub proof fn lemma_run_all_empty(g: GraphV, socket: SigV, plugs: Seq<SigV>, answers: Seq<Seq<bool>>)
    requires
        0 < g.instances.len(),
        total_selected(socket, plugs, answers) == 0,
    ensures
        run_plugs(g, socket, plugs, answers) == Ok::<GraphV, Seq<char>>(
            (GraphV { packages: g.packages + plugs, ..g }),
        ),
    decreases plugs.len(),
{
    if plugs.len() == 0 {
        assert(g.packages + plugs =~= g.packages);
        assert((GraphV { packages: g.packages + plugs, ..g }) == g);
    } else {
        let g1 = GraphV { packages: g.packages.push(plugs[0]), ..g };
        let names = sel_names(socket, plugs[0], ans_at(answers, 0));
        assert(names.len() == 0);
        assert(spec_wire(g1, 0, g1.packages.len() - 1, names) == Ok::<GraphV, Seq<char>>(g1));
        lemma_run_all_empty(g1, socket, plugs.skip(1), tail_answers(answers));
        assert(g.packages.push(plugs[0]) + plugs.skip(1) =~= g.packages + plugs);
    }
}

/// The completeness gate: resolution reports that nothing matched exactly
/// when no plug export was selected for any socket import.
pub proof fn lemma_completeness_gate(socket: SigV, plugs: Seq<SigV>, answers: Seq<Seq<bool>>)
    ensures
        (spec_resolve(socket, plugs, answers) == ResolutionV::NoMatch) <==> total_selected(
            socket,
            plugs,
            answers,
        ) == 0,
{
    let base = spec_base(socket);
    if total_selected(socket, plugs, answers) == 0 {
        lemma_run_all_empty(base, socket, plugs, answers);
    } else {
        match run_plugs(base, socket, plugs, answers) {
            Ok(g2) => {
                lemma_run_counts(base, socket, plugs, answers);
                assert(g2.instances[0].arguments.len() > 0);
            },
            Err(_) => {},
        }
    }
}

/// Export fidelity: the finished artifact's export names are exactly the
/// socket package's export names, in the socket's own order.
pub proof fn lemma_export_fidelity(socket: SigV, plugs: Seq<SigV>, answers: Seq<Seq<bool>>)
    ensures
        spec_resolve(socket, plugs, answers) matches ResolutionV::Done(gv)
            ==> gv.exports.map_values(|e: (Seq<char>, RefV)| e.0) == crate::sig::names_of(
            socket.exports,
        ),
{
    let base = spec_base(socket);
    match run_plugs(base, socket, plugs, answers) {
        Ok(g2) => {
            crate::compose::lemma_run_facts(base, socket, plugs, answers);
            assert(g2.exports =~= Seq::<(Seq<char>, RefV)>::empty());
            let gv = spec_finalize(g2, socket);
            assert(gv.exports =~= socket.exports.map_values(
                (|e: (Seq<char>, int)| (e.0, RefV { instance: 0, export: e.0 })),
            ));
            assert(gv.exports.map_values(|e: (Seq<char>, RefV)| e.0) =~= crate::sig::names_of(
                socket.exports,
            ));
        },
        Err(_) => {},
    }
}

/// A successful run selected nothing that the socket instance already had
/// an argument for when the run began.
pub proof fn lemma_run_fresh_claims(
    g: GraphV,
    socket: SigV,
    plugs: Seq<SigV>,
    answers: Seq<Seq<bool>>,
    i: int,
    n: Seq<char>,
)
    requires
        0 < g.instances.len(),
        run_plugs(g, socket, plugs, answers) is Ok,
        0 <= i < plugs.len(),
        sel_names(socket, plugs[i], ans_at(answers, i)).contains(n),
    ensures
        !spec_arg_has(g.instances[0].arguments, n),
    decreases plugs.len(),
{
    let g1 = GraphV { packages: g.packages.push(plugs[0]), ..g };
    let names = sel_names(socket, plugs[0], ans_at(answers, 0));
    match spec_wire(g1, 0, g1.packages.len() - 1, names) {
        Ok(g2a) => {
            if i == 0 {
                assert(names.len() > 0);
                assert(first_conflict(g1.instances[0].arguments, names) is None);
                lemma_no_conflict(g1.instances[0].arguments, names);
                let w = choose|w: int| 0 <= w < names.len() && names[w] == n;
                assert(!spec_arg_has(g.instances[0].arguments, names[w]));
            } else {
                lemma_ans_at_tail(answers, i - 1);
                assert(plugs.skip(1)[i - 1] == plugs[i]);
                lemma_run_fresh_claims(
                    g2a,
                    socket,
                    plugs.skip(1),
                    tail_answers(answers),
                    i - 1,
                    n,
                );
                // The socket's arguments only grow along the run.
                assert(!spec_arg_has(g2a.instances[0].arguments, n));
                if names.len() == 0 {
                    assert(g2a.instances[0].arguments == g.instances[0].arguments);
                } else {
                    let w = spec_wired_graph(g1, 0, g1.packages.len() - 1, names);
                    assert(g2a.instances[0].arguments == g.instances[0].arguments
                        + names.map_values(
                        (|m: Seq<char>| (
                            m,
                            RefV { instance: g1.instances.len() as int, export: m },
                        )),
                    ));
                    if spec_arg_has(g.instances[0].arguments, n) {
                        let w2 = choose|w2: int|
                            0 <= w2 < g.instances[0].arguments.len()
                                && g.instances[0].arguments[w2].0 == n;
                        assert(g2a.instances[0].arguments[w2].0 == n);
                        assert(spec_arg_has(g2a.instances[0].arguments, n));
                    }
                }
            }
        },
        Err(_) => {},
    }
}

/// Collision rejection: when two plugs both have a selected name for the
/// same socket import, resolution never finishes — the run stops with a
/// hard error naming a contested import (the earlier plug keeps the
/// wiring it made).
pub proof fn lemma_collision_rejection(
    socket: SigV,
    plugs: Seq<SigV>,
    answers: Seq<Seq<bool>>,
    i: int,
    j: int,
    n: Seq<char>,
)
    requires
        0 <= i < j < plugs.len(),
        sel_names(socket, plugs[i], ans_at(answers, i)).contains(n),
        sel_names(socket, plugs[j], ans_at(answers, j)).contains(n),
    ensures
        spec_resolve(socket, plugs, answers) matches ResolutionV::Collision(_),
    decreases i,
{
    let base = spec_base(socket);
    let g1 = GraphV { packages: base.packages.push(plugs[0]), ..base };
    let names = sel_names(socket, plugs[0], ans_at(answers, 0));
    match spec_wire(g1, 0, g1.packages.len() - 1, names) {
        Ok(g2a) => {
            if i == 0 {
                // Plug 0 wired `n`; a later plug claims it again, so the
                // tail run cannot succeed.
                assert(names.contains(n));
                let w = spec_wired_graph(g1, 0, g1.packages.len() - 1, names);
                assert(g2a == w);
                let nm = names.map_values(
                    (|m: Seq<char>| (m, RefV { instance: g1.instances.len() as int, export: m })),
                );
                assert(spec_arg_has(g2a.instances[0].arguments, n)) by {
                    let w2 = choose|w2: int| 0 <= w2 < names.len() && names[w2] == n;
                    assert(nm[w2].0 == n);
                    assert(g2a.instances[0].arguments == g1.instances[0].arguments + nm);
                    assert(g2a.instances[0].arguments[g1.instances[0].arguments.len() + w2].0
                        == n);
                }
                lemma_ans_at_tail(answers, j - 1);
                assert(plugs.skip(1)[j - 1] == plugs[j]);
                if run_plugs(g2a, socket, plugs.skip(1), tail_answers(answers)) is Ok {
                    lemma_run_fresh_claims(
                        g2a,
                        socket,
                        plugs.skip(1),
                        tail_answers(answers),
                        j - 1,
                        n,
                    );
                    assert(false);
                }
            } else {
                lemma_ans_at_tail(answers, i - 1);
                lemma_ans_at_tail(answers, j - 1);
                assert(plugs.skip(1)[i - 1] == plugs[i]);
                assert(plugs.skip(1)[j - 1] == plugs[j]);
                lemma_collision_tail(
                    g2a,
                    socket,
                    plugs.skip(1),
                    tail_answers(answers),
                    i - 1,
                    j - 1,
                    n,
                );
            }
        },
        Err(_) => {},
    }
}

/// The tail form of collision rejection: from any mid-run graph, a double
/// claim means the remaining run errs.
pub proof fn lemma_collision_tail(
    g: GraphV,
    socket: SigV,
    plugs: Seq<SigV>,
    answers: Seq<Seq<bool>>,
    i: int,
    j: int,
    n: Seq<char>,
)
    requires
        0 < g.instances.len(),
        0 <= i < j < plugs.len(),
        sel_names(socket, plugs[i], ans_at(answers, i)).contains(n),
        sel_names(socket, plugs[j], ans_at(answers, j)).contains(n),
    ensures
        run_plugs(g, socket, plugs, answers) is Err,
    decreases i,
{
    let g1 = GraphV { packages: g.packages.push(plugs[0]), ..g };
    let names = sel_names(socket, plugs[0], ans_at(answers, 0));
    match spec_wire(g1, 0, g1.packages.len() - 1, names) {
        Ok(g2a) => {
            if i == 0 {
                assert(names.contains(n));
                let nm = names.map_values(
                    (|m: Seq<char>| (m, RefV { instance: g1.instances.len() as int, export: m })),
                );
                assert(spec_arg_has(g2a.instances[0].arguments, n)) by {
                    let w2 = choose|w2: int| 0 <= w2 < names.len() && names[w2] == n;
                    assert(nm[w2].0 == n);
                    assert(g2a.instances[0].arguments == g1.instances[0].arguments + nm);
                    assert(g2a.instances[0].arguments[g1.instances[0].arguments.len() + w2].0
                        == n);
                }
                lemma_ans_at_tail(answers, j - 1);
                assert(plugs.skip(1)[j - 1] == plugs[j]);
                if run_plugs(g2a, socket, plugs.skip(1), tail_answers(answers)) is Ok {
                    lemma_run_fresh_claims(
                        g2a,
                        socket,
                        plugs.skip(1),
                        tail_answers(answers),
                        j - 1,
                        n,
                    );
                    assert(false);
                }
            } else {
                lemma_ans_at_tail(answers, i - 1);
                lemma_ans_at_tail(answers, j - 1);
                assert(plugs.skip(1)[i - 1] == plugs[i]);
                assert(plugs.skip(1)[j - 1] == plugs[j]);
                lemma_collision_tail(
                    g2a,
                    socket,
                    plugs.skip(1),
                    tail_answers(answers),
                    i - 1,
                    j - 1,
                    n,
                );
            }
        },
        Err(_) => {},
    }
}

/// Resolves a whole composition from pre-decoded signatures and oracle
/// answers: registers the socket and every plug, wires each plug in order,
/// checks completeness, and republishes the socket's exports.
///
/// `answers[i][j]` is the oracle's verdict for the `j`-th candidate pair of
/// plug `i` against the socket; a missing answer counts as incompatible.
/// The outcome is exactly `spec_resolve` of the inputs: the same socket,
/// plugs and answers always give the same graph.
#[verifier::loop_isolation(false)]
pub fn resolve_with_answers(
    socket: PackageSig,
    plugs: Vec<PackageSig>,
    answers: &Vec<Vec<bool>>,
) -> (r: Result<ComposeGraph, PlugError>)
    requires
        wf_sig(socket@),
        forall|i: int| 0 <= i < plugs@.len() ==> wf_sig(#[trigger] plugs@[i]@),
    ensures
        ({
            let pv = plugs@.map_values(|p: PackageSig| p@);
            let av = answers@.map_values(|a: Vec<bool>| a@);
            match spec_resolve(socket@, pv, av) {
                ResolutionV::Done(gv) => r matches Ok(g2) && g2@ == gv && wf_graph(gv),
                ResolutionV::NoMatch => r matches Err(PlugError::NoMatchingImports),
                ResolutionV::Collision(n) => r matches Err(PlugError::AlreadySet { name: m })
                    && m@ == n,
            }
        }),
{
    let ghost socket_v = socket@;
    let ghost pv = plugs@.map_values(|p: PackageSig| p@);
    let ghost av = answers@.map_values(|a: Vec<bool>| a@);
    let mut g = ComposeGraph::new();
    let socket_id = g.register(socket);
    let socket_inst = g.instantiate(socket_id);
    proof {
        assert(g@.packages =~= seq![socket_v]);
        assert(g@.instances =~= seq![InstV { package: 0, arguments: Seq::empty() }]);
        assert(g@.exports =~= Seq::<(Seq<char>, RefV)>::empty());
    }
    // Register every plug package, in processing order; registration is
    // unconditional, instantiation is not.
    let mut pending = plugs;
    let mut i: usize = 0;
    let ghost orig = pending@;
    let n_plugs = pending.len();
    while i < n_plugs
        invariant
            0 <= i <= n_plugs,
            orig.len() == n_plugs,
            pv.len() == n_plugs,
            pv == orig.map_values(|p: PackageSig| p@),
            pending@ =~= orig.skip(i as int),
            forall|j: int| 0 <= j < orig.len() ==> wf_sig(#[trigger] orig[j]@),
            wf_graph(g@),
            g@.packages =~= seq![socket_v] + pv.take(i as int),
            g@.instances =~= seq![InstV { package: 0, arguments: Seq::empty() }],
            g@.exports =~= Seq::<(Seq<char>, RefV)>::empty(),
        decreases n_plugs - i,
    {
        let p = pending.remove(0);
        proof {
            assert(orig.skip(i as int)[0] == orig[i as int]);
            assert(p == orig[i as int]);
            assert(pv[i as int] == orig[i as int]@);
            assert(orig.skip(i as int).remove(0) =~= orig.skip(i as int + 1));
        }
        let ghost before = g@.packages;
        g.register(p);
        proof {
            assert(g@.packages =~= before.push(pv[i as int]));
            assert(seq![socket_v] + pv.take(i as int + 1) =~= (seq![socket_v] + pv.take(
                i as int,
            )).push(pv[i as int]));
        }
        i = i + 1;
    }
    proof {
        assert(pv.take(n_plugs as int) =~= pv);
    }
    // Wire each plug, in the same order.
    let empty_ans: Vec<bool> = Vec::new();
    let ghost mut sg: GraphV = spec_base(socket_v);
    proof {
        assert(sg.instances =~= g@.instances);
        assert(sg.packages =~= seq![socket_v] + pv.take(0));
        assert(pv.skip(0) =~= pv);
        assert(drop_answers(av, 0) =~= av);
        assert(empty_ans@ =~= Seq::<bool>::empty());
    }
    let mut i: usize = 0;
    while i < n_plugs
        invariant
            0 <= i <= n_plugs,
            pv.len() == n_plugs,
            av.len() == answers.len(),
            av == answers@.map_values(|a: Vec<bool>| a@),
            wf_graph(g@),
            socket_inst == 0,
            g@.packages =~= seq![socket_v] + pv,
            g@.packages.len() == n_plugs + 1,
            forall|j: int| 0 <= j < pv.len() ==> wf_sig(#[trigger] pv[j]),
            wf_sig(socket_v),
            g@.packages[0] == socket_v,
            sg.packages =~= seq![socket_v] + pv.take(i as int),
            sg.instances == g@.instances,
            sg.exports == g@.exports,
            g@.exports =~= Seq::<(Seq<char>, RefV)>::empty(),
            0 < g@.instances.len(),
            g@.instances[0].package == 0,
            empty_ans@ == Seq::<bool>::empty(),
            run_plugs(spec_base(socket_v), socket_v, pv, av) == run_plugs(
                sg,
                socket_v,
                pv.skip(i as int),
                drop_answers(av, i as int),
            ),
        decreases n_plugs - i,
    {
        proof {
            assert(g@.packages[i as int + 1] == pv[i as int]) by {
                assert((seq![socket_v] + pv)[i as int + 1] == pv[i as int]);
            }
            assert(g@.packages[i as int + 1] == g.packages@[i as int + 1]@);
            assert(g@.packages[0] == g.packages@[0]@);
        }
        let cands_i = candidates(&g.packages[i + 1], &g.packages[0]);
        let ans = if i < answers.len() {
            &answers[i]
        } else {
            &empty_ans
        };
        let ghost ans_v = if av.len() > i as int {
            av[i as int]
        } else {
            Seq::<bool>::empty()
        };
        proof {
            assert(ans@ == ans_v);
        }
        let matched = select_matches(&cands_i, ans);
        let ghost cv = spec_candidates(pv[i as int].exports, socket_v.imports);
        let ghost names = cand_names(cands_view(matched@));
        proof {
            assert(cands_view(cands_i@) == cv);
            assert(cands_view(matched@) == spec_select(cv, ans_v));
            assert(names == sel_names(socket_v, pv[i as int], ans_v));
            // The selected names are exports of the plug, imports of the
            // socket, and pairwise distinct.
            lemma_candidates_props(pv[i as int].exports, socket_v.imports);
            lemma_select_subset(cv, ans_v);
            lemma_select_distinct(cv, ans_v);
            let sel = spec_select(cv, ans_v);
            assert forall|k: int| 0 <= k < names.len() implies spec_has(
                g@.packages[i as int + 1].exports,
                #[trigger] names[k],
            ) && spec_has(
                g@.packages[g@.instances[0].package].imports,
                names[k],
            ) by {
                assert(names[k] == sel[k].0);
                let j = choose|j: int| 0 <= j < cv.len() && sel[k] == cv[j];
                assert(spec_has(pv[i as int].exports, cv[j].0));
                assert(spec_has(socket_v.imports, cv[j].0));
            }
            assert(forall|k: int, l: int|
                0 <= k < l < names.len() ==> names[k] != names[l]) by {
                assert(forall|k: int, l: int|
                    0 <= k < l < sel.len() ==> sel[k].0 != sel[l].0);
            }
            assert(matches_valid(g@, 0, i as int + 1, names));
        }
        let ghost g_before = g@;
        let wire_r = wire_plug(&mut g, socket_inst, i + 1, &matched);
        proof {
            // One unfolding of the run: the spec registers this plug and
            // wires the same names against the same socket arguments.
            let rest_p = pv.skip(i as int);
            let rest_a = drop_answers(av, i as int);
            assert(rest_p.len() > 0);
            assert(rest_p[0] == pv[i as int]);
            let sg1 = GraphV { packages: sg.packages.push(rest_p[0]), ..sg };
            let spec_ans = if rest_a.len() > 0 {
                rest_a[0]
            } else {
                Seq::<bool>::empty()
            };
            assert(spec_ans == ans_v) by {
                if rest_a.len() > 0 {
                    assert((i as int) < av.len());
                    assert(rest_a == av.skip(i as int));
                    assert(rest_a[0] == av[i as int]);
                }
            }
            assert(sg1.packages.len() - 1 == i as int + 1);
            assert(sel_names(socket_v, rest_p[0], spec_ans) == names);
            assert(sg1.instances == g_before.instances);
            assert(sg1.instances[0].arguments == g_before.instances[0].arguments);
        }
        match wire_r {
            Ok(()) => {},
            Err(e) => {
                proof {
                    let rest_p = pv.skip(i as int);
                    let rest_a = drop_answers(av, i as int);
                    let sg1 = GraphV { packages: sg.packages.push(rest_p[0]), ..sg };
                    match spec_wire(g_before, 0, i as int + 1, names) {
                        Ok(_) => {
                            assert(false);
                        },
                        Err(n) => {
                            assert(spec_wire(sg1, 0, i as int + 1, names) == Err::<
                                GraphV,
                                Seq<char>,
                            >(n));
                            assert(run_plugs(sg, socket_v, rest_p, rest_a) == Err::<
                                GraphV,
                                Seq<char>,
                            >(n));
                            assert(spec_resolve(socket_v, pv, av)
                                == ResolutionV::Collision(n));
                        },
                    }
                }
                return Err(e);
            },
        }
        proof {
            let rest_p = pv.skip(i as int);
            let rest_a = drop_answers(av, i as int);
            let sg1 = GraphV { packages: sg.packages.push(rest_p[0]), ..sg };
            match spec_wire(g_before, 0, i as int + 1, names) {
                Ok(g2) => {
                    assert(g@ == g2);
                    let sg2 = if names.len() == 0 {
                        sg1
                    } else {
                        spec_wired_graph(sg1, 0, i as int + 1, names)
                    };
                    assert(spec_wire(sg1, 0, i as int + 1, names) == Ok::<
                        GraphV,
                        Seq<char>,
                    >(sg2));
                    // The spec-side step touches only the instances, which
                    // the exec graph shares.
                    if names.len() == 0 {
                        assert(sg2.instances == g@.instances);
                    } else {
                        assert(spec_wired_graph(
                            sg1,
                            0,
                            i as int + 1,
                            names,
                        ).instances =~= spec_wired_graph(
                            g_before,
                            0,
                            i as int + 1,
                            names,
                        ).instances);
                        assert(sg2.instances =~= g@.instances);
                    }
                    assert(sg2.exports == sg1.exports);
                    assert(sg2.packages =~= seq![socket_v] + pv.take(i as int + 1)) by {
                        assert(sg1.packages =~= (seq![socket_v] + pv.take(i as int)).push(
                            pv[i as int],
                        ));
                        assert((seq![socket_v] + pv.take(i as int)).push(pv[i as int])
                            =~= seq![socket_v] + pv.take(i as int + 1));
                        if names.len() != 0 {
                            assert(sg2.packages == sg1.packages);
                        }
                    }
                    let next_a = if rest_a.len() > 0 {
                        rest_a.skip(1)
                    } else {
                        rest_a
                    };
                    assert(run_plugs(sg, socket_v, rest_p, rest_a) == run_plugs(
                        sg2,
                        socket_v,
                        rest_p.skip(1),
                        next_a,
                    ));
                    assert(rest_p.skip(1) =~= pv.skip(i as int + 1));
                    assert(next_a =~= drop_answers(av, i as int + 1)) by {
                        if rest_a.len() > 0 {
                            assert(rest_a == av.skip(i as int));
                            assert(av.skip(i as int).skip(1) =~= av.skip(i as int + 1));
                        } else {
                            assert(next_a.len() == 0);
                            assert(drop_answers(av, i as int + 1).len() == 0);
                        }
                    }
                    sg = sg2;
                },
                Err(_) => {
                    assert(false);
                },
            }
        }
        i = i + 1;
    }
    proof {
        assert(pv.skip(n_plugs as int) =~= Seq::<SigV>::empty());
        assert(run_plugs(
            sg,
            socket_v,
            pv.skip(n_plugs as int),
            drop_answers(av, n_plugs as int),
        ) == Ok::<GraphV, Seq<char>>(sg));
        assert(run_plugs(spec_base(socket_v), socket_v, pv, av) == Ok::<GraphV, Seq<char>>(
            sg,
        ));
    }
    // Completeness gate: at least one wiring must have happened.
    if g.argument_count(socket_inst) == 0 {
        proof {
            assert(sg.instances[0].arguments.len() == 0);
            assert(spec_resolve(socket_v, pv, av) == ResolutionV::NoMatch);
        }
        return Err(PlugError::NoMatchingImports);
    }
    proof {
        assert(spec_resolve(socket_v, pv, av) == ResolutionV::Done(
            spec_finalize(sg, socket_v),
        ));
    }
    // Republish every socket export, in the socket's own order.
    let ghost exp_names = crate::sig::names_of(socket_v.exports);
    let mut out_names: Vec<String> = Vec::new();
    let n_exp = g.packages[0].exports.len();
    proof {
        assert(socket_v.exports.len() == n_exp);
    }
    let mut k: usize = 0;
    while k < n_exp
        invariant
            0 <= k <= n_exp,
            g@.packages[0] == socket_v,
            g.packages@.len() > 0,
            g@.packages[0] == g.packages@[0]@,
            n_exp == socket_v.exports.len(),
            n_exp == g.packages@[0].exports@.len(),
            exp_names == crate::sig::names_of(socket_v.exports),
            out_names@.len() == k,
            forall|j: int| 0 <= j < k ==> #[trigger] out_names@[j]@ == exp_names[j],
        decreases n_exp - k,
    {
        out_names.push(g.packages[0].exports[k].name.clone());
        proof {
            assert(crate::sig::entries_view(g.packages@[0].exports@)[k as int].0
                == exp_names[k as int]);
        }
        k = k + 1;
    }
    let ghost exp_map = socket_v.exports.map_values(
        |e: (Seq<char>, int)| (e.0, RefV { instance: 0, export: e.0 }),
    );
    let mut k: usize = 0;
    proof {
        assert(g@.exports =~= exp_map.take(0));
    }
    while k < n_exp
        invariant
            0 <= k <= n_exp,
            wf_graph(g@),
            socket_inst == 0,
            0 < g@.instances.len(),
            g@.instances[0].package == 0,
            0 < g@.packages.len(),
            g@.packages[0] == socket_v,
            wf_sig(socket_v),
            n_exp == socket_v.exports.len(),
            out_names@.len() == n_exp,
            exp_names == crate::sig::names_of(socket_v.exports),
            forall|j: int| 0 <= j < n_exp ==> #[trigger] out_names@[j]@ == exp_names[j],
            exp_map == socket_v.exports.map_values(
                (|e: (Seq<char>, int)| (e.0, RefV { instance: 0, export: e.0 })),
            ),
            g@.instances == sg.instances,
            g@.packages == seq![socket_v] + pv,
            g@.exports =~= exp_map.take(k as int),
        decreases n_exp - k,
    {
        proof {
            crate::sig::lemma_lookup_exists(socket_v.exports, exp_names[k as int]);
            assert(socket_v.exports[k as int].0 == exp_names[k as int]);
            assert(spec_has(socket_v.exports, exp_names[k as int]));
        }
        let v = match g.alias_export(socket_inst, &out_names[k]) {
            Ok(v) => v,
            Err(e) => {
                proof {
                    assert(false);
                }
                return Err(e);
            },
        };
        proof {
            // The socket's export names are distinct, so this one is not
            // yet among the republished prefix.
            assert forall|j: int| 0 <= j < g@.exports.len() implies g@.exports[j].0
                != exp_names[k as int] by {
                assert(g@.exports[j] == exp_map[j]);
                assert(exp_map[j].0 == socket_v.exports[j].0);
                assert(socket_v.exports[j].0 != socket_v.exports[k as int].0);
            }
            if crate::graph::spec_export_has(g@.exports, exp_names[k as int]) {
                let w = choose|w: int|
                    0 <= w < g@.exports.len() && g@.exports[w].0 == exp_names[k as int];
                assert(false);
            }
        }
        let ghost before = g@.exports;
        match g.export(v, &out_names[k]) {
            Ok(()) => {},
            Err(e) => {
                proof {
                    assert(false);
                }
                return Err(e);
            },
        }
        proof {
            assert(g@.exports =~= before.push((exp_names[k as int], v@)));
            assert(exp_map.take(k as int + 1) =~= exp_map.take(k as int).push(
                exp_map[k as int],
            ));
            assert(exp_map[k as int] == (exp_names[k as int], RefV {
                instance: 0,
                export: exp_names[k as int],
            }));
            assert(v@ == (RefV { instance: 0, export: exp_names[k as int] }));
            assert(g@.exports =~= exp_map.take(k as int + 1));
        }
        k = k + 1;
    }
    proof {
        assert(exp_map.take(n_exp as int) =~= exp_map);
        let fin = spec_finalize(sg, socket_v);
        assert(sg.exports =~= Seq::<(Seq<char>, RefV)>::empty());
        assert(fin.exports =~= exp_map);
        assert(g@.exports =~= fin.exports);
        assert(g@.instances == fin.instances);
        assert(g@.packages =~= fin.packages) by {
            assert(sg.packages =~= seq![socket_v] + pv.take(pv.len() as int));
            assert(pv.take(pv.len() as int) =~= pv);
        }
        assert(g@ == fin);
    }
    Ok(g)
}

} // verus!
