use vstd::prelude::*;
use crate::sig::{PackageSig, SigV, spec_has, spec_lookup, wf_sig};
use crate::error::PlugError;

verus! {

/// A non-owning reference to one instance's export, usable as another
/// instance's argument or as a top-level export of the composed artifact.
#[derive(Debug)]
pub struct ValueRef {
    /// The instance whose export is referenced.
    pub instance: usize,
    /// The export's name on that instance.
    pub export: String,
}

/// The mathematical value of a `ValueRef`.
pub struct RefV {
    pub instance: int,
    pub export: Seq<char>,
}

impl View for ValueRef {
    type V = RefV;

    open spec fn view(&self) -> RefV {
        RefV { instance: self.instance as int, export: self.export@ }
    }
}

/// One supplied instantiation argument: an import name and its source value.
#[derive(Debug)]
pub struct Argument {
    /// The import name the argument satisfies.
    pub name: String,
    /// The value supplied for it.
    pub value: ValueRef,
}

pub open spec fn arg_view(a: Argument) -> (Seq<char>, RefV) {
    (a.name@, a.value@)
}

pub open spec fn args_view(s: Seq<Argument>) -> Seq<(Seq<char>, RefV)> {
    s.map_values(|a: Argument| arg_view(a))
}

/// One instantiation of a registered package, with the arguments supplied
/// for its imports so far.
#[derive(Debug)]
pub struct Instance {
    /// The index of the instantiated package.
    pub package: usize,
    /// The supplied arguments, in the order they were set.
    pub arguments: Vec<Argument>,
}

/// The mathematical value of an `Instance`.
pub struct InstV {
    pub package: int,
    pub arguments: Seq<(Seq<char>, RefV)>,
}

impl View for Instance {
    type V = InstV;

    open spec fn view(&self) -> InstV {
        InstV { package: self.package as int, arguments: args_view(self.arguments@) }
    }
}

/// One top-level export of the composed artifact.
#[derive(Debug)]
pub struct Export {
    /// The name the value is exported under.
    pub name: String,
    /// The exported value.
    pub value: ValueRef,
}

pub open spec fn export_view(e: Export) -> (Seq<char>, RefV) {
    (e.name@, e.value@)
}

pub open spec fn exports_view(s: Seq<Export>) -> Seq<(Seq<char>, RefV)> {
    s.map_values(|e: Export| export_view(e))
}

/// The composition graph: an arena of package definitions, an arena of
/// instance nodes with their argument edges, and the top-level export edges.
///
/// The graph is append-only: identifiers are indices into the arenas and
/// stay stable for the graph's lifetime.
#[derive(Debug)]
pub struct ComposeGraph {
    /// The registered packages; a package identifier is an index here.
    pub packages: Vec<PackageSig>,
    /// The instance nodes; an instance identifier is an index here.
    pub instances: Vec<Instance>,
    /// The top-level exports, in the order they were registered.
    pub exports: Vec<Export>,
}

/// The mathematical value of a `ComposeGraph`.
pub struct GraphV {
    pub packages: Seq<SigV>,
    pub instances: Seq<InstV>,
    pub exports: Seq<(Seq<char>, RefV)>,
}

impl View for ComposeGraph {
    type V = GraphV;

    open spec fn view(&self) -> GraphV {
        GraphV {
            packages: self.packages@.map_values(|p: PackageSig| p@),
            instances: self.instances@.map_values(|i: Instance| i@),
            exports: exports_view(self.exports@),
        }
    }
}

/// Whether an argument for import `n` has been supplied.
pub open spec fn spec_arg_has(args: Seq<(Seq<char>, RefV)>, n: Seq<char>) -> bool {
    exists|k: int| 0 <= k < args.len() && args[k].0 == n
}

/// Whether a top-level export named `n` exists.
pub open spec fn spec_export_has(exports: Seq<(Seq<char>, RefV)>, n: Seq<char>) -> bool {
    exists|k: int| 0 <= k < exports.len() && exports[k].0 == n
}

/// A valid alias: its instance exists and its export name is an export of
/// that instance's package.
pub open spec fn wf_ref(g: GraphV, r: RefV) -> bool {
    &&& 0 <= r.instance < g.instances.len()
    &&& spec_has(g.packages[g.instances[r.instance].package].exports, r.export)
}

/// A valid instance: its package exists, its argument names are distinct
/// import names of that package, and every argument value is a valid alias.
pub open spec fn wf_inst(g: GraphV, i: InstV) -> bool {
    &&& 0 <= i.package < g.packages.len()
    &&& forall|k: int, l: int|
        0 <= k < l < i.arguments.len() ==> i.arguments[k].0 != i.arguments[l].0
    &&& forall|k: int|
        0 <= k < i.arguments.len() ==> spec_has(
            g.packages[i.package].imports,
            #[trigger] i.arguments[k].0,
        )
    &&& forall|k: int| 0 <= k < i.arguments.len() ==> wf_ref(g, #[trigger] i.arguments[k].1)
}

/// The graph's invariant, established by `new` and preserved by every
/// operation.
pub open spec fn wf_graph(g: GraphV) -> bool {
    &&& forall|p: int| 0 <= p < g.packages.len() ==> wf_sig(#[trigger] g.packages[p])
    &&& forall|i: int| 0 <= i < g.instances.len() ==> wf_inst(g, #[trigger] g.instances[i])
    &&& forall|k: int, l: int|
        0 <= k < l < g.exports.len() ==> g.exports[k].0 != g.exports[l].0
    &&& forall|k: int| 0 <= k < g.exports.len() ==> wf_ref(g, #[trigger] g.exports[k].1)
}

/// The import names without an argument, in import order.
pub open spec fn spec_unsatisfied(
    imports: Seq<(Seq<char>, int)>,
    args: Seq<(Seq<char>, RefV)>,
) -> Seq<Seq<char>>
    decreases imports.len(),
{
    if imports.len() == 0 {
        Seq::empty()
    } else {
        let pre = spec_unsatisfied(imports.drop_last(), args);
        if spec_arg_has(args, imports.last().0) {
            pre
        } else {
            pre.push(imports.last().0)
        }
    }
}

/// Searches the supplied arguments for one with the given import name.
pub(crate) fn find_arg(args: &Vec<Argument>, n: &String) -> (r: bool)
    ensures
        r == spec_arg_has(args_view(args@), n@),
{
    let ghost av = args_view(args@);
    let mut k: usize = 0;
    while k < args.len()
        invariant
            0 <= k <= args.len(),
            av == args_view(args@),
            av.len() == args.len(),
            forall|j: int| 0 <= j < k ==> av[j].0 != n@,
        decreases args.len() - k,
    {
        if args[k].name.eq(n) {
            proof {
                assert(av[k as int].0 == n@);
            }
            return true;
        }
        k = k + 1;
    }
    false
}

impl ComposeGraph {
    /// Creates an empty graph for one composition run.
    pub fn new() -> (g: Self)
        ensures
            g@.packages.len() == 0,
            g@.instances.len() == 0,
            g@.exports.len() == 0,
            wf_graph(g@),
    {
        let g = ComposeGraph { packages: Vec::new(), instances: Vec::new(), exports: Vec::new() };
        proof {
            assert(g@.packages =~= Seq::<SigV>::empty());
            assert(g@.instances =~= Seq::<InstV>::empty());
            assert(g@.exports =~= Seq::<(Seq<char>, RefV)>::empty());
        }
        g
    }

    /// Registers a package definition and returns its identifier.
    ///
    /// Registration allocates a fresh identifier and has no effect on
    /// existing entries.
    pub fn register(&mut self, sig: PackageSig) -> (id: usize)
        requires
            wf_graph(old(self)@),
            wf_sig(sig@),
        ensures
            wf_graph(final(self)@),
            id == old(self)@.packages.len(),
            final(self)@.packages == old(self)@.packages.push(sig@),
            final(self)@.instances == old(self)@.instances,
            final(self)@.exports == old(self)@.exports,
    {
        let id = self.packages.len();
        let ghost old_g = self@;
        let ghost sv = sig@;
        self.packages.push(sig);
        proof {
            assert(self@.packages =~= old_g.packages.push(sv));
            assert(self@.instances =~= old_g.instances);
            assert(self@.exports =~= old_g.exports);
            assert forall|i: int| 0 <= i < self@.instances.len() implies wf_inst(
                self@,
                #[trigger] self@.instances[i],
            ) by {
                assert(wf_inst(old_g, old_g.instances[i]));
                assert forall|k: int|
                    0 <= k < self@.instances[i].arguments.len() implies wf_ref(
                    self@,
                    #[trigger] self@.instances[i].arguments[k].1,
                ) by {
                    assert(wf_ref(old_g, old_g.instances[i].arguments[k].1));
                }
            }
            assert forall|k: int| 0 <= k < self@.exports.len() implies wf_ref(
                self@,
                #[trigger] self@.exports[k].1,
            ) by {
                assert(wf_ref(old_g, old_g.exports[k].1));
            }
        }
        id
    }

    /// Creates a new instance of a registered package, with no arguments
    /// supplied yet.  No constraints are checked at creation time: argument
    /// satisfaction is enforced only when the artifact is encoded.
    pub fn instantiate(&mut self, package: usize) -> (id: usize)
        requires
            wf_graph(old(self)@),
            package < old(self)@.packages.len(),
        ensures
            wf_graph(final(self)@),
            id == old(self)@.instances.len(),
            final(self)@.instances == old(self)@.instances.push(
                (InstV { package: package as int, arguments: Seq::empty() }),
            ),
            final(self)@.packages == old(self)@.packages,
            final(self)@.exports == old(self)@.exports,
    {
        let id = self.instances.len();
        let ghost old_g = self@;
        self.instances.push(Instance { package, arguments: Vec::new() });
        proof {
            assert(args_view(Seq::<Argument>::empty()) =~= Seq::<(Seq<char>, RefV)>::empty());
            assert(self@.instances =~= old_g.instances.push(
                InstV { package: package as int, arguments: Seq::empty() },
            ));
            assert(self@.packages =~= old_g.packages);
            assert(self@.exports =~= old_g.exports);
            assert forall|i: int| 0 <= i < self@.instances.len() implies wf_inst(
                self@,
                #[trigger] self@.instances[i],
            ) by {
                if i < old_g.instances.len() {
                    assert(wf_inst(old_g, old_g.instances[i]));
                    assert forall|k: int|
                        0 <= k < self@.instances[i].arguments.len() implies wf_ref(
                        self@,
                        #[trigger] self@.instances[i].arguments[k].1,
                    ) by {
                        assert(wf_ref(old_g, old_g.instances[i].arguments[k].1));
                    }
                }
            }
            assert forall|k: int| 0 <= k < self@.exports.len() implies wf_ref(
                self@,
                #[trigger] self@.exports[k].1,
            ) by {
                assert(wf_ref(old_g, old_g.exports[k].1));
            }
        }
        id
    }

    /// Returns a reusable reference to the named export of an instance.
    ///
    /// Fails with `UnknownExport` exactly when the name is not an export of
    /// the instance's package.
    pub fn alias_export(&self, instance: usize, name: &String) -> (r: Result<ValueRef, PlugError>)
        requires
            wf_graph(self@),
            instance < self@.instances.len(),
        ensures
            match r {
                Ok(v) => {
                    &&& spec_has(
                        self@.packages[self@.instances[instance as int].package].exports,
                        name@,
                    )
                    &&& v@ == (RefV { instance: instance as int, export: name@ })
                    &&& wf_ref(self@, v@)
                },
                Err(e) => {
                    &&& !spec_has(
                        self@.packages[self@.instances[instance as int].package].exports,
                        name@,
                    )
                    &&& e matches PlugError::UnknownExport { name: m } && m@ == name@
                },
            },
    {
        proof {
            assert(wf_inst(self@, self@.instances[instance as int]));
            assert(self@.instances[instance as int] == self.instances@[instance as int]@);
        }
        let pkg = self.instances[instance].package;
        match crate::sig::lookup(&self.packages[pkg].exports, name) {
            Some(_) => Ok(ValueRef { instance, export: name.clone() }),
            None => Err(PlugError::UnknownExport { name: name.clone() }),
        }
    }

    /// Supplies an argument for the named import of an instance.
    ///
    /// Fails with `UnknownImport` when the name is not an import of the
    /// instance's package, and with `AlreadySet` when an argument was
    /// already supplied under that name.  The caller must have validated
    /// type compatibility beforehand; the graph does not re-check it.
    pub fn set_argument(&mut self, instance: usize, name: &String, value: ValueRef) -> (r: Result<
        (),
        PlugError,
    >)
        requires
            wf_graph(old(self)@),
            instance < old(self)@.instances.len(),
            wf_ref(old(self)@, value@),
        ensures
            wf_graph(final(self)@),
            r is Ok <==> {
                &&& spec_has(
                    old(self)@.packages[old(self)@.instances[instance as int].package].imports,
                    name@,
                )
                &&& !spec_arg_has(old(self)@.instances[instance as int].arguments, name@)
            },
            r is Ok ==> final(self)@ == (GraphV {
                instances: old(self)@.instances.update(
                    instance as int,
                    (InstV {
                        package: old(self)@.instances[instance as int].package,
                        arguments: old(self)@.instances[instance as int].arguments.push(
                            (name@, value@),
                        ),
                    }),
                ),
                ..old(self)@
            }),
            r is Err ==> final(self)@ == old(self)@,
            !spec_has(
                old(self)@.packages[old(self)@.instances[instance as int].package].imports,
                name@,
            ) ==> (r matches Err(PlugError::UnknownImport { name: m }) && m@ == name@),
            spec_has(
                old(self)@.packages[old(self)@.instances[instance as int].package].imports,
                name@,
            ) && spec_arg_has(old(self)@.instances[instance as int].arguments, name@) ==> (
            r matches Err(PlugError::AlreadySet { name: m }) && m@ == name@),
    {
        let ghost old_g = self@;
        let pkg = self.instances[instance].package;
        if crate::sig::lookup(&self.packages[pkg].imports, name).is_none() {
            return Err(PlugError::UnknownImport { name: name.clone() });
        }
        if find_arg(&self.instances[instance].arguments, name) {
            return Err(PlugError::AlreadySet { name: name.clone() });
        }
        let arg = Argument { name: name.clone(), value };
        let ghost argv = (name@, arg.value@);
        self.instances[instance].arguments.push(arg);
        proof {
            let iv = instance as int;
            let new_inst = InstV {
                package: old_g.instances[iv].package,
                arguments: old_g.instances[iv].arguments.push(argv),
            };
            assert(args_view(self.instances@[iv].arguments@) =~= old_g.instances[iv].arguments.push(
                argv,
            ));
            assert(self@.instances =~= old_g.instances.update(iv, new_inst));
            assert(self@.packages =~= old_g.packages);
            assert(self@.exports =~= old_g.exports);
            assert(self@ == (GraphV {
                instances: old_g.instances.update(iv, new_inst),
                ..old_g
            }));
            crate::sig::lemma_lookup_exists(old_g.packages[new_inst.package].imports, name@);
            assert forall|i: int| 0 <= i < self@.instances.len() implies wf_inst(
                self@,
                #[trigger] self@.instances[i],
            ) by {
                assert(wf_inst(old_g, old_g.instances[i]));
                if i == iv {
                    assert forall|k: int|
                        0 <= k < new_inst.arguments.len() implies wf_ref(
                        self@,
                        #[trigger] new_inst.arguments[k].1,
                    ) by {
                        if k < old_g.instances[iv].arguments.len() {
                            assert(wf_ref(old_g, old_g.instances[iv].arguments[k].1));
                        } else {
                            assert(new_inst.arguments[k].1 == argv.1);
                            assert(wf_ref(old_g, argv.1));
                        }
                    }
                } else {
                    assert forall|k: int|
                        0 <= k < self@.instances[i].arguments.len() implies wf_ref(
                        self@,
                        #[trigger] self@.instances[i].arguments[k].1,
                    ) by {
                        assert(wf_ref(old_g, old_g.instances[i].arguments[k].1));
                    }
                }
            }
            assert forall|k: int| 0 <= k < self@.exports.len() implies wf_ref(
                self@,
                #[trigger] self@.exports[k].1,
            ) by {
                assert(wf_ref(old_g, old_g.exports[k].1));
            }
        }
        Ok(())
    }

    /// Registers a value as a top-level export of the composed artifact.
    ///
    /// Fails with `DuplicateExport` exactly when the name is already
    /// exported.
    pub fn export(&mut self, value: ValueRef, name: &String) -> (r: Result<(), PlugError>)
        requires
            wf_graph(old(self)@),
            wf_ref(old(self)@, value@),
        ensures
            wf_graph(final(self)@),
            r is Ok <==> !spec_export_has(old(self)@.exports, name@),
            r is Ok ==> final(self)@ == (GraphV {
                exports: old(self)@.exports.push((name@, value@)),
                ..old(self)@
            }),
            r is Err ==> final(self)@ == old(self)@ && (r matches Err(PlugError::DuplicateExport {
                name: m,
            }) && m@ == name@),
    {
        let ghost old_g = self@;
        let mut k: usize = 0;
        while k < self.exports.len()
            invariant
                0 <= k <= self.exports.len(),
                self@ == old_g,
                old(self)@ == old_g,
                wf_graph(old_g),
                wf_ref(old_g, value@),
                old_g.exports.len() == self.exports.len(),
                forall|j: int| 0 <= j < k ==> old_g.exports[j].0 != name@,
            decreases self.exports.len() - k,
        {
            if self.exports[k].name.eq(name) {
                proof {
                    assert(old_g.exports[k as int].0 == name@);
                }
                return Err(PlugError::DuplicateExport { name: name.clone() });
            }
            k = k + 1;
        }
        let ghost ev = (name@, value@);
        self.exports.push(Export { name: name.clone(), value });
        proof {
            assert(self@.exports =~= old_g.exports.push(ev));
            assert(self@.packages =~= old_g.packages);
            assert(self@.instances =~= old_g.instances);
            assert(self@ == (GraphV { exports: old_g.exports.push(ev), ..old_g }));
            assert forall|i: int| 0 <= i < self@.instances.len() implies wf_inst(
                self@,
                #[trigger] self@.instances[i],
            ) by {
                assert(wf_inst(old_g, old_g.instances[i]));
                assert forall|k2: int|
                    0 <= k2 < self@.instances[i].arguments.len() implies wf_ref(
                    self@,
                    #[trigger] self@.instances[i].arguments[k2].1,
                ) by {
                    assert(wf_ref(old_g, old_g.instances[i].arguments[k2].1));
                }
            }
            assert forall|k2: int| 0 <= k2 < self@.exports.len() implies wf_ref(
                self@,
                #[trigger] self@.exports[k2].1,
            ) by {
                if k2 < old_g.exports.len() {
                    assert(wf_ref(old_g, old_g.exports[k2].1));
                } else {
                    assert(self@.exports[k2].1 == ev.1);
                    assert(wf_ref(old_g, ev.1));
                }
            }
        }
        Ok(())
    }

    /// Read access to a registered package's signature.
    pub fn package_signature(&self, package: usize) -> (r: &PackageSig)
        requires
            package < self@.packages.len(),
        ensures
            r@ == self@.packages[package as int],
    {
        &self.packages[package]
    }

    /// The imports of an instance's package that still lack an argument,
    /// in the package's import order.
    #[verifier::loop_isolation(false)]
    pub fn unsatisfied_imports(&self, instance: usize) -> (r: Vec<String>)
        requires
            wf_graph(self@),
            instance < self@.instances.len(),
        ensures
            r@.map_values(|s: String| s@) == spec_unsatisfied(
                self@.packages[self@.instances[instance as int].package].imports,
                self@.instances[instance as int].arguments,
            ),
    {
        proof {
            assert(wf_inst(self@, self@.instances[instance as int]));
            assert(self@.instances[instance as int] == self.instances@[instance as int]@);
        }
        let pkg = self.instances[instance].package;
        let ghost iv = self@.packages[pkg as int].imports;
        let ghost av = self@.instances[instance as int].arguments;
        let mut out: Vec<String> = Vec::new();
        proof {
            assert(out@.map_values(|s: String| s@) =~= spec_unsatisfied(iv.take(0), av));
        }
        let mut k: usize = 0;
        let n = self.packages[pkg].imports.len();
        while k < n
            invariant
                0 <= k <= n,
                n == iv.len(),
                out@.map_values(|s: String| s@) == spec_unsatisfied(iv.take(k as int), av),
            decreases n - k,
        {
            let ghost pre = out@.map_values(|s: String| s@);
            proof {
                assert(iv[k as int] == crate::sig::entry_view(
                    self.packages@[pkg as int].imports@[k as int],
                ));
                assert(iv.take(k as int + 1).drop_last() =~= iv.take(k as int));
                assert(iv.take(k as int + 1).last() == iv[k as int]);
            }
            if !find_arg(
                &self.instances[instance].arguments,
                &self.packages[pkg].imports[k].name,
            ) {
                out.push(self.packages[pkg].imports[k].name.clone());
                proof {
                    assert(out@.map_values(|s: String| s@) =~= pre.push(iv[k as int].0));
                }
            }
            k = k + 1;
        }
        proof {
            assert(iv.take(n as int) =~= iv);
        }
        out
    }

    /// The number of arguments supplied to an instance so far.
    pub fn argument_count(&self, instance: usize) -> (r: usize)
        requires
            instance < self@.instances.len(),
        ensures
            r == self@.instances[instance as int].arguments.len(),
    {
        self.instances[instance].arguments.len()
    }
}

} // verus!
