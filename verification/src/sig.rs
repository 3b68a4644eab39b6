use vstd::prelude::*;

verus! {

/// A named, typed capability slot of a package: one import or one export.
///
/// The type is an opaque handle into the run's type store; only the subtype
/// oracle ever interprets it.
#[derive(Debug)]
pub struct NamedType {
    /// The slot's name, unique among its package's imports or exports.
    pub name: String,
    /// The handle of the slot's structural type.
    pub ty: usize,
}

/// The signature of a decoded package: its name and its import and export
/// slots, each in declaration order.
#[derive(Debug)]
pub struct PackageSig {
    /// The synthetic name the package was registered under.
    pub name: String,
    /// The package's imports, in declaration order.
    pub imports: Vec<NamedType>,
    /// The package's exports, in declaration order.
    pub exports: Vec<NamedType>,
}

/// The mathematical value of one slot: its name and its type handle.
pub open spec fn entry_view(e: NamedType) -> (Seq<char>, int) {
    (e.name@, e.ty as int)
}

/// The mathematical value of a slot list.
pub open spec fn entries_view(s: Seq<NamedType>) -> Seq<(Seq<char>, int)> {
    s.map_values(|e: NamedType| entry_view(e))
}

/// The mathematical value of a package signature.
pub struct SigV {
    pub name: Seq<char>,
    pub imports: Seq<(Seq<char>, int)>,
    pub exports: Seq<(Seq<char>, int)>,
}

impl View for PackageSig {
    type V = SigV;

    open spec fn view(&self) -> SigV {
        SigV {
            name: self.name@,
            imports: entries_view(self.imports@),
            exports: entries_view(self.exports@),
        }
    }
}

/// The type handle of the first slot named `n`, if any.
pub open spec fn spec_lookup(entries: Seq<(Seq<char>, int)>, n: Seq<char>) -> Option<int>
    decreases entries.len(),
{
    if entries.len() == 0 {
        None
    } else if entries[0].0 == n {
        Some(entries[0].1)
    } else {
        spec_lookup(entries.skip(1), n)
    }
}

/// Whether some slot is named `n`.
pub open spec fn spec_has(entries: Seq<(Seq<char>, int)>, n: Seq<char>) -> bool {
    spec_lookup(entries, n) is Some
}

/// The slot names, in order.
pub open spec fn names_of(entries: Seq<(Seq<char>, int)>) -> Seq<Seq<char>> {
    entries.map_values(|e: (Seq<char>, int)| e.0)
}

/// No two slots share a name.
pub open spec fn distinct_names(entries: Seq<(Seq<char>, int)>) -> bool {
    forall|i: int, j: int|
        0 <= i < j < entries.len() ==> entries[i].0 != entries[j].0
}

/// A well-formed signature: import names unique, export names unique.
pub open spec fn wf_sig(s: SigV) -> bool {
    &&& distinct_names(s.imports)
    &&& distinct_names(s.exports)
}

/// A slot named `n` exists exactly when `spec_has` says so.
pub proof fn lemma_lookup_exists(entries: Seq<(Seq<char>, int)>, n: Seq<char>)
    ensures
        spec_has(entries, n) <==> exists|i: int| 0 <= i < entries.len() && entries[i].0 == n,
    decreases entries.len(),
{
    if entries.len() > 0 {
        lemma_lookup_exists(entries.skip(1), n);
        assert(forall|i: int|
            0 <= i < entries.skip(1).len() ==> entries.skip(1)[i] == entries[i + 1]);
        if entries[0].0 == n {
            assert(entries[0].0 == n);
        } else {
            if spec_has(entries, n) {
                let j = choose|j: int|
                    0 <= j < entries.skip(1).len() && entries.skip(1)[j].0 == n;
                assert(entries[j + 1].0 == n);
            }
            if exists|i: int| 0 <= i < entries.len() && entries[i].0 == n {
                let i = choose|i: int| 0 <= i < entries.len() && entries[i].0 == n;
                assert(entries.skip(1)[i - 1].0 == n);
            }
        }
    }
}

/// Finds the first slot named `n`, returning its type handle.
pub fn lookup(entries: &Vec<NamedType>, n: &String) -> (r: Option<usize>)
    ensures
        match r {
            Some(t) => spec_lookup(entries_view(entries@), n@) == Some(t as int),
            None => spec_lookup(entries_view(entries@), n@) is None,
        },
{
    let ghost ev = entries_view(entries@);
    proof {
        assert(ev.skip(0) =~= ev);
    }
    let mut i: usize = 0;
    while i < entries.len()
        invariant
            0 <= i <= entries.len(),
            ev == entries_view(entries@),
            ev.len() == entries.len(),
            spec_lookup(ev, n@) == spec_lookup(ev.skip(i as int), n@),
        decreases entries.len() - i,
    {
        proof {
            assert(ev.skip(i as int)[0] == ev[i as int]);
        }
        if entries[i].name.eq(n) {
            return Some(entries[i].ty);
        }
        proof {
            assert(ev.skip(i as int).skip(1) =~= ev.skip(i as int + 1));
        }
        i = i + 1;
    }
    proof {
        assert(ev.skip(entries.len() as int) =~= Seq::<(Seq<char>, int)>::empty());
    }
    None
}

} // verus!
