use vstd::prelude::*;
use vstd::string::StrSliceExecFns;
use vstd::string::StringExecFns;
use crate::error::PlugError;

verus! {

/// Whether a path component is kept when looking for the file name: empty
/// components and the current-directory component `.` are dropped, as the
/// platform's path rules drop them.
pub open spec fn keep_comp(c: Seq<char>) -> bool {
    c.len() > 0 && c != seq!['.']
}

/// Splits a path on `/`, dropping empty and `.` components, with the
/// component read so far and the components already found as accumulators.
pub open spec fn comps_acc(p: Seq<char>, cur: Seq<char>, acc: Seq<Seq<char>>) -> Seq<Seq<char>>
    decreases p.len(),
{
    if p.len() == 0 {
        if keep_comp(cur) {
            acc.push(cur)
        } else {
            acc
        }
    } else if p[0] == '/' {
        comps_acc(
            p.skip(1),
            Seq::empty(),
            if keep_comp(cur) {
                acc.push(cur)
            } else {
                acc
            },
        )
    } else {
        comps_acc(p.skip(1), cur.push(p[0]), acc)
    }
}

/// The path's components, in order.
pub open spec fn spec_components(p: Seq<char>) -> Seq<Seq<char>> {
    comps_acc(p, Seq::empty(), Seq::empty())
}

/// The path's file name: its last component, unless there is none or it is
/// the parent-directory component `..`.
pub open spec fn spec_file_name(p: Seq<char>) -> Option<Seq<char>> {
    let cs = spec_components(p);
    if cs.len() == 0 {
        None
    } else if cs.last() == seq!['.', '.'] {
        None
    } else {
        Some(cs.last())
    }
}

/// The position of the last `.` in a file name, or -1 if there is none.
pub open spec fn last_dot(n: Seq<char>) -> int
    decreases n.len(),
{
    if n.len() == 0 {
        -1
    } else if n.last() == '.' {
        n.len() - 1
    } else {
        last_dot(n.drop_last())
    }
}

/// The stem of a file name: everything before the last `.`, except that a
/// name without a dot, or with only a leading dot, is its own stem.
pub open spec fn spec_stem_of(n: Seq<char>) -> Seq<char> {
    let i = last_dot(n);
    if i <= 0 {
        n
    } else {
        n.take(i)
    }
}

/// The file stem of a path, if it has a file name.
pub open spec fn spec_file_stem(p: Seq<char>) -> Option<Seq<char>> {
    match spec_file_name(p) {
        None => None,
        Some(n) => Some(spec_stem_of(n)),
    }
}

/// Computes the file stem of a path: the last path component (empty and
/// `.` components dropped), without its extension.  Returns `None` when
/// the path has no file name, or the name is the parent component `..`.
#[verifier::loop_isolation(false)]
pub fn file_stem(path: &String) -> (r: Option<String>)
    ensures
        match r {
            Some(s) => spec_file_stem(path@) == Some(s@),
            None => spec_file_stem(path@) is None,
        },
{
    let s = path.as_str();
    let n = s.unicode_len();
    let ghost pv = path@;
    // One pass finding the start and end of the last kept component.
    let mut last_found: bool = false;
    let mut last_start: usize = 0;
    let mut last_end: usize = 0;
    let mut cur_start: usize = 0;
    let ghost mut acc: Seq<Seq<char>> = Seq::empty();
    proof {
        assert(pv.skip(0) =~= pv);
        assert(pv.subrange(0, 0) =~= Seq::<char>::empty());
    }
    let mut i: usize = 0;
    while i < n
        invariant
            0 <= cur_start <= i <= n,
            n == pv.len(),
            spec_components(pv) == comps_acc(
                pv.skip(i as int),
                pv.subrange(cur_start as int, i as int),
                acc,
            ),
            acc.len() == 0 ==> !last_found,
            acc.len() > 0 ==> last_found && last_start <= last_end <= n && acc.last()
                == pv.subrange(last_start as int, last_end as int),
        decreases n - i,
    {
        let c = s.get_char(i);
        proof {
            assert(pv.skip(i as int)[0] == pv[i as int]);
            assert(pv.skip(i as int).skip(1) =~= pv.skip(i as int + 1));
        }
        if c == '/' {
            let ghost cur = pv.subrange(cur_start as int, i as int);
            let keep = i > cur_start && !(i == cur_start + 1 && s.get_char(cur_start) == '.');
            proof {
                assert(keep == keep_comp(cur)) by {
                    if i > cur_start {
                        if i == cur_start + 1 {
                            assert(cur.len() == 1);
                            assert(cur[0] == pv[cur_start as int]);
                            if pv[cur_start as int] == '.' {
                                assert(cur =~= seq!['.']);
                            }
                            if cur == seq!['.'] {
                                assert(cur[0] == '.');
                            }
                        } else {
                            assert(cur.len() > 1);
                            assert(cur != seq!['.']);
                        }
                    } else {
                        assert(cur.len() == 0);
                    }
                }
            }
            if keep {
                last_found = true;
                last_start = cur_start;
                last_end = i;
                proof {
                    acc = acc.push(cur);
                }
            }
            cur_start = i + 1;
            proof {
                assert(pv.subrange(i as int + 1, i as int + 1) =~= Seq::<char>::empty());
            }
        } else {
            proof {
                assert(pv.subrange(cur_start as int, i as int + 1) =~= pv.subrange(
                    cur_start as int,
                    i as int,
                ).push(pv[i as int]));
            }
        }
        i = i + 1;
    }
    // Flush the final component.
    let ghost cur = pv.subrange(cur_start as int, n as int);
    let keep = n > cur_start && !(n == cur_start + 1 && s.get_char(cur_start) == '.');
    proof {
        assert(pv.skip(n as int) =~= Seq::<char>::empty());
        assert(keep == keep_comp(cur)) by {
            if n > cur_start {
                if n == cur_start + 1 {
                    assert(cur.len() == 1);
                    assert(cur[0] == pv[cur_start as int]);
                    if pv[cur_start as int] == '.' {
                        assert(cur =~= seq!['.']);
                    }
                    if cur == seq!['.'] {
                        assert(cur[0] == '.');
                    }
                } else {
                    assert(cur.len() > 1);
                    assert(cur != seq!['.']);
                }
            } else {
                assert(cur.len() == 0);
            }
        }
    }
    if keep {
        last_found = true;
        last_start = cur_start;
        last_end = n;
        proof {
            acc = acc.push(cur);
        }
    }
    proof {
        assert(spec_components(pv) == acc);
    }
    if !last_found {
        proof {
            assert(acc.len() == 0);
        }
        return None;
    }
    let ghost name = pv.subrange(last_start as int, last_end as int);
    // The parent component `..` has no stem.
    if last_end - last_start == 2 && s.get_char(last_start) == '.' && s.get_char(
        last_start + 1,
    ) == '.' {
        proof {
            assert(name =~= seq!['.', '.']);
        }
        return None;
    }
    proof {
        assert(name != seq!['.', '.']) by {
            if name == seq!['.', '.'] {
                assert(name.len() == 2);
                assert(pv[last_start as int] == '.');
                assert(pv[last_start as int + 1] == '.');
            }
        }
        assert(spec_file_name(pv) == Some(name));
    }
    // Find the last dot in the name.
    let mut j: usize = last_end;
    proof {
        assert(name.take(last_end - last_start) =~= name);
    }
    while j > last_start
        invariant
            last_start <= j <= last_end,
            last_end <= n,
            n == pv.len(),
            name == pv.subrange(last_start as int, last_end as int),
            last_dot(name) == last_dot(name.take(j - last_start)),
        decreases j,
    {
        let c = s.get_char(j - 1);
        proof {
            let t = name.take(j - last_start);
            assert(t.len() == j - last_start);
            assert(t.last() == name[j - 1 - last_start]);
            assert(name[j - 1 - last_start] == pv[j as int - 1]);
        }
        if c == '.' {
            proof {
                assert(last_dot(name) == j - 1 - last_start);
            }
            let rel = j - 1 - last_start;
            if rel == 0 {
                // Only a leading dot: the whole name is the stem.
                let stem = s.substring_char(last_start, last_end);
                proof {
                    assert(spec_stem_of(name) == name);
                }
                return Some(stem.to_owned());
            }
            let stem = s.substring_char(last_start, j - 1);
            proof {
                assert(stem@ =~= name.take(rel as int));
                assert(spec_stem_of(name) == name.take(rel as int));
            }
            return Some(stem.to_owned());
        }
        proof {
            let t = name.take(j - last_start);
            assert(t.drop_last() =~= name.take(j - 1 - last_start));
        }
        j = j - 1;
    }
    proof {
        assert(name.take(0) =~= Seq::<char>::empty());
        assert(last_dot(name) == -1);
        assert(spec_stem_of(name) == name);
    }
    let stem = s.substring_char(last_start, last_end);
    proof {
        assert(stem@ =~= name);
    }
    Some(stem.to_owned())
}

/// The digit character for one decimal digit.
pub open spec fn digit_char(d: int) -> char {
    if d == 0 { '0' }
    else if d == 1 { '1' }
    else if d == 2 { '2' }
    else if d == 3 { '3' }
    else if d == 4 { '4' }
    else if d == 5 { '5' }
    else if d == 6 { '6' }
    else if d == 7 { '7' }
    else if d == 8 { '8' }
    else { '9' }
}

/// The decimal representation of a number, without leading zeroes.
pub open spec fn dec_rep(n: nat) -> Seq<char>
    decreases n,
{
    if n < 10 {
        seq![digit_char(n as int)]
    } else {
        dec_rep(n / 10).push(digit_char((n % 10) as int))
    }
}

/// The number a digit string denotes.
pub open spec fn dec_val(s: Seq<char>) -> nat
    decreases s.len(),
{
    if s.len() == 0 {
        0
    } else {
        dec_val(s.drop_last()) * 10 + digit_val(s.last())
    }
}

/// The value of one digit character.
pub open spec fn digit_val(c: char) -> nat {
    if c == '0' { 0 }
    else if c == '1' { 1 }
    else if c == '2' { 2 }
    else if c == '3' { 3 }
    else if c == '4' { 4 }
    else if c == '5' { 5 }
    else if c == '6' { 6 }
    else if c == '7' { 7 }
    else if c == '8' { 8 }
    else if c == '9' { 9 }
    else { 0 }
}

/// The decimal representation denotes the number itself; hence distinct
/// numbers have distinct representations.
pub proof fn lemma_dec_rep_val(n: nat)
    ensures
        dec_val(dec_rep(n)) == n,
    decreases n,
{
    if n < 10 {
        let s = dec_rep(n);
        assert(s == seq![digit_char(n as int)]);
        assert(s.len() == 1);
        assert(s.last() == digit_char(n as int));
        assert(s.drop_last() =~= Seq::<char>::empty());
        assert(dec_val(s.drop_last()) == 0);
        assert(dec_val(s) == dec_val(s.drop_last()) * 10 + digit_val(s.last()));
        assert(digit_val(digit_char(n as int)) == n);
    } else {
        lemma_dec_rep_val(n / 10);
        let s = dec_rep(n);
        assert(s.drop_last() =~= dec_rep(n / 10));
        assert(s.last() == digit_char((n % 10) as int));
        assert(digit_val(digit_char((n % 10) as int)) == n % 10);
        assert(n / 10 * 10 + n % 10 == n) by {
            vstd::arithmetic::div_mod::lemma_fundamental_div_mod(n as int, 10);
        }
    }
}

/// One digit as a string slice.
fn digit_str(d: usize) -> (r: &'static str)
    requires
        d < 10,
    ensures
        r@ == seq![digit_char(d as int)],
{
    proof {
        reveal_strlit("0");
        reveal_strlit("1");
        reveal_strlit("2");
        reveal_strlit("3");
        reveal_strlit("4");
        reveal_strlit("5");
        reveal_strlit("6");
        reveal_strlit("7");
        reveal_strlit("8");
        reveal_strlit("9");
    }
    let r = match d {
        0 => "0",
        1 => "1",
        2 => "2",
        3 => "3",
        4 => "4",
        5 => "5",
        6 => "6",
        7 => "7",
        8 => "8",
        _ => "9",
    };
    proof {
        assert(r@ =~= seq![digit_char(d as int)]);
    }
    r
}

/// Renders a number in decimal.
pub fn dec_string(v: usize) -> (r: String)
    ensures
        r@ == dec_rep(v as nat),
    decreases v,
{
    if v < 10 {
        let r = digit_str(v).to_owned();
        proof {
            assert(r@ =~= dec_rep(v as nat));
        }
        r
    } else {
        let pre = dec_string(v / 10);
        let r = pre.concat(digit_str(v % 10));
        proof {
            assert(r@ =~= dec_rep((v / 10) as nat).push(digit_char((v % 10) as int)));
        }
        r
    }
}

/// A reference to a plug or socket component: either a local file path or
/// a registry package name of the form `namespace:package`.
#[derive(Debug)]
pub enum PackageRef {
    /// The local file path to the component.
    LocalPath(String),
    /// The registry package name.
    RegistryPackage(String),
}

/// The mathematical value of a `PackageRef`.
pub enum PackageRefV {
    Local(Seq<char>),
    Registry(Seq<char>),
}

impl View for PackageRef {
    type V = PackageRefV;

    open spec fn view(&self) -> PackageRefV {
        match self {
            PackageRef::LocalPath(p) => PackageRefV::Local(p@),
            PackageRef::RegistryPackage(n) => PackageRefV::Registry(n@),
        }
    }
}

impl PackageRef {
    /// Classifies a reference string: a valid registry package name becomes
    /// a registry reference, anything else a local path.
    pub fn parse(s: &String) -> (r: PackageRef)
        ensures
            crate::ext::valid_package_name(s@) ==> r@ == PackageRefV::Registry(s@),
            !crate::ext::valid_package_name(s@) ==> r@ == PackageRefV::Local(s@),
    {
        if crate::ext::is_package_name(s) {
            PackageRef::RegistryPackage(s.clone())
        } else {
            PackageRef::LocalPath(s.clone())
        }
    }

    /// The reference as the user wrote it.
    pub fn display(&self) -> (r: String)
        ensures
            r@ == spec_display(self@),
    {
        match self {
            PackageRef::LocalPath(p) => p.clone(),
            PackageRef::RegistryPackage(n) => n.clone(),
        }
    }
}

/// The string a reference displays as: the path, or the registry name.
pub open spec fn spec_display(r: PackageRefV) -> Seq<char> {
    match r {
        PackageRefV::Local(p) => p,
        PackageRefV::Registry(n) => n,
    }
}

impl core::str::FromStr for PackageRef {
    type Err = PlugError;

    fn from_str(s: &str) -> Result<Self, Self::Err> {
        Ok(PackageRef::parse(&s.to_owned()))
    }
}

/// The base name a reference is grouped by: the registry name as written,
/// or the path's file stem.
pub open spec fn spec_base_name(r: PackageRefV) -> Option<Seq<char>> {
    match r {
        PackageRefV::Registry(n) => Some(n),
        PackageRefV::Local(p) => spec_file_stem(p),
    }
}

/// The name marker that keeps local plugs out of registry namespaces.
pub open spec fn plug_prefix() -> Seq<char> {
    seq!['p', 'l', 'u', 'g', ':']
}

/// The final package name of one group member: local plugs are prefixed
/// with the marker, registry plugs never are, and in a group of more than
/// one member the zero-based position is appended.
pub open spec fn final_name(r: PackageRefV, base: Seq<char>, j: int, gsize: int) -> Seq<char> {
    let stem = match r {
        PackageRefV::Local(_) => plug_prefix() + base,
        PackageRefV::Registry(_) => base,
    };
    if gsize > 1 {
        stem + dec_rep(j as nat)
    } else {
        stem
    }
}

/// The first occurrence of each base name, in input order.
pub open spec fn distinct_firsts(bases: Seq<Seq<char>>) -> Seq<Seq<char>>
    decreases bases.len(),
{
    if bases.len() == 0 {
        Seq::empty()
    } else {
        let pre = distinct_firsts(bases.drop_last());
        if pre.contains(bases.last()) {
            pre
        } else {
            pre.push(bases.last())
        }
    }
}

/// The positions that carry base name `b`, ascending.
pub open spec fn indices_of(bases: Seq<Seq<char>>, b: Seq<char>) -> Seq<int>
    decreases bases.len(),
{
    if bases.len() == 0 {
        Seq::empty()
    } else {
        let pre = indices_of(bases.drop_last(), b);
        if bases.last() == b {
            pre.push(bases.len() - 1)
        } else {
            pre
        }
    }
}

/// The named entries of one base-name group: `(final name, input position)`
/// per member, in input order.
pub open spec fn group_entries(
    refs: Seq<PackageRefV>,
    b: Seq<char>,
    members: Seq<int>,
    gsize: int,
) -> Seq<(Seq<char>, int)>
    decreases members.len(),
{
    if members.len() == 0 {
        Seq::empty()
    } else {
        group_entries(refs, b, members.drop_last(), gsize).push(
            (final_name(refs[members.last()], b, members.len() - 1, gsize), members.last()),
        )
    }
}

/// All named entries: the groups in first-occurrence order, each group in
/// input order.
pub open spec fn all_entries(
    refs: Seq<PackageRefV>,
    bases: Seq<Seq<char>>,
    firsts: Seq<Seq<char>>,
) -> Seq<(Seq<char>, int)>
    decreases firsts.len(),
{
    if firsts.len() == 0 {
        Seq::empty()
    } else {
        group_entries(
            refs,
            firsts[0],
            indices_of(bases, firsts[0]),
            indices_of(bases, firsts[0]).len() as int,
        ) + all_entries(refs, bases, firsts.skip(1))
    }
}

/// The whole deterministic naming of a plug list.
pub open spec fn spec_assign(refs: Seq<PackageRefV>, bases: Seq<Seq<char>>) -> Seq<
    (Seq<char>, int),
> {
    all_entries(refs, bases, distinct_firsts(bases))
}

/// The entries of a group, indexed: member `j` carries its final name and
/// its input position.
pub proof fn lemma_group_entries_len(
    refs: Seq<PackageRefV>,
    b: Seq<char>,
    members: Seq<int>,
    gsize: int,
)
    ensures
        group_entries(refs, b, members, gsize).len() == members.len(),
    decreases members.len(),
{
    if members.len() > 0 {
        lemma_group_entries_len(refs, b, members.drop_last(), gsize);
    }
}

/// Indexing one group's entries.
pub proof fn lemma_group_entries_index(
    refs: Seq<PackageRefV>,
    b: Seq<char>,
    members: Seq<int>,
    gsize: int,
    j: int,
)
    requires
        0 <= j < members.len(),
    ensures
        group_entries(refs, b, members, gsize).len() == members.len(),
        group_entries(refs, b, members, gsize)[j] == (
            final_name(refs[members[j]], b, j, gsize),
            members[j],
        ),
    decreases members.len(),
{
    lemma_group_entries_len(refs, b, members, gsize);
    if members.len() > 0 {
        if j < members.len() - 1 {
            lemma_group_entries_index(refs, b, members.drop_last(), gsize, j);
            assert(members.drop_last()[j] == members[j]);
        }
    }
}

/// How many entries the groups of `firsts` hold together.
pub open spec fn group_sizes_sum(bases: Seq<Seq<char>>, firsts: Seq<Seq<char>>) -> nat
    decreases firsts.len(),
{
    if firsts.len() == 0 {
        0
    } else {
        indices_of(bases, firsts[0]).len() + group_sizes_sum(bases, firsts.skip(1))
    }
}

/// The entry list is as long as its groups together.
pub proof fn lemma_all_entries_len(
    refs: Seq<PackageRefV>,
    bases: Seq<Seq<char>>,
    firsts: Seq<Seq<char>>,
)
    ensures
        all_entries(refs, bases, firsts).len() == group_sizes_sum(bases, firsts),
    decreases firsts.len(),
{
    if firsts.len() > 0 {
        lemma_group_entries_len(
            refs,
            firsts[0],
            indices_of(bases, firsts[0]),
            indices_of(bases, firsts[0]).len() as int,
        );
        lemma_all_entries_len(refs, bases, firsts.skip(1));
    }
}

/// How often a value occurs in a list.
pub open spec fn occurrences(s: Seq<Seq<char>>, x: Seq<char>) -> nat
    decreases s.len(),
{
    if s.len() == 0 {
        0
    } else {
        (if s[0] == x {
            1nat
        } else {
            0nat
        }) + occurrences(s.skip(1), x)
    }
}

/// A value occurs at all exactly when the list contains it.
pub proof fn lemma_occurrences_contains(s: Seq<Seq<char>>, x: Seq<char>)
    ensures
        (occurrences(s, x) == 0) <==> !s.contains(x),
    decreases s.len(),
{
    if s.len() > 0 {
        lemma_occurrences_contains(s.skip(1), x);
        assert(forall|i: int| 0 <= i < s.skip(1).len() ==> s.skip(1)[i] == s[i + 1]);
        if s.contains(x) {
            let w = choose|w: int| 0 <= w < s.len() && s[w] == x;
            if w > 0 {
                assert(s.skip(1)[w - 1] == x);
                assert(s.skip(1).contains(x));
            }
        }
        if occurrences(s, x) > 0 {
            if s[0] == x {
                assert(s.contains(x));
            } else {
                assert(s.skip(1).contains(x));
                let w = choose|w: int| 0 <= w < s.skip(1).len() && s.skip(1)[w] == x;
                assert(s[w + 1] == x);
            }
        }
    }
}

/// In a duplicate-free list a contained value occurs exactly once.
pub proof fn lemma_occurrences_one(s: Seq<Seq<char>>, x: Seq<char>)
    requires
        forall|i: int, j: int| 0 <= i < j < s.len() ==> s[i] != s[j],
        s.contains(x),
    ensures
        occurrences(s, x) == 1,
    decreases s.len(),
{
    assert(forall|i: int| 0 <= i < s.skip(1).len() ==> s.skip(1)[i] == s[i + 1]);
    if s[0] == x {
        assert(forall|i: int| 0 <= i < s.skip(1).len() ==> s.skip(1)[i] != x);
        lemma_occurrences_contains(s.skip(1), x);
        if s.skip(1).contains(x) {
            let w = choose|w: int| 0 <= w < s.skip(1).len() && s.skip(1)[w] == x;
            assert(false);
        }
    } else {
        let w = choose|w: int| 0 <= w < s.len() && s[w] == x;
        assert(s.skip(1)[w - 1] == x);
        assert(s.skip(1).contains(x));
        assert(forall|i: int, j: int|
            0 <= i < j < s.skip(1).len() ==> s.skip(1)[i] != s.skip(1)[j]);
        lemma_occurrences_one(s.skip(1), x);
    }
}

/// Appending one base grows each group by that base's occurrences among
/// the firsts.
pub proof fn lemma_sum_snoc_base(bases: Seq<Seq<char>>, x: Seq<char>, firsts: Seq<Seq<char>>)
    ensures
        group_sizes_sum(bases.push(x), firsts) == group_sizes_sum(bases, firsts) + occurrences(
            firsts,
            x,
        ),
    decreases firsts.len(),
{
    if firsts.len() > 0 {
        assert(bases.push(x).drop_last() =~= bases);
        assert(bases.push(x).last() == x);
        assert(indices_of(bases.push(x), firsts[0]).len() == indices_of(
            bases,
            firsts[0],
        ).len() + (if x == firsts[0] {
            1nat
        } else {
            0nat
        }));
        lemma_sum_snoc_base(bases, x, firsts.skip(1));
    }
}

/// One more group at the end adds its size to the sum.
pub proof fn lemma_sum_append_first(bases: Seq<Seq<char>>, firsts: Seq<Seq<char>>, f: Seq<char>)
    ensures
        group_sizes_sum(bases, firsts.push(f)) == group_sizes_sum(bases, firsts) + indices_of(
            bases,
            f,
        ).len(),
    decreases firsts.len(),
{
    if firsts.len() == 0 {
        assert(firsts.push(f)[0] == f);
        assert(firsts.push(f).skip(1) =~= Seq::<Seq<char>>::empty());
        assert(group_sizes_sum(bases, firsts.push(f)) == indices_of(bases, f).len()
            + group_sizes_sum(bases, firsts.push(f).skip(1)));
        assert(group_sizes_sum(bases, Seq::<Seq<char>>::empty()) == 0);
        assert(group_sizes_sum(bases, firsts) == 0);
    } else {
        assert(firsts.push(f)[0] == firsts[0]);
        assert(firsts.push(f).skip(1) =~= firsts.skip(1).push(f));
        lemma_sum_append_first(bases, firsts.skip(1), f);
        assert(group_sizes_sum(bases, firsts.push(f)) == indices_of(bases, firsts[0]).len()
            + group_sizes_sum(bases, firsts.skip(1).push(f)));
        assert(group_sizes_sum(bases, firsts.skip(1).push(f)) == group_sizes_sum(
            bases,
            firsts.skip(1),
        ) + indices_of(bases, f).len());
        assert(group_sizes_sum(bases, firsts) == indices_of(bases, firsts[0]).len()
            + group_sizes_sum(bases, firsts.skip(1)));
    }
}

/// The first-occurrence list holds exactly the values of the base list.
pub proof fn lemma_firsts_contains(bases: Seq<Seq<char>>, b: Seq<char>)
    ensures
        distinct_firsts(bases).contains(b) <==> exists|i: int|
            0 <= i < bases.len() && bases[i] == b,
    decreases bases.len(),
{
    if bases.len() > 0 {
        let pre_b = bases.drop_last();
        lemma_firsts_contains(pre_b, b);
        assert(forall|i: int| 0 <= i < pre_b.len() ==> pre_b[i] == bases[i]);
        let pre = distinct_firsts(pre_b);
        let fs = distinct_firsts(bases);
        if fs.contains(b) {
            let w = choose|w: int| 0 <= w < fs.len() && fs[w] == b;
            if w < pre.len() {
                assert(pre.contains(b));
                let i = choose|i: int| 0 <= i < pre_b.len() && pre_b[i] == b;
                assert(bases[i] == b);
            } else {
                assert(fs[w] == bases.last());
                assert(bases[bases.len() - 1] == b);
            }
        }
        if exists|i: int| 0 <= i < bases.len() && bases[i] == b {
            let i = choose|i: int| 0 <= i < bases.len() && bases[i] == b;
            if i < pre_b.len() {
                assert(pre_b[i] == b);
                assert(pre.contains(b));
                let w = choose|w: int| 0 <= w < pre.len() && pre[w] == b;
                if pre.contains(bases.last()) {
                    assert(fs[w] == b);
                    assert(fs.contains(b));
                } else {
                    assert(fs[w] == b);
                    assert(fs.contains(b));
                }
            } else {
                assert(bases.last() == b);
                if pre.contains(bases.last()) {
                    let w = choose|w: int| 0 <= w < pre.len() && pre[w] == bases.last();
                    assert(fs[w] == b);
                    assert(fs.contains(b));
                } else {
                    assert(fs[fs.len() - 1] == b);
                    assert(fs.contains(b));
                }
            }
        }
    }
}

/// The first-occurrence list never repeats a value.
pub proof fn lemma_firsts_distinct(bases: Seq<Seq<char>>)
    ensures
        forall|i: int, j: int|
            0 <= i < j < distinct_firsts(bases).len() ==> distinct_firsts(bases)[i]
                != distinct_firsts(bases)[j],
    decreases bases.len(),
{
    if bases.len() > 0 {
        let pre = distinct_firsts(bases.drop_last());
        lemma_firsts_distinct(bases.drop_last());
        let fs = distinct_firsts(bases);
        if !pre.contains(bases.last()) {
            assert(forall|i: int| 0 <= i < pre.len() ==> pre[i] != bases.last());
            assert forall|i: int, j: int|
                0 <= i < j < fs.len() implies fs[i] != fs[j] by {
                if j < pre.len() {
                    assert(fs[i] == pre[i] && fs[j] == pre[j]);
                } else {
                    assert(fs[j] == bases.last());
                    assert(fs[i] == pre[i]);
                }
            }
        }
    }
}

/// A value absent from the bases has an empty group.
pub proof fn lemma_indices_empty(bases: Seq<Seq<char>>, b: Seq<char>)
    requires
        forall|i: int| 0 <= i < bases.len() ==> bases[i] != b,
    ensures
        indices_of(bases, b).len() == 0,
    decreases bases.len(),
{
    if bases.len() > 0 {
        assert(forall|i: int|
            0 <= i < bases.drop_last().len() ==> bases.drop_last()[i] == bases[i]);
        lemma_indices_empty(bases.drop_last(), b);
    }
}

/// The groups of the first-occurrence list partition the bases: their
/// sizes add up to the whole list.
pub proof fn lemma_sum_all(bases: Seq<Seq<char>>)
    ensures
        group_sizes_sum(bases, distinct_firsts(bases)) == bases.len(),
    decreases bases.len(),
{
    if bases.len() > 0 {
        let pre_b = bases.drop_last();
        let x = bases.last();
        lemma_sum_all(pre_b);
        let pre_f = distinct_firsts(pre_b);
        assert(bases =~= pre_b.push(x));
        lemma_firsts_distinct(pre_b);
        if pre_f.contains(x) {
            assert(distinct_firsts(bases) == pre_f);
            lemma_sum_snoc_base(pre_b, x, pre_f);
            lemma_occurrences_one(pre_f, x);
            assert(group_sizes_sum(pre_b.push(x), pre_f) == pre_b.len() + 1);
        } else {
            assert(distinct_firsts(bases) == pre_f.push(x));
            lemma_sum_snoc_base(pre_b, x, pre_f);
            lemma_occurrences_contains(pre_f, x);
            assert(group_sizes_sum(pre_b.push(x), pre_f) == pre_b.len());
            lemma_sum_append_first(pre_b.push(x), pre_f, x);
            lemma_firsts_contains(pre_b, x);
            assert(forall|i: int| 0 <= i < pre_b.len() ==> pre_b[i] != x) by {
                if exists|i: int| 0 <= i < pre_b.len() && pre_b[i] == x {
                    let i = choose|i: int| 0 <= i < pre_b.len() && pre_b[i] == x;
                    assert(pre_f.contains(x));
                }
            }
            lemma_indices_empty(pre_b, x);
            assert(pre_b.push(x).drop_last() =~= pre_b);
            assert(pre_b.push(x).last() == x);
            assert(indices_of(pre_b.push(x), x).len() == 1);
            assert(group_sizes_sum(pre_b.push(x), pre_f.push(x)) == pre_b.len() + 1);
        }
    }
}

/// Every reference gets exactly one named entry: the naming is as long as
/// the input list.
pub proof fn lemma_assign_len(refs: Seq<PackageRefV>, bases: Seq<Seq<char>>)
    ensures
        spec_assign(refs, bases).len() == bases.len(),
{
    lemma_all_entries_len(refs, bases, distinct_firsts(bases));
    lemma_sum_all(bases);
}

/// Disambiguation: two plugs of the same provenance that share a base
/// name always get distinct, order-determined final names — the zero-based
/// position within the group tells them apart.
pub proof fn lemma_disambiguation(
    refs: Seq<PackageRefV>,
    b: Seq<char>,
    members: Seq<int>,
    gsize: int,
    j1: int,
    j2: int,
)
    requires
        0 <= j1 < j2 < members.len(),
        gsize > 1,
        0 <= members[j1] < refs.len(),
        0 <= members[j2] < refs.len(),
        (refs[members[j1]] matches PackageRefV::Local(_)) <==> (refs[members[j2]] matches
        PackageRefV::Local(_)),
    ensures
        group_entries(refs, b, members, gsize)[j1].0 != group_entries(
            refs,
            b,
            members,
            gsize,
        )[j2].0,
{
    lemma_group_entries_index(refs, b, members, gsize, j1);
    lemma_group_entries_index(refs, b, members, gsize, j2);
    let p = match refs[members[j1]] {
        PackageRefV::Local(_) => plug_prefix() + b,
        PackageRefV::Registry(_) => b,
    };
    let n1 = final_name(refs[members[j1]], b, j1, gsize);
    let n2 = final_name(refs[members[j2]], b, j2, gsize);
    assert(n1 == p + dec_rep(j1 as nat));
    assert(n2 == p + dec_rep(j2 as nat));
    if n1 == n2 {
        assert(dec_rep(j1 as nat) =~= n1.subrange(p.len() as int, n1.len() as int));
        assert(dec_rep(j2 as nat) =~= n2.subrange(p.len() as int, n2.len() as int));
        lemma_dec_rep_val(j1 as nat);
        lemma_dec_rep_val(j2 as nat);
        assert(dec_val(dec_rep(j1 as nat)) == dec_val(dec_rep(j2 as nat)));
        assert(false);
    }
}

/// A plug reference with its final package name.
#[derive(Debug)]
pub struct NamedRef {
    /// The disambiguated package name to register the plug under.
    pub name: String,
    /// The plug's position in the input list.
    pub index: usize,
}

pub open spec fn named_view(n: NamedRef) -> (Seq<char>, int) {
    (n.name@, n.index as int)
}

pub open spec fn named_list_view(s: Seq<NamedRef>) -> Seq<(Seq<char>, int)> {
    s.map_values(|n: NamedRef| named_view(n))
}

/// The view of a reference list.
pub open spec fn refs_view(s: Seq<PackageRef>) -> Seq<PackageRefV> {
    s.map_values(|r: PackageRef| r@)
}

/// The view of a string list.
pub open spec fn strings_view(s: Seq<String>) -> Seq<Seq<char>> {
    s.map_values(|x: String| x@)
}

/// Whether a string list contains a value, as an executable scan.
fn contains_str(v: &Vec<String>, s: &String) -> (r: bool)
    ensures
        r == strings_view(v@).contains(s@),
{
    let mut k: usize = 0;
    while k < v.len()
        invariant
            0 <= k <= v.len(),
            forall|j: int| 0 <= j < k ==> strings_view(v@)[j] != s@,
        decreases v.len() - k,
    {
        if v[k].eq(s) {
            proof {
                assert(strings_view(v@)[k as int] == s@);
            }
            return true;
        }
        k = k + 1;
    }
    proof {
        if strings_view(v@).contains(s@) {
            let w = choose|w: int|
                0 <= w < strings_view(v@).len() && strings_view(v@)[w] == s@;
            assert(false);
        }
    }
    false
}

impl PackageRef {
    /// An owned copy of the reference.
    pub fn duplicate(&self) -> (r: PackageRef)
        ensures
            r@ == self@,
    {
        match self {
            PackageRef::LocalPath(p) => PackageRef::LocalPath(p.clone()),
            PackageRef::RegistryPackage(n) => PackageRef::RegistryPackage(n.clone()),
        }
    }
}

/// Derives every plug's final package name: base names come from the
/// registry name or the path's file stem; plugs are grouped by base name
/// in first-occurrence order, keeping the input order within each group;
/// a group of more than one member gets the zero-based position appended;
/// local plugs are prefixed with the `plug:` marker, registry plugs never
/// are.
///
/// Fails with `InvalidPlugName`, carrying the first offending reference,
/// exactly when some local path has no file stem.
#[verifier::loop_isolation(false)]
pub fn assign_names(refs: &Vec<PackageRef>) -> (r: Result<Vec<NamedRef>, PlugError>)
    ensures
        ({
            let rv = refs_view(refs@);
            match r {
                Ok(out) => {
                    &&& forall|i: int|
                        0 <= i < rv.len() ==> spec_base_name(#[trigger] rv[i]) is Some
                    &&& named_list_view(out@) == spec_assign(
                        rv,
                        rv.map_values(|x: PackageRefV| spec_base_name(x)->Some_0),
                    )
                    &&& forall|k: int|
                        0 <= k < out@.len() ==> 0 <= #[trigger] out@[k].index < rv.len()
                },
                Err(e) => {
                    &&& e matches PlugError::InvalidPlugName { reference: m } && exists|
                        fi: int,
                    |
                        0 <= fi < rv.len() && spec_base_name(#[trigger] rv[fi]) is None && (
                        forall|j: int| 0 <= j < fi ==> spec_base_name(#[trigger] rv[j]) is Some)
                            && m@ == spec_display(rv[fi])
                },
            }
        }),
{
    let ghost rv = refs_view(refs@);
    // Base names, in input order.
    let mut bases: Vec<String> = Vec::new();
    let mut i: usize = 0;
    while i < refs.len()
        invariant
            0 <= i <= refs.len(),
            rv.len() == refs.len(),
            bases@.len() == i,
            forall|j: int|
                0 <= j < i ==> spec_base_name(#[trigger] rv[j]) == Some(
                    strings_view(bases@)[j],
                ),
        decreases refs.len() - i,
    {
        proof {
            assert(rv[i as int] == refs@[i as int]@);
        }
        match &refs[i] {
            PackageRef::RegistryPackage(n) => {
                bases.push(n.clone());
            },
            PackageRef::LocalPath(p) => {
                match file_stem(p) {
                    Some(s) => {
                        bases.push(s);
                    },
                    None => {
                        return Err(PlugError::InvalidPlugName { reference: p.clone() });
                    },
                }
            },
        }
        i = i + 1;
    }
    let ghost bv = rv.map_values(|x: PackageRefV| spec_base_name(x)->Some_0);
    proof {
        assert(strings_view(bases@) =~= bv);
    }
    // First occurrence of each base name, in input order.
    let mut firsts: Vec<String> = Vec::new();
    let mut i: usize = 0;
    while i < bases.len()
        invariant
            0 <= i <= bases.len(),
            strings_view(firsts@) == distinct_firsts(bv.take(i as int)),
        decreases bases.len() - i,
    {
        let ghost pre = strings_view(firsts@);
        let found = contains_str(&firsts, &bases[i]);
        proof {
            assert(bv.take(i as int + 1).drop_last() =~= bv.take(i as int));
            assert(bv.take(i as int + 1).last() == bv[i as int]);
            assert(bases@[i as int]@ == bv[i as int]);
        }
        if !found {
            firsts.push(bases[i].clone());
            proof {
                assert(strings_view(firsts@) =~= pre.push(bv[i as int]));
            }
        }
        i = i + 1;
    }
    proof {
        assert(bv.take(bases.len() as int) =~= bv);
    }
    let ghost fv = strings_view(firsts@);
    // Emit every group, in first-occurrence order.
    let mut out: Vec<NamedRef> = Vec::new();
    let mut gi: usize = 0;
    proof {
        assert(fv.skip(0) =~= fv);
        assert(named_list_view(out@) =~= Seq::<(Seq<char>, int)>::empty());
    }
    while gi < firsts.len()
        invariant
            0 <= gi <= firsts.len(),
            fv.len() == firsts.len(),
            spec_assign(rv, bv) == named_list_view(out@) + all_entries(
                rv,
                bv,
                fv.skip(gi as int),
            ),
            forall|k: int| 0 <= k < out@.len() ==> 0 <= #[trigger] out@[k].index < rv.len(),
        decreases firsts.len() - gi,
    {
        let ghost b = fv[gi as int];
        proof {
            assert(firsts@[gi as int]@ == b);
        }
        // The group's members, ascending.
        let mut members: Vec<usize> = Vec::new();
        let mut i: usize = 0;
        while i < bases.len()
            invariant
                0 <= i <= bases.len(),
                bv.len() == bases.len(),
                b == firsts@[gi as int]@,
                gi < firsts.len(),
                members@.map_values(|m: usize| m as int) == indices_of(bv.take(i as int), b),
                forall|k: int| 0 <= k < members@.len() ==> #[trigger] members@[k] < i,
            decreases bases.len() - i,
        {
            let ghost mpre = members@.map_values(|m: usize| m as int);
            proof {
                assert(bv.take(i as int + 1).drop_last() =~= bv.take(i as int));
                assert(bv.take(i as int + 1).last() == bv[i as int]);
                assert(bases@[i as int]@ == bv[i as int]);
            }
            if bases[i].eq(&firsts[gi]) {
                members.push(i);
                proof {
                    assert(members@.map_values(|m: usize| m as int) =~= mpre.push(i as int));
                }
            }
            i = i + 1;
        }
        proof {
            assert(bv.take(bases.len() as int) =~= bv);
        }
        let ghost mv = members@.map_values(|m: usize| m as int);
        let gsize = members.len();
        let ghost out_pre_group = named_list_view(out@);
        let mut j: usize = 0;
        proof {
            assert(mv.take(0) =~= Seq::<int>::empty());
            assert(named_list_view(out@) =~= out_pre_group + group_entries(
                rv,
                b,
                mv.take(0),
                gsize as int,
            ));
        }
        while j < members.len()
            invariant
                0 <= j <= members.len(),
                gsize == members.len(),
                mv == members@.map_values(|m: usize| m as int),
                mv.len() == members.len(),
                b == firsts@[gi as int]@,
                gi < firsts.len(),
                rv.len() == refs.len(),
                forall|k: int| 0 <= k < mv.len() ==> 0 <= #[trigger] mv[k] < rv.len(),
                named_list_view(out@) == out_pre_group + group_entries(
                    rv,
                    b,
                    mv.take(j as int),
                    gsize as int,
                ),
                forall|k: int| 0 <= k < out@.len() ==> 0 <= #[trigger] out@[k].index < rv.len(),
            decreases members.len() - j,
        {
            let idx = members[j];
            proof {
                assert(mv[j as int] == idx as int);
                assert(rv[idx as int] == refs@[idx as int]@);
                reveal_strlit("plug:");
            }
            let stem: String = match &refs[idx] {
                PackageRef::LocalPath(_) => {
                    let t = "plug:".to_owned().concat(firsts[gi].as_str());
                    proof {
                        assert("plug:"@ =~= plug_prefix());
                        assert(t@ =~= plug_prefix() + b);
                    }
                    t
                },
                PackageRef::RegistryPackage(_) => firsts[gi].clone(),
            };
            let name: String = if gsize > 1 {
                let d = dec_string(j);
                stem.concat(d.as_str())
            } else {
                stem
            };
            proof {
                assert(name@ == final_name(rv[idx as int], b, j as int, gsize as int));
            }
            out.push(NamedRef { name, index: idx });
            proof {
                let t1 = mv.take(j as int + 1);
                assert(t1.drop_last() =~= mv.take(j as int));
                assert(t1.last() == mv[j as int]);
                assert(t1.len() - 1 == j as int);
                assert(named_list_view(out@) =~= (out_pre_group + group_entries(
                    rv,
                    b,
                    mv.take(j as int),
                    gsize as int,
                )).push((final_name(rv[idx as int], b, j as int, gsize as int), idx as int)));
                assert(named_list_view(out@) =~= out_pre_group + group_entries(
                    rv,
                    b,
                    t1,
                    gsize as int,
                ));
            }
            j = j + 1;
        }
        proof {
            assert(mv.take(members.len() as int) =~= mv);
            let rest = fv.skip(gi as int);
            assert(rest[0] == b);
            assert(mv == indices_of(bv, b));
            assert(rest.len() > 0);
            assert(all_entries(rv, bv, rest) == group_entries(
                rv,
                rest[0],
                indices_of(bv, rest[0]),
                indices_of(bv, rest[0]).len() as int,
            ) + all_entries(rv, bv, rest.skip(1)));
            assert(rest.skip(1) =~= fv.skip(gi as int + 1));
            assert(gsize as int == indices_of(bv, b).len());
            assert((out_pre_group + group_entries(rv, b, mv, gsize as int)) + all_entries(
                rv,
                bv,
                fv.skip(gi as int + 1),
            ) =~= out_pre_group + (group_entries(rv, b, mv, gsize as int) + all_entries(
                rv,
                bv,
                fv.skip(gi as int + 1),
            )));
        }
        gi = gi + 1;
    }
    proof {
        assert(fv.skip(firsts.len() as int) =~= Seq::<Seq<char>>::empty());
        assert(named_list_view(out@) + all_entries(rv, bv, fv.skip(firsts.len() as int))
            =~= named_list_view(out@));
    }
    Ok(out)
}

} // verus!
