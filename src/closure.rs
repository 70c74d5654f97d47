//! Transitive dependency closure, computed as a fixed point of expansion
//! passes over a resolution set.

use vstd::prelude::*;

use crate::index::{has_pkg, pkg_names, Package, PackageIndex};
use crate::report::Report;
use crate::resolve::{lemma_resolve_installed, resolve};

verus! {

/// The set of the names held by `v`.
pub open spec fn name_set(v: Seq<String>) -> Set<Seq<char>> {
    Set::new(|n: Seq<char>| exists|i: int| 0 <= i < v.len() && (#[trigger] v[i])@ == n)
}

/// The names that package `x` requires, each dependency resolved.
pub open spec fn deps_of(pkgs: Seq<Package>, x: Seq<char>) -> Set<Seq<char>> {
    Set::new(
        |r: Seq<char>|
            exists|i: int, q: int|
                0 <= i < pkgs.len() && pkgs[i].name@ == x && 0 <= q < pkgs[i].depends@.len()
                    && #[trigger] resolve(pkgs, pkgs[i].depends@[q]) == Some(r),
    )
}

/// Whether `c` holds every name that a member of `c` requires.
pub open spec fn is_closed(pkgs: Seq<Package>, c: Set<Seq<char>>) -> bool {
    forall|x: Seq<char>, r: Seq<char>|
        #[trigger] c.contains(x) && #[trigger] deps_of(pkgs, x).contains(r) ==> c.contains(r)
}

/// The seeds that are installed.
pub open spec fn base(pkgs: Seq<Package>, seeds: Set<Seq<char>>) -> Set<Seq<char>> {
    seeds.intersect(pkg_names(pkgs))
}

/// The dependency closure of `seeds`: the least set that holds the installed
/// seeds and every name that one of its members requires.
pub open spec fn closure_of(pkgs: Seq<Package>, seeds: Set<Seq<char>>) -> Set<Seq<char>> {
    Set::new(
        |n: Seq<char>|
            forall|c: Set<Seq<char>>|
                is_closed(pkgs, c) && base(pkgs, seeds).subset_of(c) ==> #[trigger] c.contains(n),
    )
}

/// The names of `pkgs` that are in `s`, in the order of `pkgs`.
pub open spec fn names_in_order(pkgs: Seq<Package>, s: Set<Seq<char>>) -> Seq<Seq<char>>
    decreases pkgs.len(),
{
    if pkgs.len() == 0 {
        Seq::empty()
    } else {
        let rest = names_in_order(pkgs.drop_last(), s);
        if s.contains(pkgs.last().name@) {
            rest.push(pkgs.last().name@)
        } else {
            rest
        }
    }
}

/// Whether `n` is tracked and not yet expanded.
pub open spec fn pending(m: Map<Seq<char>, bool>, n: Seq<char>) -> bool {
    m.dom().contains(n) && !m[n]
}

/// One expansion pass: every pending name that is installed becomes expanded
/// and adds, unexpanded, what it requires and is not yet tracked; a pending
/// name that is not installed is dropped; expanded names stay as they are.
pub open spec fn pass_spec(pkgs: Seq<Package>, m: Map<Seq<char>, bool>) -> Map<
    Seq<char>,
    bool,
> {
    Map::new(
        |n: Seq<char>|
            (m.dom().contains(n) && (m[n] || has_pkg(pkgs, n))) || exists|x: Seq<char>|
                pending(m, x) && #[trigger] deps_of(pkgs, x).contains(n),
        |n: Seq<char>| m.dom().contains(n),
    )
}

pub open spec fn entries_unique(e: Seq<(String, bool)>) -> bool {
    forall|a: int, b: int| 0 <= a < e.len() && 0 <= b < e.len() && a != b ==> e[a].0@ != e[b].0@
}

pub open spec fn has_name(e: Seq<(String, bool)>, n: Seq<char>) -> bool {
    exists|a: int| 0 <= a < e.len() && (#[trigger] e[a]).0@ == n
}

pub open spec fn entries_map(e: Seq<(String, bool)>) -> Map<Seq<char>, bool> {
    Map::new(
        |n: Seq<char>| has_name(e, n),
        |n: Seq<char>| exists|a: int| 0 <= a < e.len() && (#[trigger] e[a]).0@ == n && e[a].1,
    )
}

/// Package names, each with whether its dependencies have been processed.
pub struct ResolutionSet {
    entries: Vec<(String, bool)>,
}

impl View for ResolutionSet {
    type V = Map<Seq<char>, bool>;

    closed spec fn view(&self) -> Map<Seq<char>, bool> {
        entries_map(self.entries@)
    }
}

fn find_entry(e: &Vec<(String, bool)>, name: &String) -> (r: Option<usize>)
    ensures
        r is None <==> !has_name(e@, name@),
        r matches Some(a) ==> a < e@.len() && e@[a as int].0@ == name@,
{
    let mut a: usize = 0;
    while a < e.len()
        invariant
            0 <= a <= e@.len(),
            forall|t: int| 0 <= t < a ==> (#[trigger] e@[t]).0@ != name@,
        decreases e@.len() - a,
    {
        if e[a].0 == *name {
            return Some(a);
        }
        a = a + 1;
    }
    None
}

impl ResolutionSet {
    pub closed spec fn wf(&self) -> bool {
        entries_unique(self.entries@)
    }

    /// Every seed, unexpanded.
    pub fn from_seeds(seeds: &Vec<String>) -> (r: ResolutionSet)
        ensures
            r.wf(),
            r@.dom() == name_set(seeds@),
            forall|n: Seq<char>| #[trigger] r@.dom().contains(n) ==> !r@[n],
    {
        let mut e: Vec<(String, bool)> = Vec::new();
        let mut i: usize = 0;
        while i < seeds.len()
            invariant
                0 <= i <= seeds@.len(),
                entries_unique(e@),
                forall|a: int| 0 <= a < e@.len() ==> !(#[trigger] e@[a]).1,
                forall|n: Seq<char>|
                    has_name(e@, n) <==> exists|t: int| 0 <= t < i && (#[trigger] seeds@[t])@ == n,
            decreases seeds@.len() - i,
        {
            let ghost before = e@;
            let found = find_entry(&e, &seeds[i]);
            if found.is_none() {
                e.push((seeds[i].clone(), false));
            }
            assert forall|n: Seq<char>|
                has_name(e@, n) <==> exists|t: int|
                    0 <= t < i + 1 && (#[trigger] seeds@[t])@ == n by {
                if has_name(e@, n) {
                    let a = choose|a: int| 0 <= a < e@.len() && (#[trigger] e@[a]).0@ == n;
                    if a < before.len() {
                        assert(before[a] == e@[a]);
                        assert(has_name(before, n));
                    } else {
                        assert(seeds@[i as int]@ == n);
                    }
                }
                if exists|t: int| 0 <= t < i + 1 && (#[trigger] seeds@[t])@ == n {
                    let t = choose|t: int| 0 <= t < i + 1 && (#[trigger] seeds@[t])@ == n;
                    if t < i {
                        assert(has_name(before, n));
                        let a = choose|a: int| 0 <= a < before.len() && (#[trigger] before[a]).0@ == n;
                        assert(e@[a] == before[a]);
                    } else if let Some(a) = found {
                        assert(e@[a as int].0@ == n);
                    } else {
                        assert(e@[e@.len() - 1].0@ == n);
                    }
                }
            }
            i = i + 1;
        }
        let r = ResolutionSet { entries: e };
        assert(r@.dom() =~= name_set(seeds@));
        r
    }

    /// Whether every tracked name is expanded.
    pub fn is_fully_expanded(&self) -> (r: bool)
        requires
            self.wf(),
        ensures
            r <==> forall|n: Seq<char>| !pending(self@, n),
    {
        let mut a: usize = 0;
        while a < self.entries.len()
            invariant
                entries_unique(self.entries@),
                0 <= a <= self.entries@.len(),
                forall|t: int| 0 <= t < a ==> (#[trigger] self.entries@[t]).1,
            decreases self.entries@.len() - a,
        {
            if !self.entries[a].1 {
                proof {
                    lemma_entry_flag(self.entries@, a as int);
                }
                assert(pending(self@, self.entries@[a as int].0@));
                return false;
            }
            a = a + 1;
        }
        assert forall|n: Seq<char>| !pending(self@, n) by {
            if self@.dom().contains(n) {
                let t = choose|t: int|
                    0 <= t < self.entries@.len() && (#[trigger] self.entries@[t]).0@ == n;
                assert(self.entries@[t].1);
            }
        }
        true
    }

    /// Whether `name` is tracked, and if so whether it is expanded.
    pub fn lookup(&self, name: &String) -> (r: Option<bool>)
        requires
            self.wf(),
        ensures
            r is Some <==> self@.dom().contains(name@),
            r matches Some(b) ==> b == self@[name@],
    {
        match find_entry(&self.entries, name) {
            Some(a) => Some(self.entries[a].1),
            None => None,
        }
    }

    /// One expansion pass over a snapshot of this set: each pending name is
    /// looked up; one that is not installed is dropped, and one that is has
    /// each of its dependencies resolved, the names found added unexpanded
    /// when not yet tracked (an unresolved dependency is skipped), and is
    /// then marked expanded.
    pub fn expand_pass(&self, index: &PackageIndex) -> (r: ResolutionSet)
        requires
            self.wf(),
            index.wf(),
        ensures
            r.wf(),
            r@ == pass_spec(index@, self@),
    {
        let ghost pkgs = index@;
        let ghost m = self@;
        let e = &self.entries;
        let len = e.len();
        let mut next: Vec<(String, bool)> = Vec::new();
        // position in `e` of each entry kept
        let ghost mut src: Seq<int> = Seq::empty();
        let mut j: usize = 0;
        while j < len
            invariant
                len == e@.len(),
                e == &self.entries,
                entries_unique(e@),
                0 <= j <= len,
                entries_unique(next@),
                src.len() == next@.len(),
                forall|a: int| 0 <= a < next@.len() ==> (#[trigger] next@[a]).1,
                forall|a: int|
                    0 <= a < src.len() ==> 0 <= #[trigger] src[a] < j && e@[src[a]].0@
                        == next@[a].0@ && (e@[src[a]].1 || has_pkg(index@, e@[src[a]].0@)),
                forall|t: int|
                    0 <= t < j && ((#[trigger] e@[t]).1 || has_pkg(index@, e@[t].0@)) ==> has_name(
                        next@,
                        e@[t].0@,
                    ),
            decreases len - j,
        {
            let keep = e[j].1 || index.position(&e[j].0).is_some();
            if keep {
                let ghost before = next@;
                let ghost src0 = src;
                next.push((e[j].0.clone(), true));
                proof {
                    src = src.push(j as int);
                    lemma_push_keeps_names(before, next@.last(), next@);
                    assert(has_name(next@, e@[j as int].0@)) by {
                        assert(next@[next@.len() - 1].0@ == e@[j as int].0@);
                    }
                    assert forall|a: int|
                        0 <= a < src.len() implies 0 <= #[trigger] src[a] < j + 1 && e@[src[a]].0@
                        == next@[a].0@ && (e@[src[a]].1 || has_pkg(index@, e@[src[a]].0@)) by {
                        if a < before.len() {
                            assert(src[a] == src0[a]);
                            assert(next@[a] == before[a]);
                        }
                    }
                    assert forall|a: int, b: int|
                        0 <= a < next@.len() && 0 <= b < next@.len() && a != b implies next@[a].0@
                        != next@[b].0@ by {
                        if a < before.len() && b < before.len() {
                            assert(next@[a] == before[a] && next@[b] == before[b]);
                        } else if a < before.len() {
                            assert(next@[a] == before[a]);
                            assert(src0[a] < j);
                        } else if b < before.len() {
                            assert(next@[b] == before[b]);
                            assert(src0[b] < j);
                        }
                    }
                }
            }
            j = j + 1;
        }
        let ghost kept = next@;
        // for each entry added, a pending name that requires it
        let ghost mut via: Seq<Seq<char>> = Seq::empty();
        let mut j: usize = 0;
        while j < len
            invariant
                len == e@.len(),
                e == &self.entries,
                m == self@,
                m == entries_map(e@),
                pkgs == index@,
                index.wf(),
                entries_unique(e@),
                0 <= j <= len,
                entries_unique(next@),
                kept.len() + via.len() == next@.len(),
                next@.take(kept.len() as int) == kept,
                added_entries_ok(pkgs, m, kept.len() as int, via, next@),
                forall|t: int|
                    0 <= t < j && !(#[trigger] e@[t]).1 ==> forall|r: Seq<char>|
                        #[trigger] deps_of(pkgs, e@[t].0@).contains(r) ==> has_name(next@, r),
            decreases len - j,
        {
            if !e[j].1 {
                proof {
                    lemma_entry_flag(e@, j as int);
                    assert(pending(m, e@[j as int].0@));
                }
                match index.position(&e[j].0) {
                    None => {
                        assert forall|r: Seq<char>|
                            #[trigger] deps_of(pkgs, e@[j as int].0@).contains(r) implies has_name(
                            next@,
                            r,
                        ) by {
                            lemma_deps_of_requires_installed(pkgs, e@[j as int].0@, r);
                        }
                    },
                    Some(pi) => {
                        let p = &index.packages()[pi];
                        let mut q: usize = 0;
                        while q < p.depends.len()
                            invariant
                                *p == pkgs[pi as int],
                                pi < pkgs.len(),
                                len == e@.len(),
                                j < len,
                                p.name@ == e@[j as int].0@,
                                pending(m, e@[j as int].0@),
                                0 <= q <= p.depends@.len(),
                                pkgs == index@,
                                index.wf(),
                                entries_unique(next@),
                                kept.len() + via.len() == next@.len(),
                                next@.take(kept.len() as int) == kept,
                                added_entries_ok(pkgs, m, kept.len() as int, via, next@),
                                forall|t: int|
                                    0 <= t < j && !(#[trigger] e@[t]).1 ==> forall|r: Seq<char>|
                                        #[trigger] deps_of(pkgs, e@[t].0@).contains(r) ==> has_name(
                                            next@,
                                            r,
                                        ),
                                forall|b: int|
                                    0 <= b < q && (#[trigger] resolve(pkgs, p.depends@[b])) is Some
                                        ==> has_name(next@, resolve(pkgs, p.depends@[b]).unwrap()),
                            decreases p.depends@.len() - q,
                        {
                            match Report::resolve_dep(index, &p.depends[q]) {
                                Ok(name) => {
                                    let found = find_entry(&next, &name);
                                    if found.is_none() {
                                        let ghost before = next@;
                                        let ghost via0 = via;
                                        proof {
                                            assert(resolve(pkgs, pkgs[pi as int].depends@[q as int])
                                                == Some(name@));
                                            assert(deps_of(pkgs, e@[j as int].0@).contains(name@));
                                        }
                                        next.push((name, false));
                                        proof {
                                            via = via.push(e@[j as int].0@);
                                            lemma_push_keeps_names(before, next@.last(), next@);
                                            assert(next@.take(kept.len() as int) =~= kept) by {
                                                assert(before.take(kept.len() as int) == kept);
                                            }
                                            lemma_added_push(
                                                pkgs,
                                                m,
                                                kept.len() as int,
                                                via0,
                                                before,
                                                e@[j as int].0@,
                                                next@.last(),
                                            );
                                            assert(has_name(next@, name@)) by {
                                                assert(next@[next@.len() - 1].0@ == name@);
                                            }
                                            assert forall|a: int, b: int|
                                                0 <= a < next@.len() && 0 <= b < next@.len() && a
                                                    != b implies next@[a].0@ != next@[b].0@ by {
                                                if a < before.len() && b < before.len() {
                                                    assert(next@[a] == before[a] && next@[b] == before[b]);
                                                } else if a < before.len() {
                                                    assert(next@[a] == before[a]);
                                                } else if b < before.len() {
                                                    assert(next@[b] == before[b]);
                                                }
                                            }
                                        }
                                    }
                                },
                                Err(_) => {},
                            }
                            q = q + 1;
                        }
                        assert forall|r: Seq<char>|
                            #[trigger] deps_of(pkgs, e@[j as int].0@).contains(r) implies has_name(
                            next@,
                            r,
                        ) by {
                            let (i, b) = choose|i: int, b: int|
                                0 <= i < pkgs.len() && pkgs[i].name@ == e@[j as int].0@ && 0 <= b
                                    < pkgs[i].depends@.len() && #[trigger] resolve(
                                    pkgs,
                                    pkgs[i].depends@[b],
                                ) == Some(r);
                            assert(i == pi);
                        }
                    },
                }
            }
            j = j + 1;
        }
        let r = ResolutionSet { entries: next };
        proof {
            lemma_pass_result(pkgs, m, e@, kept, src, via, next@);
        }
        r
    }
}

/// Each entry of `next` from position `k` on is unexpanded and required by
/// the pending name that `via` gives for it.
pub open spec fn added_entries_ok(
    pkgs: Seq<Package>,
    m: Map<Seq<char>, bool>,
    k: int,
    via: Seq<Seq<char>>,
    next: Seq<(String, bool)>,
) -> bool {
    forall|a: int|
        0 <= a < via.len() ==> !next[k + a].1 && pending(m, #[trigger] via[a]) && deps_of(
            pkgs,
            via[a],
        ).contains(next[k + a].0@)
}

proof fn lemma_added_push(
    pkgs: Seq<Package>,
    m: Map<Seq<char>, bool>,
    k: int,
    via: Seq<Seq<char>>,
    next: Seq<(String, bool)>,
    x: Seq<char>,
    entry: (String, bool),
)
    requires
        added_entries_ok(pkgs, m, k, via, next),
        0 <= k,
        next.len() == k + via.len(),
        pending(m, x),
        deps_of(pkgs, x).contains(entry.0@),
        !entry.1,
    ensures
        added_entries_ok(pkgs, m, k, via.push(x), next.push(entry)),
{
    let via2 = via.push(x);
    let next2 = next.push(entry);
    assert forall|a: int| 0 <= a < via2.len() implies !(#[trigger] next2[k + a]).1 by {
        if a < via.len() {
            assert(next2[k + a] == next[k + a]);
            assert(pending(m, via[a]));
        } else {
            assert(next2[k + a] == entry);
        }
    }
    assert forall|a: int| 0 <= a < via2.len() implies pending(m, #[trigger] via2[a]) && deps_of(
        pkgs,
        via2[a],
    ).contains(next2[k + a].0@) by {
        if a < via.len() {
            assert(via2[a] == via[a]);
            assert(next2[k + a] == next[k + a]);
            assert(pending(m, via[a]));
        } else {
            assert(next2[k + a] == entry);
        }
    }
}

/// Pushing onto a sequence of entries keeps every name it had.
proof fn lemma_push_keeps_names(
    before: Seq<(String, bool)>,
    x: (String, bool),
    after: Seq<(String, bool)>,
)
    requires
        after == before.push(x),
    ensures
        forall|n: Seq<char>| has_name(before, n) ==> #[trigger] has_name(after, n),
        forall|a: int| 0 <= a < before.len() ==> after[a] == #[trigger] before[a],
{
    assert forall|n: Seq<char>| has_name(before, n) implies #[trigger] has_name(after, n) by {
        let a = choose|a: int| 0 <= a < before.len() && (#[trigger] before[a]).0@ == n;
        assert(after[a] == before[a]);
    }
}

/// Every name that a package requires is installed.
pub proof fn lemma_deps_installed(pkgs: Seq<Package>, x: Seq<char>, r: Seq<char>)
    requires
        deps_of(pkgs, x).contains(r),
    ensures
        has_pkg(pkgs, r),
{
    let (i, q) = choose|i: int, q: int|
        0 <= i < pkgs.len() && pkgs[i].name@ == x && 0 <= q < pkgs[i].depends@.len()
            && #[trigger] resolve(pkgs, pkgs[i].depends@[q]) == Some(r);
    lemma_resolve_installed(pkgs, pkgs[i].depends@[q]);
}

/// Only installed packages require anything.
proof fn lemma_deps_of_requires_installed(pkgs: Seq<Package>, x: Seq<char>, r: Seq<char>)
    requires
        deps_of(pkgs, x).contains(r),
    ensures
        has_pkg(pkgs, x),
{
    let (i, q) = choose|i: int, q: int|
        0 <= i < pkgs.len() && pkgs[i].name@ == x && 0 <= q < pkgs[i].depends@.len()
            && #[trigger] resolve(pkgs, pkgs[i].depends@[q]) == Some(r);
    assert(pkgs[i].name@ == x);
}

/// The flag of a tracked name is that of its unique entry.
proof fn lemma_entry_flag(e: Seq<(String, bool)>, t: int)
    requires
        entries_unique(e),
        0 <= t < e.len(),
    ensures
        entries_map(e).dom().contains(e[t].0@),
        entries_map(e)[e[t].0@] == e[t].1,
{
    if entries_map(e)[e[t].0@] {
        let a = choose|a: int| 0 <= a < e.len() && (#[trigger] e[a]).0@ == e[t].0@ && e[a].1;
        assert(a == t);
    }
}

proof fn lemma_pass_result(
    pkgs: Seq<Package>,
    m: Map<Seq<char>, bool>,
    e: Seq<(String, bool)>,
    kept: Seq<(String, bool)>,
    src: Seq<int>,
    via: Seq<Seq<char>>,
    next: Seq<(String, bool)>,
)
    requires
        m == entries_map(e),
        entries_unique(e),
        entries_unique(next),
        kept.len() + via.len() == next.len(),
        next.take(kept.len() as int) == kept,
        src.len() == kept.len(),
        forall|a: int| 0 <= a < kept.len() ==> (#[trigger] kept[a]).1,
        forall|a: int|
            0 <= a < src.len() ==> 0 <= #[trigger] src[a] < e.len() && e[src[a]].0@ == kept[a].0@
                && (e[src[a]].1 || has_pkg(pkgs, e[src[a]].0@)),
        forall|t: int|
            0 <= t < e.len() && ((#[trigger] e[t]).1 || has_pkg(pkgs, e[t].0@)) ==> has_name(
                kept,
                e[t].0@,
            ),
        added_entries_ok(pkgs, m, kept.len() as int, via, next),
        forall|t: int|
            0 <= t < e.len() && !(#[trigger] e[t]).1 ==> forall|r: Seq<char>|
                #[trigger] deps_of(pkgs, e[t].0@).contains(r) ==> has_name(next, r),
    ensures
        entries_map(next) == pass_spec(pkgs, m),
{
    let got = entries_map(next);
    let want = pass_spec(pkgs, m);
    assert forall|a: int| 0 <= a < kept.len() implies next[a] == #[trigger] kept[a] by {
        assert(next.take(kept.len() as int)[a] == next[a]);
    }
    assert forall|n: Seq<char>| has_name(kept, n) implies #[trigger] has_name(next, n) by {
        let a = choose|a: int| 0 <= a < kept.len() && (#[trigger] kept[a]).0@ == n;
        assert(next[a] == kept[a]);
    }
    // a name tracked and kept, or installed, is in the kept prefix
    assert forall|n: Seq<char>|
        #[trigger] m.dom().contains(n) && (m[n] || has_pkg(pkgs, n)) implies has_name(kept, n) by {
        let t = choose|t: int| 0 <= t < e.len() && (#[trigger] e[t]).0@ == n;
        lemma_entry_flag(e, t);
    }
    assert forall|n: Seq<char>| #[trigger] got.dom().contains(n) <==> want.dom().contains(n) by {
        if got.dom().contains(n) {
            let a = choose|a: int| 0 <= a < next.len() && (#[trigger] next[a]).0@ == n;
            if a < kept.len() {
                assert(next[a] == kept[a]);
                lemma_entry_flag(e, src[a]);
            } else {
                assert(pending(m, via[a - kept.len()]));
                assert(!next[kept.len() + (a - kept.len())].1);
            }
        }
        if want.dom().contains(n) {
            if m.dom().contains(n) && (m[n] || has_pkg(pkgs, n)) {
                assert(has_name(kept, n));
            } else {
                let x = choose|x: Seq<char>| pending(m, x) && #[trigger] deps_of(pkgs, x).contains(n);
                let t = choose|t: int| 0 <= t < e.len() && (#[trigger] e[t]).0@ == x;
                lemma_entry_flag(e, t);
                assert(!e[t].1);
            }
        }
    }
    assert forall|n: Seq<char>| #[trigger] got.dom().contains(n) implies got[n] == want[n] by {
        if m.dom().contains(n) {
            if !(m[n] || has_pkg(pkgs, n)) {
                let x = choose|x: Seq<char>| pending(m, x) && #[trigger] deps_of(pkgs, x).contains(n);
                lemma_deps_installed(pkgs, x, n);
            }
            assert(has_name(kept, n));
            let a = choose|a: int| 0 <= a < kept.len() && (#[trigger] kept[a]).0@ == n;
            assert(next[a] == kept[a]);
            assert(kept[a].1);
        } else if got[n] {
            let a = choose|a: int| 0 <= a < next.len() && (#[trigger] next[a]).0@ == n && next[a].1;
            if a < kept.len() {
                assert(next[a] == kept[a]);
                lemma_entry_flag(e, src[a]);
            } else {
                assert(pending(m, via[a - kept.len()]));
                assert(!next[kept.len() + (a - kept.len())].1);
            }
        }
    }
    assert(got =~= want);
}

/// The closure holds every name that one of its members requires.
pub proof fn lemma_closure_closed(pkgs: Seq<Package>, seeds: Set<Seq<char>>)
    ensures
        is_closed(pkgs, closure_of(pkgs, seeds)),
{
    let cl = closure_of(pkgs, seeds);
    assert forall|x: Seq<char>, r: Seq<char>|
        #[trigger] cl.contains(x) && #[trigger] deps_of(pkgs, x).contains(r) implies cl.contains(
        r,
    ) by {
        assert forall|c: Set<Seq<char>>|
            is_closed(pkgs, c) && base(pkgs, seeds).subset_of(c) implies #[trigger] c.contains(r) by {
            assert(c.contains(x));
        }
    }
}

/// The closure lies within every closed set that holds the installed seeds.
pub proof fn lemma_closure_least(pkgs: Seq<Package>, seeds: Set<Seq<char>>, c: Set<Seq<char>>)
    requires
        is_closed(pkgs, c),
        base(pkgs, seeds).subset_of(c),
    ensures
        closure_of(pkgs, seeds).subset_of(c),
{
    assert forall|n: Seq<char>| closure_of(pkgs, seeds).contains(n) implies #[trigger] c.contains(
        n,
    ) by {}
}

/// The installed seeds are in the closure.
pub proof fn lemma_base_in_closure(pkgs: Seq<Package>, seeds: Set<Seq<char>>)
    ensures
        base(pkgs, seeds).subset_of(closure_of(pkgs, seeds)),
{
    assert forall|n: Seq<char>| #[trigger] base(pkgs, seeds).contains(n) implies closure_of(
        pkgs,
        seeds,
    ).contains(n) by {
        assert forall|c: Set<Seq<char>>|
            is_closed(pkgs, c) && base(pkgs, seeds).subset_of(c) implies #[trigger] c.contains(n) by {}
    }
}

/// What holds of the resolution set between passes: untracked-by-the-index
/// names are pending seeds, installed names are in the closure, the installed
/// seeds are tracked, and what an expanded name requires is tracked.
spec fn closure_inv(pkgs: Seq<Package>, seeds: Set<Seq<char>>, m: Map<Seq<char>, bool>) -> bool {
    &&& forall|n: Seq<char>| #[trigger]
        m.dom().contains(n) ==> has_pkg(pkgs, n) || (seeds.contains(n) && !m[n])
    &&& forall|n: Seq<char>| #[trigger]
        m.dom().contains(n) && has_pkg(pkgs, n) ==> closure_of(pkgs, seeds).contains(n)
    &&& base(pkgs, seeds).subset_of(m.dom())
    &&& forall|n: Seq<char>, r: Seq<char>|
        #[trigger] m.dom().contains(n) && m[n] && #[trigger] deps_of(pkgs, n).contains(r)
            ==> m.dom().contains(r)
}

spec fn is_expanded(m: Map<Seq<char>, bool>, n: Seq<char>) -> bool {
    m.dom().contains(n) && m[n]
}

/// Number of the first `i` packages whose name is not expanded.
spec fn unexpanded_count(pkgs: Seq<Package>, m: Map<Seq<char>, bool>, i: int) -> nat
    decreases i,
{
    if i <= 0 || i > pkgs.len() {
        0
    } else {
        unexpanded_count(pkgs, m, i - 1) + if is_expanded(m, pkgs[i - 1].name@) {
            0nat
        } else {
            1nat
        }
    }
}

spec fn has_pending(m: Map<Seq<char>, bool>) -> bool {
    exists|n: Seq<char>| pending(m, n)
}

spec fn closure_measure(pkgs: Seq<Package>, m: Map<Seq<char>, bool>) -> nat {
    2 * unexpanded_count(pkgs, m, pkgs.len() as int) + if has_pending(m) {
        1nat
    } else {
        0nat
    }
}

proof fn lemma_count_mono(
    pkgs: Seq<Package>,
    m1: Map<Seq<char>, bool>,
    m2: Map<Seq<char>, bool>,
    i: int,
    p: int,
)
    requires
        0 <= i <= pkgs.len(),
        forall|n: Seq<char>| #[trigger] is_expanded(m1, n) ==> is_expanded(m2, n),
    ensures
        unexpanded_count(pkgs, m2, i) <= unexpanded_count(pkgs, m1, i),
        0 <= p < i && !is_expanded(m1, pkgs[p].name@) && is_expanded(m2, pkgs[p].name@)
            ==> unexpanded_count(pkgs, m2, i) < unexpanded_count(pkgs, m1, i),
    decreases i,
{
    if i > 0 {
        lemma_count_mono(pkgs, m1, m2, i - 1, p);
        if is_expanded(m1, pkgs[i - 1].name@) {
            assert(is_expanded(m2, pkgs[i - 1].name@));
        }
    }
}

proof fn lemma_inv_init(pkgs: Seq<Package>, seeds: Set<Seq<char>>, m: Map<Seq<char>, bool>)
    requires
        m.dom() == seeds,
        forall|n: Seq<char>| #[trigger] m.dom().contains(n) ==> !m[n],
    ensures
        closure_inv(pkgs, seeds, m),
{
    lemma_base_in_closure(pkgs, seeds);
    assert forall|n: Seq<char>| #[trigger]
        m.dom().contains(n) && has_pkg(pkgs, n) implies closure_of(pkgs, seeds).contains(n) by {
        assert(base(pkgs, seeds).contains(n));
    }
}

proof fn lemma_inv_step(pkgs: Seq<Package>, seeds: Set<Seq<char>>, m: Map<Seq<char>, bool>)
    requires
        closure_inv(pkgs, seeds, m),
        has_pending(m),
    ensures
        closure_inv(pkgs, seeds, pass_spec(pkgs, m)),
        closure_measure(pkgs, pass_spec(pkgs, m)) < closure_measure(pkgs, m),
{
    let m2 = pass_spec(pkgs, m);
    let cl = closure_of(pkgs, seeds);
    lemma_closure_closed(pkgs, seeds);
    assert forall|n: Seq<char>| #[trigger] m2.dom().contains(n) implies has_pkg(pkgs, n) by {
        if !(m.dom().contains(n) && (m[n] || has_pkg(pkgs, n))) {
            let x = choose|x: Seq<char>| pending(m, x) && #[trigger] deps_of(pkgs, x).contains(n);
            lemma_deps_installed(pkgs, x, n);
        }
    }
    assert forall|n: Seq<char>| #[trigger]
        m2.dom().contains(n) && has_pkg(pkgs, n) implies cl.contains(n) by {
        if !(m.dom().contains(n) && (m[n] || has_pkg(pkgs, n))) {
            let x = choose|x: Seq<char>| pending(m, x) && #[trigger] deps_of(pkgs, x).contains(n);
            lemma_deps_of_requires_installed(pkgs, x, n);
            assert(cl.contains(x));
        }
    }
    assert forall|n: Seq<char>| #[trigger]
        base(pkgs, seeds).contains(n) implies m2.dom().contains(n) by {
        assert(m.dom().contains(n));
    }
    assert forall|n: Seq<char>, r: Seq<char>|
        #[trigger] m2.dom().contains(n) && m2[n] && #[trigger] deps_of(pkgs, n).contains(
            r,
        ) implies m2.dom().contains(r) by {
        lemma_deps_installed(pkgs, n, r);
        if m[n] {
            assert(m.dom().contains(r));
        } else {
            assert(pending(m, n));
        }
    }
    assert forall|n: Seq<char>| #[trigger] is_expanded(m, n) implies is_expanded(m2, n) by {}
    let x = choose|x: Seq<char>| pending(m, x);
    if exists|y: Seq<char>| pending(m, y) && has_pkg(pkgs, y) {
        let y = choose|y: Seq<char>| pending(m, y) && has_pkg(pkgs, y);
        let p = choose|p: int| 0 <= p < pkgs.len() && (#[trigger] pkgs[p]).name@ == y;
        lemma_count_mono(pkgs, m, m2, pkgs.len() as int, p);
    } else {
        assert forall|n: Seq<char>| !pending(m2, n) by {
            if m2.dom().contains(n) && !m.dom().contains(n) {
                let z = choose|z: Seq<char>| pending(m, z) && #[trigger] deps_of(pkgs, z).contains(n);
                lemma_deps_of_requires_installed(pkgs, z, n);
            }
        }
        lemma_count_mono(pkgs, m, m2, pkgs.len() as int, 0);
    }
}

proof fn lemma_inv_final(pkgs: Seq<Package>, seeds: Set<Seq<char>>, m: Map<Seq<char>, bool>)
    requires
        closure_inv(pkgs, seeds, m),
        !has_pending(m),
    ensures
        m.dom() == closure_of(pkgs, seeds),
{
    assert forall|x: Seq<char>, r: Seq<char>|
        #[trigger] m.dom().contains(x) && #[trigger] deps_of(pkgs, x).contains(r) implies m.dom().contains(
        r,
    ) by {
        assert(!pending(m, x));
    }
    lemma_closure_least(pkgs, seeds, m.dom());
    assert forall|n: Seq<char>| #[trigger] m.dom().contains(n) implies closure_of(
        pkgs,
        seeds,
    ).contains(n) by {
        assert(!pending(m, n));
    }
    assert(m.dom() =~= closure_of(pkgs, seeds));
}

/// A name is listed by `names_in_order` exactly when it is in `s` and installed.
pub proof fn lemma_names_in_order_contains(pkgs: Seq<Package>, s: Set<Seq<char>>, n: Seq<char>)
    ensures
        names_in_order(pkgs, s).contains(n) <==> s.contains(n) && has_pkg(pkgs, n),
    decreases pkgs.len(),
{
    if pkgs.len() > 0 {
        let init = pkgs.drop_last();
        lemma_names_in_order_contains(init, s, n);
        if has_pkg(pkgs, n) && !has_pkg(init, n) {
            let i = choose|i: int| 0 <= i < pkgs.len() && (#[trigger] pkgs[i]).name@ == n;
            if i < init.len() {
                assert(init[i] == pkgs[i]);
            }
        }
        if has_pkg(init, n) {
            let i = choose|i: int| 0 <= i < init.len() && (#[trigger] init[i]).name@ == n;
            assert(pkgs[i] == init[i]);
        }
        let rest = names_in_order(init, s);
        if s.contains(pkgs.last().name@) {
            assert(rest.push(pkgs.last().name@).contains(n) <==> rest.contains(n) || n
                == pkgs.last().name@) by {
                if rest.push(pkgs.last().name@).contains(n) {
                    let k = choose|k: int|
                        0 <= k < rest.len() + 1 && rest.push(pkgs.last().name@)[k] == n;
                    if k < rest.len() {
                        assert(rest[k] == n);
                    }
                }
                if rest.contains(n) {
                    let k = choose|k: int| 0 <= k < rest.len() && rest[k] == n;
                    assert(rest.push(pkgs.last().name@)[k] == n);
                }
                if n == pkgs.last().name@ {
                    assert(rest.push(pkgs.last().name@)[rest.len() as int] == n);
                }
            }
        }
    }
}

/// The names a result of `recursive_deps` holds are the closure.
pub proof fn lemma_result_names(pkgs: Seq<Package>, seeds: Set<Seq<char>>, r: Seq<String>)
    requires
        r.map_values(|s: String| s@) == names_in_order(pkgs, closure_of(pkgs, seeds)),
    ensures
        name_set(r) == closure_of(pkgs, seeds),
{
    let cl = closure_of(pkgs, seeds);
    lemma_closure_installed(pkgs, seeds);
    let v = r.map_values(|s: String| s@);
    assert forall|n: Seq<char>| name_set(r).contains(n) <==> #[trigger] cl.contains(n) by {
        lemma_names_in_order_contains(pkgs, cl, n);
        if name_set(r).contains(n) {
            let i = choose|i: int| 0 <= i < r.len() && (#[trigger] r[i])@ == n;
            assert(v[i] == n);
        }
        if cl.contains(n) {
            assert(v.contains(n));
            let i = choose|i: int| 0 <= i < v.len() && v[i] == n;
            assert(r[i]@ == n);
        }
    }
    assert(name_set(r) =~= cl);
}

/// Only installed packages are in a closure.
pub proof fn lemma_closure_installed(pkgs: Seq<Package>, seeds: Set<Seq<char>>)
    ensures
        closure_of(pkgs, seeds).subset_of(pkg_names(pkgs)),
{
    assert forall|x: Seq<char>, r: Seq<char>|
        #[trigger] pkg_names(pkgs).contains(x) && #[trigger] deps_of(pkgs, x).contains(
            r,
        ) implies pkg_names(pkgs).contains(r) by {
        lemma_deps_installed(pkgs, x, r);
    }
    lemma_closure_least(pkgs, seeds, pkg_names(pkgs));
}

/// Expanding a closure again adds nothing: the closure of a closure is itself.
pub proof fn closure_idempotent(pkgs: Seq<Package>, seeds: Set<Seq<char>>)
    ensures
        closure_of(pkgs, closure_of(pkgs, seeds)) == closure_of(pkgs, seeds),
{
    let cl = closure_of(pkgs, seeds);
    lemma_closure_installed(pkgs, seeds);
    lemma_closure_closed(pkgs, seeds);
    assert(base(pkgs, cl) =~= cl);
    lemma_closure_least(pkgs, cl, cl);
    lemma_base_in_closure(pkgs, cl);
    assert(closure_of(pkgs, cl) =~= cl);
}

/// Running `recursive_deps` on its own result gives that result back.
pub proof fn recursive_deps_idempotent(pkgs: Seq<Package>, seeds: Seq<String>, r: Seq<String>)
    requires
        r.map_values(|s: String| s@) == names_in_order(pkgs, closure_of(pkgs, name_set(seeds))),
    ensures
        names_in_order(pkgs, closure_of(pkgs, name_set(r))) == r.map_values(|s: String| s@),
{
    lemma_result_names(pkgs, name_set(seeds), r);
    closure_idempotent(pkgs, name_set(seeds));
}

/// Installed seeds are all in their closure.
pub proof fn closure_contains_seeds(pkgs: Seq<Package>, seeds: Set<Seq<char>>)
    requires
        seeds.subset_of(pkg_names(pkgs)),
    ensures
        seeds.subset_of(closure_of(pkgs, seeds)),
{
    lemma_base_in_closure(pkgs, seeds);
    assert(base(pkgs, seeds) =~= seeds);
}

/// Every seed of `recursive_deps`, when installed, is in its result.
pub proof fn recursive_deps_contains_seeds(pkgs: Seq<Package>, seeds: Seq<String>, r: Seq<String>)
    requires
        forall|i: int| 0 <= i < seeds.len() ==> has_pkg(pkgs, (#[trigger] seeds[i])@),
        r.map_values(|s: String| s@) == names_in_order(pkgs, closure_of(pkgs, name_set(seeds))),
    ensures
        name_set(seeds).subset_of(name_set(r)),
{
    assert forall|n: Seq<char>| #[trigger] name_set(seeds).contains(n) implies pkg_names(
        pkgs,
    ).contains(n) by {
        let i = choose|i: int| 0 <= i < seeds.len() && (#[trigger] seeds[i])@ == n;
    }
    closure_contains_seeds(pkgs, name_set(seeds));
    lemma_result_names(pkgs, name_set(seeds), r);
}

/// Against one index, two runs of `recursive_deps` on the same seeds return
/// the same names in the same order.
pub proof fn recursive_deps_deterministic(
    pkgs: Seq<Package>,
    seeds: Seq<String>,
    r1: Seq<String>,
    r2: Seq<String>,
)
    requires
        r1.map_values(|s: String| s@) == names_in_order(pkgs, closure_of(pkgs, name_set(seeds))),
        r2.map_values(|s: String| s@) == names_in_order(pkgs, closure_of(pkgs, name_set(seeds))),
    ensures
        r1.map_values(|s: String| s@) == r2.map_values(|s: String| s@),
{
}

impl Report {
    /// Names of every installed package that `pkgs` require, directly or
    /// not, the installed ones among `pkgs` included, in enumeration order.
    /// A name of `pkgs` that is not installed is left out, and a dependency
    /// that resolves to nothing is skipped.
    pub fn recursive_deps(index: &PackageIndex, pkgs: &Vec<String>) -> (r: Vec<String>)
        requires
            index.wf(),
        ensures
            r@.map_values(|s: String| s@) == names_in_order(
                index@,
                closure_of(index@, name_set(pkgs@)),
            ),
    {
        let ghost seeds = name_set(pkgs@);
        let mut cur = ResolutionSet::from_seeds(pkgs);
        proof {
            lemma_inv_init(index@, seeds, cur@);
        }
        while !cur.is_fully_expanded()
            invariant
                index.wf(),
                cur.wf(),
                seeds == name_set(pkgs@),
                closure_inv(index@, seeds, cur@),
            decreases closure_measure(index@, cur@),
        {
            proof {
                let n = choose|n: Seq<char>| pending(cur@, n);
                assert(has_pending(cur@));
                lemma_inv_step(index@, seeds, cur@);
            }
            cur = cur.expand_pass(index);
        }
        proof {
            lemma_inv_final(index@, seeds, cur@);
        }
        let ghost cl = closure_of(index@, seeds);
        let all = index.packages();
        let mut out: Vec<String> = Vec::new();
        let mut i: usize = 0;
        while i < all.len()
            invariant
                all@ == index@,
                cur.wf(),
                cur@.dom() == cl,
                0 <= i <= all@.len(),
                out@.map_values(|s: String| s@) == names_in_order(all@.take(i as int), cl),
            decreases all@.len() - i,
        {
            assert(all@.take(i + 1).drop_last() == all@.take(i as int));
            if cur.lookup(&all[i].name).is_some() {
                out.push(all[i].name.clone());
                assert(out@.map_values(|s: String| s@) =~= names_in_order(
                    all@.take(i + 1),
                    cl,
                ));
            } else {
                assert(out@.map_values(|s: String| s@) =~= names_in_order(
                    all@.take(i + 1),
                    cl,
                ));
            }
            i = i + 1;
        }
        assert(all@.take(all@.len() as int) == all@);
        out
    }
}

} // verus!
