//! The package index: a read-only snapshot of the installed packages, in the
//! order in which the package database enumerates them.

use vstd::prelude::*;

verus! {

/// How a dependency constrains the version of what satisfies it.
#[derive(Clone, Copy, Debug, PartialEq, Eq, Structural)]
pub enum DepMod {
    Any,
    Eq,
    Ge,
    Le,
    Gt,
    Lt,
}

/// A package version. `text` is the version as written; `rank` is its
/// position in the ecosystem's version order (epoch, version and release
/// aware), as computed by whoever built the index: two versions compare as
/// their ranks do, and versions that the ordering deems equal share a rank.
#[derive(Clone, Debug)]
pub struct Version {
    pub text: String,
    pub rank: u64,
}

/// A dependency specification: a package or capability name, with an
/// optional version constraint (`version` is present iff `depmod` is not `Any`).
#[derive(Clone, Debug)]
pub struct Dep {
    pub name: String,
    pub depmod: DepMod,
    pub version: Option<Version>,
}

/// A capability advertised by a package; without a version it satisfies any
/// constraint.
#[derive(Clone, Debug)]
pub struct Provide {
    pub name: String,
    pub version: Option<Version>,
}

/// An installed package.
#[derive(Clone, Debug)]
pub struct Package {
    pub name: String,
    pub installed_size: i64,
    pub description: String,
    pub depends: Vec<Dep>,
    pub provides: Vec<Provide>,
}

/// Why a list of packages cannot form an index.
#[derive(Clone, Debug, PartialEq, Eq)]
pub enum IndexError {
    /// Two packages carry this name.
    DuplicateName(String),
    /// This package has a negative installed size.
    NegativeSize(String),
    /// This package has a dependency whose version is present with `Any`,
    /// or missing with another constraint.
    MalformedDependency(String),
    /// The installed sizes of all packages together do not fit in an `i64`.
    SizeOverflow,
}

/// Whether the dependency carries a version exactly when it constrains one.
pub open spec fn dep_wf(d: Dep) -> bool {
    (d.depmod == DepMod::Any) <==> (d.version is None)
}

pub open spec fn deps_wf(p: Package) -> bool {
    forall|k: int| 0 <= k < p.depends@.len() ==> #[trigger] dep_wf(p.depends@[k])
}

/// Sum of the installed sizes of `pkgs`.
pub open spec fn sum_sizes(pkgs: Seq<Package>) -> int
    decreases pkgs.len(),
{
    if pkgs.len() == 0 {
        0
    } else {
        sum_sizes(pkgs.drop_last()) + pkgs.last().installed_size
    }
}

pub open spec fn names_unique(pkgs: Seq<Package>) -> bool {
    forall|i: int, j: int|
        0 <= i < pkgs.len() && 0 <= j < pkgs.len() && i != j ==> pkgs[i].name@ != pkgs[j].name@
}

/// What an index guarantees: unique names, non-negative sizes whose sum fits
/// in an `i64`, and well-formed dependencies.
pub open spec fn index_wf(pkgs: Seq<Package>) -> bool {
    &&& names_unique(pkgs)
    &&& forall|i: int| 0 <= i < pkgs.len() ==> (#[trigger] pkgs[i]).installed_size >= 0
    &&& forall|i: int| 0 <= i < pkgs.len() ==> deps_wf(#[trigger] pkgs[i])
    &&& sum_sizes(pkgs) <= i64::MAX
}

/// Whether a package named `name` is in `pkgs`.
pub open spec fn has_pkg(pkgs: Seq<Package>, name: Seq<char>) -> bool {
    exists|i: int| 0 <= i < pkgs.len() && (#[trigger] pkgs[i]).name@ == name
}

/// The set of the names of `pkgs`.
pub open spec fn pkg_names(pkgs: Seq<Package>) -> Set<Seq<char>> {
    Set::new(|n: Seq<char>| has_pkg(pkgs, n))
}

/// A snapshot of the installed packages, in enumeration order.
pub struct PackageIndex {
    pkgs: Vec<Package>,
}

impl View for PackageIndex {
    type V = Seq<Package>;

    closed spec fn view(&self) -> Seq<Package> {
        self.pkgs@
    }
}

impl PackageIndex {
    pub open spec fn wf(&self) -> bool {
        index_wf(self@)
    }

    /// Builds an index from packages in enumeration order; fails on the first
    /// problem found.
    pub fn new(pkgs: Vec<Package>) -> (r: Result<PackageIndex, IndexError>)
        ensures
            r is Ok <==> index_wf(pkgs@),
            r matches Ok(idx) ==> idx@ == pkgs@,
    {
        let n = pkgs.len();
        let mut i: usize = 0;
        while i < n
            invariant
                n == pkgs@.len(),
                0 <= i <= n,
                forall|a: int| 0 <= a < i ==> (#[trigger] pkgs@[a]).installed_size >= 0,
                forall|a: int| 0 <= a < i ==> deps_wf(#[trigger] pkgs@[a]),
                forall|a: int, b: int|
                    0 <= a < i && 0 <= b < n && a != b ==> pkgs@[a].name@ != pkgs@[b].name@,
            decreases n - i,
        {
            let p = &pkgs[i];
            if p.installed_size < 0 {
                return Err(IndexError::NegativeSize(p.name.clone()));
            }
            let mut k: usize = 0;
            while k < p.depends.len()
                invariant
                    n == pkgs@.len(),
                    0 <= i < n,
                    *p == pkgs@[i as int],
                    0 <= k <= p.depends@.len(),
                    forall|q: int| 0 <= q < k ==> #[trigger] dep_wf(p.depends@[q]),
                decreases p.depends@.len() - k,
            {
                let d = &p.depends[k];
                let any = match d.depmod {
                    DepMod::Any => true,
                    _ => false,
                };
                if any != d.version.is_none() {
                    assert(!dep_wf(p.depends@[k as int]));
                    assert(!deps_wf(pkgs@[i as int]));
                    return Err(IndexError::MalformedDependency(p.name.clone()));
                }
                k = k + 1;
            }
            let mut j: usize = 0;
            while j < n
                invariant
                    n == pkgs@.len(),
                    0 <= i < n,
                    0 <= j <= n,
                    forall|b: int| 0 <= b < j && b != i ==> pkgs@[i as int].name@ != pkgs@[b].name@,
                decreases n - j,
            {
                if j != i && pkgs[j].name == pkgs[i].name {
                    return Err(IndexError::DuplicateName(pkgs[i].name.clone()));
                }
                j = j + 1;
            }
            i = i + 1;
        }
        let mut total: i64 = 0;
        let mut i: usize = 0;
        while i < n
            invariant
                n == pkgs@.len(),
                0 <= i <= n,
                total == sum_sizes(pkgs@.take(i as int)),
                forall|a: int| 0 <= a < n ==> (#[trigger] pkgs@[a]).installed_size >= 0,
            decreases n - i,
        {
            let size = pkgs[i].installed_size;
            assert(pkgs@.take(i + 1).drop_last() == pkgs@.take(i as int));
            if total > i64::MAX - size {
                proof {
                    lemma_sum_sizes_prefix(pkgs@, i + 1);
                }
                return Err(IndexError::SizeOverflow);
            }
            total = total + size;
            i = i + 1;
        }
        assert(pkgs@.take(n as int) == pkgs@);
        Ok(PackageIndex { pkgs })
    }

    /// The packages, in enumeration order.
    pub fn packages(&self) -> (r: &Vec<Package>)
        ensures
            r@ == self@,
    {
        &self.pkgs
    }

    /// Names of all installed packages, in enumeration order.
    pub fn list_all(&self) -> (r: Vec<String>)
        ensures
            r@.len() == self@.len(),
            forall|i: int| 0 <= i < r@.len() ==> #[trigger] r@[i]@ == self@[i].name@,
    {
        let mut r: Vec<String> = Vec::new();
        let mut i: usize = 0;
        while i < self.pkgs.len()
            invariant
                0 <= i <= self@.len(),
                r@.len() == i,
                forall|a: int| 0 <= a < i ==> #[trigger] r@[a]@ == self@[a].name@,
            decreases self@.len() - i,
        {
            r.push(self.pkgs[i].name.clone());
            i = i + 1;
        }
        r
    }

    /// Position of the package named `name`, if it is installed.
    pub fn position(&self, name: &String) -> (r: Option<usize>)
        ensures
            r is None <==> !has_pkg(self@, name@),
            r matches Some(i) ==> i < self@.len() && self@[i as int].name@ == name@,
    {
        let mut i: usize = 0;
        while i < self.pkgs.len()
            invariant
                0 <= i <= self@.len(),
                forall|a: int| 0 <= a < i ==> (#[trigger] self@[a]).name@ != name@,
            decreases self@.len() - i,
        {
            if self.pkgs[i].name == *name {
                return Some(i);
            }
            i = i + 1;
        }
        None
    }

    /// The package named `name`, if it is installed.
    pub fn get(&self, name: &String) -> (r: Option<&Package>)
        ensures
            r is None <==> !has_pkg(self@, name@),
            r matches Some(p) ==> p.name@ == name@ && self@.contains(*p),
    {
        match self.position(name) {
            Some(i) => Some(&self.pkgs[i]),
            None => None,
        }
    }
}

/// Sizes are summed in order, so a prefix sums to no more than the whole
/// when sizes are non-negative.
pub proof fn lemma_sum_sizes_prefix(pkgs: Seq<Package>, i: int)
    requires
        0 <= i <= pkgs.len(),
        forall|a: int| 0 <= a < pkgs.len() ==> (#[trigger] pkgs[a]).installed_size >= 0,
    ensures
        sum_sizes(pkgs.take(i)) <= sum_sizes(pkgs),
    decreases pkgs.len() - i,
{
    if i < pkgs.len() {
        lemma_sum_sizes_prefix(pkgs, i + 1);
        assert(pkgs.take(i + 1).drop_last() == pkgs.take(i));
    } else {
        assert(pkgs.take(i) == pkgs);
    }
}

} // verus!
