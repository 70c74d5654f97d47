//! Resolution of a dependency specification to an installed package:
//! capabilities first, then an exact name.

use vstd::prelude::*;

use crate::index::{has_pkg, Dep, DepMod, Package, PackageIndex, Provide, Version};
use crate::report::Report;

verus! {

/// A dependency that neither a provided capability nor a package name satisfies.
#[derive(Clone, Debug, PartialEq, Eq)]
pub struct Unresolved {
    pub name: String,
}

/// Whether version rank `have` meets constraint `depmod` against rank `want`.
pub open spec fn constraint_holds(depmod: DepMod, have: int, want: int) -> bool {
    match depmod {
        DepMod::Any => true,
        DepMod::Eq => have == want,
        DepMod::Ge => have >= want,
        DepMod::Le => have <= want,
        DepMod::Gt => have > want,
        DepMod::Lt => have < want,
    }
}

/// Whether a provided version `have` meets the version constraint of `d`.
pub open spec fn version_satisfies_spec(have: Version, d: Dep) -> bool {
    match d.version {
        None => d.depmod == DepMod::Any,
        Some(want) => constraint_holds(d.depmod, have.rank as int, want.rank as int),
    }
}

/// Whether the provide entry `pv` satisfies `d`: same capability name, and no
/// version or a version that meets the constraint.
pub open spec fn provide_satisfies(pv: Provide, d: Dep) -> bool {
    &&& pv.name@ == d.name@
    &&& match pv.version {
        None => true,
        Some(have) => version_satisfies_spec(have, d),
    }
}

/// Whether some provide entry of `p` satisfies `d`.
pub open spec fn provides_dep(p: Package, d: Dep) -> bool {
    exists|k: int| 0 <= k < p.provides@.len() && provide_satisfies(#[trigger] p.provides@[k], d)
}

/// Name of the first package, from position `i` on, that provides `d`.
pub open spec fn first_provider(pkgs: Seq<Package>, d: Dep, i: int) -> Option<Seq<char>>
    decreases pkgs.len() - i,
{
    if i < 0 || i >= pkgs.len() {
        None
    } else if provides_dep(pkgs[i], d) {
        Some(pkgs[i].name@)
    } else {
        first_provider(pkgs, d, i + 1)
    }
}

/// The package that `d` resolves to: the first provider of the capability in
/// enumeration order, else the package named like the dependency.
pub open spec fn resolve(pkgs: Seq<Package>, d: Dep) -> Option<Seq<char>> {
    match first_provider(pkgs, d, 0) {
        Some(n) => Some(n),
        None => if has_pkg(pkgs, d.name@) {
            Some(d.name@)
        } else {
            None
        },
    }
}

/// What a dependency resolves to is an installed package.
pub proof fn lemma_resolve_installed(pkgs: Seq<Package>, d: Dep)
    ensures
        resolve(pkgs, d) matches Some(n) ==> has_pkg(pkgs, n),
{
    lemma_first_provider_installed(pkgs, d, 0);
}

proof fn lemma_first_provider_installed(pkgs: Seq<Package>, d: Dep, i: int)
    ensures
        first_provider(pkgs, d, i) matches Some(n) ==> has_pkg(pkgs, n),
    decreases pkgs.len() - i,
{
    if 0 <= i < pkgs.len() {
        if provides_dep(pkgs[i], d) {
            assert(pkgs[i].name@ == pkgs[i].name@);
        } else {
            lemma_first_provider_installed(pkgs, d, i + 1);
        }
    }
}

/// Whether a provided version `have` meets the version constraint of `dep`.
pub fn version_satisfies(have: &Version, dep: &Dep) -> (r: bool)
    ensures
        r == version_satisfies_spec(*have, *dep),
{
    match &dep.version {
        None => dep.depmod == DepMod::Any,
        Some(want) => match dep.depmod {
            DepMod::Any => true,
            DepMod::Eq => have.rank == want.rank,
            DepMod::Ge => have.rank >= want.rank,
            DepMod::Le => have.rank <= want.rank,
            DepMod::Gt => have.rank > want.rank,
            DepMod::Lt => have.rank < want.rank,
        },
    }
}

fn provide_matches(pv: &Provide, dep: &Dep) -> (r: bool)
    ensures
        r == provide_satisfies(*pv, *dep),
{
    if pv.name != dep.name {
        return false;
    }
    match &pv.version {
        None => true,
        Some(have) => version_satisfies(have, dep),
    }
}

fn package_provides(p: &Package, dep: &Dep) -> (r: bool)
    ensures
        r == provides_dep(*p, *dep),
{
    let mut k: usize = 0;
    while k < p.provides.len()
        invariant
            0 <= k <= p.provides@.len(),
            forall|q: int| 0 <= q < k ==> !provide_satisfies(#[trigger] p.provides@[q], *dep),
        decreases p.provides@.len() - k,
    {
        if provide_matches(&p.provides[k], dep) {
            return true;
        }
        k = k + 1;
    }
    false
}

impl Report {
    /// Name of the package that satisfies `dep`: the first package, in
    /// enumeration order, with a provide entry of that capability whose
    /// version meets the constraint; failing that, the package named
    /// `dep.name`, whatever its version.
    pub fn resolve_dep(index: &PackageIndex, dep: &Dep) -> (r: Result<String, Unresolved>)
        ensures
            match r {
                Ok(n) => resolve(index@, *dep) == Some(n@),
                Err(e) => resolve(index@, *dep) is None && e.name@ == dep.name@,
            },
    {
        let pkgs = index.packages();
        let mut i: usize = 0;
        while i < pkgs.len()
            invariant
                pkgs@ == index@,
                0 <= i <= pkgs@.len(),
                first_provider(pkgs@, *dep, 0) == first_provider(pkgs@, *dep, i as int),
            decreases pkgs@.len() - i,
        {
            if package_provides(&pkgs[i], dep) {
                return Ok(pkgs[i].name.clone());
            }
            i = i + 1;
        }
        match index.position(&dep.name) {
            Some(_) => Ok(dep.name.clone()),
            None => Err(Unresolved { name: dep.name.clone() }),
        }
    }
}

} // verus!
