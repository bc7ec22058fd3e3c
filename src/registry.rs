//! A small fixed registry of package manifests, each naming its dependencies
//! by requirement text.
use vstd::prelude::*;
use crate::version::Version;

verus! {

/// A manifest: a package at one version and the requirement it places on each
/// dependency.
pub struct Package {
    pub name: String,
    pub version: Version,
    pub dependencies: Vec<(String, String)>,
}

impl Package {
    /// No dependency is named twice.
    pub open spec fn wf(&self) -> bool {
        forall|i: int, j: int|
            0 <= i < j < self.dependencies.len() ==> self.dependencies[i].0@
                != self.dependencies[j].0@
    }
}

/// Manifests in the order they were added.
pub struct MockRegistry {
    pub packages: Vec<Package>,
}

/// The versions of the manifests named `name` in `s`, in order.
pub open spec fn versions_named(s: Seq<Package>, name: Seq<char>) -> Seq<Version>
    decreases s.len(),
{
    if s.len() == 0 {
        Seq::empty()
    } else {
        let rest = versions_named(s.drop_last(), name);
        if s.last().name@ == name {
            rest.push(s.last().version)
        } else {
            rest
        }
    }
}

/// `i` is the first manifest of `s` for `name` at `v`.
pub open spec fn is_first_manifest(s: Seq<Package>, name: Seq<char>, v: Version, i: int) -> bool {
    &&& 0 <= i < s.len()
    &&& s[i].name@ == name
    &&& s[i].version == v
    &&& forall|j: int| 0 <= j < i ==> !(s[j].name@ == name && s[j].version == v)
}

impl MockRegistry {
    /// Every manifest names each dependency once.
    pub open spec fn wf(&self) -> bool {
        forall|i: int| 0 <= i < self.packages.len() ==> (#[trigger] self.packages[i]).wf()
    }

    /// The registry with `react` 19.0.0, which requires `lodash` `^4.17.0`, and
    /// `lodash` 4.17.21, which requires nothing.
    pub fn new() -> (r: Self)
        ensures
            r.wf(),
            r.packages.len() == 2,
            r.packages[0].name@ == "react"@,
            r.packages[0].version@ == (19u32, 0u32, 0u32),
            r.packages[0].dependencies.len() == 1,
            r.packages[0].dependencies[0].0@ == "lodash"@,
            r.packages[0].dependencies[0].1@ == "^4.17.0"@,
            r.packages[1].name@ == "lodash"@,
            r.packages[1].version@ == (4u32, 17u32, 21u32),
            r.packages[1].dependencies.len() == 0,
    {
        let mut registry = MockRegistry { packages: Vec::new() };
        let mut react_deps: Vec<(String, String)> = Vec::new();
        react_deps.push(("lodash".to_string(), "^4.17.0".to_string()));
        registry.add_package(
            Package { name: "react".to_string(), version: Version::new(19, 0, 0), dependencies: react_deps },
        );
        registry.add_package(
            Package {
                name: "lodash".to_string(),
                version: Version::new(4, 17, 21),
                dependencies: Vec::new(),
            },
        );
        registry
    }

    fn add_package(&mut self, pkg: Package)
        requires
            old(self).wf(),
            pkg.wf(),
        ensures
            final(self).wf(),
            final(self).packages@ == old(self).packages@.push(pkg),
    {
        self.packages.push(pkg);
    }

    /// The versions published under `name`, in the order they were added.
    pub fn get_versions(&mut self, name: &str) -> (r: Vec<Version>)
        ensures
            final(self).packages@ == old(self).packages@,
            r@ == versions_named(old(self).packages@, name@),
    {
        let key = name.to_owned();
        let mut out: Vec<Version> = Vec::new();
        let mut i: usize = 0;
        while i < self.packages.len()
            invariant
                0 <= i <= self.packages.len(),
                key@ == name@,
                out@ == versions_named(self.packages@.subrange(0, i as int), name@),
            decreases self.packages.len() - i,
        {
            if self.packages[i].name == key {
                out.push(self.packages[i].version);
            }
            proof {
                assert(self.packages@.subrange(0, i + 1).drop_last() =~= self.packages@.subrange(
                    0,
                    i as int,
                ));
            }
            i = i + 1;
        }
        proof {
            assert(self.packages@.subrange(0, i as int) =~= self.packages@);
        }
        out
    }

    /// The first manifest of `name` at `version`.
    pub fn get_package(&self, name: &str, version: &Version) -> (r: Option<&Package>)
        ensures
            r matches Some(p) ==> exists|i: int|
                is_first_manifest(self.packages@, name@, *version, i) && *p == self.packages@[i],
            r is None ==> forall|i: int|
                0 <= i < self.packages.len() ==> !(self.packages@[i].name@ == name@
                    && self.packages@[i].version == *version),
    {
        let key = name.to_owned();
        let mut i: usize = 0;
        while i < self.packages.len()
            invariant
                0 <= i <= self.packages.len(),
                key@ == name@,
                forall|j: int|
                    0 <= j < i ==> !(self.packages@[j].name@ == name@ && self.packages@[j].version
                        == *version),
            decreases self.packages.len() - i,
        {
            if self.packages[i].name == key && self.packages[i].version == *version {
                proof {
                    assert(is_first_manifest(self.packages@, name@, *version, i as int));
                }
                return Some(&self.packages[i]);
            }
            i = i + 1;
        }
        None
    }
}

} // verus!
