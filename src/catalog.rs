//! A catalog of published packages: the answers a solver asks of a provider.
use vstd::prelude::*;
use crate::version::{Version, version_le};
use crate::range::Range;

verus! {

/// One published version of a package and what it depends on.
pub struct Release {
    pub version: Version,
    pub dependencies: Vec<(String, Range)>,
}

/// All published versions of one package.
pub struct PackageEntry {
    pub name: String,
    pub releases: Vec<Release>,
}

/// The packages known to a resolution run, each under its own name.
pub struct Catalog {
    pub packages: Vec<PackageEntry>,
}

/// A lookup for a package that the catalog does not hold.
#[derive(Debug, PartialEq, Eq)]
pub enum RepoError {
    PackageNotFound(String),
}

/// What a catalog says of one version's dependencies.
pub enum Dependencies {
    /// Each dependency's package and the versions of it that are allowed.
    Available(Vec<(String, Range)>),
    /// The package has no release at the version asked for.
    Unavailable(String),
}

/// A list of dependencies seen as names and sets of versions.
pub open spec fn deps_view(d: Seq<(String, Range)>) -> Seq<(Seq<char>, Set<(u32, u32, u32)>)> {
    d.map_values(|p: (String, Range)| (p.0@, p.1@))
}

/// `k` is the first release in `rels` at version `v`.
pub open spec fn is_first_release(rels: Seq<Release>, v: (u32, u32, u32), k: int) -> bool {
    &&& 0 <= k < rels.len()
    &&& rels[k].version@ == v
    &&& forall|j: int| 0 <= j < k ==> rels[j].version@ != v
}

/// Some release in `rels` is at version `v`.
pub open spec fn has_release(rels: Seq<Release>, v: (u32, u32, u32)) -> bool {
    exists|k: int| 0 <= k < rels.len() && rels[k].version@ == v
}

/// `v` is the highest version among the releases in `rels` that `allowed` contains.
pub open spec fn is_best_candidate(
    rels: Seq<Release>,
    allowed: Set<(u32, u32, u32)>,
    v: (u32, u32, u32),
) -> bool {
    &&& has_release(rels, v)
    &&& allowed.contains(v)
    &&& forall|k: int|
        0 <= k < rels.len() && allowed.contains(#[trigger] rels[k].version@) ==> version_le(
            rels[k].version@,
            v,
        )
}

impl Catalog {
    /// Each package name appears in one entry only.
    pub open spec fn wf(&self) -> bool {
        forall|i: int, j: int|
            0 <= i < j < self.packages.len() ==> self.packages[i].name@ != self.packages[j].name@
    }

    /// `i` is the first entry of the catalog named `name`.
    pub open spec fn is_entry(&self, name: Seq<char>, i: int) -> bool {
        &&& 0 <= i < self.packages.len()
        &&& self.packages[i].name@ == name
        &&& forall|j: int| 0 <= j < i ==> self.packages[j].name@ != name
    }

    pub open spec fn has_package(&self, name: Seq<char>) -> bool {
        exists|i: int| 0 <= i < self.packages.len() && self.packages[i].name@ == name
    }

    /// The releases of a package that the catalog holds.
    pub open spec fn releases_of(&self, name: Seq<char>) -> Seq<Release> {
        self.packages[choose|i: int| self.is_entry(name, i)].releases@
    }

    /// The package is in the catalog with a release at version `v`.
    pub open spec fn published(&self, name: Seq<char>, v: (u32, u32, u32)) -> bool {
        self.has_package(name) && has_release(self.releases_of(name), v)
    }

    /// The dependencies of the first release of `name` at `v`.
    pub open spec fn deps_of(&self, name: Seq<char>, v: (u32, u32, u32)) -> Seq<
        (Seq<char>, Set<(u32, u32, u32)>),
    > {
        let rels = self.releases_of(name);
        deps_view(rels[choose|k: int| is_first_release(rels, v, k)].dependencies@)
    }

    pub proof fn lemma_entry(&self, name: Seq<char>, i: int)
        requires
            self.is_entry(name, i),
        ensures
            self.has_package(name),
            self.releases_of(name) == self.packages[i].releases@,
    {
        let j = choose|j: int| self.is_entry(name, j);
        assert(self.is_entry(name, j));
        if j < i {
            assert(self.packages[j].name@ != name);
        }
        if i < j {
            assert(self.packages[i].name@ != name);
        }
    }

    /// A package the catalog holds has a first entry.
    pub proof fn lemma_has_entry(&self, name: Seq<char>, k: int)
        requires
            0 <= k < self.packages.len(),
            self.packages[k].name@ == name,
        ensures
            exists|i: int| self.is_entry(name, i),
        decreases k,
    {
        if exists|j: int| 0 <= j < k && self.packages[j].name@ == name {
            let j = choose|j: int| 0 <= j < k && self.packages[j].name@ == name;
            self.lemma_has_entry(name, j);
        } else {
            assert(self.is_entry(name, k));
        }
    }

    /// An empty catalog.
    pub fn new() -> (r: Catalog)
        ensures
            r.wf(),
            forall|name: Seq<char>| !r.has_package(name),
    {
        Catalog { packages: Vec::new() }
    }

    /// The index of the entry named `name`.
    fn find_package(&self, name: &String) -> (r: Option<usize>)
        ensures
            match r {
                Some(i) => self.is_entry(name@, i as int),
                None => !self.has_package(name@),
            },
    {
        let mut i: usize = 0;
        while i < self.packages.len()
            invariant
                0 <= i <= self.packages.len(),
                forall|j: int| 0 <= j < i ==> self.packages[j].name@ != name@,
            decreases self.packages.len() - i,
        {
            if self.packages[i].name == *name {
                return Some(i);
            }
            i = i + 1;
        }
        None
    }

    /// A catalog whose entries keep their names, and keep their releases but
    /// under `name`, and that only adds entries named `name`, holds every other
    /// package as before.
    proof fn lemma_frame(before: Catalog, after: Catalog, name: Seq<char>)
        requires
            before.packages.len() <= after.packages.len(),
            forall|j: int|
                0 <= j < before.packages.len() ==> (#[trigger] after.packages[j]).name@
                    == before.packages[j].name@ && (after.packages[j].name@ != name
                    ==> after.packages[j].releases@ == before.packages[j].releases@),
            forall|j: int|
                before.packages.len() <= j < after.packages.len() ==> (
                #[trigger] after.packages[j]).name@ == name,
        ensures
            forall|n: Seq<char>|
                n != name ==> (after.has_package(n) == before.has_package(n) && (
                before.has_package(n) ==> after.releases_of(n) == before.releases_of(n))),
    {
        assert forall|n: Seq<char>| n != name implies after.has_package(n) == before.has_package(
            n,
        ) && (before.has_package(n) ==> after.releases_of(n) == before.releases_of(n)) by {
            if before.has_package(n) {
                let k = choose|k: int|
                    0 <= k < before.packages.len() && before.packages[k].name@ == n;
                before.lemma_has_entry(n, k);
                let f = choose|f: int| before.is_entry(n, f);
                assert(after.is_entry(n, f)) by {
                    assert forall|j: int| 0 <= j < f implies after.packages[j].name@ != n by {
                        assert(before.packages[j].name@ != n);
                    }
                }
                before.lemma_entry(n, f);
                after.lemma_entry(n, f);
            }
            if after.has_package(n) {
                let k = choose|k: int| 0 <= k < after.packages.len() && after.packages[k].name@ == n;
                assert(before.packages[k].name@ == n);
            }
        }
    }

    /// Sets the releases of `name`, replacing any it had.
    pub fn insert(&mut self, name: String, releases: Vec<Release>)
        ensures
            old(self).wf() ==> final(self).wf(),
            final(self).has_package(name@),
            final(self).releases_of(name@) == releases@,
            forall|n: Seq<char>|
                n != name@ ==> (final(self).has_package(n) == old(self).has_package(n)
                    && (old(self).has_package(n) ==> final(self).releases_of(n) == old(
                    self,
                ).releases_of(n))),
    {
        let ghost name_v = name@;
        match self.find_package(&name) {
            Some(i) => {
                let ghost before = *self;
                let mut entry = self.packages.remove(i);
                entry.releases = releases;
                self.packages.insert(i, entry);
                proof {
                    assert forall|a: int, b: int|
                        0 <= a < b < self.packages.len() implies #[trigger] self.packages[a].name@
                        == before.packages[a].name@ && #[trigger] self.packages[b].name@
                        == before.packages[b].name@ by {}
                    assert(self.is_entry(name_v, i as int));
                    self.lemma_entry(name_v, i as int);
                    Catalog::lemma_frame(before, *self, name_v);
                }
            },
            None => {
                let ghost before = *self;
                self.packages.push(PackageEntry { name, releases });
                proof {
                    let last = self.packages.len() - 1;
                    assert(self.is_entry(name_v, last)) by {
                        assert forall|j: int| 0 <= j < last implies self.packages[j].name@
                            != name_v by {
                            assert(before.packages[j].name@ != name_v);
                        }
                    }
                    self.lemma_entry(name_v, last);
                    if before.wf() {
                        assert forall|a: int, b: int|
                            0 <= a < b < self.packages.len() implies self.packages[a].name@
                            != self.packages[b].name@ by {
                            if b < last {
                                assert(before.packages[a].name@ != before.packages[b].name@);
                            } else {
                                assert(before.packages[a].name@ != name_v);
                            }
                        }
                    }
                    Catalog::lemma_frame(before, *self, name_v);
                }
            },
        }
    }

    /// The highest published version of `name` that `range` allows; `None` when
    /// no release of it is in the range, or the catalog does not hold `name`.
    pub fn choose_version(&self, name: &String, range: &Range) -> (r: Result<
        Option<Version>,
        RepoError,
    >)
        ensures
            r is Ok,
            !self.has_package(name@) ==> r == Ok::<Option<Version>, RepoError>(None),
            r matches Ok(Some(v)) ==> is_best_candidate(self.releases_of(name@), range@, v@),
            (self.has_package(name@) && r == Ok::<Option<Version>, RepoError>(None)) ==> forall|k: int|
                0 <= k < self.releases_of(name@).len() ==> !range@.contains(
                    #[trigger] self.releases_of(name@)[k].version@,
                ),
    {
        let i = match self.find_package(name) {
            Some(i) => i,
            None => {
                return Ok(None);
            },
        };
        proof {
            self.lemma_entry(name@, i as int);
        }
        let rels = &self.packages[i].releases;
        let mut best: Option<Version> = None;
        let mut k: usize = 0;
        while k < rels.len()
            invariant
                0 <= k <= rels.len(),
                match best {
                    Some(b) => {
                        &&& range@.contains(b@)
                        &&& exists|j: int| 0 <= j < k && rels[j].version@ == b@
                        &&& forall|j: int|
                            0 <= j < k && range@.contains(#[trigger] rels[j].version@)
                                ==> version_le(rels[j].version@, b@)
                    },
                    None => forall|j: int|
                        0 <= j < k ==> !range@.contains(#[trigger] rels[j].version@),
                },
            decreases rels.len() - k,
        {
            let v = rels[k].version;
            if range.contains(v) {
                match best {
                    Some(b) => {
                        if b.precedes(&v) {
                            best = Some(v);
                        }
                    },
                    None => {
                        best = Some(v);
                    },
                }
            }
            k = k + 1;
        }
        Ok(best)
    }

    /// The solver's priority for a package: the number of intervals its range is
    /// stored as.
    pub fn prioritize(&self, name: &String, range: &Range) -> (r: usize)
        ensures
            r == range.segments(),
    {
        range.segment_count()
    }

    /// The dependencies of `name` at version `v`: those of its first release at
    /// `v`, or `Unavailable` when it has none at `v`.
    pub fn get_dependencies(&self, name: &String, v: Version) -> (r: Result<
        Dependencies,
        RepoError,
    >)
        ensures
            r is Err <==> !self.has_package(name@),
            r matches Err(RepoError::PackageNotFound(n)) ==> n@ == name@,
            r matches Ok(Dependencies::Available(d)) ==> self.published(name@, v@) && deps_view(
                d@,
            ) == self.deps_of(name@, v@),
            r matches Ok(Dependencies::Unavailable(why)) ==> !self.published(name@, v@) && why@
                == "Version not found"@,
            self.has_package(name@) && !self.published(name@, v@) ==> r matches Ok(
                Dependencies::Unavailable(_),
            ),
    {
        let i = match self.find_package(name) {
            Some(i) => i,
            None => {
                return Err(RepoError::PackageNotFound(name.clone()));
            },
        };
        proof {
            self.lemma_entry(name@, i as int);
        }
        let rels = &self.packages[i].releases;
        match find_release(rels, v) {
            Some(k) => {
                let src = &rels[k].dependencies;
                let mut out: Vec<(String, Range)> = Vec::new();
                let mut j: usize = 0;
                while j < src.len()
                    invariant
                        0 <= j <= src.len(),
                        out.len() == j,
                        forall|m: int|
                            0 <= m < j ==> (#[trigger] out@[m]).0@ == src@[m].0@ && out@[m].1@
                                == src@[m].1@,
                    decreases src.len() - j,
                {
                    let entry = (src[j].0.clone(), src[j].1.duplicate());
                    out.push(entry);
                    j = j + 1;
                }
                proof {
                    assert(deps_view(out@) =~= deps_view(src@));
                    let c = choose|c: int| is_first_release(rels@, v@, c);
                    assert(is_first_release(rels@, v@, k as int));
                    if c < k {
                        assert(rels@[c].version@ != v@);
                    }
                    if k < c {
                        assert(rels@[k as int].version@ != v@);
                    }
                }
                Ok(Dependencies::Available(out))
            },
            None => Ok(Dependencies::Unavailable("Version not found".to_string())),
        }
    }

    /// Whether `name` is published at `v`.
    pub fn is_published(&self, name: &String, v: Version) -> (r: bool)
        ensures
            r == self.published(name@, v@),
    {
        match self.find_package(name) {
            Some(i) => {
                proof {
                    self.lemma_entry(name@, i as int);
                }
                find_release(&self.packages[i].releases, v).is_some()
            },
            None => false,
        }
    }
}

/// The index of the first release in `rels` at version `v`.
fn find_release(rels: &Vec<Release>, v: Version) -> (r: Option<usize>)
    ensures
        match r {
            Some(k) => is_first_release(rels@, v@, k as int),
            None => !has_release(rels@, v@),
        },
{
    let mut k: usize = 0;
    while k < rels.len()
        invariant
            0 <= k <= rels.len(),
            forall|j: int| 0 <= j < k ==> rels[j].version@ != v@,
        decreases rels.len() - k,
    {
        if rels[k].version == v {
            return Some(k);
        }
        k = k + 1;
    }
    None
}

} // verus!
