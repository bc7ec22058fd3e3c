//! The frame of a resolution run: what is checked before the solver starts,
//! and what is checked of what it hands back.
use vstd::prelude::*;
use crate::version::Version;
use crate::catalog::{Catalog, Dependencies};

verus! {

/// Why a resolution run gives no assignment.
#[derive(Debug)]
pub enum ResolveError {
    /// The root package is not published at the version asked for.
    VersionNotFound { package: String, version: Version },
    /// The constraints cannot all hold; carries the explanation.
    NoSolution(String),
    /// The provider failed to answer, or answered inconsistently.
    ProviderError(String),
}

/// What the solver returned for a run.
pub enum SolverOutcome {
    /// One version per package.
    Solved(Vec<(String, Version)>),
    /// A proof that no assignment exists, rendered as text.
    NoSolution(String),
    /// A provider call failed; the message says which.
    ProviderFailed(String),
}

/// No package is assigned twice.
pub open spec fn names_unique(sol: Seq<(String, Version)>) -> bool {
    forall|i: int, j: int| 0 <= i < j < sol.len() ==> sol[i].0@ != sol[j].0@
}

/// The assignment gives package `name` the version `v`.
pub open spec fn selects(sol: Seq<(String, Version)>, name: Seq<char>, v: (u32, u32, u32)) -> bool {
    exists|j: int| 0 <= j < sol.len() && sol[j].0@ == name && sol[j].1@ == v
}

/// Each dependency names an assigned package whose version its range allows.
pub open spec fn deps_met(
    sol: Seq<(String, Version)>,
    deps: Seq<(Seq<char>, Set<(u32, u32, u32)>)>,
) -> bool {
    forall|d: int|
        0 <= d < deps.len() ==> exists|j: int|
            0 <= j < sol.len() && sol[j].0@ == (#[trigger] deps[d]).0 && deps[d].1.contains(
                sol[j].1@,
            )
}

/// Every assigned package is published at its version, and every dependency of
/// that release is met by the assignment: the assignment is closed and
/// consistent with every range that a selected package imposes.
pub open spec fn closure_consistent(c: Catalog, sol: Seq<(String, Version)>) -> bool {
    &&& names_unique(sol)
    &&& forall|i: int|
        0 <= i < sol.len() ==> c.published((#[trigger] sol[i]).0@, sol[i].1@) && deps_met(
            sol,
            c.deps_of(sol[i].0@, sol[i].1@),
        )
}

/// A dependency of the release selected at `j`, among its first `m`, names the
/// package selected at `k`.
pub open spec fn feeds_upto(c: Catalog, sol: Seq<(String, Version)>, j: int, k: int, m: int) -> bool {
    exists|d: int|
        0 <= d < m && d < c.deps_of(sol[j].0@, sol[j].1@).len() && (#[trigger] c.deps_of(
            sol[j].0@,
            sol[j].1@,
        )[d]).0 == sol[k].0@
}

/// Some dependency of the release selected at `j` names the package selected at `k`.
pub open spec fn feeds(c: Catalog, sol: Seq<(String, Version)>, j: int, k: int) -> bool {
    feeds_upto(c, sol, j, k, c.deps_of(sol[j].0@, sol[j].1@).len() as int)
}

/// The marks after one more step along dependencies from the marked entries.
pub open spec fn step(c: Catalog, sol: Seq<(String, Version)>, mark: Seq<bool>) -> Seq<bool> {
    Seq::new(
        mark.len(),
        |k: int| mark[k] || exists|j: int| 0 <= j < mark.len() && mark[j] && feeds(c, sol, j, k),
    )
}

/// The entries of the assignment reached from the root in at most `n` steps.
pub open spec fn reached(c: Catalog, sol: Seq<(String, Version)>, root: Seq<char>, n: nat) -> Seq<
    bool,
>
    decreases n,
{
    if n == 0 {
        Seq::new(sol.len(), |k: int| sol[k].0@ == root)
    } else {
        step(c, sol, reached(c, sol, root, (n - 1) as nat))
    }
}

/// Every assigned package is reached from the root through the dependencies of
/// the selected releases.
pub open spec fn all_reachable(c: Catalog, sol: Seq<(String, Version)>, root: Seq<char>) -> bool {
    forall|k: int| 0 <= k < sol.len() ==> #[trigger] reachable(c, sol, root, k)
}

/// The entry at `k` is reached from the root in some number of steps.
pub open spec fn reachable(c: Catalog, sol: Seq<(String, Version)>, root: Seq<char>, k: int) -> bool {
    exists|n: nat| #[trigger] reached(c, sol, root, n)[k]
}

pub open spec fn count_marked(m: Seq<bool>) -> nat
    decreases m.len(),
{
    if m.len() == 0 {
        0
    } else {
        count_marked(m.drop_last()) + if m.last() {
            1nat
        } else {
            0nat
        }
    }
}

proof fn lemma_count_grows(a: Seq<bool>, b: Seq<bool>)
    requires
        a.len() == b.len(),
        forall|i: int| 0 <= i < a.len() && #[trigger] a[i] ==> b[i],
    ensures
        count_marked(a) <= count_marked(b) <= b.len(),
        a != b ==> count_marked(a) < count_marked(b),
    decreases a.len(),
{
    if a.len() > 0 {
        let a2 = a.drop_last();
        let b2 = b.drop_last();
        assert forall|i: int| 0 <= i < a2.len() && #[trigger] a2[i] implies b2[i] by {
            assert(a[i]);
        }
        lemma_count_grows(a2, b2);
        let l = a.len() - 1;
        if a[l] {
            assert(b[l]);
        }
        if a != b && a2 == b2 {
            assert(a[l] != b[l]) by {
                if a[l] == b[l] {
                    assert(a =~= b) by {
                        assert forall|i: int| 0 <= i < a.len() implies a[i] == b[i] by {
                            if i < l {
                                assert(a2[i] == b2[i]);
                            }
                        }
                    }
                }
            }
        }
    } else {
        assert(a =~= b);
    }
}

proof fn lemma_reached_len(c: Catalog, sol: Seq<(String, Version)>, root: Seq<char>, n: nat)
    ensures
        reached(c, sol, root, n).len() == sol.len(),
    decreases n,
{
    if n > 0 {
        lemma_reached_len(c, sol, root, (n - 1) as nat);
    }
}

/// Marks only grow from one step to the next.
proof fn lemma_reached_grows(
    c: Catalog,
    sol: Seq<(String, Version)>,
    root: Seq<char>,
    a: nat,
    b: nat,
    k: int,
)
    requires
        a <= b,
        0 <= k < sol.len(),
        reached(c, sol, root, a)[k],
    ensures
        reached(c, sol, root, b)[k],
    decreases b - a,
{
    if a < b {
        lemma_reached_grows(c, sol, root, a, (b - 1) as nat, k);
        lemma_reached_len(c, sol, root, (b - 1) as nat);
    }
}

/// Once a step changes nothing, no later step does.
proof fn lemma_reached_stable(
    c: Catalog,
    sol: Seq<(String, Version)>,
    root: Seq<char>,
    n: nat,
    m: nat,
)
    requires
        n <= m,
        reached(c, sol, root, n + 1) == reached(c, sol, root, n),
    ensures
        reached(c, sol, root, m) == reached(c, sol, root, n),
    decreases m - n,
{
    if n < m {
        lemma_reached_stable(c, sol, root, n, (m - 1) as nat);
        assert(reached(c, sol, root, m) == step(c, sol, reached(c, sol, root, (m - 1) as nat)));
    }
}

/// The first index of `name` in the assignment.
fn position(sol: &Vec<(String, Version)>, name: &String) -> (r: Option<usize>)
    ensures
        match r {
            Some(p) => p < sol.len() && sol@[p as int].0@ == name@,
            None => forall|j: int| 0 <= j < sol.len() ==> sol@[j].0@ != name@,
        },
{
    let mut j: usize = 0;
    while j < sol.len()
        invariant
            0 <= j <= sol.len(),
            forall|m: int| 0 <= m < j ==> sol@[m].0@ != name@,
        decreases sol.len() - j,
    {
        if sol[j].0 == *name {
            return Some(j);
        }
        j = j + 1;
    }
    None
}

/// Whether no package is assigned twice.
pub fn has_unique_names(sol: &Vec<(String, Version)>) -> (r: bool)
    ensures
        r == names_unique(sol@),
{
    let mut i: usize = 0;
    while i < sol.len()
        invariant
            0 <= i <= sol.len(),
            forall|a: int, b: int| 0 <= a < b < i ==> sol@[a].0@ != sol@[b].0@,
        decreases sol.len() - i,
    {
        let mut j: usize = 0;
        while j < i
            invariant
                0 <= j <= i < sol.len(),
                forall|a: int, b: int| 0 <= a < b < i ==> sol@[a].0@ != sol@[b].0@,
                forall|a: int| 0 <= a < j ==> sol@[a].0@ != sol@[i as int].0@,
            decreases i - j,
        {
            if sol[j].0 == sol[i].0 {
                return false;
            }
            j = j + 1;
        }
        i = i + 1;
    }
    true
}

impl Catalog {
    /// One step along dependencies from the marked entries of a consistent assignment.
    fn step_marks(&self, sol: &Vec<(String, Version)>, mark: &Vec<bool>) -> (next: Vec<bool>)
        requires
            closure_consistent(*self, sol@),
            mark.len() == sol.len(),
        ensures
            next@ == step(*self, sol@, mark@),
    {
        let mut next: Vec<bool> = Vec::new();
        let mut k: usize = 0;
        while k < mark.len()
            invariant
                0 <= k <= mark.len(),
                next@ == mark@.subrange(0, k as int),
            decreases mark.len() - k,
        {
            next.push(mark[k]);
            k = k + 1;
        }
        proof {
            assert(next@ =~= mark@);
        }
        let mut j: usize = 0;
        while j < sol.len()
            invariant
                0 <= j <= sol.len(),
                mark.len() == sol.len(),
                next.len() == sol.len(),
                closure_consistent(*self, sol@),
                forall|k: int|
                    0 <= k < sol.len() ==> #[trigger] next@[k] == (mark@[k] || exists|i: int|
                        0 <= i < j && mark@[i] && feeds(*self, sol@, i, k)),
            decreases sol.len() - j,
        {
            if mark[j] {
                let ghost jj = j as int;
                let deps = match self.get_dependencies(&sol[j].0, sol[j].1) {
                    Ok(Dependencies::Available(d)) => d,
                    _ => {
                        proof {
                            assert(self.published(sol@[jj].0@, sol@[jj].1@));
                        }
                        Vec::new()
                    },
                };
                let ghost dv = self.deps_of(sol@[jj].0@, sol@[jj].1@);
                proof {
                    assert(self.published(sol@[jj].0@, sol@[jj].1@));
                    assert(crate::catalog::deps_view(deps@) == dv);
                }
                let mut m: usize = 0;
                while m < deps.len()
                    invariant
                        0 <= m <= deps.len(),
                        0 <= jj < sol.len(),
                        jj == j,
                        mark.len() == sol.len(),
                        next.len() == sol.len(),
                        mark@[jj],
                        names_unique(sol@),
                        dv == self.deps_of(sol@[jj].0@, sol@[jj].1@),
                        crate::catalog::deps_view(deps@) == dv,
                        forall|k: int|
                            0 <= k < sol.len() ==> #[trigger] next@[k] == (mark@[k] || (exists|i: int|
                                0 <= i < j && mark@[i] && feeds(*self, sol@, i, k)) || feeds_upto(
                                *self,
                                sol@,
                                jj,
                                k,
                                m as int,
                            )),
                    decreases deps.len() - m,
                {
                    let ghost before = next@;
                    let pos = position(sol, &deps[m].0);
                    proof {
                        assert(dv[m as int].0 == deps@[m as int].0@);
                    }
                    match pos {
                        Some(p) => {
                            next.set(p, true);
                        },
                        None => {},
                    }
                    proof {
                        assert forall|k: int| 0 <= k < sol.len() implies #[trigger] next@[k] == (
                        mark@[k] || (exists|i: int|
                            0 <= i < j && mark@[i] && feeds(*self, sol@, i, k)) || feeds_upto(
                            *self,
                            sol@,
                            jj,
                            k,
                            m + 1,
                        )) by {
                            if dv[m as int].0 == sol@[k].0@ {
                                assert(feeds_upto(*self, sol@, jj, k, m + 1));
                                if let Some(p) = pos {
                                    if k != p {
                                        if k < p {
                                            assert(sol@[k].0@ != sol@[p as int].0@);
                                        } else {
                                            assert(sol@[p as int].0@ != sol@[k].0@);
                                        }
                                    }
                                }
                            } else {
                                if feeds_upto(*self, sol@, jj, k, m + 1) {
                                    let d = choose|d: int|
                                        0 <= d < m + 1 && d < dv.len() && (#[trigger] dv[d]).0
                                            == sol@[k].0@;
                                    assert(feeds_upto(*self, sol@, jj, k, m as int));
                                }
                                if let Some(p) = pos {
                                    assert(k != p);
                                }
                                assert(next@[k] == before[k]);
                            }
                        }
                    }
                    m = m + 1;
                }
                proof {
                    assert forall|k: int| 0 <= k < sol.len() implies #[trigger] next@[k] == (
                    mark@[k] || exists|i: int| 0 <= i < j + 1 && mark@[i] && feeds(*self, sol@, i, k)) by {
                        if feeds(*self, sol@, jj, k) {
                        }
                        if exists|i: int| 0 <= i < j + 1 && mark@[i] && feeds(*self, sol@, i, k) {
                            let i = choose|i: int| 0 <= i < j + 1 && mark@[i] && feeds(*self, sol@, i, k);
                            if i == jj {
                                assert(feeds_upto(*self, sol@, jj, k, deps.len() as int));
                            }
                        }
                    }
                }
            } else {
                proof {
                    assert forall|k: int| 0 <= k < sol.len() implies #[trigger] next@[k] == (
                    mark@[k] || exists|i: int| 0 <= i < j + 1 && mark@[i] && feeds(*self, sol@, i, k)) by {
                        if exists|i: int| 0 <= i < j + 1 && mark@[i] && feeds(*self, sol@, i, k) {
                            let i = choose|i: int| 0 <= i < j + 1 && mark@[i] && feeds(*self, sol@, i, k);
                            assert(i != j);
                        }
                    }
                }
            }
            j = j + 1;
        }
        proof {
            assert(next@ =~= step(*self, sol@, mark@));
        }
        next
    }

    /// Whether every package of a consistent assignment is reached from `root`
    /// through the dependencies of the selected releases.
    pub fn reaches_all(&self, sol: &Vec<(String, Version)>, root: &String) -> (r: bool)
        requires
            closure_consistent(*self, sol@),
        ensures
            r == all_reachable(*self, sol@, root@),
    {
        let mut mark: Vec<bool> = Vec::new();
        let mut k: usize = 0;
        while k < sol.len()
            invariant
                0 <= k <= sol.len(),
                mark@ == reached(*self, sol@, root@, 0).subrange(0, k as int),
            decreases sol.len() - k,
        {
            mark.push(sol[k].0 == *root);
            k = k + 1;
        }
        proof {
            assert(mark@ =~= reached(*self, sol@, root@, 0));
        }
        let ghost mut n: nat = 0;
        loop
            invariant_except_break
                mark@ == reached(*self, sol@, root@, n),
                mark.len() == sol.len(),
                closure_consistent(*self, sol@),
            ensures
                mark@ == reached(*self, sol@, root@, n),
                reached(*self, sol@, root@, n + 1) == reached(*self, sol@, root@, n),
                mark.len() == sol.len(),
            decreases sol.len() - count_marked(mark@),
        {
            let next = self.step_marks(sol, &mark);
            let mut same = true;
            let mut i: usize = 0;
            while i < mark.len()
                invariant
                    0 <= i <= mark.len(),
                    next.len() == mark.len(),
                    same == (forall|a: int| 0 <= a < i ==> mark@[a] == next@[a]),
                decreases mark.len() - i,
            {
                if mark[i] != next[i] {
                    same = false;
                }
                i = i + 1;
            }
            proof {
                lemma_count_grows(mark@, next@);
                if same {
                    assert(mark@ =~= next@);
                }
            }
            if same {
                break;
            }
            mark = next;
            proof {
                n = n + 1;
            }
        }
        let mut all = true;
        let mut i: usize = 0;
        while i < mark.len()
            invariant
                0 <= i <= mark.len(),
                all == (forall|a: int| 0 <= a < i ==> mark@[a]),
            decreases mark.len() - i,
        {
            if !mark[i] {
                all = false;
            }
            i = i + 1;
        }
        proof {
            if all {
                assert forall|k: int| 0 <= k < sol.len() implies #[trigger] reachable(
                    *self,
                    sol@,
                    root@,
                    k,
                ) by {
                    assert(reached(*self, sol@, root@, n)[k]);
                }
            } else {
                let a = choose|a: int| 0 <= a < mark.len() && !mark@[a];
                if reachable(*self, sol@, root@, a) {
                    let m = choose|m: nat| #[trigger] reached(*self, sol@, root@, m)[a];
                    if m <= n {
                        lemma_reached_grows(*self, sol@, root@, m, n, a);
                    } else {
                        lemma_reached_stable(*self, sol@, root@, n, m);
                    }
                }
            }
        }
        all
    }

    /// Whether the assignment is closed and consistent with the catalog.
    pub fn check_solution(&self, sol: &Vec<(String, Version)>) -> (r: bool)
        ensures
            r == closure_consistent(*self, sol@),
    {
        if !has_unique_names(sol) {
            return false;
        }
        let mut i: usize = 0;
        while i < sol.len()
            invariant
                0 <= i <= sol.len(),
                names_unique(sol@),
                forall|a: int|
                    0 <= a < i ==> self.published((#[trigger] sol@[a]).0@, sol@[a].1@)
                        && deps_met(sol@, self.deps_of(sol@[a].0@, sol@[a].1@)),
            decreases sol.len() - i,
        {
            let deps = match self.get_dependencies(&sol[i].0, sol[i].1) {
                Ok(Dependencies::Available(d)) => d,
                _ => {
                    proof {
                        assert(!closure_consistent(*self, sol@)) by {
                            let _ = sol@[i as int];
                        }
                    }
                    return false;
                },
            };
            let ghost dv = crate::catalog::deps_view(deps@);
            let mut m: usize = 0;
            while m < deps.len()
                invariant
                    0 <= m <= deps.len(),
                    0 <= i < sol.len(),
                    names_unique(sol@),
                    dv == crate::catalog::deps_view(deps@),
                    dv == self.deps_of(sol@[i as int].0@, sol@[i as int].1@),
                    self.published(sol@[i as int].0@, sol@[i as int].1@),
                    forall|a: int|
                        0 <= a < i ==> self.published((#[trigger] sol@[a]).0@, sol@[a].1@)
                            && deps_met(sol@, self.deps_of(sol@[a].0@, sol@[a].1@)),
                    forall|d: int|
                        0 <= d < m ==> exists|j: int|
                            0 <= j < sol.len() && sol@[j].0@ == (#[trigger] dv[d]).0
                                && dv[d].1.contains(sol@[j].1@),
                decreases deps.len() - m,
            {
                match position(sol, &deps[m].0) {
                    Some(p) => {
                        if !deps[m].1.contains(sol[p].1) {
                            proof {
                                assert forall|j: int|
                                    0 <= j < sol.len() && sol@[j].0@ == dv[m as int].0 implies !dv[m as int].1.contains(
                                    sol@[j].1@,
                                ) by {
                                    if j != p {
                                        if j < p {
                                            assert(sol@[j].0@ != sol@[p as int].0@);
                                        } else {
                                            assert(sol@[p as int].0@ != sol@[j].0@);
                                        }
                                    }
                                }
                                assert(!deps_met(sol@, dv));
                                assert(!closure_consistent(*self, sol@)) by {
                                    let _ = sol@[i as int];
                                }
                            }
                            return false;
                        }
                        proof {
                            assert(sol@[p as int].0@ == dv[m as int].0);
                        }
                    },
                    None => {
                        proof {
                            assert(!deps_met(sol@, dv)) by {
                                assert(dv[m as int].0 == deps@[m as int].0@);
                            }
                            assert(!closure_consistent(*self, sol@)) by {
                                let _ = sol@[i as int];
                            }
                        }
                        return false;
                    },
                }
                m = m + 1;
            }
            i = i + 1;
        }
        true
    }

    /// Accepts a request only for a root package published at the version asked for.
    pub fn check_request(&self, root: &String, version: Version) -> (r: Result<(), ResolveError>)
        ensures
            r is Ok <==> self.published(root@, version@),
            r matches Err(e) ==> (e matches ResolveError::VersionNotFound { package, version: v }
                && package@ == root@ && v == version),
    {
        if self.is_published(root, version) {
            Ok(())
        } else {
            Err(ResolveError::VersionNotFound { package: root.clone(), version })
        }
    }

    /// Turns what the solver returned for `root` at `version` into the run's result.
    /// An assignment is handed on only when it is closed and consistent with the
    /// catalog, selects the root at the version asked for, and holds no package
    /// that the root does not reach.
    pub fn conclude(&self, root: &String, version: Version, outcome: SolverOutcome) -> (r: Result<
        Vec<(String, Version)>,
        ResolveError,
    >)
        ensures
            r matches Ok(sol) ==> closure_consistent(*self, sol@) && selects(
                sol@,
                root@,
                version@,
            ) && all_reachable(*self, sol@, root@),
            match outcome {
                SolverOutcome::Solved(s) => if closure_consistent(*self, s@) && selects(
                    s@,
                    root@,
                    version@,
                ) && all_reachable(*self, s@, root@) {
                    r matches Ok(t) && t@ == s@
                } else {
                    r matches Err(ResolveError::ProviderError(_))
                },
                SolverOutcome::NoSolution(rep) => r matches Err(ResolveError::NoSolution(x))
                    && x@ == rep@,
                SolverOutcome::ProviderFailed(m) => r matches Err(ResolveError::ProviderError(x))
                    && x@ == m@,
            },
    {
        match outcome {
            SolverOutcome::Solved(s) => {
                let pos = position(&s, root);
                let root_ok = match pos {
                    Some(p) => s[p].1 == version,
                    None => false,
                };
                let consistent = self.check_solution(&s);
                proof {
                    if consistent && selects(s@, root@, version@) {
                        let j = choose|j: int|
                            0 <= j < s.len() && s@[j].0@ == root@ && s@[j].1@ == version@;
                        if let Some(p) = pos {
                            if j < p {
                                assert(s@[j].0@ != s@[p as int].0@);
                            }
                            if p < j {
                                assert(s@[p as int].0@ != s@[j].0@);
                            }
                        }
                    }
                }
                let closed = consistent && self.reaches_all(&s, root);
                if closed && root_ok {
                    Ok(s)
                } else {
                    Err(ResolveError::ProviderError("the solver's assignment does not hold".to_string()))
                }
            },
            SolverOutcome::NoSolution(rep) => Err(ResolveError::NoSolution(rep)),
            SolverOutcome::ProviderFailed(m) => Err(ResolveError::ProviderError(m)),
        }
    }
}

} // verus!
