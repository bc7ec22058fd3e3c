use depsolve::catalog::{Catalog, Dependencies, Release, RepoError};
use depsolve::range::Range;
use depsolve::resolution::{ResolveError, SolverOutcome};
use depsolve::version::Version;
use pubgrub::{
    DefaultStringReporter, DependencyConstraints, DependencyProvider, PackageResolutionStatistics,
    PubGrubError, Ranges, Reporter, SemanticVersion,
};
use std::fmt;
use std::ops::Bound;

#[derive(Debug)]
struct LookupError(String);

impl fmt::Display for LookupError {
    fn fmt(&self, f: &mut fmt::Formatter<'_>) -> fmt::Result {
        f.write_str(&self.0)
    }
}

impl std::error::Error for LookupError {}

struct Provider<'a>(&'a Catalog);

fn to_version(v: &SemanticVersion) -> Version {
    let (major, minor, patch): (u32, u32, u32) = (*v).into();
    Version::new(major, minor, patch)
}

fn to_semver(v: Version) -> SemanticVersion {
    SemanticVersion::new(v.major, v.minor, v.patch)
}

/// Rebuilds a range the solver hands over from its intervals, through the
/// library's constructors.
fn to_range(r: &Ranges<SemanticVersion>) -> Range {
    let mut out = Range::empty();
    for (start, end) in r.iter() {
        let low = match start {
            Bound::Unbounded => Range::full(),
            Bound::Included(v) => Range::higher_than(to_version(v)),
            Bound::Excluded(v) => Range::strictly_higher_than(to_version(v)),
        };
        let high = match end {
            Bound::Unbounded => Range::full(),
            Bound::Included(v) => Range::lower_than(to_version(v)),
            Bound::Excluded(v) => Range::strictly_lower_than(to_version(v)),
        };
        out = out.union(&low.intersection(&high));
    }
    out
}

fn lookup_error(e: RepoError) -> LookupError {
    match e {
        RepoError::PackageNotFound(name) => LookupError(format!("package {} not found", name)),
    }
}

impl DependencyProvider for Provider<'_> {
    type P = String;
    type V = SemanticVersion;
    type VS = Ranges<SemanticVersion>;
    type M = String;
    type Err = LookupError;
    type Priority = usize;

    fn prioritize(
        &self,
        package: &String,
        range: &Ranges<SemanticVersion>,
        _stats: &PackageResolutionStatistics,
    ) -> usize {
        self.0.prioritize(package, &to_range(range))
    }

    fn choose_version(
        &self,
        package: &String,
        range: &Ranges<SemanticVersion>,
    ) -> Result<Option<SemanticVersion>, LookupError> {
        self.0
            .choose_version(package, &to_range(range))
            .map(|v| v.map(to_semver))
            .map_err(lookup_error)
    }

    fn get_dependencies(
        &self,
        package: &String,
        version: &SemanticVersion,
    ) -> Result<pubgrub::Dependencies<String, Ranges<SemanticVersion>, String>, LookupError> {
        match self.0.get_dependencies(package, to_version(version)) {
            Ok(Dependencies::Available(deps)) => {
                let mut map: DependencyConstraints<String, Ranges<SemanticVersion>> =
                    DependencyConstraints::default();
                for (name, range) in deps {
                    map.insert(name, range.as_ranges().clone());
                }
                Ok(pubgrub::Dependencies::Available(map))
            }
            Ok(Dependencies::Unavailable(why)) => Ok(pubgrub::Dependencies::Unavailable(why)),
            Err(e) => Err(lookup_error(e)),
        }
    }
}

fn resolve(catalog: &Catalog, root: &str, version: Version) -> Result<Vec<(String, Version)>, ResolveError> {
    let root = root.to_string();
    catalog.check_request(&root, version)?;
    let outcome = match pubgrub::resolve(&Provider(catalog), root.clone(), to_semver(version)) {
        Ok(solution) => SolverOutcome::Solved(
            solution.into_iter().map(|(p, v)| (p, to_version(&v))).collect(),
        ),
        Err(PubGrubError::NoSolution(mut tree)) => {
            tree.collapse_no_versions();
            SolverOutcome::NoSolution(DefaultStringReporter::report(&tree))
        }
        Err(e) => SolverOutcome::ProviderFailed(e.to_string()),
    };
    catalog.conclude(&root, version, outcome)
}

fn v(s: &str) -> Version {
    Version::parse(s).unwrap()
}

fn release(version: &str, deps: Vec<(&str, Range)>) -> Release {
    Release {
        version: v(version),
        dependencies: deps.into_iter().map(|(n, r)| (n.to_string(), r)).collect(),
    }
}

fn sorted(mut sol: Vec<(String, Version)>) -> Vec<(String, Version)> {
    sol.sort_by(|a, b| a.0.cmp(&b.0));
    sol
}

fn scenario_a() -> Catalog {
    let mut c = Catalog::new();
    c.insert("foo".to_string(), vec![release("1.0.0", vec![("bar", Range::singleton(v("2.0.0")))])]);
    c.insert("bar".to_string(), vec![release("1.0.0", vec![]), release("2.0.0", vec![])]);
    c
}

#[test]
fn exact_dependency_is_selected() {
    let c = scenario_a();
    let sol = sorted(resolve(&c, "foo", v("1.0.0")).unwrap());
    assert_eq!(sol, vec![("bar".to_string(), v("2.0.0")), ("foo".to_string(), v("1.0.0"))]);
    assert!(c.check_solution(&sol));
}

#[test]
fn missing_exact_version_has_no_solution() {
    let mut c = Catalog::new();
    c.insert("foo".to_string(), vec![release("1.0.0", vec![("bar", Range::singleton(v("2.0.0")))])]);
    c.insert("bar".to_string(), vec![release("1.0.0", vec![])]);
    match resolve(&c, "foo", v("1.0.0")) {
        Err(ResolveError::NoSolution(report)) => {
            assert!(report.contains("bar"), "{}", report);
            assert!(report.contains("2.0.0"), "{}", report);
        }
        other => panic!("expected no solution, got {:?}", other),
    }
}

#[test]
fn disjoint_ranges_name_both_requirers() {
    let mut c = Catalog::new();
    c.insert(
        "foo".to_string(),
        vec![release(
            "1.0.0",
            vec![("bar", Range::between(v("1.0.0"), v("2.0.0"))), ("baz", Range::full())],
        )],
    );
    c.insert(
        "baz".to_string(),
        vec![release("1.0.0", vec![("bar", Range::between(v("2.0.0"), v("3.0.0")))])],
    );
    c.insert("bar".to_string(), vec![release("1.5.0", vec![]), release("2.1.0", vec![])]);
    match resolve(&c, "foo", v("1.0.0")) {
        Err(ResolveError::NoSolution(report)) => {
            assert!(report.contains("foo"), "{}", report);
            assert!(report.contains("baz"), "{}", report);
        }
        other => panic!("expected no solution, got {:?}", other),
    }
}

#[test]
fn unpublished_root_version_is_not_found() {
    let c = scenario_a();
    match resolve(&c, "foo", v("3.0.0")) {
        Err(ResolveError::VersionNotFound { package, version }) => {
            assert_eq!(package, "foo");
            assert_eq!(version, v("3.0.0"));
        }
        other => panic!("expected version not found, got {:?}", other),
    }
    assert!(matches!(resolve(&c, "qux", v("1.0.0")), Err(ResolveError::VersionNotFound { .. })));
}

#[test]
fn resolving_twice_gives_the_same_result() {
    let c = scenario_a();
    let first = sorted(resolve(&c, "foo", v("1.0.0")).unwrap());
    let second = sorted(resolve(&c, "foo", v("1.0.0")).unwrap());
    assert_eq!(first, second);
}

#[test]
fn every_selected_version_meets_every_range_on_it() {
    let mut c = Catalog::new();
    c.insert(
        "app".to_string(),
        vec![release(
            "1.0.0",
            vec![("web", Range::higher_than(v("1.0.0"))), ("log", Range::between(v("0.4.0"), v("0.5.0")))],
        )],
    );
    c.insert(
        "web".to_string(),
        vec![
            release("1.0.0", vec![("log", Range::higher_than(v("0.3.0")))]),
            release("2.0.0", vec![("log", Range::higher_than(v("0.5.0")))]),
        ],
    );
    c.insert(
        "log".to_string(),
        vec![release("0.3.0", vec![]), release("0.4.2", vec![]), release("0.5.1", vec![])],
    );
    let sol = sorted(resolve(&c, "app", v("1.0.0")).unwrap());
    assert_eq!(
        sol,
        vec![
            ("app".to_string(), v("1.0.0")),
            ("log".to_string(), v("0.4.2")),
            ("web".to_string(), v("1.0.0")),
        ]
    );
    assert!(c.check_solution(&sol));
}

#[test]
fn unknown_dependency_has_no_solution() {
    let mut c = Catalog::new();
    c.insert("foo".to_string(), vec![release("1.0.0", vec![("ghost", Range::full())])]);
    match resolve(&c, "foo", v("1.0.0")) {
        Err(ResolveError::NoSolution(report)) => assert!(report.contains("ghost"), "{}", report),
        other => panic!("expected no solution, got {:?}", other),
    }
}
