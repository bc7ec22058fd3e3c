use depsolve::catalog::{Catalog, Dependencies, Release, RepoError};
use depsolve::range::Range;
use depsolve::registry::MockRegistry;
use depsolve::resolution::{has_unique_names, ResolveError, SolverOutcome};
use depsolve::version::Version;

fn v(s: &str) -> Version {
    Version::parse(s).unwrap()
}

fn release(version: &str, deps: Vec<(&str, Range)>) -> Release {
    Release {
        version: v(version),
        dependencies: deps.into_iter().map(|(n, r)| (n.to_string(), r)).collect(),
    }
}

fn catalog() -> Catalog {
    let mut c = Catalog::new();
    c.insert("baz".to_string(), vec![release("1.0.0", vec![])]);
    c.insert("foo".to_string(), vec![release("1.0.0", vec![("bar", Range::singleton(v("2.0.0")))])]);
    c.insert(
        "bar".to_string(),
        vec![release("1.0.0", vec![]), release("2.0.0", vec![]), release("1.5.0", vec![])],
    );
    c
}

#[test]
fn parse_reads_three_numbers() {
    assert_eq!(Version::parse("1.2.3").unwrap(), Version::new(1, 2, 3));
    assert_eq!(Version::parse("19.0.0").unwrap(), Version { major: 19, minor: 0, patch: 0 });
    assert_eq!(Version::parse("0.10.0").unwrap(), Version::new(0, 10, 0));
    assert_eq!(Version::parse("4294967295.0.0").unwrap(), Version::new(4294967295, 0, 0));
}

#[test]
fn parse_rejects_malformed_text() {
    for bad in ["1.2", "1.2.3.4", "a.b.c", "", "1..3", "4294967296.0.0", "-1.0.0", "+.0.0", "1.0.0 ", "01.0.0", "+1.0.0", "1.02.3", "1.0.00"] {
        let e = Version::parse(bad).unwrap_err();
        assert_eq!(e.input, bad);
    }
}

#[test]
fn to_text_writes_three_numbers() {
    assert_eq!(v("1.2.3").to_text(), "1.2.3");
    assert_eq!(Version::new(19, 0, 10).to_text(), "19.0.10");
    assert_eq!(Version::new(0, 0, 0).to_text(), "0.0.0");
}

#[test]
fn versions_order_by_major_minor_patch() {
    assert!(v("1.2.3").precedes(&v("1.2.4")));
    assert!(v("1.2.9").precedes(&v("1.3.0")));
    assert!(v("1.9.9").precedes(&v("2.0.0")));
    assert!(!v("2.0.0").precedes(&v("1.9.9")));
    assert!(!v("1.0.0").precedes(&v("1.0.0")));
}

#[test]
fn singleton_holds_exactly_its_version() {
    let r = Range::singleton(v("2.0.0"));
    assert!(r.contains(v("2.0.0")));
    assert!(!r.contains(v("2.0.1")));
    assert!(!r.contains(v("1.9.9")));
    assert!(!r.is_empty());
    assert!(!r.is_full());
    assert_eq!(r.segment_count(), 1);
}

#[test]
fn empty_and_full_ranges() {
    assert!(Range::empty().is_empty());
    assert!(!Range::empty().contains(v("0.0.0")));
    assert!(Range::full().is_full());
    assert!(Range::full().contains(v("7.1.3")));
    assert!(Range::full().complement().is_empty());
    assert!(Range::empty().complement().is_full());
    assert_eq!(Range::empty().segment_count(), 0);
}

#[test]
fn interval_constructors() {
    let hi = Range::higher_than(v("1.0.0"));
    assert!(hi.contains(v("1.0.0")) && hi.contains(v("9.0.0")) && !hi.contains(v("0.9.9")));
    let lo = Range::strictly_lower_than(v("1.0.0"));
    assert!(lo.contains(v("0.9.9")) && !lo.contains(v("1.0.0")));
    let caret = Range::between(v("1.0.0"), v("2.0.0"));
    assert!(caret.contains(v("1.5.0")) && !caret.contains(v("2.0.0")) && !caret.contains(v("0.1.0")));
    assert!(Range::between(v("2.0.0"), v("1.0.0")).is_empty());
    assert!(Range::between(v("1.0.0"), v("1.0.0")).is_empty());
}

#[test]
fn intersection_union_complement() {
    let a = Range::between(v("1.0.0"), v("3.0.0"));
    let b = Range::between(v("2.0.0"), v("4.0.0"));
    let i = a.intersection(&b);
    assert!(i.contains(v("2.5.0")) && !i.contains(v("1.5.0")) && !i.contains(v("3.5.0")));
    assert!(i.same_versions(&b.intersection(&a)));
    assert!(i.same_versions(&Range::between(v("2.0.0"), v("3.0.0"))));
    let u = a.union(&b);
    assert!(u.contains(v("1.5.0")) && u.contains(v("3.5.0")) && !u.contains(v("4.0.0")));
    let c = a.complement();
    assert!(c.contains(v("0.5.0")) && c.contains(v("3.0.0")) && !c.contains(v("1.0.0")));
    assert_eq!(c.segment_count(), 2);
    let disjoint = Range::singleton(v("1.0.0")).intersection(&Range::singleton(v("2.0.0")));
    assert!(disjoint.is_empty());
    assert!(!a.same_versions(&b));
    assert!(a.duplicate().same_versions(&a));
}

#[test]
fn intersection_is_associative() {
    let a = Range::higher_than(v("1.0.0"));
    let b = Range::strictly_lower_than(v("3.0.0"));
    let c = Range::between(v("2.0.0"), v("5.0.0"));
    let left = a.intersection(&b).intersection(&c);
    let right = a.intersection(&b.intersection(&c));
    assert!(left.same_versions(&right));
    assert!(left.same_versions(&Range::between(v("2.0.0"), v("3.0.0"))));
}

#[test]
fn choose_version_prefers_the_highest_in_range() {
    let c = catalog();
    assert_eq!(c.choose_version(&"bar".to_string(), &Range::full()).unwrap(), Some(v("2.0.0")));
    assert_eq!(
        c.choose_version(&"bar".to_string(), &Range::strictly_lower_than(v("2.0.0"))).unwrap(),
        Some(v("1.5.0"))
    );
    assert_eq!(c.choose_version(&"bar".to_string(), &Range::higher_than(v("3.0.0"))).unwrap(), None);
    assert_eq!(c.choose_version(&"nope".to_string(), &Range::full()), Ok(None));
}

#[test]
fn get_dependencies_of_a_release() {
    let c = catalog();
    match c.get_dependencies(&"foo".to_string(), v("1.0.0")) {
        Ok(Dependencies::Available(d)) => {
            assert_eq!(d.len(), 1);
            assert_eq!(d[0].0, "bar");
            assert!(d[0].1.same_versions(&Range::singleton(v("2.0.0"))));
        }
        _ => panic!("expected dependencies"),
    }
    assert!(matches!(c.get_dependencies(&"bar".to_string(), v("2.0.0")), Ok(Dependencies::Available(d)) if d.is_empty()));
    assert!(matches!(c.get_dependencies(&"foo".to_string(), v("9.0.0")), Ok(Dependencies::Unavailable(why)) if why == "Version not found"));
    assert!(matches!(c.get_dependencies(&"nope".to_string(), v("1.0.0")), Err(RepoError::PackageNotFound(_))));
}

#[test]
fn prioritize_counts_intervals() {
    let c = catalog();
    let name = "bar".to_string();
    assert_eq!(c.prioritize(&name, &Range::singleton(v("1.0.0"))), 1);
    assert_eq!(c.prioritize(&name, &Range::singleton(v("1.0.0")).complement()), 2);
    assert_eq!(c.prioritize(&name, &Range::empty()), 0);
}

#[test]
fn insert_replaces_releases() {
    let mut c = catalog();
    c.insert("bar".to_string(), vec![release("3.0.0", vec![])]);
    assert_eq!(c.packages.len(), 3);
    assert!(!c.is_published(&"bar".to_string(), v("2.0.0")));
    assert!(c.is_published(&"bar".to_string(), v("3.0.0")));
    assert!(c.is_published(&"foo".to_string(), v("1.0.0")));
}

#[test]
fn check_request_accepts_only_published_roots() {
    let c = catalog();
    assert!(c.check_request(&"foo".to_string(), v("1.0.0")).is_ok());
    assert!(matches!(
        c.check_request(&"foo".to_string(), v("1.0.1")),
        Err(ResolveError::VersionNotFound { package, version }) if package == "foo" && version == v("1.0.1")
    ));
}

#[test]
fn check_solution_detects_violations() {
    let c = catalog();
    let good = vec![("foo".to_string(), v("1.0.0")), ("bar".to_string(), v("2.0.0"))];
    assert!(c.check_solution(&good));
    let wrong_version = vec![("foo".to_string(), v("1.0.0")), ("bar".to_string(), v("1.0.0"))];
    assert!(!c.check_solution(&wrong_version));
    let missing = vec![("foo".to_string(), v("1.0.0"))];
    assert!(!c.check_solution(&missing));
    let twice = vec![
        ("foo".to_string(), v("1.0.0")),
        ("bar".to_string(), v("2.0.0")),
        ("bar".to_string(), v("1.0.0")),
    ];
    assert!(!c.check_solution(&twice));
    assert!(!has_unique_names(&twice));
    let unpublished = vec![("bar".to_string(), v("7.0.0"))];
    assert!(!c.check_solution(&unpublished));
}

#[test]
fn conclude_classifies_outcomes() {
    let c = catalog();
    let root = "foo".to_string();
    let good = vec![("foo".to_string(), v("1.0.0")), ("bar".to_string(), v("2.0.0"))];
    assert_eq!(c.conclude(&root, v("1.0.0"), SolverOutcome::Solved(good.clone())).unwrap(), good);
    let bad = vec![("foo".to_string(), v("1.0.0")), ("bar".to_string(), v("1.0.0"))];
    assert!(matches!(
        c.conclude(&root, v("1.0.0"), SolverOutcome::Solved(bad)),
        Err(ResolveError::ProviderError(_))
    ));
    let extra = vec![
        ("foo".to_string(), v("1.0.0")),
        ("bar".to_string(), v("2.0.0")),
        ("baz".to_string(), v("1.0.0")),
    ];
    assert!(matches!(
        c.conclude(&root, v("1.0.0"), SolverOutcome::Solved(extra)),
        Err(ResolveError::ProviderError(_))
    ));
    let other_root = vec![("bar".to_string(), v("2.0.0"))];
    assert!(matches!(
        c.conclude(&root, v("1.0.0"), SolverOutcome::Solved(other_root)),
        Err(ResolveError::ProviderError(_))
    ));
    assert!(matches!(
        c.conclude(&root, v("1.0.0"), SolverOutcome::NoSolution("because".to_string())),
        Err(ResolveError::NoSolution(s)) if s == "because"
    ));
    assert!(matches!(
        c.conclude(&root, v("1.0.0"), SolverOutcome::ProviderFailed("down".to_string())),
        Err(ResolveError::ProviderError(s)) if s == "down"
    ));
}

#[test]
fn registry_lists_its_manifests() {
    let mut r = MockRegistry::new();
    assert_eq!(r.get_versions("react"), vec![v("19.0.0")]);
    assert_eq!(r.get_versions("lodash"), vec![v("4.17.21")]);
    assert!(r.get_versions("vue").is_empty());
    let p = r.get_package("react", &v("19.0.0")).unwrap();
    assert_eq!(p.dependencies, vec![("lodash".to_string(), "^4.17.0".to_string())]);
    assert!(r.get_package("react", &v("18.0.0")).is_none());
    assert!(r.get_package("vue", &v("19.0.0")).is_none());
}

#[test]
fn reaches_all_follows_dependencies_from_the_root() {
    let c = catalog();
    let root = "foo".to_string();
    let closed = vec![("bar".to_string(), v("2.0.0")), ("foo".to_string(), v("1.0.0"))];
    assert!(c.reaches_all(&closed, &root));
    let extra = vec![
        ("foo".to_string(), v("1.0.0")),
        ("bar".to_string(), v("2.0.0")),
        ("baz".to_string(), v("1.0.0")),
    ];
    assert!(c.check_solution(&extra));
    assert!(!c.reaches_all(&extra, &root));
    assert!(!c.reaches_all(&closed, &"bar".to_string()));
}

#[test]
fn empty_looking_interval_is_still_stored() {
    let r = Range::strictly_lower_than(v("0.0.0"));
    assert!(!r.contains(v("0.0.0")));
    assert_eq!(r.segment_count(), 1);
    assert!(!r.is_empty());
}

#[test]
fn union_of_two_singletons_keeps_two_intervals() {
    let u = Range::singleton(v("1.0.0")).union(&Range::singleton(v("2.0.0")));
    assert!(u.contains(v("1.0.0")) && u.contains(v("2.0.0")));
    assert!(!u.contains(v("1.5.0")) && !u.contains(v("3.0.0")));
    assert_eq!(u.segment_count(), 2);
    let same = Range::singleton(v("1.0.0")).union(&Range::singleton(v("1.0.0")));
    assert!(same.same_versions(&Range::singleton(v("1.0.0"))));
}

#[test]
fn empty_and_full_through_operations() {
    assert!(Range::full().complement().is_empty());
    assert!(Range::singleton(v("1.0.0")).intersection(&Range::empty()).is_empty());
    assert!(Range::singleton(v("1.0.0")).intersection(&Range::full()).same_versions(&Range::singleton(v("1.0.0"))));
    assert!(Range::full().intersection(&Range::singleton(v("1.0.0"))).same_versions(&Range::singleton(v("1.0.0"))));
    assert!(Range::full().is_full());
    assert!(!Range::higher_than(v("0.0.0")).is_full());
    assert!(Range::empty().union(&Range::full()).is_full());
    let sh = Range::strictly_higher_than(v("1.0.0"));
    assert!(!sh.contains(v("1.0.0")) && sh.contains(v("1.0.1")));
    let le = Range::lower_than(v("1.0.0"));
    assert!(le.contains(v("1.0.0")) && !le.contains(v("1.0.1")));
}
