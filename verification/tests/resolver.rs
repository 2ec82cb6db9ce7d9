use dram::api::{cache_is_fresh, CacheAge, Index};
use dram::formula::{Formula, Versions};
use dram::resolver::{resolve, ResolveError};
use dram::strmap::StrMap;

fn f(name: &str, deps: &[&str]) -> Formula {
    Formula {
        name: name.to_string(),
        desc: None,
        aliases: vec![],
        oldnames: vec![],
        versions: Versions { stable: Some("1.0".to_string()) },
        revision: 0,
        dependencies: deps.iter().map(|s| s.to_string()).collect(),
        keg_only: false,
        bottle: StrMap::new(),
        post_install_steps: vec![],
    }
}

fn names(plan: &[&Formula]) -> Vec<String> {
    plan.iter().map(|f| f.name.clone()).collect()
}

fn plan_of(index: &Index, roots: &[&str]) -> Vec<String> {
    let roots: Vec<String> = roots.iter().map(|s| s.to_string()).collect();
    match resolve(index, &roots) {
        Ok(plan) => names(&plan),
        Err(e) => panic!("{}", e.message()),
    }
}

fn error_of(index: &Index, roots: &[&str]) -> String {
    let roots: Vec<String> = roots.iter().map(|s| s.to_string()).collect();
    match resolve(index, &roots) {
        Ok(_) => panic!("resolved"),
        Err(e) => e.message(),
    }
}

#[test]
fn deps_before_dependents() {
    let index = Index::from_formulae(vec![f("a", &["b"]), f("b", &["c"]), f("c", &[])]);
    assert_eq!(plan_of(&index, &["a"]), ["c", "b", "a"]);
}

#[test]
fn shared_dep_appears_once() {
    let index = Index::from_formulae(vec![f("a", &["c"]), f("b", &["c"]), f("c", &[])]);
    assert_eq!(plan_of(&index, &["a", "b"]), ["c", "a", "b"]);
}

#[test]
fn cycle_is_an_error_not_a_hang() {
    let index = Index::from_formulae(vec![f("a", &["b"]), f("b", &["a"])]);
    assert!(resolve(&index, &vec!["a".to_string()]).is_err());
    assert_eq!(error_of(&index, &["a"]), "dependency cycle involving a");
}

#[test]
fn unknown_formula_is_an_error() {
    let index = Index::from_formulae(vec![f("a", &[])]);
    assert!(resolve(&index, &vec!["nope".to_string()]).is_err());
    assert_eq!(error_of(&index, &["nope"]), "no such formula: nope");
}

#[test]
fn unknown_dependency_names_its_owner() {
    let index = Index::from_formulae(vec![f("a", &["ghost"])]);
    assert_eq!(error_of(&index, &["a"]), "a depends on unknown formula ghost");
    let roots = vec!["a".to_string()];
    assert!(matches!(resolve(&index, &roots), Err(ResolveError::UnknownDep { .. })));
}

#[test]
fn only_what_is_needed_is_planned() {
    let index = Index::from_formulae(vec![f("a", &["b"]), f("x", &["y"]), f("b", &[]), f("y", &[])]);
    assert_eq!(plan_of(&index, &["a"]), ["b", "a"]);
}

#[test]
fn aliases_and_old_names_find_the_formula() {
    let mut py = f("python@3.14", &[]);
    py.aliases = vec!["python".to_string(), "python3".to_string()];
    py.oldnames = vec!["snake".to_string()];
    let mut other = f("other", &["python"]);
    other.aliases = vec!["python3".to_string()];
    let index = Index::from_formulae(vec![py, other]);
    assert_eq!(index.get("python").map(|f| f.name.clone()), Some("python@3.14".to_string()));
    assert_eq!(index.get("python3").map(|f| f.name.clone()), Some("python@3.14".to_string()));
    assert_eq!(index.get("snake").map(|f| f.name.clone()), Some("python@3.14".to_string()));
    assert!(index.get("cobra").is_none());
    assert_eq!(plan_of(&index, &["other"]), ["python@3.14", "other"]);
    assert_eq!(index.all().len(), 2);
}

#[test]
fn a_name_goes_before_an_alias() {
    let mut first = f("first", &[]);
    first.aliases = vec!["second".to_string()];
    let index = Index::from_formulae(vec![first, f("second", &[])]);
    assert_eq!(index.position("second"), Some(1));
    assert_eq!(index.position("first"), Some(0));
}

#[test]
fn cache_lives_for_a_day() {
    assert!(cache_is_fresh(false, CacheAge::Seconds(0)));
    assert!(cache_is_fresh(false, CacheAge::Seconds(86399)));
    assert!(!cache_is_fresh(false, CacheAge::Seconds(86400)));
    assert!(!cache_is_fresh(true, CacheAge::Seconds(0)));
    assert!(!cache_is_fresh(false, CacheAge::Missing));
    assert!(!cache_is_fresh(false, CacheAge::Unknown));
}

#[test]
fn keg_version_appends_the_revision() {
    let mut a = f("a", &[]);
    assert_eq!(a.keg_version(), "1.0");
    a.revision = 12;
    assert_eq!(a.keg_version(), "1.0_12");
    a.versions.stable = None;
    assert_eq!(a.keg_version(), "unknown_12");
    a.revision = 0;
    assert_eq!(a.keg_version(), "unknown");
}
