//! The registry, the resolver, and the synchronous build session.

use std::sync::Arc;

use facet::BuildRequestError;
use facet::Construct;
use facet::Factory;
use facet::FactoryConfigError;
use facet::FactoryError;
use facet::UnitDescriptor;

fn unit(name: &str, deps: Vec<usize>) -> UnitDescriptor {
    UnitDescriptor { name: name.to_string(), deps, params: vec![] }
}

/// low has no dependencies, mid depends on low, high depends on mid and on
/// the external parameter the builder holds.
fn chain_factory() -> Factory {
    let mut high = unit("high", vec![1]);
    high.params = vec![0];
    Factory::new(vec![unit("low", vec![]), unit("mid", vec![0]), high], 1).unwrap()
}

fn pos(plan: &[usize], u: usize) -> usize {
    plan.iter().position(|&x| x == u).unwrap()
}

/// A construction-function table that logs every invocation, optionally
/// fails one unit, and builds each handle around the unit's name and the
/// external parameter.
struct Recorder {
    log: Vec<usize>,
    fail_on: Option<usize>,
    param: Arc<String>,
}

impl Recorder {
    fn new(param: &str) -> Recorder {
        Recorder { log: Vec::new(), fail_on: None, param: Arc::new(param.to_string()) }
    }
}

impl Construct<Arc<String>> for Recorder {
    fn construct(
        &mut self,
        factory: &Factory,
        unit: usize,
        built: &Vec<Option<Arc<String>>>,
    ) -> Result<Arc<String>, anyhow::Error> {
        self.log.push(unit);
        if self.fail_on == Some(unit) {
            return Err(anyhow::Error::msg("boom"));
        }
        let descriptor = factory.unit(unit);
        let mut text = descriptor.name.clone();
        for &d in descriptor.deps.iter() {
            assert!(built[d].is_some(), "dependency built before its dependent");
            text = format!("{}<-{}", text, built[d].as_ref().unwrap());
        }
        for _ in descriptor.params.iter() {
            text = format!("{}({})", text, self.param);
        }
        Ok(Arc::new(text))
    }
}

#[test]
fn registration_rejects_unknown_dependency() {
    let err = Factory::new(vec![unit("a", vec![]), unit("b", vec![7])], 0).unwrap_err();
    match err {
        FactoryConfigError::UnknownDependency { unit, dep } => {
            assert_eq!(unit, 1);
            assert_eq!(dep, 7);
        }
        _ => panic!("expected an unknown-dependency error"),
    }
}

#[test]
fn registration_rejects_unknown_parameter() {
    let mut a = unit("a", vec![]);
    a.params = vec![2];
    let err = Factory::new(vec![a], 1).unwrap_err();
    match err {
        FactoryConfigError::UnknownParameter { unit, param } => {
            assert_eq!(unit, 0);
            assert_eq!(param, 2);
        }
        _ => panic!("expected an unknown-parameter error"),
    }
}

#[test]
fn registration_accepts_valid_graph() {
    let f = chain_factory();
    assert_eq!(f.len(), 3);
    assert_eq!(f.n_params(), 1);
    assert_eq!(f.unit(2).name, "high");
}

#[test]
fn find_unit_by_name() {
    let f = chain_factory();
    assert_eq!(f.find_unit(&"mid".to_string()), Some(1));
    assert_eq!(f.find_unit(&"nothing".to_string()), None);
}

#[test]
fn plan_orders_dependencies() {
    let f = chain_factory();
    let plan = f.plan(&vec![2]).unwrap();
    assert_eq!(plan.len(), 3);
    assert!(pos(&plan, 0) < pos(&plan, 1));
    assert!(pos(&plan, 1) < pos(&plan, 2));
}

#[test]
fn plan_for_leaf_excludes_dependents() {
    let f = chain_factory();
    let plan = f.plan(&vec![0]).unwrap();
    assert_eq!(plan, vec![0]);
}

#[test]
fn plan_rejects_cycle_before_any_construction() {
    let f = Factory::new(
        vec![unit("a", vec![1]), unit("b", vec![2]), unit("c", vec![0])],
        0,
    )
    .unwrap();
    let mut builder = Recorder::new("p");
    match f.plan(&vec![0]) {
        Err(FactoryConfigError::DependencyCycle { path }) => {
            assert!(path.len() >= 2);
            assert_eq!(path.first(), path.last());
        }
        _ => panic!("expected a dependency-cycle error"),
    }
    // Resolution failed at registration: nothing was ever constructed.
    assert!(builder.log.is_empty());
}

#[test]
fn plan_rejects_self_cycle() {
    let f = Factory::new(vec![unit("selfish", vec![0])], 0).unwrap();
    match f.plan(&vec![0]) {
        Err(FactoryConfigError::DependencyCycle { path }) => {
            assert_eq!(path, vec![0, 0]);
        }
        _ => panic!("expected a dependency-cycle error"),
    }
}

#[test]
fn cycle_unreachable_from_request_is_tolerated() {
    // The cycle sits outside the needed-set of the request, so the pairing
    // of this factory with a container that only needs `a` is fine.
    let f = Factory::new(
        vec![unit("a", vec![]), unit("b", vec![2]), unit("c", vec![1])],
        0,
    )
    .unwrap();
    assert_eq!(f.plan(&vec![0]).unwrap(), vec![0]);
    assert!(f.plan(&vec![1]).is_err());
}

#[test]
fn session_builds_each_unit_once() {
    let f = chain_factory();
    let plan = f.plan(&vec![2]).unwrap();
    let mut builder = Recorder::new("n");
    let cache = f.run_plan(&plan, &mut builder).unwrap();
    for u in 0..3 {
        assert_eq!(builder.log.iter().filter(|&&x| x == u).count(), 1);
    }
    assert_eq!(builder.log, plan);
    assert!(cache.iter().all(|slot| slot.is_some()));
    assert_eq!(cache[2].as_ref().unwrap().as_str(), "high<-mid<-low(n)");
}

#[test]
fn session_fail_fast_names_failing_unit() {
    // `extra` depends on `high`; when `high` fails, `extra` never builds.
    let mut units = vec![unit("low", vec![]), unit("mid", vec![0]), unit("high", vec![1])];
    units.push(unit("extra", vec![2]));
    let f = Factory::new(units, 0).unwrap();
    let plan = f.plan(&vec![3]).unwrap();
    let mut builder = Recorder::new("p");
    builder.fail_on = Some(2);
    let err = f.run_plan(&plan, &mut builder).unwrap_err();
    let FactoryError::FacetBuildFailed { name, source } = err;
    assert_eq!(name, "high");
    assert_eq!(source.to_string(), "boom");
    assert!(!builder.log.contains(&3));
    assert_eq!(builder.log, vec![0, 1, 2]);
}

#[test]
fn session_skips_unneeded_units() {
    let f = chain_factory();
    let plan = f.plan(&vec![0]).unwrap();
    let mut builder = Recorder::new("p");
    let cache = f.run_plan(&plan, &mut builder).unwrap();
    assert_eq!(builder.log, vec![0]);
    assert!(cache[0].is_some());
    assert!(cache[1].is_none());
    assert!(cache[2].is_none());
}

#[test]
fn session_builds_independent_units_in_some_order() {
    // a and b are independent; both feed c.  The sync session builds both,
    // each before c; which of the two goes first is not promised.
    let f = Factory::new(vec![unit("a", vec![]), unit("b", vec![]), unit("c", vec![0, 1])], 0)
        .unwrap();
    let plan = f.plan(&vec![2]).unwrap();
    let mut builder = Recorder::new("p");
    let cache = f.run_plan(&plan, &mut builder).unwrap();
    assert!(cache.iter().all(|slot| slot.is_some()));
    assert!(pos(&builder.log, 0) < pos(&builder.log, 2));
    assert!(pos(&builder.log, 1) < pos(&builder.log, 2));
}

#[test]
fn two_builds_never_share_instances() {
    let f = chain_factory();
    let plan = f.plan(&vec![2]).unwrap();
    let mut builder = Recorder::new("p");
    let first = f.run_plan(&plan, &mut builder).unwrap();
    let second = f.run_plan(&plan, &mut builder).unwrap();
    for u in 0..3 {
        let a = first[u].as_ref().unwrap();
        let b = second[u].as_ref().unwrap();
        assert!(!Arc::ptr_eq(a, b));
    }
}

/// A builder that hands the very same externally supplied handle to every
/// session: sharing across builds happens only when the caller threads a
/// handle in like this.
struct SharingBuilder {
    shared: Arc<String>,
}

impl Construct<Arc<String>> for SharingBuilder {
    fn construct(
        &mut self,
        _factory: &Factory,
        _unit: usize,
        _built: &Vec<Option<Arc<String>>>,
    ) -> Result<Arc<String>, anyhow::Error> {
        Ok(self.shared.clone())
    }
}

#[test]
fn explicit_external_handle_is_shared() {
    let f = Factory::new(vec![unit("only", vec![])], 0).unwrap();
    let plan = f.plan(&vec![0]).unwrap();
    let mut builder = SharingBuilder { shared: Arc::new("kept".to_string()) };
    let first = f.run_plan(&plan, &mut builder).unwrap();
    let second = f.run_plan(&plan, &mut builder).unwrap();
    assert!(Arc::ptr_eq(first[0].as_ref().unwrap(), second[0].as_ref().unwrap()));
}

#[test]
fn one_shot_build_covers_exactly_the_needed_units() {
    let f = chain_factory();
    let mut builder = Recorder::new("q");
    let cache = f.build_requested(&vec![1], &mut builder).unwrap();
    assert!(cache[0].is_some());
    assert!(cache[1].is_some());
    assert!(cache[2].is_none());
}

#[test]
fn one_shot_build_reports_cycle_as_config_error() {
    let f = Factory::new(vec![unit("a", vec![1]), unit("b", vec![0])], 0).unwrap();
    let mut builder = Recorder::new("q");
    match f.build_requested(&vec![0], &mut builder) {
        Err(BuildRequestError::Config(FactoryConfigError::DependencyCycle { path })) => {
            assert_eq!(path.first(), path.last());
        }
        _ => panic!("expected a configuration error"),
    }
    assert!(builder.log.is_empty());
}

#[test]
fn one_shot_build_reports_construction_failure() {
    let f = chain_factory();
    let mut builder = Recorder::new("q");
    builder.fail_on = Some(1);
    match f.build_requested(&vec![2], &mut builder) {
        Err(BuildRequestError::Construction(FactoryError::FacetBuildFailed { name, .. })) => {
            assert_eq!(name, "mid");
        }
        _ => panic!("expected a construction failure"),
    }
}

#[test]
fn error_reports_unit_name() {
    let err = FactoryError::FacetBuildFailed {
        name: "noisy".to_string(),
        source: anyhow::Error::msg("cause"),
    };
    assert_eq!(err.unit_name().as_str(), "noisy");
}
