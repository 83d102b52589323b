//! The synchronous build session.
//!
//! A session takes a resolved plan and walks it in order, invoking each
//! unit's construction function exactly once, handing it the cache of
//! already-built dependency handles, caching the handle it returns, and
//! stopping at the first failure, which it attributes to the failing unit
//! by name.  No partial result escapes a failed session.

use vstd::prelude::*;

use crate::error::FactoryError;
use crate::graph::needed_by;
use crate::graph::Factory;
use crate::graph::UnitDescriptor;
use crate::resolve::deps_before;
use crate::resolve::deps_ordered;
use crate::resolve::listed_before;
use crate::resolve::valid_plan;

verus! {

/// A plan a session can execute: every unit once, in range, after all of
/// its declared dependencies.
pub open spec fn runnable_plan(units: Seq<UnitDescriptor>, plan: Seq<usize>) -> bool {
    &&& plan.no_duplicates()
    &&& forall|k: int| 0 <= k < plan.len() ==> (#[trigger] plan[k] as int) < units.len()
    &&& deps_ordered(units, plan)
}

/// A plan the resolver found valid for some request is runnable.
pub proof fn lemma_valid_plan_runnable(
    units: Seq<UnitDescriptor>,
    roots: Seq<usize>,
    plan: Seq<usize>,
)
    requires
        valid_plan(units, roots, plan),
    ensures
        runnable_plan(units, plan),
{
}

/// The construction functions of one factory's units.
///
/// The build engine invokes `construct` once per planned unit and never
/// before every declared dependency of that unit has a handle in `built`;
/// an implementation reads its dependency handles from `built` and its
/// external parameters from itself, and returns the new unit's handle, or
/// the cause of its failure.
pub trait Construct<V> {
    /// Build the unit `unit` of `factory`.
    fn construct(&mut self, factory: &Factory, unit: usize, built: &Vec<Option<V>>) -> (r:
        Result<V, anyhow::Error>)
        requires
            factory.wf(),
            (unit as int) < factory.units().len(),
            built.len() == factory.units().len(),
            forall|kd: int|
                0 <= kd < factory.units()[unit as int].deps@.len()
                    ==> built@[#[trigger] factory.units()[unit as int].deps@[kd] as int] is Some,
    ;
}

impl Factory {
    /// Execute a resolved plan: build every planned unit exactly once, in
    /// plan order, and cache its handle for its dependents.
    ///
    /// On success the returned cache holds a handle for exactly the
    /// planned units.  On the first construction failure the session stops
    /// and returns only that failure, named after the failing planned
    /// unit: no partial cache escapes.
    pub fn run_plan<V, C: Construct<V>>(&self, plan: &Vec<usize>, builder: &mut C) -> (r: Result<
        Vec<Option<V>>,
        FactoryError,
    >)
        requires
            self.wf(),
            runnable_plan(self.units(), plan@),
        ensures
            match r {
                Ok(cache) => cache.len() == self.units().len() && forall|u: usize|
                    (u as int) < cache.len() ==> (cache[u as int] is Some <==> plan@.contains(u)),
                Err(e) => exists|k: int|
                    0 <= k < plan@.len() && e.spec_name() == self.units()[#[trigger] plan@[
                    k] as int].name@,
            },
    {
        let ghost units = self.units();
        let n = self.len();
        let mut cache: Vec<Option<V>> = Vec::new();
        let mut i: usize = 0;
        while i < n
            invariant
                i <= n,
                i as int == cache.len(),
                forall|u: int| 0 <= u < i as int ==> cache@[u] is None,
            decreases n - i,
        {
            cache.push(None);
            i += 1;
        }
        let n_plan = plan.len();
        let mut k: usize = 0;
        while k < n_plan
            invariant
                self.wf(),
                units == self.units(),
                n as int == units.len(),
                n_plan == plan@.len(),
                k <= n_plan,
                runnable_plan(units, plan@),
                cache.len() == n as int,
                forall|u: usize|
                    (u as int) < n as int ==> (cache@[u as int] is Some <==> listed_before(
                        plan@,
                        k as int,
                        u,
                    )),
            decreases n_plan - k,
        {
            let u = plan[k];
            proof {
                assert(deps_before(units, plan@, k as int));
                assert forall|kd: int|
                    0 <= kd < units[u as int].deps@.len() implies cache@[#[trigger] units[
                    u as int].deps@[kd] as int] is Some by {
                    let d = units[u as int].deps@[kd];
                    assert(listed_before(plan@, k as int, d));
                }
            }
            match builder.construct(self, u, &cache) {
                Ok(v) => {
                    let ghost cache_pre = cache@;
                    cache.set(u, Some(v));
                    proof {
                        assert forall|u0: usize| (u0 as int) < n as int implies (cache@[
                            u0 as int] is Some <==> listed_before(plan@, k as int + 1, u0)) by {
                            if u0 == u {
                                assert(plan@[k as int] == u0);
                                assert(listed_before(plan@, k as int + 1, u0));
                            } else {
                                if listed_before(plan@, k as int, u0) {
                                    let l = choose|l: int|
                                        0 <= l < k as int && plan@[l] == u0;
                                    assert(listed_before(plan@, k as int + 1, u0));
                                }
                                if listed_before(plan@, k as int + 1, u0) {
                                    let l = choose|l: int|
                                        0 <= l < k as int + 1 && plan@[l] == u0;
                                    assert(l < k as int);
                                    assert(listed_before(plan@, k as int, u0));
                                }
                            }
                        }
                    }
                },
                Err(cause) => {
                    let name = self.unit(u).name.clone();
                    proof {
                        assert(plan@[k as int] == u);
                    }
                    return Err(FactoryError::FacetBuildFailed { name, source: cause });
                },
            }
            k += 1;
        }
        proof {
            assert forall|u: usize| (u as int) < cache.len() implies (cache@[u as int] is Some
                <==> plan@.contains(u)) by {
                if listed_before(plan@, n_plan as int, u) {
                    let l = choose|l: int| 0 <= l < n_plan as int && plan@[l] == u;
                    assert(plan@[l] == u);
                }
                if plan@.contains(u) {
                    let l = choose|l: int| 0 <= l < plan@.len() && plan@[l] == u;
                    assert(listed_before(plan@, n_plan as int, u));
                }
            }
        }
        Ok(cache)
    }
}

/// A failed build request: either the factory/container pairing is
/// misconfigured — found at resolution, before any construction function
/// runs — or exactly one named unit's construction failed.
#[derive(Debug)]
pub enum BuildRequestError {
    /// The pairing cannot be built at all, whatever the parameters.
    Config(crate::graph::FactoryConfigError),
    /// One unit's construction function failed.
    Construction(FactoryError),
}

impl Factory {
    /// Serve one build request in a single call: resolve the needed-set of
    /// the directly requested units in `roots`, order it, and build it.
    ///
    /// On success the cache holds a handle for exactly the needed units.
    /// A cycle among them is a configuration error, returned before any
    /// construction function runs; a construction failure is returned as
    /// the one named failure of this build.
    pub fn build_requested<V, C: Construct<V>>(&self, roots: &Vec<usize>, builder: &mut C) -> (r:
        Result<Vec<Option<V>>, BuildRequestError>)
        requires
            self.wf(),
            forall|k: int|
                0 <= k < roots@.len() ==> (#[trigger] roots@[k] as int) < self.units().len(),
        ensures
            match r {
                Ok(cache) => crate::graph::cycle_free(self.units(), roots@) && cache.len()
                    == self.units().len() && forall|u: usize|
                    (u as int) < cache.len() ==> (cache[u as int] is Some <==> needed_by(
                        self.units(),
                        roots@,
                        u,
                    )),
                Err(BuildRequestError::Config(e)) => !crate::graph::cycle_free(
                    self.units(),
                    roots@,
                ) && e matches crate::graph::FactoryConfigError::DependencyCycle { .. },
                Err(BuildRequestError::Construction(e)) => exists|u: usize|
                    (u as int) < self.units().len() && #[trigger] needed_by(
                        self.units(),
                        roots@,
                        u,
                    ) && e.spec_name() == self.units()[u as int].name@,
            },
    {
        let ghost units = self.units();
        match self.plan(roots) {
            Err(e) => Err(BuildRequestError::Config(e)),
            Ok(plan) => {
                proof {
                    lemma_valid_plan_runnable(units, roots@, plan@);
                }
                match self.run_plan(&plan, builder) {
                    Ok(cache) => {
                        proof {
                            assert forall|u: usize| (u as int) < cache.len() implies (cache@[
                                u as int] is Some <==> needed_by(units, roots@, u)) by {
                                if plan@.contains(u) {
                                    let k = choose|k: int|
                                        0 <= k < plan@.len() && plan@[k] == u;
                                    assert(needed_by(units, roots@, plan@[k]));
                                }
                            }
                        }
                        Ok(cache)
                    },
                    Err(e) => {
                        proof {
                            let k = choose|k: int|
                                0 <= k < plan@.len() && e.spec_name() == units[plan@[
                                k] as int].name@;
                            assert(needed_by(units, roots@, plan@[k]));
                        }
                        Err(BuildRequestError::Construction(e))
                    },
                }
            },
        }
    }
}

} // verus!
