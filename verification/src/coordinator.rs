//! The asynchronous build coordinator.
//!
//! Instead of committing to one static order, the coordinator marks the
//! units a container needs (each mark recursively marks the unit's
//! dependencies, idempotently) and then hands out waves: in each pass,
//! every needed unit whose dependencies are all built is eligible, and all
//! eligible units may be constructed concurrently.  Completions and
//! failures are recorded back; only the first recorded failure is kept,
//! later ones are discarded, and the kept failure can be taken exactly
//! once.  The driving loop — which actually awaits the concurrent
//! constructions — stays outside the engine; every decision it acts on is
//! made here.

use vstd::prelude::*;

use crate::error::AsyncFactoryError;
use crate::error::FactoryError;
use crate::graph::reaches;
use crate::graph::Factory;
use crate::graph::UnitDescriptor;
use crate::resolve::closed_under_deps;
use crate::resolve::mark_reachable;

verus! {

/// Independent units never wait for each other.  Whether `a` may start
/// construction does not depend on the slot of a unit `a` does not
/// transitively depend on: if `a` is eligible in one session state, it
/// stays eligible in any state with the same needed-set whose cache
/// differs only at such a unit `b`.  So two needed units with no
/// dependency path between them become eligible each as soon as its own
/// dependencies are built, in the same wave when that happens together,
/// and their constructions may overlap.
pub proof fn lemma_independent_no_wait<V>(
    c1: &AsyncCoordinator<V>,
    c2: &AsyncCoordinator<V>,
    units: Seq<UnitDescriptor>,
    a: usize,
    b: usize,
)
    requires
        crate::graph::units_wf(units),
        c1.eligible(units, a),
        !reaches(units, a, b),
        a != b,
        c1.cache().len() == units.len(),
        c2.needs() == c1.needs(),
        c2.cache().len() == c1.cache().len(),
        forall|u: int|
            0 <= u < c1.cache().len() && u != b as int ==> (#[trigger] c2.cache()[u] is Some
                <==> c1.cache()[u] is Some),
    ensures
        c2.eligible(units, a),
{
    assert(c2.cache()[a as int] is None);
    assert forall|kd: int|
        0 <= kd < units[a as int].deps@.len() implies c2.cache()[#[trigger] units[
    a as int].deps@[kd] as int] is Some by {
        let d = units[a as int].deps@[kd];
        assert(crate::graph::edge(units, a, d));
        if d == b {
            crate::graph::lemma_reaches_self(units, a);
            crate::graph::lemma_reaches_step(units, a, a, d);
        }
        assert(c1.cache()[d as int] is Some);
    }
}

/// In a stalled session — no unit eligible although some needed unit still
/// lacks a handle — following unbuilt dependencies from such a unit yields
/// an arbitrarily long dependency path of needed, unbuilt units.
proof fn lemma_stalled_long_path<V>(
    c: &AsyncCoordinator<V>,
    f: &Factory,
    p: Seq<usize>,
) -> (q: Seq<usize>)
    requires
        f.wf(),
        c.consistent(f),
        forall|u: usize| !c.eligible(f.units(), u),
        crate::graph::is_path(f.units(), p),
        p.len() >= 1,
        p.len() <= f.units().len() + 1,
        forall|k: int|
            0 <= k < p.len() ==> c.needs()[#[trigger] p[k] as int]
                && c.cache()[p[k] as int] is None,
    ensures
        crate::graph::is_path(f.units(), q),
        q.len() == f.units().len() + 1,
        forall|k: int|
            0 <= k < q.len() ==> c.needs()[#[trigger] q[k] as int]
                && c.cache()[q[k] as int] is None,
    decreases f.units().len() + 1 - p.len(),
{
    let units = f.units();
    if p.len() == units.len() + 1 {
        p
    } else {
        let last = p.last();
        assert((last as int) < units.len());
        assert(!c.eligible(units, last));
        assert(!(forall|kd: int|
            0 <= kd < units[last as int].deps@.len() ==> c.cache()[#[trigger] units[
            last as int].deps@[kd] as int] is Some));
        let kd = choose|kd: int|
            0 <= kd < units[last as int].deps@.len() && !(c.cache()[units[last as int].deps@[
            kd] as int] is Some);
        let d = units[last as int].deps@[kd];
        assert(units[last as int].deps@.contains(d));
        assert(crate::graph::edge(units, last, d));
        assert(c.needs()[d as int]);
        let p2 = p.push(d);
        assert(crate::graph::is_path(units, p2)) by {
            assert forall|k: int| 0 <= k < p2.len() - 1 implies crate::graph::edge(
                units,
                #[trigger] p2[k],
                p2[k + 1],
            ) by {
                if k < p.len() - 1 {
                    assert(p2[k] == p[k] && p2[k + 1] == p[k + 1]);
                } else {
                    assert(p2[k] == last && p2[k + 1] == d);
                }
            }
        }
        lemma_stalled_long_path(c, f, p2)
    }
}

/// On a cycle-free needed-set the coordinator never stalls: as long as any
/// needed unit still lacks a handle, some unit is eligible — whatever has
/// failed or succeeded so far — so every wave before completion is
/// nonempty and the build makes progress.
pub proof fn lemma_wave_progress<V>(c: &AsyncCoordinator<V>, f: &Factory, pending: usize)
    requires
        f.wf(),
        c.consistent(f),
        forall|u: usize|
            (u as int) < f.units().len() && c.needs()[u as int] ==> !crate::graph::on_cycle(
                f.units(),
                u,
            ),
        (pending as int) < f.units().len(),
        c.needs()[pending as int],
        c.cache()[pending as int] is None,
    ensures
        exists|u: usize| c.eligible(f.units(), u),
{
    let units = f.units();
    if !(exists|u: usize| c.eligible(units, u)) {
        assert(forall|u: usize| !c.eligible(units, u));
        let p0 = seq![pending];
        assert(crate::graph::is_path(units, p0));
        let q = lemma_stalled_long_path(c, f, p0);
        if q.no_duplicates() {
            crate::resolve::lemma_distinct_bounded(q, units.len() as int);
        }
        assert(!q.no_duplicates());
        let (i0, j0) = choose|i0: int, j0: int|
            0 <= i0 < q.len() && 0 <= j0 < q.len() && i0 != j0 && q[i0] == q[j0];
        let i = if i0 < j0 {
            i0
        } else {
            j0
        };
        let j = if i0 < j0 {
            j0
        } else {
            i0
        };
        let cyc = q.subrange(i, j + 1);
        assert(cyc.len() >= 2);
        assert(crate::graph::is_path(units, cyc)) by {
            assert forall|k: int| 0 <= k < cyc.len() implies (#[trigger] cyc[k] as int)
                < units.len() by {
                assert(cyc[k] == q[i + k]);
            }
            assert forall|k: int| 0 <= k < cyc.len() - 1 implies crate::graph::edge(
                units,
                #[trigger] cyc[k],
                cyc[k + 1],
            ) by {
                assert(cyc[k] == q[i + k] && cyc[k + 1] == q[i + k + 1]);
            }
        }
        assert(cyc.first() == q[i] && cyc.last() == q[j]);
        assert(crate::graph::on_cycle(units, q[i]));
        assert(c.needs()[q[i] as int]);
        assert(false);
    }
}

/// The transient state of one asynchronous build session.
pub struct AsyncCoordinator<V> {
    needed: Vec<bool>,
    built: Vec<Option<V>>,
    failure: Option<AsyncFactoryError>,
}

impl<V> AsyncCoordinator<V> {
    /// Which units have been marked as needed.
    pub closed spec fn needs(&self) -> Seq<bool> {
        self.needed@
    }

    /// The cache of built unit handles.
    pub closed spec fn cache(&self) -> Seq<Option<V>> {
        self.built@
    }

    /// The first recorded failure, if one was recorded and not yet taken.
    pub closed spec fn first_failure(&self) -> Option<FactoryError> {
        match self.failure {
            Some(slot) => slot.pending(),
            None => None,
        }
    }

    /// A kept failure slot always still holds its failure: the slot is
    /// filled when the first failure is recorded and removed whole when the
    /// failure is taken.
    pub closed spec fn failure_wf(&self) -> bool {
        match self.failure {
            Some(slot) => slot.pending() is Some,
            None => true,
        }
    }

    /// The coordinator tracks one slot per unit of `f`, its needed-set is
    /// closed under dependencies, and only needed units are ever built.
    pub open spec fn consistent(&self, f: &Factory) -> bool {
        &&& self.needs().len() == f.units().len()
        &&& self.cache().len() == f.units().len()
        &&& closed_under_deps(f.units(), self.needs())
        &&& forall|u: int|
            0 <= u < self.cache().len() && self.cache()[u] is Some ==> self.needs()[u]
        &&& self.failure_wf()
    }

    /// Unit `u` may start construction right now: it is needed, not built
    /// yet, and every declared dependency already has a handle.
    pub open spec fn eligible(&self, units: Seq<UnitDescriptor>, u: usize) -> bool {
        &&& (u as int) < units.len()
        &&& self.needs()[u as int]
        &&& self.cache()[u as int] is None
        &&& forall|kd: int|
            0 <= kd < units[u as int].deps@.len()
                ==> self.cache()[#[trigger] units[u as int].deps@[kd] as int] is Some
    }

    /// A fresh session for `f`: nothing needed, nothing built, no failure.
    pub fn new(f: &Factory) -> (r: AsyncCoordinator<V>)
        ensures
            r.consistent(f),
            forall|u: int| 0 <= u < r.needs().len() ==> !r.needs()[u],
            forall|u: int| 0 <= u < r.cache().len() ==> r.cache()[u] is None,
            r.first_failure() is None,
    {
        let n = f.len();
        let mut needed: Vec<bool> = Vec::new();
        let mut built: Vec<Option<V>> = Vec::new();
        let mut i: usize = 0;
        while i < n
            invariant
                i <= n,
                i as int == needed.len(),
                i as int == built.len(),
                forall|u: int| 0 <= u < i as int ==> !needed@[u],
                forall|u: int| 0 <= u < i as int ==> built@[u] is None,
            decreases n - i,
        {
            needed.push(false);
            built.push(None);
            i += 1;
        }
        AsyncCoordinator { needed, built, failure: None }
    }

    /// Mark `unit` as needed, and with it, recursively, every unit it
    /// depends on.  Marking is idempotent and never unmarks anything, so
    /// the needed-set grows by exactly the units `unit` reaches.
    pub fn need(&mut self, f: &Factory, unit: usize)
        requires
            f.wf(),
            old(self).consistent(f),
            (unit as int) < f.units().len(),
        ensures
            final(self).consistent(f),
            forall|u: int|
                0 <= u < final(self).needs().len() ==> (final(self).needs()[u] <==> old(
                    self,
                ).needs()[u] || reaches(f.units(), unit, u as usize)),
            final(self).cache() == old(self).cache(),
            final(self).first_failure() == old(self).first_failure(),
    {
        mark_reachable(f, &mut self.needed, unit);
    }

    /// The current wave: every unit that is eligible to start construction
    /// right now, each once.  All of them may build concurrently; a unit
    /// missing from the wave either is not needed, already has a handle,
    /// or still waits on an unbuilt dependency.
    pub fn ready_units(&self, f: &Factory) -> (w: Vec<usize>)
        requires
            f.wf(),
            self.consistent(f),
        ensures
            w@.no_duplicates(),
            forall|u: usize| #[trigger] w@.contains(u) <==> self.eligible(f.units(), u),
    {
        let ghost units = f.units();
        let n = f.len();
        let mut w: Vec<usize> = Vec::new();
        let mut u: usize = 0;
        while u < n
            invariant
                f.wf(),
                units == f.units(),
                n as int == units.len(),
                self.consistent(f),
                u <= n,
                w@.no_duplicates(),
                forall|k: int| 0 <= k < w@.len() ==> (#[trigger] w@[k] as int) < u as int,
                forall|u0: usize|
                    (u0 as int) < u as int ==> (w@.contains(u0) <==> self.eligible(units, u0)),
            decreases n - u,
        {
            let mut ready = self.needed[u] && self.built[u].is_none();
            if ready {
                let deps = &f.unit(u).deps;
                let n_deps = deps.len();
                let mut k: usize = 0;
                while k < n_deps
                    invariant
                        (u as int) < units.len(),
                        self.cache().len() == units.len(),
                        self.needs().len() == units.len(),
                        units == f.units(),
                        deps@ == units[u as int].deps@,
                        n_deps == deps@.len(),
                        k <= n_deps,
                        f.wf(),
                        self.needs()[u as int],
                        self.cache()[u as int] is None,
                        ready <==> forall|kd: int|
                            0 <= kd < k ==> self.cache()[#[trigger] deps@[kd] as int] is Some,
                    decreases n_deps - k,
                {
                    if self.built[deps[k]].is_none() {
                        ready = false;
                    }
                    k += 1;
                }
            }
            let ghost w_pre = w@;
            if ready {
                w.push(u);
            }
            proof {
                if ready {
                    assert(self.eligible(units, u));
                    assert(w@ =~= w_pre.push(u));
                    assert(w@[w@.len() - 1] == u);
                } else {
                    assert(!self.eligible(units, u));
                }
                assert forall|u0: usize| (u0 as int) < u as int + 1 implies (w@.contains(u0)
                    <==> self.eligible(units, u0)) by {
                    if u0 == u {
                        if !ready && w@.contains(u0) {
                            let k0 = choose|k0: int| 0 <= k0 < w@.len() && w@[k0] == u0;
                            assert(w_pre[k0] == u0);
                        }
                    } else {
                        if w_pre.contains(u0) {
                            crate::resolve::lemma_prefix_contains(w_pre, w@, u0);
                        }
                        if w@.contains(u0) {
                            let k0 = choose|k0: int| 0 <= k0 < w@.len() && w@[k0] == u0;
                            if ready && k0 == w@.len() - 1 {
                                assert(w@[k0] == u);
                            } else {
                                assert(w_pre[k0] == u0);
                            }
                        }
                    }
                }
            }
            u += 1;
        }
        w
    }

    /// Record that `unit`'s construction function returned a handle.
    ///
    /// A slot is written at most once per session: a unit that already has
    /// a handle is never rebuilt, so the cache only ever grows.
    pub fn record_success(&mut self, f: &Factory, unit: usize, value: V)
        requires
            f.wf(),
            old(self).consistent(f),
            (unit as int) < f.units().len(),
            old(self).needs()[unit as int],
            old(self).cache()[unit as int] is None,
        ensures
            final(self).consistent(f),
            final(self).cache() == old(self).cache().update(unit as int, Some(value)),
            final(self).needs() == old(self).needs(),
            final(self).first_failure() == old(self).first_failure(),
    {
        self.built.set(unit, Some(value));
    }

    /// Record that `unit`'s construction function failed with `cause`.
    ///
    /// Only the first recorded failure is kept; every later one is
    /// discarded, as its construction's result would have been.
    pub fn record_failure(&mut self, f: &Factory, unit: usize, cause: anyhow::Error)
        requires
            f.wf(),
            old(self).consistent(f),
            (unit as int) < f.units().len(),
        ensures
            final(self).consistent(f),
            final(self).cache() == old(self).cache(),
            final(self).needs() == old(self).needs(),
            old(self).first_failure() is Some ==> final(self).first_failure() == old(
                self,
            ).first_failure(),
            old(self).first_failure() is None ==> match final(self).first_failure() {
                Some(e) => e.spec_name() == f.units()[unit as int].name@ && e.spec_source()
                    == cause,
                None => false,
            },
    {
        if self.failure.is_none() {
            let name = f.unit(unit).name.clone();
            let err = FactoryError::FacetBuildFailed { name, source: cause };
            self.failure = Some(AsyncFactoryError::new_pending(err));
        }
    }

    /// Whether `unit` has been marked as needed.
    pub fn is_needed(&self, unit: usize) -> (r: bool)
        requires
            (unit as int) < self.needs().len(),
        ensures
            r <==> self.needs()[unit as int],
    {
        self.needed[unit]
    }

    /// Whether `unit` already has a built handle.
    pub fn is_built(&self, unit: usize) -> (r: bool)
        requires
            (unit as int) < self.cache().len(),
        ensures
            r <==> self.cache()[unit as int] is Some,
    {
        self.built[unit].is_some()
    }

    /// Whether a failure has been recorded and not yet taken.
    pub fn has_failure(&self) -> (r: bool)
        requires
            self.failure_wf(),
        ensures
            r <==> self.first_failure() is Some,
    {
        self.failure.is_some()
    }

    /// Take the first recorded failure out of the session.
    ///
    /// The failure slot is read exactly once, when the overall build
    /// resolves to it; asking again without a new recorded failure is a
    /// defect in the driving code, so a pending failure is demanded.
    pub fn take_failure(&mut self) -> (r: FactoryError)
        requires
            old(self).first_failure() is Some,
        ensures
            r == old(self).first_failure().unwrap(),
            final(self).first_failure() is None,
            final(self).failure_wf(),
            final(self).cache() == old(self).cache(),
            final(self).needs() == old(self).needs(),
    {
        let slot = self.failure.take();
        slot.unwrap().factory_error()
    }

    /// Surrender the cache of built handles for container assembly.
    ///
    /// Only a fully successful session gives its handles out: after a
    /// failure, or while needed units are still unbuilt, no partial set is
    /// observable.
    pub fn into_cache(self, f: &Factory) -> (r: Vec<Option<V>>)
        requires
            f.wf(),
            self.consistent(f),
            self.first_failure() is None,
            forall|u: int|
                0 <= u < self.needs().len() && self.needs()[u] ==> self.cache()[u] is Some,
        ensures
            r@ == self.cache(),
    {
        self.built
    }

    /// Whether every needed unit has a handle.
    pub fn all_built(&self, f: &Factory) -> (r: bool)
        requires
            f.wf(),
            self.consistent(f),
        ensures
            r <==> forall|u: int|
                0 <= u < self.needs().len() && self.needs()[u] ==> self.cache()[u] is Some,
    {
        let n = self.needed.len();
        let mut u: usize = 0;
        while u < n
            invariant
                n as int == self.needs().len(),
                self.cache().len() == self.needs().len(),
                u <= n,
                forall|v: int| 0 <= v < u as int && self.needs()[v] ==> self.cache()[v] is Some,
            decreases n - u,
        {
            if self.needed[u] && self.built[u].is_none() {
                return false;
            }
            u += 1;
        }
        true
    }
}

} // verus!
