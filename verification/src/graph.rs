//! Unit descriptors, the factory registry, and the dependency graph
//! resolver.
//!
//! A factory is a closed set of unit descriptors.  Each descriptor names one
//! buildable unit and declares, by index into the same factory, the units it
//! depends on, and, by index into the caller-supplied parameter list, the
//! external parameters its construction function borrows.  The resolver
//! computes, for the units a container directly requests, the transitive
//! needed-set, and orders it topologically so that every unit stands after
//! all of its dependencies; a dependency cycle reachable from the requested
//! units makes resolution fail at registration time, before any
//! construction function runs.

use vstd::prelude::*;

verus! {

/// Immutable configuration for one buildable unit.
#[derive(Debug)]
pub struct UnitDescriptor {
    /// The unit's stable name, used for cycle and failure reporting.
    pub name: String,
    /// Indices of the units this unit's construction depends on.
    pub deps: Vec<usize>,
    /// Indices of the external parameters this unit's construction borrows.
    pub params: Vec<usize>,
}

/// A configuration defect in a factory or in a factory/container pairing.
///
/// These are registration-time errors: a factory that carries one can never
/// be built from, whatever parameters a build is invoked with, so they are
/// surfaced before any build session starts.
#[derive(Debug)]
pub enum FactoryConfigError {
    /// A unit declares a dependency index that names no unit of the factory.
    UnknownDependency {
        /// The declaring unit.
        unit: usize,
        /// The out-of-range dependency index.
        dep: usize,
    },
    /// A unit declares a parameter index that names no external parameter.
    UnknownParameter {
        /// The declaring unit.
        unit: usize,
        /// The out-of-range parameter index.
        param: usize,
    },
    /// The units required by a requested container contain a dependency
    /// cycle.  The carried path visits each unit of one such cycle in
    /// dependency order, and its last element repeats its first.
    DependencyCycle {
        /// A dependency path whose last unit equals its first.
        path: Vec<usize>,
    },
}

/// There is a declared dependency edge from unit `a` to unit `b`.
pub open spec fn edge(units: Seq<UnitDescriptor>, a: usize, b: usize) -> bool {
    (a as int) < units.len() && units[a as int].deps@.contains(b)
}

/// `p` walks the declared dependency edges: every element names a unit of
/// the factory and each step follows one edge.
pub open spec fn is_path(units: Seq<UnitDescriptor>, p: Seq<usize>) -> bool {
    &&& p.len() >= 1
    &&& forall|k: int| 0 <= k < p.len() ==> (#[trigger] p[k] as int) < units.len()
    &&& forall|k: int| 0 <= k < p.len() - 1 ==> edge(units, #[trigger] p[k], p[k + 1])
}

/// Unit `b` is `a` itself or a transitive dependency of `a`.
pub open spec fn reaches(units: Seq<UnitDescriptor>, a: usize, b: usize) -> bool {
    exists|p: Seq<usize>| is_path(units, p) && p.first() == a && p.last() == b
}

/// Unit `u` lies in the needed-set of the requested roots: it is a root or
/// a transitive dependency of one.
pub open spec fn needed_by(units: Seq<UnitDescriptor>, roots: Seq<usize>, u: usize) -> bool {
    exists|r: usize| roots.contains(r) && reaches(units, r, u)
}

/// Unit `u` lies on a dependency cycle.
pub open spec fn on_cycle(units: Seq<UnitDescriptor>, u: usize) -> bool {
    exists|p: Seq<usize>|
        is_path(units, p) && p.len() >= 2 && p.first() == u && p.last() == u
}

/// No unit in the needed-set of `roots` lies on a dependency cycle.
pub open spec fn cycle_free(units: Seq<UnitDescriptor>, roots: Seq<usize>) -> bool {
    forall|u: usize| needed_by(units, roots, u) ==> !on_cycle(units, u)
}

/// Every declared dependency index of every unit names a unit.
pub open spec fn units_wf(units: Seq<UnitDescriptor>) -> bool {
    forall|i: int, k: int|
        0 <= i < units.len() && 0 <= k < units[i].deps@.len()
            ==> (#[trigger] units[i].deps@[k] as int) < units.len()
}

/// Every declared parameter index of every unit is in range.
pub open spec fn params_wf(units: Seq<UnitDescriptor>, n_params: int) -> bool {
    forall|i: int, k: int|
        0 <= i < units.len() && 0 <= k < units[i].params@.len()
            ==> (#[trigger] units[i].params@[k] as int) < n_params
}

/// Every unit reaches itself by the one-element path.
pub proof fn lemma_reaches_self(units: Seq<UnitDescriptor>, a: usize)
    requires
        (a as int) < units.len(),
    ensures
        reaches(units, a, a),
{
    let p = seq![a];
    assert(is_path(units, p));
    assert(p.first() == a && p.last() == a);
}

/// Reachability extends across one declared dependency edge.
pub proof fn lemma_reaches_step(units: Seq<UnitDescriptor>, a: usize, b: usize, c: usize)
    requires
        reaches(units, a, b),
        edge(units, b, c),
        (c as int) < units.len(),
    ensures
        reaches(units, a, c),
{
    let p = choose|p: Seq<usize>| is_path(units, p) && p.first() == a && p.last() == b;
    let q = p.push(c);
    assert forall|k: int| 0 <= k < q.len() - 1 implies edge(units, #[trigger] q[k], q[k + 1]) by {
        if k < p.len() - 1 {
            assert(q[k] == p[k] && q[k + 1] == p[k + 1]);
        } else {
            assert(q[k] == p.last() && q[k + 1] == c);
        }
    }
    assert(is_path(units, q));
    assert(q.first() == a && q.last() == c);
}

/// Reachability is transitive: paths concatenate.
pub proof fn lemma_reaches_trans(units: Seq<UnitDescriptor>, a: usize, b: usize, c: usize)
    requires
        reaches(units, a, b),
        reaches(units, b, c),
    ensures
        reaches(units, a, c),
{
    let p = choose|p: Seq<usize>| is_path(units, p) && p.first() == a && p.last() == b;
    let q = choose|q: Seq<usize>| is_path(units, q) && q.first() == b && q.last() == c;
    let r = p + q.drop_first();
    assert forall|k: int| 0 <= k < r.len() implies (#[trigger] r[k] as int) < units.len() by {
        if k < p.len() {
            assert(r[k] == p[k]);
        } else {
            assert(r[k] == q[k - p.len() + 1]);
        }
    }
    assert forall|k: int| 0 <= k < r.len() - 1 implies edge(units, #[trigger] r[k], r[k + 1]) by {
        if k < p.len() - 1 {
            assert(r[k] == p[k] && r[k + 1] == p[k + 1]);
        } else if k == p.len() - 1 {
            assert(r[k] == p.last());
            if q.len() >= 2 {
                assert(r[k + 1] == q[1]);
                assert(edge(units, q[0], q[1]));
            }
        } else {
            assert(r[k] == q[k - p.len() + 1] && r[k + 1] == q[k - p.len() + 2]);
        }
    }
    if q.len() == 1 {
        assert(r =~= p);
    } else {
        assert(is_path(units, r));
        assert(r.first() == a && r.last() == q.last());
    }
}

/// The needed-set is closed under declared dependency edges.
pub proof fn lemma_needed_step(
    units: Seq<UnitDescriptor>,
    roots: Seq<usize>,
    a: usize,
    b: usize,
)
    requires
        needed_by(units, roots, a),
        edge(units, a, b),
        (b as int) < units.len(),
    ensures
        needed_by(units, roots, b),
{
    let r = choose|r: usize| roots.contains(r) && reaches(units, r, a);
    lemma_reaches_step(units, r, a, b);
}

/// A set of units that contains `p.first()` and is closed under dependency
/// edges contains every unit of `p`, in particular `p.last()`.
pub proof fn lemma_closed_covers_path(
    units: Seq<UnitDescriptor>,
    marked: Seq<bool>,
    p: Seq<usize>,
)
    requires
        marked.len() == units.len(),
        is_path(units, p),
        marked[p.first() as int],
        forall|x: usize, y: usize|
            (x as int) < marked.len() && marked[x as int] && #[trigger] edge(units, x, y) && (
            y as int) < marked.len() ==> marked[y as int],
    ensures
        marked[p.last() as int],
    decreases p.len(),
{
    if p.len() > 1 {
        assert(edge(units, p[0], p[1]));
        let q = p.drop_first();
        assert(is_path(units, q));
        assert(marked[q.first() as int]);
        lemma_closed_covers_path(units, marked, q);
        assert(q.last() == p.last());
    }
}

/// A validated factory: a closed set of unit descriptors whose declared
/// dependency and parameter references all resolve.
#[derive(Debug)]
pub struct Factory {
    units: Vec<UnitDescriptor>,
    n_params: usize,
}

impl Factory {
    /// The factory's unit descriptors.
    pub closed spec fn units(&self) -> Seq<UnitDescriptor> {
        self.units@
    }

    /// How many external parameters the factory's builds accept.
    pub closed spec fn spec_n_params(&self) -> int {
        self.n_params as int
    }

    /// Every dependency names a unit of this factory and every parameter
    /// reference names a declared external parameter.
    pub open spec fn wf(&self) -> bool {
        units_wf(self.units()) && params_wf(self.units(), self.spec_n_params())
    }

    /// Register a factory from its unit descriptors.
    ///
    /// Validation happens here, once, before any build: a dependency or
    /// parameter index that resolves to nothing is a configuration error
    /// and the registration is refused.
    pub fn new(units: Vec<UnitDescriptor>, n_params: usize) -> (r: Result<
        Factory,
        FactoryConfigError,
    >)
        ensures
            r matches Ok(f) ==> f.wf() && f.units() == units@ && f.spec_n_params()
                == n_params as int,
            r is Err ==> !(units_wf(units@) && params_wf(
                units@,
                n_params as int,
            )),
    {
        let n = units.len();
        let mut i: usize = 0;
        while i < n
            invariant
                n == units@.len(),
                forall|i0: int, k: int|
                    0 <= i0 < i && 0 <= k < units@[i0].deps@.len()
                        ==> (#[trigger] units@[i0].deps@[k] as int) < n as int,
                forall|i0: int, k: int|
                    0 <= i0 < i && 0 <= k < units@[i0].params@.len()
                        ==> (#[trigger] units@[i0].params@[k] as int) < n_params as int,
            decreases n - i,
        {
            let n_deps = units[i].deps.len();
            let mut k: usize = 0;
            while k < n_deps
                invariant
                    i < n,
                    n == units@.len(),
                    n_deps == units@[i as int].deps@.len(),
                    forall|k0: int|
                        0 <= k0 < k ==> (#[trigger] units@[i as int].deps@[k0] as int) < n as int,
                decreases n_deps - k,
            {
                let d = units[i].deps[k];
                if d >= n {
                    return Err(FactoryConfigError::UnknownDependency { unit: i, dep: d });
                }
                k += 1;
            }
            let n_ps = units[i].params.len();
            let mut k: usize = 0;
            while k < n_ps
                invariant
                    i < n,
                    n == units@.len(),
                    n_ps == units@[i as int].params@.len(),
                    forall|k0: int|
                        0 <= k0 < k ==> (#[trigger] units@[i as int].params@[k0] as int)
                            < n_params as int,
                decreases n_ps - k,
            {
                let p = units[i].params[k];
                if p >= n_params {
                    return Err(FactoryConfigError::UnknownParameter { unit: i, param: p });
                }
                k += 1;
            }
            i += 1;
        }
        Ok(Factory { units, n_params })
    }

    /// How many units the factory declares.
    pub fn len(&self) -> (r: usize)
        ensures
            r as int == self.units().len(),
    {
        self.units.len()
    }

    /// How many external parameters the factory's builds accept.
    pub fn n_params(&self) -> (r: usize)
        ensures
            r as int == self.spec_n_params(),
    {
        self.n_params
    }

    /// The descriptor of unit `i`.
    pub fn unit(&self, i: usize) -> (r: &UnitDescriptor)
        requires
            (i as int) < self.units().len(),
        ensures
            *r == self.units()[i as int],
    {
        &self.units[i]
    }

    /// Look a unit up by its stable name.
    pub fn find_unit(&self, name: &String) -> (r: Option<usize>)
        ensures
            match r {
                Some(i) => (i as int) < self.units().len() && self.units()[i as int].name@
                    == name@,
                None => forall|i: int|
                    0 <= i < self.units().len() ==> (#[trigger] self.units()[i].name@) != name@,
            },
    {
        let n = self.units.len();
        let mut i: usize = 0;
        while i < n
            invariant
                n == self.units().len(),
                forall|i0: int| 0 <= i0 < i ==> (#[trigger] self.units()[i0].name@) != name@,
            decreases n - i,
        {
            if self.units[i].name.eq(name) {
                return Some(i);
            }
            i += 1;
        }
        None
    }
}

} // verus!
