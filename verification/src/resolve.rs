//! The dependency graph resolver: needed-set computation, topological
//! ordering, and cycle detection with an explicit witness.

use vstd::prelude::*;

use crate::graph::edge;
use crate::graph::is_path;
use crate::graph::lemma_closed_covers_path;
use crate::graph::lemma_needed_step;
use crate::graph::lemma_reaches_self;
use crate::graph::lemma_reaches_step;
use crate::graph::needed_by;
use crate::graph::on_cycle;
use crate::graph::reaches;
use crate::graph::Factory;
use crate::graph::FactoryConfigError;
use crate::graph::UnitDescriptor;

verus! {

/// Unit `d` stands somewhere before position `k` of `order`.
pub open spec fn listed_before(order: Seq<usize>, k: int, d: usize) -> bool {
    exists|l: int| 0 <= l < k && order[l] == d
}

/// Every declared dependency of the unit at position `k` of `order`
/// stands at an earlier position of `order`.
pub open spec fn deps_before(units: Seq<UnitDescriptor>, order: Seq<usize>, k: int) -> bool {
    forall|kd: int|
        0 <= kd < units[order[k] as int].deps@.len() ==> listed_before(
            order,
            k,
            #[trigger] units[order[k] as int].deps@[kd],
        )
}

/// Every unit of `order` stands after all of its declared dependencies.
pub open spec fn deps_ordered(units: Seq<UnitDescriptor>, order: Seq<usize>) -> bool {
    forall|k: int| 0 <= k < order.len() ==> #[trigger] deps_before(units, order, k)
}

/// Appending a unit whose dependencies are all already listed keeps an
/// order dependency-respecting.
pub proof fn lemma_deps_ordered_push(units: Seq<UnitDescriptor>, order: Seq<usize>, u: usize)
    requires
        (u as int) < units.len(),
        deps_ordered(units, order),
        forall|kd: int|
            0 <= kd < units[u as int].deps@.len() ==> order.contains(
                #[trigger] units[u as int].deps@[kd],
            ),
    ensures
        deps_ordered(units, order.push(u)),
{
    let t = order.push(u);
    assert forall|k: int| 0 <= k < t.len() implies #[trigger] deps_before(units, t, k) by {
        if k < order.len() {
            assert(deps_before(units, order, k));
            assert forall|kd: int|
                0 <= kd < units[t[k] as int].deps@.len() implies listed_before(
                t,
                k,
                #[trigger] units[t[k] as int].deps@[kd],
            ) by {
                assert(t[k] == order[k]);
                let d = units[order[k] as int].deps@[kd];
                assert(listed_before(order, k, d));
                let l = choose|l: int| 0 <= l < k && order[l] == d;
                assert(t[l] == d);
            }
        } else {
            assert(t[k] == u);
            assert forall|kd: int|
                0 <= kd < units[t[k] as int].deps@.len() implies listed_before(
                t,
                k,
                #[trigger] units[t[k] as int].deps@[kd],
            ) by {
                let d = units[u as int].deps@[kd];
                assert(order.contains(d));
                let l = choose|l: int| 0 <= l < order.len() && order[l] == d;
                assert(t[l] == d);
            }
        }
    }
}

/// `plan` is a correct build order for the units that `roots` need: it
/// lists exactly the needed-set, each unit once, and every unit only after
/// all of its declared dependencies.
pub open spec fn valid_plan(
    units: Seq<UnitDescriptor>,
    roots: Seq<usize>,
    plan: Seq<usize>,
) -> bool {
    &&& plan.no_duplicates()
    &&& forall|k: int|
        0 <= k < plan.len() ==> (#[trigger] plan[k] as int) < units.len() && needed_by(
            units,
            roots,
            plan[k],
        )
    &&& forall|u: usize|
        (u as int) < units.len() && #[trigger] needed_by(units, roots, u) ==> plan.contains(u)
    &&& deps_ordered(units, plan)
}

/// The position of unit `u` in a duplicate-free plan.
pub open spec fn plan_pos(plan: Seq<usize>, u: usize) -> int {
    choose|k: int| 0 <= k < plan.len() && plan[k] == u
}

/// In a duplicate-free plan, `plan_pos` is the one index holding `u`.
pub proof fn lemma_plan_pos(plan: Seq<usize>, u: usize, k: int)
    requires
        plan.no_duplicates(),
        0 <= k < plan.len(),
        plan[k] == u,
    ensures
        plan_pos(plan, u) == k,
{
    assert(exists|k0: int| 0 <= k0 < plan.len() && plan[k0] == u);
    let k0 = plan_pos(plan, u);
    assert(0 <= k0 < plan.len() && plan[k0] == u);
}

/// A declared dependency always stands strictly earlier in a valid plan
/// than the unit declaring it.
pub proof fn lemma_dep_pos_decreases(
    units: Seq<UnitDescriptor>,
    roots: Seq<usize>,
    plan: Seq<usize>,
    a: usize,
    b: usize,
)
    requires
        valid_plan(units, roots, plan),
        edge(units, a, b),
        needed_by(units, roots, a),
        (a as int) < units.len(),
    ensures
        plan.contains(a),
        plan.contains(b),
        plan_pos(plan, b) < plan_pos(plan, a),
{
    assert(plan.contains(a));
    let k = choose|k: int| 0 <= k < plan.len() && plan[k] == a;
    lemma_plan_pos(plan, a, k);
    assert(deps_before(units, plan, k));
    let kd = choose|kd: int| 0 <= kd < units[a as int].deps@.len() && units[a as int].deps@[kd] == b;
    assert(units[plan[k] as int].deps@[kd] == b);
    assert(listed_before(plan, k, b));
    let l = choose|l: int| 0 <= l < k && plan[l] == b;
    lemma_plan_pos(plan, b, l);
}

/// Along any dependency path inside the needed-set, the plan position
/// strictly decreases from the path's first unit to its last.
pub proof fn lemma_path_pos_decreases(
    units: Seq<UnitDescriptor>,
    roots: Seq<usize>,
    plan: Seq<usize>,
    p: Seq<usize>,
)
    requires
        valid_plan(units, roots, plan),
        is_path(units, p),
        needed_by(units, roots, p.first()),
        p.len() >= 2,
    ensures
        plan_pos(plan, p.last()) < plan_pos(plan, p.first()),
    decreases p.len(),
{
    assert(edge(units, p[0], p[1]));
    lemma_needed_step(units, roots, p[0], p[1]);
    lemma_dep_pos_decreases(units, roots, plan, p[0], p[1]);
    if p.len() > 2 {
        let q = p.drop_first();
        assert(is_path(units, q));
        lemma_path_pos_decreases(units, roots, plan, q);
        assert(q.first() == p[1] && q.last() == p.last());
    }
}

/// The needed-set is closed under transitive dependency: what a needed
/// unit reaches is needed too.
pub proof fn lemma_needed_reaches(
    units: Seq<UnitDescriptor>,
    roots: Seq<usize>,
    a: usize,
    b: usize,
)
    requires
        needed_by(units, roots, a),
        reaches(units, a, b),
    ensures
        needed_by(units, roots, b),
{
    let r = choose|r: usize| roots.contains(r) && reaches(units, r, a);
    crate::graph::lemma_reaches_trans(units, r, a, b);
}

/// Dependencies are built first: in any valid plan, each needed unit is
/// listed exactly once and stands strictly after every unit it
/// transitively depends on.
pub proof fn lemma_plan_builds_deps_first(
    units: Seq<UnitDescriptor>,
    roots: Seq<usize>,
    plan: Seq<usize>,
    a: usize,
    b: usize,
)
    requires
        valid_plan(units, roots, plan),
        needed_by(units, roots, a),
        (a as int) < units.len(),
        reaches(units, a, b),
        a != b,
    ensures
        plan.contains(a),
        plan.contains(b),
        plan_pos(plan, b) < plan_pos(plan, a),
{
    lemma_needed_reaches(units, roots, a, b);
    let p = choose|p: Seq<usize>| is_path(units, p) && p.first() == a && p.last() == b;
    assert(p.len() >= 2);
    lemma_path_pos_decreases(units, roots, plan, p);
    assert(plan.contains(a));
    assert(plan.contains(b));
}

/// A valid plan exists only for a cycle-free needed-set: whatever order a
/// cycle's units stood in, each would have to stand before itself.
pub proof fn lemma_valid_plan_cycle_free(
    units: Seq<UnitDescriptor>,
    roots: Seq<usize>,
    plan: Seq<usize>,
)
    requires
        valid_plan(units, roots, plan),
    ensures
        crate::graph::cycle_free(units, roots),
{
    assert forall|u: usize| needed_by(units, roots, u) implies !on_cycle(units, u) by {
        if on_cycle(units, u) {
            let p = choose|p: Seq<usize>|
                is_path(units, p) && p.len() >= 2 && p.first() == u && p.last() == u;
            lemma_path_pos_decreases(units, roots, plan, p);
        }
    }
}

/// How many slots of `s` are still false.
pub open spec fn count_false(s: Seq<bool>) -> nat
    decreases s.len(),
{
    if s.len() == 0 {
        0
    } else {
        count_false(s.drop_last()) + (if s.last() {
            0nat
        } else {
            1nat
        })
    }
}

/// Setting a false slot to true strictly lowers the number of false slots.
pub proof fn lemma_count_false_update(s: Seq<bool>, i: int)
    requires
        0 <= i < s.len(),
        !s[i],
    ensures
        count_false(s.update(i, true)) < count_false(s),
    decreases s.len(),
{
    let t = s.update(i, true);
    if i == s.len() - 1 {
        assert(t.drop_last() =~= s.drop_last());
    } else {
        assert(t.drop_last() =~= s.drop_last().update(i, true));
        lemma_count_false_update(s.drop_last(), i);
    }
}

/// A sequence that extends another keeps everything the shorter one holds.
pub proof fn lemma_prefix_contains(s: Seq<usize>, t: Seq<usize>, y: usize)
    requires
        s.is_prefix_of(t),
        s.contains(y),
    ensures
        t.contains(y),
{
    let j = choose|j: int| 0 <= j < s.len() && s[j] == y;
    assert(t[j] == y);
}

/// A duplicate-free sequence of unit indices below `n` has at most `n`
/// elements.
pub proof fn lemma_distinct_bounded(p: Seq<usize>, n: int)
    requires
        p.no_duplicates(),
        forall|k: int| 0 <= k < p.len() ==> (#[trigger] p[k] as int) < n,
        n >= 0,
    ensures
        p.len() <= n,
{
    broadcast use vstd::seq_lib::seq_to_set_is_finite;

    let q = p.map_values(|x: usize| x as int);
    assert(q.no_duplicates()) by {
        assert forall|i: int, j: int|
            0 <= i < q.len() && 0 <= j < q.len() && i != j implies q[i] != q[j] by {
            assert(q[i] == p[i] as int && q[j] == p[j] as int);
            assert(p[i] != p[j]);
        }
    }
    q.unique_seq_to_set();
    vstd::set_lib::lemma_int_range(0, n);
    assert(q.to_set().subset_of(vstd::set_lib::set_int_range(0, n))) by {
        assert forall|x: int| q.to_set().contains(x) implies vstd::set_lib::set_int_range(
            0,
            n,
        ).contains(x) by {
            let k = choose|k: int| 0 <= k < q.len() && q[k] == x;
            assert(q[k] == p[k] as int);
        }
    }
    vstd::set_lib::lemma_len_subset(q.to_set(), vstd::set_lib::set_int_range(0, n));
}

/// Marking the same unit as needed twice is a no-op: whatever the second
/// marking would add, the first already added.
pub proof fn lemma_marking_idempotent(
    m0: Seq<bool>,
    m1: Seq<bool>,
    m2: Seq<bool>,
    units: Seq<UnitDescriptor>,
    start: usize,
)
    requires
        m1.len() == m0.len(),
        m2.len() == m1.len(),
        forall|u: int|
            0 <= u < m1.len() ==> (m1[u] <==> m0[u] || reaches(units, start, u as usize)),
        forall|u: int|
            0 <= u < m2.len() ==> (m2[u] <==> m1[u] || reaches(units, start, u as usize)),
    ensures
        m2 =~= m1,
{
}

/// Marked slots are closed under declared dependency edges: whatever a
/// marked unit depends on is marked too.
pub open spec fn closed_under_deps(units: Seq<UnitDescriptor>, marked: Seq<bool>) -> bool {
    forall|x: usize, y: usize|
        (x as int) < marked.len() && marked[x as int] && #[trigger] edge(units, x, y) && (
        y as int) < marked.len() ==> marked[y as int]
}

/// Mark `start` and everything it transitively depends on.
///
/// This is the needed-set closure of the resolver, and also the "mark as
/// needed" operation of the asynchronous coordinator: marking is idempotent
/// and only ever adds units, so a unit already marked — by an earlier root
/// or an earlier `need` call — is left alone together with its whole
/// subgraph.
pub fn mark_reachable(f: &Factory, marked: &mut Vec<bool>, start: usize)
    requires
        f.wf(),
        old(marked).len() == f.units().len(),
        (start as int) < f.units().len(),
        closed_under_deps(f.units(), old(marked)@),
    ensures
        final(marked).len() == old(marked).len(),
        forall|u: int|
            0 <= u < final(marked).len() ==> (final(marked)@[u] <==> old(marked)@[u] || reaches(
                f.units(),
                start,
                u as usize,
            )),
        closed_under_deps(f.units(), final(marked)@),
{
    let ghost units = f.units();
    let ghost m0 = marked@;
    let n = f.len();
    let mut stack: Vec<usize> = Vec::new();
    stack.push(start);
    proof {
        lemma_reaches_self(units, start);
        assert(stack@[0] == start);
    }
    while stack.len() > 0
        invariant
            f.wf(),
            units == f.units(),
            marked.len() == n as int,
            m0.len() == n as int,
            n as int == units.len(),
            (start as int) < n as int,
            forall|u: int| 0 <= u < n as int && m0[u] ==> marked@[u],
            forall|u: int|
                0 <= u < n as int && #[trigger] marked@[u] ==> m0[u] || reaches(
                    units,
                    start,
                    u as usize,
                ),
            forall|j: int|
                0 <= j < stack@.len() ==> (#[trigger] stack@[j] as int) < n as int && reaches(
                    units,
                    start,
                    stack@[j],
                ),
            forall|x: usize, y: usize|
                (x as int) < n as int && marked@[x as int] && #[trigger] edge(units, x, y) && (
                y as int) < n as int ==> marked@[y as int] || stack@.contains(y),
            marked@[start as int] || stack@.contains(start),
        decreases count_false(marked@), stack@.len(),
    {
        let ghost stack_pre = stack@;
        let u = stack.pop().unwrap();
        let ghost bottom = stack_pre.drop_last();
        assert(stack_pre.last() == u);
        assert(stack@ =~= bottom);
        if !marked[u] {
            let ghost m_pre = marked@;
            marked.set(u, true);
            proof {
                lemma_count_false_update(m_pre, u as int);
            }
            let deps = &f.unit(u).deps;
            let n_deps = deps.len();
            let mut k: usize = 0;
            while k < n_deps
                invariant
                    f.wf(),
                    units == f.units(),
                    (u as int) < units.len(),
                    deps@ == units[u as int].deps@,
                    n_deps == deps@.len(),
                    k <= n_deps,
                    marked.len() == n as int,
                    n as int == units.len(),
                    (start as int) < n as int,
                    marked@[u as int],
                    reaches(units, start, u),
                    bottom.is_prefix_of(stack@),
                    forall|k0: int|
                        0 <= k0 < k ==> stack@.contains(#[trigger] deps@[k0]),
                    forall|j: int|
                        0 <= j < stack@.len() ==> (#[trigger] stack@[j] as int) < n as int
                            && reaches(units, start, stack@[j]),
                decreases n_deps - k,
            {
                let ghost sp = stack@;
                let d = deps[k];
                assert(edge(units, u, d));
                proof {
                    lemma_reaches_step(units, start, u, d);
                }
                stack.push(d);
                proof {
                    assert(stack@ =~= sp.push(d));
                    assert(stack@[stack@.len() - 1] == d);
                    assert forall|k0: int| 0 <= k0 < k + 1 implies stack@.contains(
                        #[trigger] deps@[k0],
                    ) by {
                        if k0 < k {
                            lemma_prefix_contains(sp, stack@, deps@[k0]);
                        }
                    }
                    assert(bottom.is_prefix_of(stack@));
                }
                k += 1;
            }
            proof {
                assert forall|x: usize, y: usize|
                    (x as int) < n as int && marked@[x as int] && #[trigger] edge(units, x, y)
                        && (y as int) < n as int implies marked@[y as int] || stack@.contains(
                    y,
                ) by {
                    if x == u {
                        let kd = choose|kd: int|
                            0 <= kd < units[u as int].deps@.len() && units[u as int].deps@[kd]
                                == y;
                        assert(stack@.contains(units[u as int].deps@[kd]));
                    } else {
                        assert(m_pre[x as int]);
                        if !m_pre[y as int] && stack_pre.contains(y) {
                            let j = choose|j: int| 0 <= j < stack_pre.len() && stack_pre[j] == y;
                            if j < stack_pre.len() - 1 {
                                assert(bottom[j] == y);
                                lemma_prefix_contains(bottom, stack@, y);
                            } else {
                                assert(y == u);
                            }
                        }
                    }
                }
                if !marked@[start as int] && stack_pre.contains(start) {
                    let j = choose|j: int| 0 <= j < stack_pre.len() && stack_pre[j] == start;
                    if j < stack_pre.len() - 1 {
                        assert(bottom[j] == start);
                        lemma_prefix_contains(bottom, stack@, start);
                    }
                }
            }
        } else {
            proof {
                assert forall|x: usize, y: usize|
                    (x as int) < n as int && marked@[x as int] && #[trigger] edge(units, x, y)
                        && (y as int) < n as int implies marked@[y as int] || stack@.contains(
                    y,
                ) by {
                    if !marked@[y as int] && stack_pre.contains(y) {
                        let j = choose|j: int| 0 <= j < stack_pre.len() && stack_pre[j] == y;
                        if j < stack_pre.len() - 1 {
                            assert(stack@[j] == y);
                        } else {
                            assert(y == u);
                        }
                    }
                }
                if !marked@[start as int] && stack_pre.contains(start) {
                    let j = choose|j: int| 0 <= j < stack_pre.len() && stack_pre[j] == start;
                    if j < stack_pre.len() - 1 {
                        assert(stack@[j] == start);
                    } else {
                        assert(start == u);
                    }
                }
            }
        }
    }
    proof {
        assert forall|u: int|
            0 <= u < marked@.len() && reaches(units, start, u as usize) implies marked@[u] by {
            let p = choose|p: Seq<usize>|
                is_path(units, p) && p.first() == start && p.last() == u as usize;
            lemma_closed_covers_path(units, marked@, p);
        }
    }
}

/// A vector of `n` false flags, one per unit.
fn false_flags(n: usize) -> (r: Vec<bool>)
    ensures
        r.len() == n,
        forall|u: int| 0 <= u < n as int ==> !r@[u],
{
    let mut r: Vec<bool> = Vec::new();
    let mut i: usize = 0;
    while i < n
        invariant
            i <= n,
            i as int == r.len(),
            forall|u: int| 0 <= u < i as int ==> !r@[u],
        decreases n - i,
    {
        r.push(false);
        i += 1;
    }
    r
}

/// Whether every declared dependency of `u` is already placed.
fn deps_placed(f: &Factory, u: usize, placed: &Vec<bool>) -> (r: bool)
    requires
        f.wf(),
        (u as int) < f.units().len(),
        placed.len() == f.units().len(),
    ensures
        r <==> forall|kd: int|
            0 <= kd < f.units()[u as int].deps@.len()
                ==> placed@[#[trigger] f.units()[u as int].deps@[kd] as int],
{
    let deps = &f.unit(u).deps;
    let n_deps = deps.len();
    let mut k: usize = 0;
    while k < n_deps
        invariant
            f.wf(),
            (u as int) < f.units().len(),
            placed.len() == f.units().len(),
            deps@ == f.units()[u as int].deps@,
            n_deps == deps@.len(),
            forall|kd: int| 0 <= kd < k ==> placed@[#[trigger] deps@[kd] as int],
        decreases n_deps - k,
    {
        if !placed[deps[k]] {
            return false;
        }
        k += 1;
    }
    true
}

/// Some declared dependency of `cur` that is not placed yet.
fn find_unplaced_dep(f: &Factory, cur: usize, placed: &Vec<bool>) -> (d: usize)
    requires
        f.wf(),
        (cur as int) < f.units().len(),
        placed.len() == f.units().len(),
        exists|kd: int|
            0 <= kd < f.units()[cur as int].deps@.len()
                && !placed@[#[trigger] f.units()[cur as int].deps@[kd] as int],
    ensures
        edge(f.units(), cur, d),
        (d as int) < f.units().len(),
        !placed@[d as int],
{
    let deps = &f.unit(cur).deps;
    let n_deps = deps.len();
    let mut k: usize = 0;
    while k < n_deps
        invariant
            f.wf(),
            (cur as int) < f.units().len(),
            placed.len() == f.units().len(),
            deps@ == f.units()[cur as int].deps@,
            n_deps == deps@.len(),
            exists|kd: int|
                0 <= kd < deps@.len() && !placed@[#[trigger] deps@[kd] as int],
            forall|kd: int| 0 <= kd < k ==> placed@[#[trigger] deps@[kd] as int],
        decreases n_deps - k,
    {
        let d = deps[k];
        if !placed[d] {
            assert(deps@[k as int] == d);
            return d;
        }
        k += 1;
    }
    proof {
        let kd = choose|kd: int| 0 <= kd < deps@.len() && !placed@[deps@[kd] as int];
        assert(false);
    }
    0
}

impl Factory {
    /// Resolve the build order for a container that directly requests the
    /// units in `roots`.
    ///
    /// On success the returned plan lists exactly the requested units and
    /// their transitive dependencies, each once, every unit after all of
    /// its dependencies.  Resolution succeeds if and only if no needed unit
    /// lies on a dependency cycle; a cycle makes the factory/container
    /// pairing a configuration defect, reported here, at registration,
    /// before any construction function ever runs.
    pub fn plan(&self, roots: &Vec<usize>) -> (r: Result<Vec<usize>, FactoryConfigError>)
        requires
            self.wf(),
            forall|k: int|
                0 <= k < roots@.len() ==> (#[trigger] roots@[k] as int) < self.units().len(),
        ensures
            match r {
                Ok(plan) => valid_plan(self.units(), roots@, plan@) && crate::graph::cycle_free(
                    self.units(),
                    roots@,
                ),
                Err(e) => match e {
                    FactoryConfigError::DependencyCycle { path } => is_path(self.units(), path@)
                        && path@.len() >= 2 && path@.first() == path@.last() && needed_by(
                        self.units(),
                        roots@,
                        path@.first(),
                    ) && !crate::graph::cycle_free(self.units(), roots@),
                    _ => false,
                },
            },
    {
        let ghost units = self.units();
        let n = self.len();
        // The needed-set: the requested units and their transitive
        // dependencies.
        let mut needed: Vec<bool> = false_flags(n);
        let n_roots = roots.len();
        let mut i: usize = 0;
        while i < n_roots
            invariant
                self.wf(),
                units == self.units(),
                n as int == units.len(),
                n_roots == roots@.len(),
                i <= n_roots,
                needed.len() == n as int,
                forall|k: int|
                    0 <= k < roots@.len() ==> (#[trigger] roots@[k] as int) < units.len(),
                closed_under_deps(units, needed@),
                forall|u: int|
                    0 <= u < n as int ==> (needed@[u] <==> exists|j: int|
                        0 <= j < i && reaches(units, #[trigger] roots@[j], u as usize)),
            decreases n_roots - i,
        {
            let ghost pre = needed@;
            mark_reachable(self, &mut needed, roots[i]);
            proof {
                assert forall|u: int| 0 <= u < n as int implies (needed@[u] <==> exists|j: int|
                    0 <= j < i + 1 && reaches(units, #[trigger] roots@[j], u as usize)) by {
                    if needed@[u] {
                        if pre[u] {
                            let j = choose|j: int|
                                0 <= j < i && reaches(units, roots@[j], u as usize);
                            assert(reaches(units, roots@[j], u as usize));
                        } else {
                            assert(reaches(units, roots@[i as int], u as usize));
                        }
                    }
                    if exists|j: int|
                        0 <= j < i + 1 && reaches(units, #[trigger] roots@[j], u as usize) {
                        let j = choose|j: int|
                            0 <= j < i + 1 && reaches(units, roots@[j], u as usize);
                        if j < i {
                            assert(pre[u]);
                        } else {
                            assert(reaches(units, roots@[i as int], u as usize));
                        }
                        assert(needed@[u]);
                    }
                }
            }
            i += 1;
        }
        proof {
            assert forall|u: int| 0 <= u < n as int implies (needed@[u] <==> needed_by(
                units,
                roots@,
                u as usize,
            )) by {
                if needed@[u] {
                    let j = choose|j: int| 0 <= j < n_roots && reaches(units, roots@[j], u as usize);
                    assert(roots@.contains(roots@[j]));
                }
                if needed_by(units, roots@, u as usize) {
                    let rt = choose|rt: usize|
                        roots@.contains(rt) && reaches(units, rt, u as usize);
                    let j = choose|j: int| 0 <= j < roots@.len() && roots@[j] == rt;
                    assert(reaches(units, roots@[j], u as usize));
                }
            }
        }
        // Topological ordering by repeated sweeps: place a unit once all
        // of its dependencies are placed; stop when a sweep places nothing.
        let mut placed: Vec<bool> = false_flags(n);
        let mut order: Vec<usize> = Vec::new();
        loop
            invariant
                self.wf(),
                units == self.units(),
                n as int == units.len(),
                needed.len() == n as int,
                placed.len() == n as int,
                closed_under_deps(units, needed@),
                forall|u: int| 0 <= u < n as int ==> (needed@[u] <==> needed_by(
                    units,
                    roots@,
                    u as usize,
                )),
                forall|u: int| 0 <= u < n as int && #[trigger] placed@[u] ==> needed@[u],
                order@.no_duplicates(),
                forall|u: usize|
                    (u as int) < n as int ==> (placed@[u as int] <==> order@.contains(u)),
                forall|k: int|
                    0 <= k < order@.len() ==> (#[trigger] order@[k] as int) < n as int,
                deps_ordered(units, order@),
            ensures
                self.wf(),
                units == self.units(),
                n as int == units.len(),
                needed.len() == n as int,
                placed.len() == n as int,
                forall|u: int| 0 <= u < n as int ==> (needed@[u] <==> needed_by(
                    units,
                    roots@,
                    u as usize,
                )),
                forall|u: int| 0 <= u < n as int && #[trigger] placed@[u] ==> needed@[u],
                order@.no_duplicates(),
                forall|u: usize|
                    (u as int) < n as int ==> (placed@[u as int] <==> order@.contains(u)),
                forall|k: int|
                    0 <= k < order@.len() ==> (#[trigger] order@[k] as int) < n as int,
                deps_ordered(units, order@),
                forall|v: int|
                    0 <= v < n as int && needed@[v] && !placed@[v] ==> exists|kd: int|
                        0 <= kd < units[v].deps@.len()
                            && !placed@[#[trigger] units[v].deps@[kd] as int],
            decreases count_false(placed@),
        {
            let ghost placed_pre = placed@;
            let mut progress = false;
            let mut u: usize = 0;
            while u < n
                invariant
                    self.wf(),
                    units == self.units(),
                    n as int == units.len(),
                    needed.len() == n as int,
                    placed.len() == n as int,
                    closed_under_deps(units, needed@),
                    forall|u0: int| 0 <= u0 < n as int ==> (needed@[u0] <==> needed_by(
                        units,
                        roots@,
                        u0 as usize,
                    )),
                    forall|u0: int| 0 <= u0 < n as int && #[trigger] placed@[u0] ==> needed@[u0],
                    order@.no_duplicates(),
                    forall|u0: usize|
                        (u0 as int) < n as int ==> (placed@[u0 as int] <==> order@.contains(u0)),
                    forall|k: int|
                        0 <= k < order@.len() ==> (#[trigger] order@[k] as int) < n as int,
                    deps_ordered(units, order@),
                    !progress ==> placed@ == placed_pre,
                    !progress ==> forall|v: int|
                        0 <= v < u as int && needed@[v] && !placed@[v] ==> exists|kd: int|
                            0 <= kd < units[v].deps@.len()
                                && !placed@[#[trigger] units[v].deps@[kd] as int],
                    progress ==> count_false(placed@) < count_false(placed_pre),
                decreases n - u,
            {
                if needed[u] && !placed[u] && deps_placed(self, u, &placed) {
                    let ghost order_pre = order@;
                    let ghost placed_mid = placed@;
                    order.push(u);
                    placed.set(u, true);
                    proof {
                        lemma_count_false_update(placed_mid, u as int);
                        if !progress {
                            assert(placed_mid == placed_pre);
                        }
                        assert(order@ =~= order_pre.push(u));
                        assert(order@[order@.len() - 1] == u);
                        assert forall|u0: usize| (u0 as int) < n as int implies (placed@[
                            u0 as int] <==> order@.contains(u0)) by {
                            if u0 == u {
                            } else {
                                if order_pre.contains(u0) {
                                    lemma_prefix_contains(order_pre, order@, u0);
                                }
                                if order@.contains(u0) {
                                    let j = choose|j: int|
                                        0 <= j < order@.len() && order@[j] == u0;
                                    if j < order@.len() - 1 {
                                        assert(order_pre[j] == u0);
                                    } else {
                                        assert(order@[j] == u);
                                    }
                                }
                            }
                        }
                        assert forall|kd: int|
                            0 <= kd < units[u as int].deps@.len() implies order_pre.contains(
                            #[trigger] units[u as int].deps@[kd]) by {
                            let d = units[u as int].deps@[kd];
                            assert(placed_mid[d as int]);
                        }
                        lemma_deps_ordered_push(units, order_pre, u);
                    }
                    progress = true;
                }
                u += 1;
            }
            if !progress {
                break;
            }
        }
        // Every needed unit placed: the order is a complete, valid plan.
        let mut all_placed = true;
        let mut witness: usize = 0;
        let mut u: usize = 0;
        while u < n
            invariant
                needed.len() == n as int,
                placed.len() == n as int,
                all_placed ==> forall|v: int| 0 <= v < u as int && needed@[v] ==> placed@[v],
                !all_placed ==> (witness as int) < n as int && needed@[witness as int]
                    && !placed@[witness as int],
            decreases n - u,
        {
            if needed[u] && !placed[u] {
                all_placed = false;
                witness = u;
            }
            u += 1;
        }
        if all_placed {
            proof {
                assert forall|k: int| 0 <= k < order@.len() implies ((#[trigger] order@[k] as int)
                    < units.len() && needed_by(units, roots@, order@[k])) by {
                    let u0 = order@[k];
                    assert(order@.contains(u0));
                    assert(placed@[u0 as int]);
                    assert(needed@[u0 as int]);
                }
                assert forall|u0: usize|
                    (u0 as int) < units.len() && #[trigger] needed_by(units, roots@, u0)
                        implies order@.contains(u0) by {
                    assert(needed@[u0 as int]);
                }
                assert(valid_plan(units, roots@, order@));
                lemma_valid_plan_cycle_free(units, roots@, order@);
            }
            return Ok(order);
        }
        // A sweep placed nothing while a needed unit is missing: every such
        // unit waits on another such unit, so following those edges from the
        // witness must revisit a unit and close a cycle.
        let mut path: Vec<usize> = Vec::new();
        let mut visited: Vec<bool> = false_flags(n);
        path.push(witness);
        visited.set(witness, true);
        proof {
            assert(path@[0] == witness);
            assert forall|u0: usize| (u0 as int) < n as int implies (visited@[u0 as int]
                <==> path@.contains(u0)) by {
                if path@.contains(u0) {
                    let j = choose|j: int| 0 <= j < path@.len() && path@[j] == u0;
                    assert(j == 0);
                }
                if u0 == witness {
                    assert(path@[0] == u0);
                }
            }
        }
        loop
            invariant
                self.wf(),
                units == self.units(),
                n as int == units.len(),
                needed.len() == n as int,
                placed.len() == n as int,
                visited.len() == n as int,
                forall|u0: int| 0 <= u0 < n as int ==> (needed@[u0] <==> needed_by(
                    units,
                    roots@,
                    u0 as usize,
                )),
                forall|v: int|
                    0 <= v < n as int && needed@[v] && !placed@[v] ==> exists|kd: int|
                        0 <= kd < units[v].deps@.len()
                            && !placed@[#[trigger] units[v].deps@[kd] as int],
                closed_under_deps(units, needed@),
                path@.len() >= 1,
                forall|k: int|
                    0 <= k < path@.len() ==> (#[trigger] path@[k] as int) < n as int && needed@[
                    path@[k] as int] && !placed@[path@[k] as int],
                forall|k: int| 0 <= k < path@.len() - 1 ==> edge(units, #[trigger] path@[k], path@[k
                    + 1]),
                forall|u0: usize|
                    (u0 as int) < n as int ==> (visited@[u0 as int] <==> path@.contains(u0)),
            decreases count_false(visited@),
        {
            let cur = path[path.len() - 1];
            assert(needed@[cur as int] && !placed@[cur as int]);
            let d = find_unplaced_dep(self, cur, &placed);
            assert(needed@[d as int]);
            if visited[d] {
                // Close the cycle: cut the path at the first visit of `d`.
                let j = find_index(&path, d);
                let mut cyc: Vec<usize> = Vec::new();
                let mut k: usize = j;
                let plen = path.len();
                while k < plen
                    invariant
                        plen == path@.len(),
                        (j as int) < plen as int,
                        j <= k <= plen,
                        cyc@ =~= path@.subrange(j as int, k as int),
                    decreases plen - k,
                {
                    cyc.push(path[k]);
                    proof {
                        assert(cyc@ =~= path@.subrange(j as int, k as int + 1));
                    }
                    k += 1;
                }
                cyc.push(d);
                proof {
                    let c = cyc@;
                    assert(c.len() == plen as int - j as int + 1);
                    assert(c.first() == path@[j as int]);
                    assert(c.first() == d);
                    assert(c.last() == d);
                    assert forall|k0: int| 0 <= k0 < c.len() implies (#[trigger] c[k0] as int)
                        < n as int by {
                        if k0 < c.len() - 1 {
                            assert(c[k0] == path@[j as int + k0]);
                        }
                    }
                    assert forall|k0: int| 0 <= k0 < c.len() - 1 implies edge(
                        units,
                        #[trigger] c[k0],
                        c[k0 + 1],
                    ) by {
                        if k0 < c.len() - 2 {
                            assert(c[k0] == path@[j as int + k0]);
                            assert(c[k0 + 1] == path@[j as int + k0 + 1]);
                        } else {
                            assert(c[k0] == path@[plen as int - 1]);
                            assert(c[k0 + 1] == d);
                        }
                    }
                    assert(is_path(units, c));
                    assert(needed_by(units, roots@, d));
                    assert(on_cycle(units, d));
                    assert(!crate::graph::cycle_free(units, roots@));
                }
                return Err(FactoryConfigError::DependencyCycle { path: cyc });
            }
            let ghost visited_pre = visited@;
            let ghost path_pre = path@;
            path.push(d);
            visited.set(d, true);
            proof {
                lemma_count_false_update(visited_pre, d as int);
                assert(path@ =~= path_pre.push(d));
                assert(path@[path@.len() - 1] == d);
                assert forall|u0: usize| (u0 as int) < n as int implies (visited@[u0 as int]
                    <==> path@.contains(u0)) by {
                    if u0 == d {
                    } else {
                        if path_pre.contains(u0) {
                            lemma_prefix_contains(path_pre, path@, u0);
                        }
                        if path@.contains(u0) {
                            let jj = choose|jj: int| 0 <= jj < path@.len() && path@[jj] == u0;
                            assert(path_pre[jj] == u0);
                        }
                    }
                }
            }
        }
    }
}

/// The first index of `path` holding `d`.
fn find_index(path: &Vec<usize>, d: usize) -> (j: usize)
    requires
        path@.contains(d),
    ensures
        (j as int) < path@.len(),
        path@[j as int] == d,
{
    let n = path.len();
    let mut j: usize = 0;
    while j < n
        invariant
            n == path@.len(),
            path@.contains(d),
            forall|k: int| 0 <= k < j ==> path@[k] != d,
        decreases n - j,
    {
        if path[j] == d {
            return j;
        }
        j += 1;
    }
    proof {
        let k = choose|k: int| 0 <= k < path@.len() && path@[k] == d;
        assert(false);
    }
    0
}

} // verus!
