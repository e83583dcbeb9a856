//! The resource ledger: a deadlock-avoidance ledger in the style of the
//! Banker's algorithm, together with its safety checker.

use vstd::prelude::*;
use std::collections::VecDeque;

verus! {

/// The mathematical model of a [`Banker`]: the registry of resource slots,
/// the queue of recycled slot indices, and the per-task accounting
/// matrices, all indexed `[task][resource]`.
#[verifier::ext_equal]
pub ghost struct LedgerModel {
    /// One entry per resource slot; `None` marks a recycled (free) slot.
    pub resources: Seq<Option<u64>>,
    /// Free slot indices, in the order they will be reused.
    pub recycle: Seq<usize>,
    /// Number of task rows; row 0 is reserved by convention.
    pub num_tasks: usize,
    /// Declared upper bound each task will ever hold of each resource.
    pub max: Seq<Seq<usize>>,
    /// Units currently held by each task of each resource.
    pub allocated: Seq<Seq<usize>>,
    /// Units of each resource not currently allocated to any task.
    pub available: Seq<usize>,
    /// `max - allocated`, kept as an explicit field.
    pub need: Seq<Seq<usize>>,
}

/// Sum of column `r` of `alloc` over the rows below `upto`.
pub open spec fn colsum(alloc: Seq<Seq<usize>>, r: int, upto: int) -> int
    decreases upto,
{
    if upto <= 0 {
        0
    } else {
        colsum(alloc, r, upto - 1) + alloc[upto - 1][r]
    }
}

/// Conserved quantity of resource slot `r`: the free units plus every
/// task's held units.  Equal, at all times, to the capacity passed when the
/// slot's resource was registered (and zero for a free slot).
pub open spec fn total_at(m: LedgerModel, r: int) -> int {
    m.available[r] + colsum(m.allocated, r, m.num_tasks as int)
}

/// Whether some slot holds the identity `id`.
pub open spec fn has_res(m: LedgerModel, id: u64) -> bool {
    exists|s: int| 0 <= s < m.resources.len() && m.resources[s] == Some(id)
}

/// The slot holding identity `id` (well defined whenever `has_res`, since
/// registered identities are unique).
pub open spec fn the_slot(m: LedgerModel, id: u64) -> int {
    choose|s: int| 0 <= s < m.resources.len() && m.resources[s] == Some(id)
}

/// The invariant of the ledger, true after every committed operation.
pub open spec fn inv(m: LedgerModel) -> bool {
    let n = m.num_tasks as int;
    let nr = m.resources.len() as int;
    &&& 1 <= n
    &&& m.max.len() == n
    &&& m.allocated.len() == n
    &&& m.need.len() == n
    &&& m.available.len() == nr
    &&& (forall|t: int| 0 <= t < n ==> (#[trigger] m.max[t]).len() == nr)
    &&& (forall|t: int| 0 <= t < n ==> (#[trigger] m.allocated[t]).len() == nr)
    &&& (forall|t: int| 0 <= t < n ==> (#[trigger] m.need[t]).len() == nr)
    // allocation never exceeds the declared maximum
    &&& (forall|t: int, r: int|
        0 <= t < n && 0 <= r < nr ==> #[trigger] m.allocated[t][r] <= m.max[t][r])
    // need is exactly the gap between maximum and allocation
    &&& (forall|t: int, r: int|
        0 <= t < n && 0 <= r < nr ==> #[trigger] m.need[t][r] == m.max[t][r] - m.allocated[t][r])
    // the conserved quantity of every slot fits the machine word
    &&& (forall|r: int| 0 <= r < nr ==> total_at(m, r) <= usize::MAX)
    // the recycle queue lists free slots, each at most once
    &&& (forall|i: int|
        0 <= i < m.recycle.len() ==> m.recycle[i] < nr && m.resources[#[trigger] m.recycle[i] as int] is None)
    &&& (forall|i: int, j: int|
        0 <= i < j < m.recycle.len() ==> #[trigger] m.recycle[i] != #[trigger] m.recycle[j])
    // a free slot carries no availability and no task bookkeeping
    &&& (forall|s: int|
        0 <= s < nr && m.resources[s] is None ==> #[trigger] m.available[s] == 0)
    &&& (forall|t: int, s: int|
        0 <= t < n && 0 <= s < nr && m.resources[s] is None ==> #[trigger] m.max[t][s] == 0)
    // no identity is registered in two slots at once
    &&& (forall|i: int, j: int|
        0 <= i < j < nr && #[trigger] m.resources[i] is Some ==> m.resources[i] != #[trigger] m.resources[j])
}

/// A row of `nr` zero entries.
pub open spec fn zero_row(nr: int) -> Seq<usize> {
    Seq::new(nr as nat, |i: int| 0usize)
}

/// The matrices of `m` with entry `[t][r]` replaced by `v`.
pub open spec fn mat_upd(mat: Seq<Seq<usize>>, t: int, r: int, v: usize) -> Seq<Seq<usize>> {
    mat.update(t, mat[t].update(r, v))
}

/// The slot that the next registration will occupy: the front of the
/// recycle queue if one exists, else a fresh slot appended at the end.
pub open spec fn alloc_slot(m: LedgerModel) -> int {
    if m.recycle.len() > 0 {
        m.recycle[0] as int
    } else {
        m.resources.len() as int
    }
}

/// The model after registering identity `id` with capacity `total`.
pub open spec fn spec_add_resource(m: LedgerModel, id: u64, total: usize) -> LedgerModel {
    if m.recycle.len() > 0 {
        let s = m.recycle[0] as int;
        LedgerModel {
            resources: m.resources.update(s, Some(id)),
            recycle: m.recycle.skip(1),
            available: m.available.update(s, total),
            ..m
        }
    } else {
        LedgerModel {
            resources: m.resources.push(Some(id)),
            available: m.available.push(total),
            max: Seq::new(m.max.len(), |t: int| m.max[t].push(0usize)),
            allocated: Seq::new(m.allocated.len(), |t: int| m.allocated[t].push(0usize)),
            need: Seq::new(m.need.len(), |t: int| m.need[t].push(0usize)),
            ..m
        }
    }
}

/// The model after unregistering the identity held in slot
/// `the_slot(m, id)`: the slot is freed, queued for reuse, and its
/// availability and every task's bookkeeping for it are reset to zero.
pub open spec fn spec_remove_resource(m: LedgerModel, id: u64) -> LedgerModel {
    let s = the_slot(m, id);
    LedgerModel {
        resources: m.resources.update(s, None),
        recycle: m.recycle.push(s as usize),
        available: m.available.update(s, 0usize),
        max: Seq::new(m.max.len(), |t: int| m.max[t].update(s, 0usize)),
        allocated: Seq::new(m.allocated.len(), |t: int| m.allocated[t].update(s, 0usize)),
        need: Seq::new(m.need.len(), |t: int| m.need[t].update(s, 0usize)),
        ..m
    }
}

/// The model after creating a task: one fresh zero row in each matrix.
pub open spec fn spec_add_task(m: LedgerModel) -> LedgerModel {
    LedgerModel {
        num_tasks: (m.num_tasks + 1) as usize,
        max: m.max.push(zero_row(m.resources.len() as int)),
        allocated: m.allocated.push(zero_row(m.resources.len() as int)),
        need: m.need.push(zero_row(m.resources.len() as int)),
        ..m
    }
}

/// The model after destroying task `t`: its rows are zeroed; the row index
/// is never reused.
pub open spec fn spec_remove_task(m: LedgerModel, t: int) -> LedgerModel {
    LedgerModel {
        max: m.max.update(t, zero_row(m.resources.len() as int)),
        allocated: m.allocated.update(t, zero_row(m.resources.len() as int)),
        need: m.need.update(t, zero_row(m.resources.len() as int)),
        ..m
    }
}

/// The model after task `t` releases `a` units of the resource in slot `s`:
/// the units return to the pool and to the task's outstanding need.
pub open spec fn spec_release(m: LedgerModel, t: int, s: int, a: usize) -> LedgerModel {
    LedgerModel {
        allocated: mat_upd(m.allocated, t, s, (m.allocated[t][s] - a) as usize),
        need: mat_upd(m.need, t, s, (m.need[t][s] + a) as usize),
        available: m.available.update(s, (m.available[s] + a) as usize),
        ..m
    }
}

/// The model after task `t` is granted `a` units of the resource in slot
/// `s` on the declaration-and-immediate-grant path: its declared maximum
/// and its allocation both grow by `a`, the pool shrinks by `a`, and its
/// need is unchanged.
pub open spec fn spec_request(m: LedgerModel, t: int, s: int, a: usize) -> LedgerModel {
    LedgerModel {
        max: mat_upd(m.max, t, s, (m.max[t][s] + a) as usize),
        allocated: mat_upd(m.allocated, t, s, (m.allocated[t][s] + a) as usize),
        available: m.available.update(s, (m.available[s] - a) as usize),
        ..m
    }
}

/// The hypothetical model that speculative admission checks for safety: as
/// if task `t` had declared `a` more units of the resource in slot `s`
/// without yet holding them.
pub open spec fn spec_raised(m: LedgerModel, t: int, s: int, a: usize) -> LedgerModel {
    LedgerModel {
        max: mat_upd(m.max, t, s, (m.max[t][s] + a) as usize),
        need: mat_upd(m.need, t, s, (m.need[t][s] + a) as usize),
        ..m
    }
}

/// Sum of `alloc[order[j]][r]` over `j < i`: what the first `i` tasks of a
/// finish order release back into the pool for resource slot `r`.
pub open spec fn prefix_alloc_sum(alloc: Seq<Seq<usize>>, order: Seq<int>, i: int, r: int) -> int
    decreases i,
{
    if i <= 0 {
        0
    } else {
        prefix_alloc_sum(alloc, order, i - 1, r) + alloc[order[i - 1]][r]
    }
}

/// `order` is a safe finish order for model `m`: it lists every task row
/// exactly once, and each task's outstanding need fits in the free units
/// plus everything released by the tasks that finish before it.
pub open spec fn order_ok(m: LedgerModel, order: Seq<int>) -> bool {
    &&& order.len() == m.num_tasks
    &&& (forall|i: int| 0 <= i < order.len() ==> 0 <= #[trigger] order[i] < m.num_tasks)
    &&& (forall|i: int, j: int|
        0 <= i < j < order.len() ==> #[trigger] order[i] != #[trigger] order[j])
    &&& (forall|i: int, r: int|
        0 <= i < order.len() && 0 <= r < m.resources.len() ==> #[trigger] m.need[order[i]][r]
            <= m.available[r] + prefix_alloc_sum(m.allocated, order, i, r))
}

/// Safety in the deadlock-avoidance sense: some order exists in which every
/// task can obtain its full declared maximum and finish.
pub open spec fn safe_state(m: LedgerModel) -> bool {
    exists|order: Seq<int>| order_ok(m, order)
}

/// Sum of column `r` of `alloc` over the rows below `upto` that `mask`
/// marks: what the tasks simulated as finished have released.
pub open spec fn masked_colsum(alloc: Seq<Seq<usize>>, mask: Seq<bool>, r: int, upto: int) -> int
    decreases upto,
{
    if upto <= 0 {
        0
    } else {
        masked_colsum(alloc, mask, r, upto - 1) + if mask[upto - 1] {
            alloc[upto - 1][r] as int
        } else {
            0
        }
    }
}

proof fn lemma_masked_colsum_agree(
    alloc: Seq<Seq<usize>>,
    mask1: Seq<bool>,
    mask2: Seq<bool>,
    r: int,
    upto: int,
)
    requires
        forall|t: int| 0 <= t < upto ==> #[trigger] mask1[t] == mask2[t],
    ensures
        masked_colsum(alloc, mask1, r, upto) == masked_colsum(alloc, mask2, r, upto),
    decreases upto,
{
    if upto > 0 {
        lemma_masked_colsum_agree(alloc, mask1, mask2, r, upto - 1);
    }
}

proof fn lemma_masked_colsum_update(
    alloc: Seq<Seq<usize>>,
    mask: Seq<bool>,
    t: int,
    b: bool,
    r: int,
    upto: int,
)
    requires
        0 <= t < upto <= mask.len(),
    ensures
        masked_colsum(alloc, mask.update(t, b), r, upto) == masked_colsum(alloc, mask, r, upto) - (
        if mask[t] {
            alloc[t][r] as int
        } else {
            0
        }) + (if b {
            alloc[t][r] as int
        } else {
            0
        }),
    decreases upto,
{
    if t == upto - 1 {
        lemma_masked_colsum_agree(alloc, mask.update(t, b), mask, r, upto - 1);
    } else {
        lemma_masked_colsum_update(alloc, mask, t, b, r, upto - 1);
    }
}

proof fn lemma_masked_le_colsum(alloc: Seq<Seq<usize>>, mask: Seq<bool>, r: int, upto: int)
    ensures
        0 <= masked_colsum(alloc, mask, r, upto),
        masked_colsum(alloc, mask, r, upto) <= colsum(alloc, r, upto),
    decreases upto,
{
    if upto > 0 {
        lemma_masked_le_colsum(alloc, mask, r, upto - 1);
    }
}

proof fn lemma_prefix_agree(
    alloc: Seq<Seq<usize>>,
    o1: Seq<int>,
    o2: Seq<int>,
    i: int,
    r: int,
)
    requires
        forall|j: int| 0 <= j < i ==> #[trigger] o1[j] == o2[j],
    ensures
        prefix_alloc_sum(alloc, o1, i, r) == prefix_alloc_sum(alloc, o2, i, r),
    decreases i,
{
    if i > 0 {
        lemma_prefix_agree(alloc, o1, o2, i - 1, r);
    }
}

proof fn lemma_prefix_le_masked(
    alloc: Seq<Seq<usize>>,
    order: Seq<int>,
    i: int,
    mask: Seq<bool>,
    r: int,
)
    requires
        0 <= i <= order.len(),
        forall|j: int| 0 <= j < i ==> 0 <= #[trigger] order[j] < mask.len(),
        forall|j1: int, j2: int|
            0 <= j1 < j2 < i ==> #[trigger] order[j1] != #[trigger] order[j2],
        forall|j: int| 0 <= j < i ==> mask[#[trigger] order[j]],
    ensures
        prefix_alloc_sum(alloc, order, i, r) <= masked_colsum(alloc, mask, r, mask.len() as int),
    decreases i,
{
    if i > 0 {
        let t = order[i - 1];
        let mask2 = mask.update(t, false);
        lemma_prefix_le_masked(alloc, order, i - 1, mask2, r);
        lemma_masked_colsum_update(alloc, mask, t, false, r, mask.len() as int);
    } else {
        lemma_masked_le_colsum(alloc, mask, r, mask.len() as int);
    }
}

/// A sequence of distinct values drawn from `0 .. n` has at most `n`
/// entries.
proof fn lemma_distinct_bounded(s: Seq<int>, n: int)
    requires
        n >= 0,
        forall|i: int| 0 <= i < s.len() ==> 0 <= #[trigger] s[i] < n,
        forall|i: int, j: int| 0 <= i < j < s.len() ==> #[trigger] s[i] != #[trigger] s[j],
    ensures
        s.len() <= n,
{
    assert(s.no_duplicates());
    s.unique_seq_to_set();
    assert(s.to_set().subset_of(vstd::set_lib::set_int_range(0, n))) by {
        assert forall|x: int| s.to_set().contains(x) implies vstd::set_lib::set_int_range(
            0,
            n,
        ).contains(x) by {
            let i = choose|i: int| 0 <= i < s.len() && s[i] == x;
            assert(0 <= s[i] < n);
        }
    }
    vstd::set_lib::lemma_int_range(0, n);
    vstd::set_lib::lemma_len_subset(s.to_set(), vstd::set_lib::set_int_range(0, n));
}

/// No task that the simulation has not finished can finish now: each has a
/// resource slot whose outstanding need exceeds the current work vector.
spec fn blocked(m: LedgerModel, mask: Seq<bool>, work: Seq<usize>, upto: int) -> bool {
    forall|u: int|
        0 <= u < upto && !(#[trigger] mask[u]) ==> exists|r: int|
            0 <= r < m.resources.len() && m.need[u][r] > work[r]
}

/// When the finish simulation is stuck — some tasks are unfinished and none
/// of them can finish with the current work vector — no safe finish order
/// exists at all: any claimed order would have to finish one of the stuck
/// tasks first among them, with no more work available than the simulation
/// already had.
proof fn lemma_all_masked(
    m: LedgerModel,
    mask: Seq<bool>,
    work: Seq<usize>,
    sigma: Seq<int>,
    i: int,
)
    requires
        inv(m),
        mask.len() == m.num_tasks,
        work.len() == m.resources.len(),
        forall|r: int|
            0 <= r < m.resources.len() ==> #[trigger] work[r] == m.available[r] + masked_colsum(
                m.allocated,
                mask,
                r,
                m.num_tasks as int,
            ),
        blocked(m, mask, work, m.num_tasks as int),
        order_ok(m, sigma),
        0 <= i <= sigma.len(),
    ensures
        forall|j: int| 0 <= j < i ==> mask[#[trigger] sigma[j]],
    decreases i,
{
    if i > 0 {
        lemma_all_masked(m, mask, work, sigma, i - 1);
        let t = sigma[i - 1];
        if !mask[t] {
            let r = choose|r: int| 0 <= r < m.resources.len() && m.need[t][r] > work[r];
            assert(m.need[t][r] <= m.available[r] + prefix_alloc_sum(m.allocated, sigma, i - 1, r));
            lemma_prefix_le_masked(m.allocated, sigma, i - 1, mask, r);
            assert(false);
        }
    }
}

proof fn lemma_stuck_unsafe(m: LedgerModel, mask: Seq<bool>, work: Seq<usize>, ord: Seq<int>)
    requires
        inv(m),
        mask.len() == m.num_tasks,
        work.len() == m.resources.len(),
        forall|r: int|
            0 <= r < m.resources.len() ==> #[trigger] work[r] == m.available[r] + masked_colsum(
                m.allocated,
                mask,
                r,
                m.num_tasks as int,
            ),
        blocked(m, mask, work, m.num_tasks as int),
        ord.len() < m.num_tasks,
        forall|j: int| 0 <= j < ord.len() ==> 0 <= #[trigger] ord[j] < m.num_tasks,
        forall|i: int, j: int| 0 <= i < j < ord.len() ==> #[trigger] ord[i] != #[trigger] ord[j],
        forall|u: int| 0 <= u < m.num_tasks ==> (#[trigger] mask[u] <==> ord.contains(u)),
    ensures
        !safe_state(m),
{
    if safe_state(m) {
        let sigma = choose|o: Seq<int>| order_ok(m, o);
        lemma_all_masked(m, mask, work, sigma, sigma.len() as int);
        assert(sigma.no_duplicates());
        assert(ord.no_duplicates());
        sigma.unique_seq_to_set();
        ord.unique_seq_to_set();
        assert(sigma.to_set().subset_of(ord.to_set())) by {
            assert forall|x: int| sigma.to_set().contains(x) implies ord.to_set().contains(x) by {
                let i = choose|i: int| 0 <= i < sigma.len() && sigma[i] == x;
                assert(mask[x]);
                assert(ord.contains(x));
            }
        }
        vstd::set_lib::lemma_len_subset(sigma.to_set(), ord.to_set());
        assert(false);
    }
}

/// What the finish simulation maintains: `ord` lists the simulated-finished
/// task rows (exactly those that `finish` marks), each satisfied its need
/// from the work vector when it finished, and `work` accounts for the free
/// units plus everything the finished tasks have released.
spec fn sim_inv(
    m: LedgerModel,
    work: Seq<usize>,
    finish: Seq<bool>,
    count: int,
    ord: Seq<int>,
) -> bool {
    let n = m.num_tasks as int;
    let nr = m.resources.len() as int;
    &&& count == ord.len()
    &&& count <= n
    &&& work.len() == nr
    &&& finish.len() == n
    &&& (forall|j: int| 0 <= j < ord.len() ==> 0 <= #[trigger] ord[j] < n)
    &&& (forall|i: int, j: int| 0 <= i < j < ord.len() ==> #[trigger] ord[i] != #[trigger] ord[j])
    &&& (forall|u: int| 0 <= u < n ==> (#[trigger] finish[u] <==> ord.contains(u)))
    &&& (forall|r: int|
        0 <= r < nr ==> #[trigger] work[r] == m.available[r] + masked_colsum(
            m.allocated,
            finish,
            r,
            n,
        ))
    &&& (forall|j: int, r: int|
        0 <= j < ord.len() && 0 <= r < nr ==> #[trigger] m.need[ord[j]][r] <= m.available[r]
            + prefix_alloc_sum(m.allocated, ord, j, r))
    &&& (forall|r: int|
        0 <= r < nr ==> m.available[r] + prefix_alloc_sum(m.allocated, ord, ord.len() as int, r)
            == #[trigger] work[r])
}

/// Elementwise `a[i] <= b[i]`.
fn le_all(a: &Vec<usize>, b: &Vec<usize>) -> (r: bool)
    requires
        a@.len() == b@.len(),
    ensures
        r == (forall|i: int| 0 <= i < a@.len() ==> a@[i] <= b@[i]),
{
    let n = a.len();
    let mut i: usize = 0;
    while i < n
        invariant
            i <= n,
            forall|j: int| 0 <= j < i ==> a@[j] <= b@[j],
        decreases n - i,
    {
        if a[i] > b[i] {
            return false;
        }
        i = i + 1;
    }
    true
}

/// After every committed ledger operation, the recorded need of every task
/// for every resource is exactly the gap between its declared maximum and
/// its current allocation.
pub proof fn lemma_need_consistency(m: LedgerModel)
    requires
        inv(m),
    ensures
        forall|t: int, r: int|
            0 <= t < m.num_tasks && 0 <= r < m.resources.len() ==> #[trigger] m.need[t][r]
                == m.max[t][r] - m.allocated[t][r],
{
}

proof fn lemma_prefix_mat_upd(
    alloc: Seq<Seq<usize>>,
    t: int,
    s: int,
    v: usize,
    sigma: Seq<int>,
    i: int,
    r: int,
)
    requires
        0 <= t < alloc.len(),
        0 <= s < alloc[t].len(),
        0 <= r < alloc[t].len(),
        0 <= i <= sigma.len(),
        forall|j: int| 0 <= j < i ==> 0 <= #[trigger] sigma[j] < alloc.len(),
        forall|j1: int, j2: int| 0 <= j1 < j2 < i ==> #[trigger] sigma[j1] != #[trigger] sigma[j2],
    ensures
        prefix_alloc_sum(mat_upd(alloc, t, s, v), sigma, i, r) == prefix_alloc_sum(
            alloc,
            sigma,
            i,
            r,
        ) + if r == s && (exists|j: int| 0 <= j < i && #[trigger] sigma[j] == t) {
            v - alloc[t][s]
        } else {
            0
        },
    decreases i,
{
    if i > 0 {
        lemma_prefix_mat_upd(alloc, t, s, v, sigma, i - 1, r);
        let u = sigma[i - 1];
        if u == t {
            assert(forall|j: int| 0 <= j < i - 1 ==> #[trigger] sigma[j] != t);
            assert(sigma[i - 1] == t);
        } else {
            if exists|j: int| 0 <= j < i && #[trigger] sigma[j] == t {
                let j = choose|j: int| 0 <= j < i && #[trigger] sigma[j] == t;
                assert(j < i - 1);
                assert(exists|j2: int| 0 <= j2 < i - 1 && #[trigger] sigma[j2] == t);
            }
        }
    }
}

/// Admission completeness: the provable half of the relation between the
/// speculative admission check and the real grant.  Whenever the state
/// *after* really granting `a` units of slot `s` to task `t` is safe, the
/// hypothetical declared state that the admission check examines is safe
/// too — so the check never rejects a request whose grant would have kept
/// the system safe.  (The converse direction does not hold: the check
/// raises the declared need without moving the units, and an admitted
/// grant can still land in an unsafe state.)
pub proof fn lemma_admission_complete(m: LedgerModel, t: int, s: int, a: usize)
    requires
        inv(m),
        0 <= t < m.num_tasks,
        0 <= s < m.resources.len(),
        a <= m.available[s],
        m.max[t][s] + a <= usize::MAX,
        safe_state(spec_request(m, t, s, a)),
    ensures
        safe_state(spec_raised(m, t, s, a)),
{
    let g = spec_request(m, t, s, a);
    let h = spec_raised(m, t, s, a);
    let sigma = choose|o: Seq<int>| order_ok(g, o);
    assert(order_ok(g, sigma));
    assert forall|i: int, r: int|
        0 <= i < sigma.len() && 0 <= r < h.resources.len() implies #[trigger] h.need[sigma[i]][r]
        <= h.available[r] + prefix_alloc_sum(h.allocated, sigma, i, r) by {
        let u = sigma[i];
        lemma_prefix_mat_upd(m.allocated, t, s, (m.allocated[t][s] + a) as usize, sigma, i, r);
        assert(g.need[u][r] <= g.available[r] + prefix_alloc_sum(g.allocated, sigma, i, r));
        let hit = exists|j: int| 0 <= j < i && #[trigger] sigma[j] == t;
        if u == t && r == s {
            assert(!hit);
            assert(h.need[u][r] == m.need[t][s] + a);
            assert(g.need[u][r] == m.need[t][s]);
            assert(g.available[s] == m.available[s] - a);
        } else {
            if u == t {
                assert(h.need[u][r] == m.need[t].update(s, (m.need[t][s] + a) as usize)[r]);
                assert(h.need[u][r] == m.need[t][r]);
            } else {
                assert(h.need[u] == m.need[u]);
            }
            assert(h.need[u][r] == g.need[u][r]);
            if r == s && !hit {
                assert(g.available[r] == m.available[r] - a);
            } else {
                assert(g.available[r] + prefix_alloc_sum(g.allocated, sigma, i, r)
                    == h.available[r] + prefix_alloc_sum(h.allocated, sigma, i, r));
            }
        }
    }
    assert(order_ok(h, sigma));
}

/// Resource slot reuse: with an empty recycle queue, registering identity
/// `a`, unregistering it, then registering identity `b` gives `b` exactly
/// the numeric slot that `a` occupied, and every task row for that slot
/// reads zero immediately after `b`'s registration, with `b`'s full
/// capacity free.  (When other slots already wait in the recycle queue, the
/// front of the queue is reused first and `b` may land elsewhere.)
pub proof fn lemma_slot_reuse(m: LedgerModel, a: u64, b: u64, ta: usize, tb: usize)
    requires
        inv(m),
        m.resources.len() <= usize::MAX,
        m.recycle.len() == 0,
        !has_res(m, a),
        !has_res(m, b),
    ensures
        ({
            let s = m.resources.len() as int;
            let m1 = spec_add_resource(m, a, ta);
            let m2 = spec_remove_resource(m1, a);
            let m3 = spec_add_resource(m2, b, tb);
            &&& alloc_slot(m) == s
            &&& alloc_slot(m2) == s
            &&& m3.resources[s] == Some(b)
            &&& m3.available[s] == tb
            &&& forall|t: int|
                0 <= t < m3.num_tasks ==> m3.max[t][s] == 0 && m3.allocated[t][s] == 0
                    && m3.need[t][s] == 0
        }),
{
    let s = m.resources.len() as int;
    let m1 = spec_add_resource(m, a, ta);
    assert(m1.resources == m.resources.push(Some(a)));
    assert(m1.resources[s] == Some(a));
    assert(has_res(m1, a));
    let s1 = the_slot(m1, a);
    assert(0 <= s1 < m1.resources.len() && m1.resources[s1] == Some(a));
    if s1 != s {
        assert(m.resources[s1] == Some(a));
        assert(false);
    }
    let m2 = spec_remove_resource(m1, a);
    assert(m2.recycle == m1.recycle.push(s as usize));
    assert(m2.recycle.len() == 1 && m2.recycle[0] == s as usize);
    let m3 = spec_add_resource(m2, b, tb);
    assert(alloc_slot(m2) == s);
    assert(m3.resources == m2.resources.update(s, Some(b)));
    assert(m3.available == m2.available.update(s, tb));
    assert forall|t: int| 0 <= t < m3.num_tasks implies m3.max[t][s] == 0 && m3.allocated[t][s]
        == 0 && m3.need[t][s] == 0 by {
        assert(m2.max[t] == m1.max[t].update(s, 0usize));
        assert(m2.allocated[t] == m1.allocated[t].update(s, 0usize));
        assert(m2.need[t] == m1.need[t].update(s, 0usize));
    }
}

proof fn lemma_colsum_agree(a1: Seq<Seq<usize>>, a2: Seq<Seq<usize>>, r: int, upto: int)
    requires
        forall|t: int| 0 <= t < upto ==> #[trigger] a1[t][r] == a2[t][r],
    ensures
        colsum(a1, r, upto) == colsum(a2, r, upto),
    decreases upto,
{
    if upto > 0 {
        lemma_colsum_agree(a1, a2, r, upto - 1);
    }
}

proof fn lemma_colsum_update(a: Seq<Seq<usize>>, t: int, row: Seq<usize>, r: int, upto: int)
    requires
        0 <= t < upto <= a.len(),
    ensures
        colsum(a.update(t, row), r, upto) == colsum(a, r, upto) - a[t][r] + row[r],
    decreases upto,
{
    if t == upto - 1 {
        lemma_colsum_agree(a.update(t, row), a, r, upto - 1);
    } else {
        lemma_colsum_update(a, t, row, r, upto - 1);
    }
}

proof fn lemma_colsum_zero(a: Seq<Seq<usize>>, r: int, upto: int)
    requires
        forall|t: int| 0 <= t < upto ==> #[trigger] a[t][r] == 0,
    ensures
        colsum(a, r, upto) == 0,
    decreases upto,
{
    if upto > 0 {
        lemma_colsum_zero(a, r, upto - 1);
    }
}

proof fn lemma_colsum_nonneg(a: Seq<Seq<usize>>, r: int, upto: int)
    ensures
        colsum(a, r, upto) >= 0,
    decreases upto,
{
    if upto > 0 {
        lemma_colsum_nonneg(a, r, upto - 1);
    }
}

proof fn lemma_colsum_member(a: Seq<Seq<usize>>, t: int, r: int, upto: int)
    requires
        0 <= t < upto,
    ensures
        a[t][r] <= colsum(a, r, upto),
    decreases upto,
{
    if t == upto - 1 {
        lemma_colsum_nonneg(a, r, upto - 1);
    } else {
        lemma_colsum_member(a, t, r, upto - 1);
    }
}

proof fn lemma_matrix_view(v: Vec<Vec<usize>>)
    ensures
        v.deep_view().len() == v@.len(),
        forall|i: int| 0 <= i < v@.len() ==> #[trigger] v.deep_view()[i] == v@[i]@,
{
    assert forall|i: int| 0 <= i < v@.len() implies #[trigger] v.deep_view()[i] == v@[i]@ by {
        assert(v@[i].deep_view() =~= v@[i]@);
    }
}

proof fn lemma_matrix_elem(v: Vec<Vec<usize>>, t: int)
    requires
        0 <= t < v@.len(),
    ensures
        v.deep_view().len() == v@.len(),
        v.deep_view()[t] == v@[t]@,
{
    assert(v@[t].deep_view() =~= v@[t]@);
}

/// A vector of `n` zero entries.
fn zero_vec(n: usize) -> (r: Vec<usize>)
    ensures
        r@.len() == n,
        forall|i: int| 0 <= i < n ==> r@[i] == 0usize,
        r@ == zero_row(n as int),
{
    let mut r: Vec<usize> = Vec::new();
    let mut i: usize = 0;
    while i < n
        invariant
            i <= n,
            r@.len() == i,
            forall|j: int| 0 <= j < i ==> r@[j] == 0usize,
        decreases n - i,
    {
        r.push(0);
        i = i + 1;
    }
    proof {
        assert(r@ =~= zero_row(n as int));
    }
    r
}

/// Deadlock-avoidance ledger.  Resource slots are dense and recycled
/// through a FIFO free list; task rows only grow and are zeroed, never
/// reused.  Resources are identified by an equality-comparable identity
/// (for instance a semaphore id), held here as a plain `u64`.
#[derive(Debug)]
pub struct Banker {
    resources: Vec<Option<u64>>,
    recycle: VecDeque<usize>,
    num_tasks: usize,
    max: Vec<Vec<usize>>,
    allocated: Vec<Vec<usize>>,
    available: Vec<usize>,
    need: Vec<Vec<usize>>,
}

impl View for Banker {
    type V = LedgerModel;

    closed spec fn view(&self) -> LedgerModel {
        LedgerModel {
            resources: self.resources@,
            recycle: self.recycle@,
            num_tasks: self.num_tasks,
            max: self.max.deep_view(),
            allocated: self.allocated.deep_view(),
            available: self.available@,
            need: self.need.deep_view(),
        }
    }
}

impl Banker {
    /// Well-formedness: the ledger's invariant holds of its model.
    pub open spec fn wf(&self) -> bool {
        inv(self@)
    }

    /// A fresh ledger: no resources, one reserved task row, all empty.
    pub fn new() -> (r: Self)
        ensures
            r.wf(),
            r@.resources =~= Seq::<Option<u64>>::empty(),
            r@.recycle =~= Seq::<usize>::empty(),
            r@.num_tasks == 1,
            r@.max =~= seq![Seq::<usize>::empty()],
            r@.allocated =~= seq![Seq::<usize>::empty()],
            r@.need =~= seq![Seq::<usize>::empty()],
            r@.available =~= Seq::<usize>::empty(),
    {
        let mut max: Vec<Vec<usize>> = Vec::new();
        max.push(Vec::new());
        let mut allocated: Vec<Vec<usize>> = Vec::new();
        allocated.push(Vec::new());
        let mut need: Vec<Vec<usize>> = Vec::new();
        need.push(Vec::new());
        let r = Self {
            resources: Vec::new(),
            recycle: VecDeque::new(),
            num_tasks: 1,
            max,
            allocated,
            need,
            available: Vec::new(),
        };
        proof {
            assert(r@.max =~~= seq![Seq::<usize>::empty()]);
            assert(r@.allocated =~~= seq![Seq::<usize>::empty()]);
            assert(r@.need =~~= seq![Seq::<usize>::empty()]);
        }
        r
    }

    /// Create a task: append a zero row to every matrix and hand back the
    /// new row's identifier.  Conserves every slot's total.
    pub fn add_task(&mut self) -> (r: usize)
        requires
            old(self).wf(),
            old(self)@.num_tasks < usize::MAX,
        ensures
            final(self).wf(),
            final(self)@ == spec_add_task(old(self)@),
            r == old(self)@.num_tasks,
            forall|rr: int|
                0 <= rr < old(self)@.resources.len() ==> total_at(final(self)@, rr) == total_at(
                    old(self)@,
                    rr,
                ),
    {
        let id = self.num_tasks;
        let nr = self.resources.len();
        let row_m = zero_vec(nr);
        let row_a = zero_vec(nr);
        let row_n = zero_vec(nr);
        self.max.push(row_m);
        self.allocated.push(row_a);
        self.need.push(row_n);
        self.num_tasks = self.num_tasks + 1;
        proof {
            lemma_matrix_view(self.max);
            lemma_matrix_view(self.allocated);
            lemma_matrix_view(self.need);
            lemma_matrix_view(old(self).max);
            lemma_matrix_view(old(self).allocated);
            lemma_matrix_view(old(self).need);
            let om = old(self)@;
            let nn = om.num_tasks as int;
            assert(self@.max =~~= om.max.push(zero_row(nr as int)));
            assert(self@.allocated =~~= om.allocated.push(zero_row(nr as int)));
            assert(self@.need =~~= om.need.push(zero_row(nr as int)));
            assert(self@ =~= spec_add_task(om));
            assert forall|rr: int| 0 <= rr < om.resources.len() implies total_at(self@, rr)
                == total_at(om, rr) by {
                lemma_colsum_agree(self@.allocated, om.allocated, rr, nn);
                assert(colsum(self@.allocated, rr, nn + 1) == colsum(self@.allocated, rr, nn)
                    + self@.allocated[nn][rr]);
            }
            assert forall|rr: int| 0 <= rr < self@.resources.len() implies total_at(self@, rr)
                <= usize::MAX by {
                assert(total_at(self@, rr) == total_at(om, rr));
                assert(total_at(om, rr) <= usize::MAX);
            }
        }
        id
    }

    /// Destroy task `task_id`: fails if the identifier is out of range,
    /// else zeroes its rows.  The row index is never reused.  Whatever the
    /// task still held leaves circulation: the caller must have released
    /// everything first if conservation is to be kept.
    pub fn remove_task(&mut self, task_id: usize) -> (r: bool)
        requires
            old(self).wf(),
        ensures
            final(self).wf(),
            r == (task_id < old(self)@.num_tasks),
            r ==> final(self)@ == spec_remove_task(old(self)@, task_id as int),
            !r ==> final(self)@ == old(self)@,
            forall|rr: int|
                0 <= rr < old(self)@.resources.len() && task_id < old(self)@.num_tasks
                    ==> total_at(final(self)@, rr) == total_at(old(self)@, rr) - old(
                    self,
                )@.allocated[task_id as int][rr],
    {
        if task_id >= self.num_tasks {
            return false;
        }
        let nr = self.resources.len();
        let ti = task_id;
        proof {
            lemma_matrix_elem(self.max, ti as int);
            lemma_matrix_elem(self.allocated, ti as int);
            lemma_matrix_elem(self.need, ti as int);
            assert(self@.max[ti as int].len() == self@.resources.len());
            assert(self@.allocated[ti as int].len() == self@.resources.len());
            assert(self@.need[ti as int].len() == self@.resources.len());
        }
        let mut r: usize = 0;
        while r < nr
            invariant
                r <= nr,
                ti < self.max@.len(),
                self.num_tasks == old(self).num_tasks,
                self.resources@ == old(self).resources@,
                self.recycle@ == old(self).recycle@,
                self.available@ == old(self).available@,
                self.max@.len() == old(self).max@.len(),
                self.allocated@.len() == old(self).allocated@.len(),
                self.need@.len() == old(self).need@.len(),
                forall|t: int|
                    0 <= t < self.max@.len() && t != ti ==> #[trigger] self.max@[t]
                        == old(self).max@[t],
                forall|t: int|
                    0 <= t < self.allocated@.len() && t != ti ==> #[trigger] self.allocated@[t]
                        == old(self).allocated@[t],
                forall|t: int|
                    0 <= t < self.need@.len() && t != ti ==> #[trigger] self.need@[t]
                        == old(self).need@[t],
                self.max@[ti as int]@.len() == nr,
                self.allocated@[ti as int]@.len() == nr,
                self.need@[ti as int]@.len() == nr,
                forall|j: int| 0 <= j < r ==> #[trigger] self.max@[ti as int]@[j] == 0,
                forall|j: int| 0 <= j < r ==> #[trigger] self.allocated@[ti as int]@[j] == 0,
                forall|j: int| 0 <= j < r ==> #[trigger] self.need@[ti as int]@[j] == 0,
                forall|j: int|
                    r <= j < nr ==> #[trigger] self.max@[ti as int]@[j]
                        == old(self).max@[ti as int]@[j],
                forall|j: int|
                    r <= j < nr ==> #[trigger] self.allocated@[ti as int]@[j]
                        == old(self).allocated@[ti as int]@[j],
                forall|j: int|
                    r <= j < nr ==> #[trigger] self.need@[ti as int]@[j]
                        == old(self).need@[ti as int]@[j],
            decreases nr - r,
        {
            let ghost pm = self.max@;
            let ghost pa = self.allocated@;
            let ghost pn = self.need@;
            self.max[ti][r] = 0;
            self.allocated[ti][r] = 0;
            self.need[ti][r] = 0;
            proof {
                assert(self.max@[ti as int]@ == pm[ti as int]@.update(r as int, 0usize));
                assert(self.allocated@[ti as int]@ == pa[ti as int]@.update(r as int, 0usize));
                assert(self.need@[ti as int]@ == pn[ti as int]@.update(r as int, 0usize));
                assert forall|j: int| 0 <= j < r + 1 implies self.max@[ti as int]@[j] == 0
                    && self.allocated@[ti as int]@[j] == 0 && self.need@[ti as int]@[j] == 0 by {
                    if j < r {
                        assert(pm[ti as int]@[j] == 0);
                        assert(pa[ti as int]@[j] == 0);
                        assert(pn[ti as int]@[j] == 0);
                    }
                }
                assert forall|j: int| r + 1 <= j < nr implies self.max@[ti as int]@[j] == old(
                    self,
                ).max@[ti as int]@[j] && self.allocated@[ti as int]@[j] == old(
                    self,
                ).allocated@[ti as int]@[j] && self.need@[ti as int]@[j] == old(
                    self,
                ).need@[ti as int]@[j] by {
                    assert(pm[ti as int]@[j] == old(self).max@[ti as int]@[j]);
                    assert(pa[ti as int]@[j] == old(self).allocated@[ti as int]@[j]);
                    assert(pn[ti as int]@[j] == old(self).need@[ti as int]@[j]);
                }
            }
            r = r + 1;
        }
        proof {
            lemma_matrix_view(self.max);
            lemma_matrix_view(self.allocated);
            lemma_matrix_view(self.need);
            lemma_matrix_view(old(self).max);
            lemma_matrix_view(old(self).allocated);
            lemma_matrix_view(old(self).need);
            let om = old(self)@;
            let t = task_id as int;
            let n = om.num_tasks as int;
            assert(self@.max =~~= om.max.update(t, zero_row(nr as int)));
            assert(self@.allocated =~~= om.allocated.update(t, zero_row(nr as int)));
            assert(self@.need =~~= om.need.update(t, zero_row(nr as int)));
            assert(self@ =~= spec_remove_task(om, t));
            assert forall|rr: int| 0 <= rr < om.resources.len() implies total_at(self@, rr)
                == total_at(om, rr) - om.allocated[t][rr] by {
                lemma_colsum_update(om.allocated, t, zero_row(nr as int), rr, n);
            }
            assert forall|rr: int| 0 <= rr < self@.resources.len() implies total_at(self@, rr)
                <= usize::MAX by {
                assert(total_at(self@, rr) == total_at(om, rr) - om.allocated[t][rr]);
                assert(total_at(om, rr) <= usize::MAX);
            }
        }
        true
    }

    /// The slot identifier of a registered resource, by linear scan; `None`
    /// if the identity is not currently registered.
    pub fn resource_id(&self, resource: u64) -> (r: Option<usize>)
        requires
            self.wf(),
        ensures
            r is Some <==> has_res(self@, resource),
            match r {
                Some(i) => i < self@.resources.len() && i as int == the_slot(self@, resource)
                    && self@.resources[i as int] == Some(resource),
                None => !has_res(self@, resource),
            },
    {
        let n = self.resources.len();
        let mut i: usize = 0;
        while i < n
            invariant
                i <= n,
                forall|j: int| 0 <= j < i ==> self@.resources[j] != Some(resource),
            decreases n - i,
        {
            let hit = match self.resources[i] {
                Some(x) => x == resource,
                None => false,
            };
            if hit {
                proof {
                    assert(self@.resources[i as int] == Some(resource));
                    assert(has_res(self@, resource));
                    let s = the_slot(self@, resource);
                    assert(0 <= s < self@.resources.len() && self@.resources[s] == Some(resource));
                    if s != i as int {
                        assert(false);
                    }
                }
                return Some(i);
            }
            i = i + 1;
        }
        None
    }

    /// Register `resource` with capacity `total`: reuse the front slot of
    /// the recycle queue if one exists, else append a fresh slot, extending
    /// every task row with a zero entry.  Hands back the slot identifier.
    /// The caller guarantees that the identity is not already registered.
    /// Establishes conservation for the new slot at `total` and conserves
    /// every other slot's total.
    pub fn add_resource(&mut self, resource: u64, total: usize) -> (r: usize)
        requires
            old(self).wf(),
            !has_res(old(self)@, resource),
        ensures
            final(self).wf(),
            final(self)@ == spec_add_resource(old(self)@, resource, total),
            r as int == alloc_slot(old(self)@),
            r < final(self)@.resources.len(),
            final(self)@.resources[r as int] == Some(resource),
            total_at(final(self)@, r as int) == total,
            forall|rr: int|
                0 <= rr < old(self)@.resources.len() && rr != r as int ==> total_at(
                    final(self)@,
                    rr,
                ) == total_at(old(self)@, rr),
            forall|t: int|
                0 <= t < final(self)@.num_tasks ==> final(self)@.max[t][r as int] == 0
                    && final(self)@.allocated[t][r as int] == 0 && final(self)@.need[t][r as int]
                    == 0,
    {
        if let Some(id) = self.recycle.pop_front() {
            proof {
                assert(old(self)@.recycle.len() > 0 && id == old(self)@.recycle[0]);
                assert(self.recycle@ =~= old(self)@.recycle.skip(1));
            }
            self.resources[id] = Some(resource);
            self.available[id] = total;
            proof {
                let om = old(self)@;
                let s = id as int;
                let n = om.num_tasks as int;
                assert(self@ =~= spec_add_resource(om, resource, total));
                assert forall|t: int| 0 <= t < n implies self@.max[t][s] == 0
                    && self@.allocated[t][s] == 0 && self@.need[t][s] == 0 by {
                    assert(om.max[t][s] == 0);
                    assert(om.allocated[t][s] <= om.max[t][s]);
                    assert(om.need[t][s] == om.max[t][s] - om.allocated[t][s]);
                }
                assert forall|rr: int| 0 <= rr < self@.resources.len() && rr != s implies total_at(
                    self@,
                    rr,
                ) == total_at(om, rr) by {
                    lemma_colsum_agree(self@.allocated, om.allocated, rr, n);
                }
                assert(total_at(self@, s) == total) by {
                    lemma_colsum_zero(self@.allocated, s, n);
                }
                assert forall|rr: int| 0 <= rr < self@.resources.len() implies total_at(self@, rr)
                    <= usize::MAX by {
                    if rr != s {
                        assert(total_at(self@, rr) == total_at(om, rr));
                        assert(total_at(om, rr) <= usize::MAX);
                    }
                }
            }
            return id;
        }
        let id = self.resources.len();
        self.resources.push(Some(resource));
        self.available.push(total);
        let n = self.num_tasks;
        proof {
            lemma_matrix_view(self.max);
            lemma_matrix_view(self.allocated);
            lemma_matrix_view(self.need);
        }
        let mut t: usize = 0;
        while t < n
            invariant
                t <= n,
                n == old(self)@.num_tasks,
                self.num_tasks == old(self).num_tasks,
                self.resources@ == old(self).resources@.push(Some(resource)),
                self.available@ == old(self).available@.push(total),
                self.recycle@ == old(self).recycle@,
                self.max@.len() == n,
                self.allocated@.len() == n,
                self.need@.len() == n,
                forall|u: int|
                    0 <= u < t ==> #[trigger] self.max@[u]@ == old(self).max@[u]@.push(0usize),
                forall|u: int|
                    0 <= u < t ==> #[trigger] self.allocated@[u]@ == old(
                        self,
                    ).allocated@[u]@.push(0usize),
                forall|u: int|
                    0 <= u < t ==> #[trigger] self.need@[u]@ == old(self).need@[u]@.push(0usize),
                forall|u: int| t <= u < n ==> #[trigger] self.max@[u] == old(self).max@[u],
                forall|u: int|
                    t <= u < n ==> #[trigger] self.allocated@[u] == old(self).allocated@[u],
                forall|u: int| t <= u < n ==> #[trigger] self.need@[u] == old(self).need@[u],
            decreases n - t,
        {
            self.max[t].push(0);
            self.allocated[t].push(0);
            self.need[t].push(0);
            t = t + 1;
        }
        proof {
            lemma_matrix_view(self.max);
            lemma_matrix_view(self.allocated);
            lemma_matrix_view(self.need);
            lemma_matrix_view(old(self).max);
            lemma_matrix_view(old(self).allocated);
            lemma_matrix_view(old(self).need);
            let om = old(self)@;
            let s = id as int;
            let nn = om.num_tasks as int;
            assert(self@.max =~~= Seq::new(om.max.len(), |u: int| om.max[u].push(0usize)));
            assert(self@.allocated =~~= Seq::new(
                om.allocated.len(),
                |u: int| om.allocated[u].push(0usize),
            ));
            assert(self@.need =~~= Seq::new(om.need.len(), |u: int| om.need[u].push(0usize)));
            assert(self@ =~= spec_add_resource(om, resource, total));
            assert forall|rr: int| 0 <= rr < om.resources.len() implies total_at(self@, rr)
                == total_at(om, rr) by {
                lemma_colsum_agree(self@.allocated, om.allocated, rr, nn);
            }
            assert(total_at(self@, s) == total) by {
                lemma_colsum_zero(self@.allocated, s, nn);
            }
            assert forall|rr: int| 0 <= rr < self@.resources.len() implies total_at(self@, rr)
                <= usize::MAX by {
                if rr != s {
                    assert(total_at(self@, rr) == total_at(om, rr));
                    assert(total_at(om, rr) <= usize::MAX);
                }
            }
        }
        id
    }

    /// Unregister `resource`: free its slot, queue the slot for reuse, and
    /// reset its availability and every task's bookkeeping for it to zero.
    /// Fails, changing nothing, if the identity is unknown.  A task that
    /// still held units of the resource has them silently dropped: callers
    /// must not have units in flight when unregistering.
    pub fn remove_resource(&mut self, resource: u64) -> (r: bool)
        requires
            old(self).wf(),
        ensures
            final(self).wf(),
            r == has_res(old(self)@, resource),
            r ==> final(self)@ == spec_remove_resource(old(self)@, resource),
            !r ==> final(self)@ == old(self)@,
            r ==> total_at(final(self)@, the_slot(old(self)@, resource)) == 0,
            forall|rr: int|
                0 <= rr < old(self)@.resources.len() && (!has_res(old(self)@, resource) || rr
                    != the_slot(old(self)@, resource)) ==> total_at(final(self)@, rr) == total_at(
                    old(self)@,
                    rr,
                ),
    {
        let rid = match self.resource_id(resource) {
            Some(i) => i,
            None => {
                return false;
            },
        };
        self.resources[rid] = None;
        self.recycle.push_back(rid);
        self.available[rid] = 0;
        let n = self.num_tasks;
        proof {
            let nn = old(self)@.num_tasks as int;
            assert forall|u: int| 0 <= u < nn implies (old(self).max@[u]@).len() == old(
                self,
            )@.resources.len() by {
                lemma_matrix_elem(old(self).max, u);
            }
            assert forall|u: int| 0 <= u < nn implies (old(self).allocated@[u]@).len() == old(
                self,
            )@.resources.len() by {
                lemma_matrix_elem(old(self).allocated, u);
            }
            assert forall|u: int| 0 <= u < nn implies (old(self).need@[u]@).len() == old(
                self,
            )@.resources.len() by {
                lemma_matrix_elem(old(self).need, u);
            }
        }
        let mut t: usize = 0;
        while t < n
            invariant
                t <= n,
                rid < old(self)@.resources.len(),
                n == old(self)@.num_tasks,
                self.num_tasks == old(self).num_tasks,
                self.resources@ == old(self).resources@.update(rid as int, None),
                self.available@ == old(self).available@.update(rid as int, 0usize),
                self.recycle@ == old(self).recycle@.push(rid),
                self.max@.len() == n,
                self.allocated@.len() == n,
                self.need@.len() == n,
                forall|u: int|
                    0 <= u < n ==> (#[trigger] old(self).max@[u]@).len()
                        == old(self)@.resources.len(),
                forall|u: int|
                    0 <= u < n ==> (#[trigger] old(self).allocated@[u]@).len()
                        == old(self)@.resources.len(),
                forall|u: int|
                    0 <= u < n ==> (#[trigger] old(self).need@[u]@).len()
                        == old(self)@.resources.len(),
                forall|u: int|
                    0 <= u < t ==> #[trigger] self.max@[u]@ == old(self).max@[u]@.update(
                        rid as int,
                        0usize,
                    ),
                forall|u: int|
                    0 <= u < t ==> #[trigger] self.allocated@[u]@ == old(
                        self,
                    ).allocated@[u]@.update(rid as int, 0usize),
                forall|u: int|
                    0 <= u < t ==> #[trigger] self.need@[u]@ == old(self).need@[u]@.update(
                        rid as int,
                        0usize,
                    ),
                forall|u: int| t <= u < n ==> #[trigger] self.max@[u] == old(self).max@[u],
                forall|u: int|
                    t <= u < n ==> #[trigger] self.allocated@[u] == old(self).allocated@[u],
                forall|u: int| t <= u < n ==> #[trigger] self.need@[u] == old(self).need@[u],
            decreases n - t,
        {
            self.max[t][rid] = 0;
            self.allocated[t][rid] = 0;
            self.need[t][rid] = 0;
            t = t + 1;
        }
        proof {
            lemma_matrix_view(self.max);
            lemma_matrix_view(self.allocated);
            lemma_matrix_view(self.need);
            lemma_matrix_view(old(self).max);
            lemma_matrix_view(old(self).allocated);
            lemma_matrix_view(old(self).need);
            let om = old(self)@;
            let s = rid as int;
            let nn = om.num_tasks as int;
            assert(self@.max =~~= Seq::new(om.max.len(), |u: int| om.max[u].update(s, 0usize)));
            assert(self@.allocated =~~= Seq::new(
                om.allocated.len(),
                |u: int| om.allocated[u].update(s, 0usize),
            ));
            assert(self@.need =~~= Seq::new(om.need.len(), |u: int| om.need[u].update(s, 0usize)));
            assert(self@ =~= spec_remove_resource(om, resource));
            assert forall|rr: int| 0 <= rr < om.resources.len() && rr != s implies total_at(
                self@,
                rr,
            ) == total_at(om, rr) by {
                lemma_colsum_agree(self@.allocated, om.allocated, rr, nn);
            }
            assert(total_at(self@, s) == 0) by {
                lemma_colsum_zero(self@.allocated, s, nn);
            }
            assert forall|rr: int| 0 <= rr < self@.resources.len() implies total_at(self@, rr)
                <= usize::MAX by {
                if rr != s {
                    assert(total_at(self@, rr) == total_at(om, rr));
                    assert(total_at(om, rr) <= usize::MAX);
                }
            }
        }
        true
    }

    /// Release `a = amount` units of `resource` held by `task_id`: the
    /// units return to the pool and to the task's outstanding need.  Fails,
    /// changing nothing, if the task identifier is out of range, the
    /// identity is unknown, or the amount exceeds what the task holds.
    /// Conserves every slot's total.
    pub fn release(&mut self, task_id: usize, resource: u64, amount: usize) -> (r: bool)
        requires
            old(self).wf(),
        ensures
            final(self).wf(),
            r == (task_id < old(self)@.num_tasks && has_res(old(self)@, resource) && amount <= old(
                self,
            )@.allocated[task_id as int][the_slot(old(self)@, resource)]),
            r ==> final(self)@ == spec_release(
                old(self)@,
                task_id as int,
                the_slot(old(self)@, resource),
                amount,
            ),
            !r ==> final(self)@ == old(self)@,
            forall|rr: int|
                0 <= rr < old(self)@.resources.len() ==> total_at(final(self)@, rr) == total_at(
                    old(self)@,
                    rr,
                ),
    {
        if task_id >= self.num_tasks {
            return false;
        }
        let rid = match self.resource_id(resource) {
            Some(i) => i,
            None => {
                return false;
            },
        };
        proof {
            lemma_matrix_elem(self.allocated, task_id as int);
            lemma_matrix_elem(self.need, task_id as int);
            assert(self@.allocated[task_id as int].len() == self@.resources.len());
            assert(self@.need[task_id as int].len() == self@.resources.len());
        }
        let held = self.allocated[task_id][rid];
        if amount > held {
            return false;
        }
        let nd = self.need[task_id][rid];
        let av = self.available[rid];
        proof {
            let t = task_id as int;
            let s = rid as int;
            assert(held == self@.allocated[t][s]);
            assert(nd == self@.need[t][s]);
            assert(self@.need[t][s] == self@.max[t][s] - self@.allocated[t][s]);
            lemma_colsum_member(self@.allocated, t, s, self@.num_tasks as int);
            assert(total_at(self@, s) <= usize::MAX);
            assert(av + amount <= usize::MAX);
        }
        self.allocated[task_id][rid] = held - amount;
        self.need[task_id][rid] = nd + amount;
        self.available[rid] = av + amount;
        proof {
            lemma_matrix_view(self.allocated);
            lemma_matrix_view(self.need);
            lemma_matrix_view(old(self).allocated);
            lemma_matrix_view(old(self).need);
            let om = old(self)@;
            let t = task_id as int;
            let s = rid as int;
            let n = om.num_tasks as int;
            assert(self@.allocated =~~= mat_upd(om.allocated, t, s, (om.allocated[t][s]
                - amount) as usize));
            assert(self@.need =~~= mat_upd(om.need, t, s, (om.need[t][s] + amount) as usize));
            assert(self@.available =~= om.available.update(s, (om.available[s]
                + amount) as usize));
            assert(self@ =~= spec_release(om, t, s, amount));
            assert forall|rr: int| 0 <= rr < om.resources.len() implies total_at(self@, rr)
                == total_at(om, rr) by {
                lemma_colsum_update(om.allocated, t, om.allocated[t].update(s, (om.allocated[t][s]
                    - amount) as usize), rr, n);
            }
            assert forall|rr: int| 0 <= rr < self@.resources.len() implies total_at(self@, rr)
                <= usize::MAX by {
                assert(total_at(self@, rr) == total_at(om, rr));
                assert(total_at(om, rr) <= usize::MAX);
            }
        }
        true
    }

    /// Declaration-and-immediate-grant: raise the declared maximum and the
    /// allocation of `task_id` for `resource` by `amount` and take the
    /// units from the pool, leaving the need unchanged.  The caller must
    /// have validated the task, the resource and the availability: this
    /// path treats a violation as an unrecoverable caller bug, so the
    /// conditions stand as preconditions.  Conserves every slot's total.
    pub fn request(&mut self, task_id: usize, resource: u64, amount: usize)
        requires
            old(self).wf(),
            task_id < old(self)@.num_tasks,
            has_res(old(self)@, resource),
            amount <= old(self)@.available[the_slot(old(self)@, resource)],
            old(self)@.max[task_id as int][the_slot(old(self)@, resource)] + amount <= usize::MAX,
        ensures
            final(self).wf(),
            final(self)@ == spec_request(
                old(self)@,
                task_id as int,
                the_slot(old(self)@, resource),
                amount,
            ),
            forall|rr: int|
                0 <= rr < old(self)@.resources.len() ==> total_at(final(self)@, rr) == total_at(
                    old(self)@,
                    rr,
                ),
    {
        let rid = match self.resource_id(resource) {
            Some(i) => i,
            None => vstd::pervasive::unreached(),
        };
        proof {
            lemma_matrix_elem(self.max, task_id as int);
            lemma_matrix_elem(self.allocated, task_id as int);
            assert(self@.max[task_id as int].len() == self@.resources.len());
            assert(self@.allocated[task_id as int].len() == self@.resources.len());
        }
        let mx = self.max[task_id][rid];
        let al = self.allocated[task_id][rid];
        let av = self.available[rid];
        self.max[task_id][rid] = mx + amount;
        self.allocated[task_id][rid] = al + amount;
        self.available[rid] = av - amount;
        proof {
            lemma_matrix_view(self.max);
            lemma_matrix_view(self.allocated);
            lemma_matrix_view(old(self).max);
            lemma_matrix_view(old(self).allocated);
            let om = old(self)@;
            let t = task_id as int;
            let s = rid as int;
            let n = om.num_tasks as int;
            assert(self@.max =~~= mat_upd(om.max, t, s, (om.max[t][s] + amount) as usize));
            assert(self@.allocated =~~= mat_upd(om.allocated, t, s, (om.allocated[t][s]
                + amount) as usize));
            assert(self@.need =~~= om.need);
            assert(self@.available =~= om.available.update(s, (om.available[s]
                - amount) as usize));
            assert(self@ =~= spec_request(om, t, s, amount));
            assert forall|rr: int| 0 <= rr < om.resources.len() implies total_at(self@, rr)
                == total_at(om, rr) by {
                lemma_colsum_update(om.allocated, t, om.allocated[t].update(s, (om.allocated[t][s]
                    + amount) as usize), rr, n);
            }
            assert forall|rr: int| 0 <= rr < self@.resources.len() implies total_at(self@, rr)
                <= usize::MAX by {
                assert(total_at(self@, rr) == total_at(om, rr));
                assert(total_at(om, rr) <= usize::MAX);
            }
        }
    }

    /// The safety checker: decide whether the system is safe by the
    /// classical finish simulation.  Starting from the free units, scan all
    /// tasks again and again for one whose whole outstanding need fits in
    /// the current work vector; simulate it finishing by reclaiming its
    /// allocation.  The system is safe exactly when every task can be
    /// finished this way — that is, exactly when a safe finish order
    /// exists.  Reads the matrices only; no side effects.
    pub fn is_safe(&self) -> (r: bool)
        requires
            self.wf(),
        ensures
            r == safe_state(self@),
    {
        let n = self.num_tasks;
        let nr = self.resources.len();
        let mut work: Vec<usize> = Vec::new();
        let mut i: usize = 0;
        while i < nr
            invariant
                i <= nr,
                work@.len() == i,
                forall|j: int| 0 <= j < i ==> #[trigger] work@[j] == self@.available[j],
            decreases nr - i,
        {
            work.push(self.available[i]);
            i = i + 1;
        }
        let mut finish: Vec<bool> = Vec::new();
        let mut k: usize = 0;
        while k < n
            invariant
                k <= n,
                finish@.len() == k,
                forall|j: int| 0 <= j < k ==> #[trigger] finish@[j] == false,
            decreases n - k,
        {
            finish.push(false);
            k = k + 1;
        }
        let mut count: usize = 0;
        let ghost mut ord: Seq<int> = Seq::empty();
        proof {
            assert forall|r: int| 0 <= r < nr implies #[trigger] work@[r] == self@.available[r]
                + masked_colsum(self@.allocated, finish@, r, n as int) by {
                lemma_masked_zero(self@.allocated, finish@, r, n as int);
            }
            assert(sim_inv(self@, work@, finish@, count as int, ord));
        }
        while count < n
            invariant
                sim_inv(self@, work@, finish@, count as int, ord),
            decreases n - count,
        {
            let ghost count0 = count as int;
            let ghost work0 = work@;
            let ghost finish0 = finish@;
            let ghost ord0 = ord;
            let mut found = false;
            let mut t: usize = 0;
            while t < n
                invariant
                    t <= n,
                    count0 <= count as int,
                    sim_inv(self@, work@, finish@, count as int, ord),
                    !found ==> count as int == count0 && work@ == work0 && finish@ == finish0
                        && ord == ord0,
                    !found ==> blocked(self@, finish@, work@, t as int),
                    found ==> count as int > count0,
                decreases n - t,
            {
                if !finish[t] {
                    proof {
                        lemma_matrix_elem(self.need, t as int);
                        assert(self@.need[t as int].len() == self@.resources.len());
                        lemma_matrix_elem(self.allocated, t as int);
                        assert(self@.allocated[t as int].len() == self@.resources.len());
                    }
                    let ok = le_all(&self.need[t], &work);
                    if ok {
                        let ghost pwork = work@;
                        let ghost pfinish = finish@;
                        let ghost pord = ord;
                        let mut r: usize = 0;
                        while r < nr
                            invariant
                                r <= nr,
                                work@.len() == nr,
                                forall|j: int|
                                    0 <= j < r ==> #[trigger] work@[j] == pwork[j]
                                        + self@.allocated[t as int][j],
                                forall|j: int| r <= j < nr ==> #[trigger] work@[j] == pwork[j],
                            decreases nr - r,
                        {
                            proof {
                                let gt = t as int;
                                let gr = r as int;
                                let gn = n as int;
                                assert(!pfinish[gt]);
                                assert(pwork[gr] == self@.available[gr] + masked_colsum(
                                    self@.allocated,
                                    pfinish,
                                    gr,
                                    gn,
                                ));
                                lemma_masked_colsum_update(
                                    self@.allocated,
                                    pfinish,
                                    gt,
                                    true,
                                    gr,
                                    gn,
                                );
                                lemma_masked_le_colsum(
                                    self@.allocated,
                                    pfinish.update(gt, true),
                                    gr,
                                    gn,
                                );
                                assert(total_at(self@, gr) <= usize::MAX);
                                assert(work@[gr] + self@.allocated[gt][gr] <= usize::MAX);
                            }
                            let w = work[r];
                            let a = self.allocated[t][r];
                            work[r] = w + a;
                            r = r + 1;
                        }
                        finish[t] = true;
                        proof {
                            let gt = t as int;
                            let gn = n as int;
                            assert(!pord.contains(gt));
                            let pushed = pord.push(gt);
                            assert forall|i2: int, j2: int|
                                0 <= i2 < j2 < pushed.len() implies #[trigger] pushed[i2]
                                != #[trigger] pushed[j2] by {
                                if j2 == pushed.len() - 1 {
                                    assert(pushed[i2] == pord[i2]);
                                    if pord[i2] == gt {
                                        assert(pord.contains(gt));
                                    }
                                }
                            }
                            assert forall|i2: int| 0 <= i2 < pushed.len() implies 0
                                <= #[trigger] pushed[i2] < gn by {
                                if i2 < pord.len() {
                                    assert(pushed[i2] == pord[i2]);
                                }
                            }
                            lemma_distinct_bounded(pushed, gn);
                        }
                        count = count + 1;
                        proof {
                            let gt = t as int;
                            let gn = n as int;
                            let gnr = nr as int;
                            let m = self@;
                            assert(!pord.contains(gt));
                            ord = pord.push(gt);
                            assert forall|i2: int, j2: int|
                                0 <= i2 < j2 < ord.len() implies #[trigger] ord[i2]
                                != #[trigger] ord[j2] by {
                                if j2 == ord.len() - 1 {
                                    assert(ord[i2] == pord[i2]);
                                    if pord[i2] == gt {
                                        assert(pord.contains(gt));
                                    }
                                }
                            }
                            lemma_distinct_bounded(ord, gn);
                            assert(finish@ =~= pfinish.update(gt, true));
                            assert forall|u: int| 0 <= u < gn implies (#[trigger] finish@[u]
                                <==> ord.contains(u)) by {
                                if u == gt {
                                    assert(ord[ord.len() - 1] == gt);
                                } else {
                                    if pord.contains(u) {
                                        let iu = choose|iu: int|
                                            0 <= iu < pord.len() && pord[iu] == u;
                                        assert(ord[iu] == u);
                                    }
                                    if ord.contains(u) {
                                        let iu = choose|iu: int|
                                            0 <= iu < ord.len() && ord[iu] == u;
                                        assert(iu < pord.len());
                                        assert(pord[iu] == u);
                                    }
                                }
                            }
                            assert forall|r2: int| 0 <= r2 < gnr implies #[trigger] work@[r2]
                                == m.available[r2] + masked_colsum(m.allocated, finish@, r2, gn) by {
                                lemma_masked_colsum_update(m.allocated, pfinish, gt, true, r2, gn);
                                lemma_masked_colsum_agree(
                                    m.allocated,
                                    finish@,
                                    pfinish.update(gt, true),
                                    r2,
                                    gn,
                                );
                            }
                            assert forall|j: int, r2: int|
                                0 <= j < ord.len() && 0 <= r2 < gnr implies #[trigger] m.need[ord[j]][r2]
                                <= m.available[r2] + prefix_alloc_sum(m.allocated, ord, j, r2) by {
                                lemma_prefix_agree(m.allocated, ord, pord, j, r2);
                                if j < pord.len() {
                                    assert(m.need[pord[j]][r2] <= m.available[r2]
                                        + prefix_alloc_sum(m.allocated, pord, j, r2));
                                    assert(ord[j] == pord[j]);
                                } else {
                                    assert(m.need[gt][r2] <= pwork[r2]);
                                    assert(m.available[r2] + prefix_alloc_sum(
                                        m.allocated,
                                        pord,
                                        j,
                                        r2,
                                    ) == pwork[r2]);
                                }
                            }
                            assert forall|r2: int| 0 <= r2 < gnr implies m.available[r2]
                                + prefix_alloc_sum(m.allocated, ord, ord.len() as int, r2)
                                == #[trigger] work@[r2] by {
                                lemma_prefix_agree(m.allocated, ord, pord, ord.len() - 1, r2);
                                assert(prefix_alloc_sum(m.allocated, ord, ord.len() as int, r2)
                                    == prefix_alloc_sum(m.allocated, ord, ord.len() - 1, r2)
                                    + m.allocated[gt][r2]);
                            }
                            assert(sim_inv(m, work@, finish@, count as int, ord));
                        }
                        found = true;
                    } else {
                        proof {
                            assert(exists|r2: int|
                                0 <= r2 < self@.resources.len() && self@.need[t as int][r2]
                                    > work@[r2]);
                        }
                    }
                }
                t = t + 1;
            }
            if !found {
                proof {
                    lemma_stuck_unsafe(self@, finish@, work@, ord);
                }
                return false;
            }
        }
        proof {
            assert(order_ok(self@, ord));
        }
        true
    }

    /// Speculative admission control: would declaring `amount` more units
    /// of `resource` for `task_id` keep the system safe?  The declaration
    /// is applied hypothetically, the safety checker runs over the
    /// hypothetical state, and the declaration is rolled back whatever the
    /// outcome: the ledger is left exactly as it was.  Returns false when
    /// the task is out of range, the identity unknown, the amount above the
    /// currently free units, or the hypothetical state unsafe.
    pub fn try_request(&mut self, task_id: usize, resource: u64, amount: usize) -> (r: bool)
        requires
            old(self).wf(),
            task_id < old(self)@.num_tasks && has_res(old(self)@, resource) ==> old(
                self,
            )@.max[task_id as int][the_slot(old(self)@, resource)] + amount <= usize::MAX,
        ensures
            final(self).wf(),
            final(self)@ == old(self)@,
            r == (task_id < old(self)@.num_tasks && has_res(old(self)@, resource) && amount <= old(
                self,
            )@.available[the_slot(old(self)@, resource)] && safe_state(
                spec_raised(old(self)@, task_id as int, the_slot(old(self)@, resource), amount),
            )),
    {
        if task_id >= self.num_tasks {
            return false;
        }
        let rid = match self.resource_id(resource) {
            Some(i) => i,
            None => {
                return false;
            },
        };
        if amount > self.available[rid] {
            return false;
        }
        proof {
            lemma_matrix_elem(self.max, task_id as int);
            lemma_matrix_elem(self.need, task_id as int);
            assert(self@.max[task_id as int].len() == self@.resources.len());
            assert(self@.need[task_id as int].len() == self@.resources.len());
        }
        let mx = self.max[task_id][rid];
        let nd = self.need[task_id][rid];
        self.max[task_id][rid] = mx + amount;
        self.need[task_id][rid] = nd + amount;
        proof {
            lemma_matrix_view(self.max);
            lemma_matrix_view(self.need);
            lemma_matrix_view(old(self).max);
            lemma_matrix_view(old(self).need);
            let om = old(self)@;
            let t = task_id as int;
            let s = rid as int;
            assert(self@.max =~~= mat_upd(om.max, t, s, (om.max[t][s] + amount) as usize));
            assert(self@.need =~~= mat_upd(om.need, t, s, (om.need[t][s] + amount) as usize));
            assert(self@ =~= spec_raised(om, t, s, amount));
            assert forall|rr: int| 0 <= rr < self@.resources.len() implies total_at(self@, rr)
                <= usize::MAX by {
                assert(total_at(self@, rr) == total_at(om, rr));
                assert(total_at(om, rr) <= usize::MAX);
            }
            assert(self.wf());
        }
        let is_safe = self.is_safe();
        let mx2 = self.max[task_id][rid];
        let nd2 = self.need[task_id][rid];
        self.max[task_id][rid] = mx2 - amount;
        self.need[task_id][rid] = nd2 - amount;
        proof {
            lemma_matrix_view(self.max);
            lemma_matrix_view(self.need);
            lemma_matrix_view(old(self).max);
            lemma_matrix_view(old(self).need);
            let om = old(self)@;
            assert(self@.max =~~= om.max);
            assert(self@.need =~~= om.need);
            assert(self@ =~= om);
        }
        is_safe
    }
}

proof fn lemma_masked_zero(alloc: Seq<Seq<usize>>, mask: Seq<bool>, r: int, upto: int)
    requires
        forall|t: int| 0 <= t < upto ==> #[trigger] mask[t] == false,
    ensures
        masked_colsum(alloc, mask, r, upto) == 0,
    decreases upto,
{
    if upto > 0 {
        lemma_masked_zero(alloc, mask, r, upto - 1);
    }
}

} // verus!
