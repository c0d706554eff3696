//! The mathematical model of a task store.
//!
//! A store is modelled as a finite map from identifier sequences to task
//! values. `wf` states the tree invariants: the root is present, every
//! non-root key has its parent present, the children of a key occupy exactly
//! the indices one through `num_child`, and every trunk's aggregates equal
//! the sum over its direct children. Each engine operation promises its
//! result as one of the map transforms defined here.

use vstd::prelude::*;

use crate::task::{fresh_task, TaskStatus, TaskView};

verus! {

/// The key of the root task: the empty sequence.
pub open spec fn root_key() -> Seq<u32> {
    Seq::<u32>::empty()
}

/// Is `p` a prefix of `k`?
pub open spec fn is_id_prefix(p: Seq<u32>, k: Seq<u32>) -> bool {
    p.len() <= k.len() && k.take(p.len() as int) == p
}

/// `k` with the index at `d` one lower.
pub open spec fn dec_at(k: Seq<u32>, d: int) -> Seq<u32> {
    k.update(d, (k[d] - 1) as u32)
}

/// `k` with the index at `d` one higher.
pub open spec fn inc_at(k: Seq<u32>, d: int) -> Seq<u32> {
    k.update(d, (k[d] + 1) as u32)
}

/// `t` relabelled to sit at key `k`.
pub open spec fn retag(t: TaskView, k: Seq<u32>) -> TaskView {
    TaskView { id: k, ..t }
}

/// The sum of the planned values of the first `n` children of `k`.
pub open spec fn sum_pv(m: Map<Seq<u32>, TaskView>, k: Seq<u32>, n: int) -> int
    decreases n,
{
    if n <= 0 {
        0
    } else {
        sum_pv(m, k, n - 1) + m[k.push(n as u32)].planned_value
    }
}

/// The sum of the actual costs of the first `n` children of `k`.
pub open spec fn sum_ac(m: Map<Seq<u32>, TaskView>, k: Seq<u32>, n: int) -> int
    decreases n,
{
    if n <= 0 {
        0
    } else {
        sum_ac(m, k, n - 1) + m[k.push(n as u32)].actual_cost
    }
}

/// The tree invariants of a store.
pub open spec fn wf(m: Map<Seq<u32>, TaskView>) -> bool {
    &&& m.dom().finite()
    &&& m.dom().contains(root_key())
    &&& forall|k: Seq<u32>| #[trigger] m.dom().contains(k) ==> m[k].id == k
    &&& forall|k: Seq<u32>|
        #[trigger] m.dom().contains(k) && k.len() > 0 ==> m.dom().contains(k.drop_last()) && 1
            <= k.last()
    &&& forall|k: Seq<u32>, j: u32|
        m.dom().contains(k) ==> (m.dom().contains(#[trigger] k.push(j)) <==> 1 <= j <= m[k].num_child)
    &&& forall|k: Seq<u32>|
        #[trigger] m.dom().contains(k) && m[k].num_child > 0 ==> m[k].planned_value == sum_pv(
            m,
            k,
            m[k].num_child as int,
        ) && m[k].actual_cost == sum_ac(m, k, m[k].num_child as int)
}

/// The store as construction leaves it: the root task alone.
pub open spec fn spec_construct(name: Seq<char>) -> Map<Seq<u32>, TaskView> {
    Map::<Seq<u32>, TaskView>::empty().insert(root_key(), fresh_task(root_key(), name))
}

/// The key the add operation gives the new child of `parent`.
pub open spec fn added_key(m: Map<Seq<u32>, TaskView>, parent: Seq<u32>) -> Seq<u32> {
    parent.push((m[parent].num_child + 1) as u32)
}

/// The store after adding a fresh work package under `parent`: the parent's
/// child count grows by one, the new task sits at the next free index, and
/// the whole ancestor chain of the new task is set back to in progress.
pub open spec fn spec_add(
    m: Map<Seq<u32>, TaskView>,
    parent: Seq<u32>,
    name: Seq<char>,
) -> Map<Seq<u32>, TaskView> {
    let nid = added_key(m, parent);
    Map::new(
        |k: Seq<u32>| m.dom().contains(k) || k == nid,
        |k: Seq<u32>|
            if k == nid {
                fresh_task(nid, name)
            } else {
                TaskView {
                    num_child: if k == parent {
                        (m[parent].num_child + 1) as u32
                    } else {
                        m[k].num_child
                    },
                    status: if is_id_prefix(k, nid) {
                        TaskStatus::InProgress
                    } else {
                        m[k].status
                    },
                    ..m[k]
                }
            },
    )
}

/// The add transform with the in-progress marking carried only through
/// ancestors shallower than `upto` levels: the walk from the root, one level
/// at a time.
pub open spec fn spec_add_upto(
    m: Map<Seq<u32>, TaskView>,
    parent: Seq<u32>,
    name: Seq<char>,
    upto: int,
) -> Map<Seq<u32>, TaskView> {
    let nid = added_key(m, parent);
    Map::new(
        |k: Seq<u32>| m.dom().contains(k) || k == nid,
        |k: Seq<u32>|
            if k == nid {
                fresh_task(nid, name)
            } else {
                TaskView {
                    num_child: if k == parent {
                        (m[parent].num_child + 1) as u32
                    } else {
                        m[k].num_child
                    },
                    status: if is_id_prefix(k, nid) && k.len() < upto {
                        TaskStatus::InProgress
                    } else {
                        m[k].status
                    },
                    ..m[k]
                }
            },
    )
}

/// The full add transform. A summary task's aggregates are derived, so when
/// a work package gains its first child its authored aggregates return to
/// zero first, the difference propagated upward as the setters do.
pub open spec fn spec_add_full(
    m: Map<Seq<u32>, TaskView>,
    parent: Seq<u32>,
    name: Seq<char>,
) -> Map<Seq<u32>, TaskView> {
    if m[parent].num_child == 0 {
        spec_add(spec_set_pv(spec_set_ac_vals(m, parent, 0), parent, 0), parent, name)
    } else {
        spec_add(m, parent, name)
    }
}

/// The store after the planned value of the work package `id` is set to `v`,
/// with every strict ancestor bumped by the difference — but only ancestors
/// shallower than `upto` levels, which lets a proof follow the walk from the
/// root one level at a time.
pub open spec fn spec_set_pv_upto(
    m: Map<Seq<u32>, TaskView>,
    id: Seq<u32>,
    v: u64,
    upto: int,
) -> Map<Seq<u32>, TaskView> {
    Map::new(
        |k: Seq<u32>| m.dom().contains(k),
        |k: Seq<u32>|
            if k == id {
                TaskView { planned_value: v, ..m[k] }
            } else if is_id_prefix(k, id) && k.len() < upto {
                TaskView {
                    planned_value: (m[k].planned_value + v - m[id].planned_value) as u64,
                    ..m[k]
                }
            } else {
                m[k]
            },
    )
}

/// The store after the planned value of `id` is set to `v` and the
/// difference is propagated along the whole ancestor chain.
pub open spec fn spec_set_pv(
    m: Map<Seq<u32>, TaskView>,
    id: Seq<u32>,
    v: u64,
) -> Map<Seq<u32>, TaskView> {
    spec_set_pv_upto(m, id, v, id.len() as int)
}

/// As `spec_set_pv_upto`, for the actual cost.
pub open spec fn spec_set_ac_upto(
    m: Map<Seq<u32>, TaskView>,
    id: Seq<u32>,
    v: u64,
    upto: int,
) -> Map<Seq<u32>, TaskView> {
    Map::new(
        |k: Seq<u32>| m.dom().contains(k),
        |k: Seq<u32>|
            if k == id {
                TaskView { actual_cost: v, ..m[k] }
            } else if is_id_prefix(k, id) && k.len() < upto {
                TaskView {
                    actual_cost: (m[k].actual_cost + v - m[id].actual_cost) as u64,
                    ..m[k]
                }
            } else {
                m[k]
            },
    )
}

/// The actual-cost transform over the whole ancestor chain, before the
/// completion sweep.
pub open spec fn spec_set_ac_vals(
    m: Map<Seq<u32>, TaskView>,
    id: Seq<u32>,
    v: u64,
) -> Map<Seq<u32>, TaskView> {
    spec_set_ac_upto(m, id, v, id.len() as int)
}

/// Does every direct child of `k` have status done?
pub open spec fn all_children_done(m: Map<Seq<u32>, TaskView>, k: Seq<u32>) -> bool {
    forall|j: u32| 1 <= j <= m[k].num_child ==> m[#[trigger] k.push(j)].status is Done
}

/// One step of the completion sweep: `k` becomes done exactly when all its
/// direct children currently are.
pub open spec fn sweep_once(
    m: Map<Seq<u32>, TaskView>,
    k: Seq<u32>,
) -> Map<Seq<u32>, TaskView> {
    if m.dom().contains(k) && all_children_done(m, k) {
        m.insert(k, TaskView { status: TaskStatus::Done, ..m[k] })
    } else {
        m
    }
}

/// The completion sweep from `id` up to the prefix of length `stop`: the
/// deepest task is re-evaluated first, then each ancestor in turn.
pub open spec fn sweep_range(
    m: Map<Seq<u32>, TaskView>,
    id: Seq<u32>,
    stop: int,
) -> Map<Seq<u32>, TaskView>
    decreases id.len() - stop + 1,
{
    if stop > id.len() || stop < 0 {
        m
    } else {
        sweep_once(sweep_range(m, id, stop + 1), id.take(stop))
    }
}

/// The sweep marks a work package done and touches none of its other fields.
pub proof fn lemma_sweep_marks_leaf(m: Map<Seq<u32>, TaskView>, id: Seq<u32>, stop: int)
    requires
        m.dom().contains(id),
        m[id].num_child == 0,
        0 <= stop <= id.len(),
    ensures
        sweep_range(m, id, stop).dom().contains(id),
        sweep_range(m, id, stop)[id] == (TaskView { status: TaskStatus::Done, ..m[id] }),
    decreases id.len() - stop,
{
    if stop == id.len() {
        let inner = sweep_range(m, id, stop + 1);
        assert(inner == m);
        assert(id.take(stop) =~= id);
        assert(all_children_done(m, id));
    } else {
        lemma_sweep_marks_leaf(m, id, stop + 1);
        let inner = sweep_range(m, id, stop + 1);
        assert(id.take(stop).len() != id.len());
    }
}

/// The store after the actual cost of the work package `id` is set to `v`:
/// the value transform, then the bottom-up completion sweep along the path.
pub open spec fn spec_set_ac(
    m: Map<Seq<u32>, TaskView>,
    id: Seq<u32>,
    v: u64,
) -> Map<Seq<u32>, TaskView> {
    sweep_range(spec_set_ac_vals(m, id, v), id, 0)
}

/// The store after the subtrees rooted at the children `k0+1 ..= j` of `par`
/// have each been shifted one sibling index down. Position `k0` was vacated
/// by a removal; after the shift the vacant position is `j`.
pub open spec fn spec_shift_upto(
    m: Map<Seq<u32>, TaskView>,
    par: Seq<u32>,
    k0: u32,
    j: int,
) -> Map<Seq<u32>, TaskView> {
    let d = par.len() as int;
    Map::new(
        |k: Seq<u32>|
            if is_id_prefix(par, k) && k.len() > d && k0 <= k[d] && k[d] < j {
                m.dom().contains(inc_at(k, d))
            } else if is_id_prefix(par, k) && k.len() > d && k[d] == j && k0 < j {
                false
            } else {
                m.dom().contains(k)
            },
        |k: Seq<u32>|
            if is_id_prefix(par, k) && k.len() > d && k0 <= k[d] && k[d] < j {
                retag(m[inc_at(k, d)], k)
            } else {
                m[k]
            },
    )
}

/// The store after the whole subtree rooted at `p` has its index at depth
/// `layer` lowered by one.
pub open spec fn spec_subtract(
    m: Map<Seq<u32>, TaskView>,
    p: Seq<u32>,
    layer: int,
) -> Map<Seq<u32>, TaskView> {
    let p2 = dec_at(p, layer);
    Map::new(
        |k: Seq<u32>|
            if is_id_prefix(p2, k) {
                m.dom().contains(inc_at(k, layer))
            } else {
                m.dom().contains(k) && !is_id_prefix(p, k)
            },
        |k: Seq<u32>|
            if is_id_prefix(p2, k) {
                retag(m[inc_at(k, layer)], k)
            } else {
                m[k]
            },
    )
}

/// The store after the work package `id` is removed: its aggregates are
/// zeroed through the setters, the parent's child count drops by one, the
/// entry is erased, and every later sibling subtree shifts one index down.
pub open spec fn spec_remove(
    m: Map<Seq<u32>, TaskView>,
    id: Seq<u32>,
) -> Map<Seq<u32>, TaskView> {
    let par = id.drop_last();
    let k0 = id.last();
    let n = m[par].num_child;
    let m1 = spec_set_pv(spec_set_ac(m, id, 0), id, 0);
    let m2 = m1.insert(par, TaskView { num_child: (n - 1) as u32, ..m1[par] });
    let m3 = m2.remove(id);
    spec_shift_upto(m3, par, k0, n as int)
}

/// One key of the one-sibling-step equation between partial shifts.
proof fn lemma_shift_step_key(m: Map<Seq<u32>, TaskView>, par: Seq<u32>, k0: u32, j: u32, k: Seq<u32>)
    requires
        1 <= k0 < j,
    ensures
        spec_subtract(spec_shift_upto(m, par, k0, j - 1), par.push(j), par.len() as int)
            .dom().contains(k) == spec_shift_upto(m, par, k0, j as int).dom().contains(k),
        spec_shift_upto(m, par, k0, j as int).dom().contains(k) ==> spec_subtract(
            spec_shift_upto(m, par, k0, j - 1),
            par.push(j),
            par.len() as int,
        )[k] == spec_shift_upto(m, par, k0, j as int)[k],
{
    let d = par.len() as int;
    let p = par.push(j);
    let a = spec_shift_upto(m, par, k0, j - 1);
    let b = spec_subtract(a, p, d);
    let c = spec_shift_upto(m, par, k0, j as int);
    assert(p[d] == j);
    assert(dec_at(p, d) =~= par.push((j - 1) as u32));
    let p2 = dec_at(p, d);
    lemma_push_prefix(par, (j - 1) as u32, k);
    lemma_push_prefix(par, j, k);
    assert(is_id_prefix(p2, k) <==> (is_id_prefix(par, k) && k.len() > d && k[d] == j - 1)) by {
        if is_id_prefix(p2, k) {
            assert(is_id_prefix(par, p2)) by {
                assert(p2.take(par.len() as int) =~= par);
            }
            lemma_prefix_trans(par, p2, k);
            assert(k.take(p2.len() as int)[d] == k[d]);
        }
    }
    assert(is_id_prefix(p, k) <==> (is_id_prefix(par, k) && k.len() > d && k[d] == j)) by {
        if is_id_prefix(p, k) {
            assert(is_id_prefix(par, p)) by {
                assert(p.take(par.len() as int) =~= par);
            }
            lemma_prefix_trans(par, p, k);
            assert(k.take(p.len() as int)[d] == k[d]);
        }
    }
    if is_id_prefix(p2, k) {
        // the subtree that moves in this step
        assert(k[d] == j - 1);
        lemma_prefix_inc(p, k, d);
        let q = inc_at(k, d);
        assert(q[d] == j);
        assert(is_id_prefix(par, q)) by {
            assert(q.take(par.len() as int) =~= par) by {
                assert(k.take(p2.len() as int) == p2);
                assert forall|i: int|
                    0 <= i < par.len() implies q.take(par.len() as int)[i] == par[i] by {
                    assert(q[i] == k[i]);
                    assert(k.take(p2.len() as int)[i] == k[i]);
                    assert(p2[i] == par[i]);
                }
            }
        }
        assert(a.dom().contains(q) == m.dom().contains(q));
        assert(b.dom().contains(k) == m.dom().contains(q));
        assert(c.dom().contains(k) == m.dom().contains(q));
        if m.dom().contains(q) {
            assert(a[q] == m[q]);
            assert(b[k] == retag(m[q], k));
            assert(c[k] == retag(m[q], k));
        }
    } else if is_id_prefix(par, k) && k.len() > d {
        if k[d] < k0 {
            assert(b.dom().contains(k) == m.dom().contains(k));
            assert(c.dom().contains(k) == m.dom().contains(k));
            if m.dom().contains(k) {
                assert(b[k] == m[k]);
                assert(c[k] == m[k]);
            }
        } else if k[d] < j - 1 {
            lemma_prefix_refl(par);
            assert(k[d] < u32::MAX);
            let q = inc_at(k, d);
            assert(a.dom().contains(k) == m.dom().contains(q));
            assert(b.dom().contains(k) == (m.dom().contains(q) && !is_id_prefix(p, k)));
            assert(!is_id_prefix(p, k));
            assert(c.dom().contains(k) == m.dom().contains(q));
            if m.dom().contains(q) {
                assert(a[k] == retag(m[q], k));
                assert(b[k] == retag(m[q], k));
                assert(c[k] == retag(m[q], k));
            }
        } else if k[d] == j {
            assert(is_id_prefix(p, k));
            assert(!b.dom().contains(k));
            assert(!c.dom().contains(k));
        } else {
            assert(k[d] > j);
            assert(!is_id_prefix(p, k));
            assert(b.dom().contains(k) == m.dom().contains(k));
            assert(c.dom().contains(k) == m.dom().contains(k));
            if m.dom().contains(k) {
                assert(a[k] == m[k]);
                assert(b[k] == m[k]);
                assert(c[k] == m[k]);
            }
        }
    } else {
        assert(!is_id_prefix(p2, k));
        assert(!is_id_prefix(p, k));
        assert(b.dom().contains(k) == m.dom().contains(k));
        assert(c.dom().contains(k) == m.dom().contains(k));
        if m.dom().contains(k) {
            assert(a[k] == m[k]);
            assert(b[k] == m[k]);
            assert(c[k] == m[k]);
        }
    }
}

/// Lowering the subtree of the next sibling extends a partial shift by one.
pub proof fn lemma_shift_step(m: Map<Seq<u32>, TaskView>, par: Seq<u32>, k0: u32, j: u32)
    requires
        1 <= k0 < j,
    ensures
        spec_subtract(spec_shift_upto(m, par, k0, j - 1), par.push(j), par.len() as int)
            == spec_shift_upto(m, par, k0, j as int),
{
    let d = par.len() as int;
    let p = par.push(j);
    let a = spec_shift_upto(m, par, k0, j - 1);
    let b = spec_subtract(a, p, d);
    let c = spec_shift_upto(m, par, k0, j as int);
    assert(b.dom() =~= c.dom()) by {
        assert forall|k: Seq<u32>| b.dom().contains(k) == c.dom().contains(k) by {
            lemma_shift_step_key(m, par, k0, j, k);
        }
    }
    assert forall|k: Seq<u32>| #[trigger] c.dom().contains(k) implies b[k] == c[k] by {
        lemma_shift_step_key(m, par, k0, j, k);
    }
    assert(b =~= c);
}
/// Dropping the child at `k0` and sliding the later children down keeps the
/// sum, once the dropped child's values are zero.
#[verifier::rlimit(50)]
pub proof fn lemma_sum_shift(
    mc: Map<Seq<u32>, TaskView>,
    m: Map<Seq<u32>, TaskView>,
    par: Seq<u32>,
    k0: int,
    t: int,
)
    requires
        1 <= k0 <= t,
        forall|i: int|
            1 <= i < k0 ==> mc[#[trigger] par.push(i as u32)].planned_value == m[par.push(
                i as u32,
            )].planned_value && mc[par.push(i as u32)].actual_cost == m[par.push(
                i as u32,
            )].actual_cost,
        forall|i: int|
            k0 <= i < t ==> mc[#[trigger] par.push(i as u32)].planned_value == m[par.push(
                (i + 1) as u32,
            )].planned_value && mc[par.push(i as u32)].actual_cost == m[par.push(
                (i + 1) as u32,
            )].actual_cost,
    ensures
        sum_pv(mc, par, t - 1) == sum_pv(m, par, t) - m[par.push(k0 as u32)].planned_value,
        sum_ac(mc, par, t - 1) == sum_ac(m, par, t) - m[par.push(k0 as u32)].actual_cost,
    decreases t - k0,
{
    if t == k0 {
        lemma_sum_same(mc, m, par, par, k0 - 1);
        assert(sum_pv(m, par, t) == sum_pv(m, par, t - 1) + m[par.push(t as u32)].planned_value);
        assert(sum_ac(m, par, t) == sum_ac(m, par, t - 1) + m[par.push(t as u32)].actual_cost);
    } else {
        lemma_sum_shift(mc, m, par, k0, t - 1);
        assert(mc[par.push((t - 1) as u32)].planned_value == m[par.push(t as u32)].planned_value);
        assert(mc[par.push((t - 1) as u32)].actual_cost == m[par.push(t as u32)].actual_cost);
        assert(sum_pv(mc, par, t - 1) == sum_pv(mc, par, t - 2) + mc[par.push(
            (t - 1) as u32,
        )].planned_value);
        assert(sum_pv(m, par, t) == sum_pv(m, par, t - 1) + m[par.push(t as u32)].planned_value);
        assert(sum_ac(mc, par, t - 1) == sum_ac(mc, par, t - 2) + mc[par.push(
            (t - 1) as u32,
        )].actual_cost);
        assert(sum_ac(m, par, t) == sum_ac(m, par, t - 1) + m[par.push(t as u32)].actual_cost);
    }
}

/// The store left behind by a removal, before the sibling shift: the
/// parent's child count one lower and the entry erased.
pub open spec fn removed_map(m: Map<Seq<u32>, TaskView>, id: Seq<u32>) -> Map<Seq<u32>, TaskView> {
    let par = id.drop_last();
    m.insert(
        par,
        TaskView { num_child: (m[par].num_child - 1) as u32, ..m[par] },
    ).remove(id)
}

/// The shifted region of a removal at `id`: keys whose index at the removal
/// depth is at least `k0` and still below the old child count.
pub open spec fn shift_zone(par: Seq<u32>, k0: u32, n: int, k: Seq<u32>) -> bool {
    is_id_prefix(par, k) && k.len() > par.len() && k0 <= k[par.len() as int] && k[par.len() as int]
        < n
}

/// Characterizes the store after a removal's sibling shift, key by key.
#[verifier::rlimit(50)]
proof fn lemma_remove_parts(m: Map<Seq<u32>, TaskView>, id: Seq<u32>, c: Map<Seq<u32>, TaskView>)
    requires
        wf(m),
        m.dom().contains(id),
        id.len() > 0,
        m[id].num_child == 0,
        c == spec_shift_upto(
            removed_map(m, id),
            id.drop_last(),
            id.last(),
            m[id.drop_last()].num_child as int,
        ),
    ensures
        m.dom().contains(id.drop_last()),
        1 <= id.last() <= m[id.drop_last()].num_child,
        forall|q: Seq<u32>|
            #[trigger] m.dom().contains(q) && is_id_prefix(id.drop_last(), q) && q.len()
                > id.drop_last().len() ==> 1 <= q[id.drop_last().len() as int]
                <= m[id.drop_last()].num_child && (q[id.drop_last().len() as int] == id.last()
                ==> q == id),
        forall|k: Seq<u32>|
            shift_zone(id.drop_last(), id.last(), m[id.drop_last()].num_child as int, k) ==> (
            #[trigger] c.dom().contains(k) <==> m.dom().contains(inc_at(
                k,
                id.drop_last().len() as int,
            ))),
        forall|k: Seq<u32>|
            #[trigger] c.dom().contains(k) && shift_zone(
                id.drop_last(),
                id.last(),
                m[id.drop_last()].num_child as int,
                k,
            ) ==> m.dom().contains(inc_at(k, id.drop_last().len() as int)) && inc_at(
                k,
                id.drop_last().len() as int,
            ) != id && inc_at(k, id.drop_last().len() as int) != id.drop_last() && c[k] == retag(
                m[inc_at(k, id.drop_last().len() as int)],
                k,
            ) && is_id_prefix(id.drop_last(), inc_at(k, id.drop_last().len() as int)) && inc_at(
                k,
                id.drop_last().len() as int,
            )[id.drop_last().len() as int] == k[id.drop_last().len() as int] + 1,
        forall|k: Seq<u32>|
            #[trigger] c.dom().contains(k) && !shift_zone(
                id.drop_last(),
                id.last(),
                m[id.drop_last()].num_child as int,
                k,
            ) ==> m.dom().contains(k) && k != id && (k != id.drop_last() ==> c[k] == m[k]) && (k
                == id.drop_last() ==> c[k] == TaskView {
                num_child: (m[id.drop_last()].num_child - 1) as u32,
                ..m[id.drop_last()]
            }),
        forall|k: Seq<u32>|
            #[trigger] m.dom().contains(k) && k != id && !(is_id_prefix(id.drop_last(), k)
                && k.len() > id.drop_last().len() && id.last() <= k[id.drop_last().len() as int])
                ==> c.dom().contains(k),
        forall|k: Seq<u32>|
            is_id_prefix(id.drop_last(), k) && k.len() > id.drop_last().len() && k[id.drop_last().len() as int]
                == m[id.drop_last()].num_child && id.last() < m[id.drop_last()].num_child ==> !(
            #[trigger] c.dom().contains(k)),
{
    let par = id.drop_last();
    let k0 = id.last();
    let d = par.len() as int;
    let n = m[par].num_child as int;
    let md = removed_map(m, id);
    assert(par.push(k0) =~= id);
    assert(m.dom().contains(par));
    assert(1 <= k0 <= n);
    assert(id != par) by {
        assert(id.len() == par.len() + 1);
    }
    assert(md.dom() =~= m.dom().remove(id));
    assert forall|q: Seq<u32>|
        #[trigger] m.dom().contains(q) && is_id_prefix(par, q) && q.len() > d implies 1 <= q[d]
        <= n && (q[d] == k0 ==> q == id) by {
        lemma_prefix_in_dom(m, q, d + 1);
        let qc = q.take(d + 1);
        assert(qc =~= par.push(q[d])) by {
            assert forall|i: int| 0 <= i < d + 1 implies qc[i] == par.push(q[d])[i] by {
                if i < d {
                    assert(q.take(d)[i] == q[i]);
                }
            }
        }
        assert(m.dom().contains(par.push(q[d])));
        assert(1 <= q[d] <= n);
        if q[d] == k0 {
            assert(is_id_prefix(id, q)) by {
                assert(q.take(d + 1) == id);
            }
            lemma_no_descendants(m, id, q);
        }
    }
    assert forall|k: Seq<u32>|
        shift_zone(par, k0, n, k) implies (#[trigger] c.dom().contains(k) <==> m.dom().contains(
        inc_at(k, d),
    )) by {
        assert(inc_at(k, d) != id) by {
            assert(inc_at(k, d)[d] == k[d] + 1 > k0);
            assert(id[d] == k0);
        }
    }
    assert forall|k: Seq<u32>|
        #[trigger] c.dom().contains(k) && shift_zone(par, k0, n, k) implies m.dom().contains(
        inc_at(k, d),
    ) && inc_at(k, d) != id && inc_at(k, d) != par && c[k] == retag(m[inc_at(k, d)], k)
        && is_id_prefix(par, inc_at(k, d)) && inc_at(k, d)[d] == k[d] + 1 by {
        let q = inc_at(k, d);
        assert(q != id) by {
            assert(q[d] == k[d] + 1 > k0);
            assert(id[d] == k0);
        }
        assert(q != par) by {
            assert(q.len() == k.len() > d);
        }
        assert(is_id_prefix(par, q)) by {
            assert(q.take(d) =~= par) by {
                assert forall|i: int| 0 <= i < d implies q.take(d)[i] == par[i] by {
                    assert(q[i] == k[i]);
                    assert(k.take(d)[i] == k[i]);
                }
            }
        }
        assert(md.dom().contains(q));
        assert(c[k] == retag(md[q], k));
        assert(md[q] == m[q]);
    }
    assert forall|k: Seq<u32>|
        #[trigger] c.dom().contains(k) && !shift_zone(par, k0, n, k) implies m.dom().contains(k)
        && k != id && (k != par ==> c[k] == m[k]) && (k == par ==> c[k] == TaskView {
        num_child: (m[par].num_child - 1) as u32,
        ..m[par]
    }) by {
        if is_id_prefix(par, k) && k.len() > d && k[d] == n && k0 < n {
            assert(!c.dom().contains(k));
        } else {
            assert(md.dom().contains(k));
            assert(c[k] == md[k]);
        }
    }
}

/// After a removal's sibling shift the parent chain is intact: every present
/// key has its parent present and a positive last index.
#[verifier::rlimit(50)]
proof fn lemma_remove_closure(
    m: Map<Seq<u32>, TaskView>,
    id: Seq<u32>,
    c: Map<Seq<u32>, TaskView>,
)
    requires
        wf(m),
        m.dom().contains(id),
        id.len() > 0,
        m[id].num_child == 0,
        c == spec_shift_upto(
            removed_map(m, id),
            id.drop_last(),
            id.last(),
            m[id.drop_last()].num_child as int,
        ),
    ensures
        forall|k: Seq<u32>|
            #[trigger] c.dom().contains(k) && k.len() > 0 ==> c.dom().contains(k.drop_last()) && 1
                <= k.last(),
{
    let par = id.drop_last();
    let k0 = id.last();
    let d = par.len() as int;
    let n = m[par].num_child as int;
    let md = removed_map(m, id);
    lemma_remove_parts(m, id, c);
    assert(par.push(k0) =~= id);
    assert(md.dom() =~= m.dom().remove(id));
    assert forall|k: Seq<u32>|
        #[trigger] c.dom().contains(k) && k.len() > 0 implies c.dom().contains(k.drop_last()) && 1
        <= k.last() by {
        if shift_zone(par, k0, n, k) {
            let q = inc_at(k, d);
            assert(m.dom().contains(q));
            if k.len() == d + 1 {
                assert(k.last() == k[d] >= k0 >= 1);
                assert(k.drop_last() =~= par);
                assert(!shift_zone(par, k0, n, par));
                assert(c.dom().contains(par)) by {
                    assert(md.dom().contains(par));
                    assert(!(is_id_prefix(par, par) && par.len() > d));
                }
            } else {
                assert(k.last() == q.last()) by {
                    assert(q[k.len() - 1] == k[k.len() - 1]);
                }
                assert(1 <= q.last());
                let kp = k.drop_last();
                let qp = q.drop_last();
                assert(qp =~= inc_at(kp, d)) by {
                    assert forall|i: int| 0 <= i < qp.len() implies qp[i] == inc_at(kp, d)[i] by {
                        assert(qp[i] == q[i]);
                        if i != d {
                            assert(q[i] == k[i]);
                        }
                    }
                }
                assert(m.dom().contains(qp));
                assert(is_id_prefix(par, kp)) by {
                    assert(kp.take(d) =~= par) by {
                        assert forall|i: int| 0 <= i < d implies kp.take(d)[i] == par[i] by {
                            assert(kp[i] == k[i]);
                            assert(k.take(d)[i] == k[i]);
                        }
                    }
                }
                assert(kp.len() > d);
                assert(kp[d] == k[d]);
                assert(shift_zone(par, k0, n, kp));
                assert(c.dom().contains(kp)) by {
                    assert(c.dom().contains(kp) <==> m.dom().contains(inc_at(kp, d)));
                }
            }
        } else {
            assert(m.dom().contains(k) && k != id);
            assert(1 <= k.last());
            let kp = k.drop_last();
            assert(m.dom().contains(kp));
            assert(kp != id) by {
                if kp == id {
                    assert(is_id_prefix(id, k)) by {
                        assert(k.take(kp.len() as int) =~= kp);
                    }
                    lemma_no_descendants(m, id, k);
                }
            }
            if is_id_prefix(par, kp) && kp.len() > d {
                assert(k[d] == kp[d]);
                assert(is_id_prefix(par, k)) by {
                    assert(k.take(d) =~= par) by {
                        assert forall|i: int| 0 <= i < d implies k.take(d)[i] == par[i] by {
                            assert(kp[i] == k[i]);
                            assert(kp.take(d)[i] == kp[i]);
                        }
                    }
                }
                assert(1 <= k[d] <= n);
                assert(k[d] != k0) by {
                    if k[d] == k0 {
                        assert(k == id);
                    }
                }
                assert(kp[d] != k0) by {
                    if kp[d] == k0 {
                        assert(kp == id);
                    }
                }
                assert(k[d] > n ==> false);
                if k[d] < k0 {
                    assert(!shift_zone(par, k0, n, kp));
                    assert(c.dom().contains(kp));
                } else {
                    // k survived unshifted below par, so its index is the
                    // vacated top position with nothing above it
                    assert(k[d] == n && !(k0 < n)) by {
                        if k[d] < n {
                            assert(shift_zone(par, k0, n, k));
                        }
                    }
                    assert(false);
                }
            } else {
                assert(!shift_zone(par, k0, n, kp));
                assert(!(is_id_prefix(par, kp) && kp.len() > d && kp[d] == n && k0 < n));
                assert(c.dom().contains(kp));
            }
        }
    }
}

/// After a removal's sibling shift the children of every present key occupy
/// exactly the indices up to its child count.
#[verifier::rlimit(80)]
proof fn lemma_remove_contig(
    m: Map<Seq<u32>, TaskView>,
    id: Seq<u32>,
    c: Map<Seq<u32>, TaskView>,
)
    requires
        wf(m),
        m.dom().contains(id),
        id.len() > 0,
        m[id].num_child == 0,
        c == spec_shift_upto(
            removed_map(m, id),
            id.drop_last(),
            id.last(),
            m[id.drop_last()].num_child as int,
        ),
    ensures
        forall|k: Seq<u32>, j: u32|
            c.dom().contains(k) ==> (c.dom().contains(#[trigger] k.push(j)) <==> 1 <= j
                <= c[k].num_child),
{
    let par = id.drop_last();
    let k0 = id.last();
    let d = par.len() as int;
    let n = m[par].num_child as int;
    let md = removed_map(m, id);
    lemma_remove_parts(m, id, c);
    assert(par.push(k0) =~= id);
    assert(md.dom() =~= m.dom().remove(id));
    assert forall|k: Seq<u32>, j: u32|
        c.dom().contains(k) implies (c.dom().contains(#[trigger] k.push(j)) <==> 1 <= j
        <= c[k].num_child) by {
        let kc = k.push(j);
        assert(kc.drop_last() =~= k);
        assert(kc.last() == j);
        if k == par {
            assert(c[par].num_child == n - 1);
            assert(is_id_prefix(par, kc)) by {
                assert(kc.take(d) =~= par) by {
                    assert forall|i: int| 0 <= i < d implies kc.take(d)[i] == par[i] by {
                        assert(kc[i] == k[i]);
                    }
                }
            }
            assert(kc.len() == d + 1);
            assert(kc[d] == j);
            if k0 <= j && j < n {
                assert(shift_zone(par, k0, n, kc));
                assert(inc_at(kc, d) =~= par.push((j + 1) as u32));
                assert(c.dom().contains(kc) <==> m.dom().contains(par.push((j + 1) as u32)));
                assert(m.dom().contains(par.push((j + 1) as u32)) <==> (1 <= j + 1 <= n));
                assert(c.dom().contains(kc) == (j + 1 <= n));
            } else if j == n && k0 < n {
                assert(!c.dom().contains(kc));
                assert(!(1 <= j <= n - 1));
            } else if j == n && k0 == n {
                assert(kc =~= id);
                assert(!shift_zone(par, k0, n, kc));
                if c.dom().contains(kc) {
                    assert(kc != id);
                    assert(false);
                }
                assert(!(1 <= j <= n - 1));
            } else if j < k0 {
                assert(!shift_zone(par, k0, n, kc));
                assert(kc != id) by {
                    assert(kc[d] == j < k0 && id[d] == k0);
                }
                if c.dom().contains(kc) {
                    assert(m.dom().contains(kc));
                    assert(1 <= j <= n);
                    assert(1 <= j <= n - 1) by {
                        assert(j < k0 <= n);
                    }
                }
                if 1 <= j <= n - 1 {
                    assert(m.dom().contains(kc));
                    assert(c.dom().contains(kc));
                }
            } else {
                assert(j > n);
                assert(!shift_zone(par, k0, n, kc));
                assert(kc != id) by {
                    assert(kc[d] == j > n >= k0 && id[d] == k0);
                }
                if c.dom().contains(kc) {
                    assert(m.dom().contains(kc));
                    assert(1 <= j <= n);
                    assert(false);
                }
                assert(!(1 <= j <= n - 1));
            }
        } else if shift_zone(par, k0, n, k) {
            let q = inc_at(k, d);
            assert(c[k].num_child == m[q].num_child);
            assert(is_id_prefix(par, kc)) by {
                assert(kc.take(d) =~= par) by {
                    assert forall|i: int| 0 <= i < d implies kc.take(d)[i] == par[i] by {
                        assert(kc[i] == k[i]);
                        assert(k.take(d)[i] == k[i]);
                    }
                }
            }
            assert(kc.len() > d);
            assert(kc[d] == k[d]);
            assert(shift_zone(par, k0, n, kc));
            assert(inc_at(kc, d) =~= q.push(j)) by {
                assert forall|i: int|
                    0 <= i < kc.len() implies inc_at(kc, d)[i] == q.push(j)[i] by {
                    if i < k.len() {
                        if i != d {
                            assert(kc[i] == k[i]);
                            assert(q[i] == k[i]);
                        }
                    } else {
                        assert(kc[i] == j);
                    }
                }
            }
            assert(c.dom().contains(kc) <==> m.dom().contains(q.push(j)));
            assert(m.dom().contains(q.push(j)) <==> (1 <= j <= m[q].num_child));
        } else {
            assert(m.dom().contains(k) && k != id);
            assert(c[k].num_child == m[k].num_child);
            assert(kc != id) by {
                if kc == id {
                    assert(k =~= par);
                }
            }
            if is_id_prefix(par, kc) && kc.len() > d {
                if kc.len() == d + 1 {
                    assert(k =~= par) by {
                        assert forall|i: int| 0 <= i < d implies k[i] == par[i] by {
                            assert(kc.take(d)[i] == kc[i]);
                        }
                        assert(k.len() == d);
                    }
                    assert(false);
                } else {
                    assert(k.len() > d);
                    assert(kc[d] == k[d]);
                    assert(is_id_prefix(par, k)) by {
                        assert(k.take(d) =~= par) by {
                            assert forall|i: int| 0 <= i < d implies k.take(d)[i] == par[i] by {
                                assert(kc[i] == k[i]);
                                assert(kc.take(d)[i] == kc[i]);
                            }
                        }
                    }
                    assert(1 <= k[d] <= n);
                    assert(k[d] < k0) by {
                        if k[d] >= k0 {
                            assert(k[d] != k0) by {
                                if k[d] == k0 {
                                    assert(k == id);
                                }
                            }
                            assert(!(k0 <= k[d] && k[d] < n));
                            assert(k[d] == n);
                            assert(k0 < n);
                            assert(!c.dom().contains(k));
                        }
                    }
                    assert(kc[d] < k0);
                }
            }
            assert(!shift_zone(par, k0, n, kc));
            assert(!(is_id_prefix(par, kc) && kc.len() > d && kc[d] == n && k0 < n));
            if c.dom().contains(kc) {
                assert(m.dom().contains(kc));
                assert(1 <= j <= m[k].num_child);
            }
            if 1 <= j <= m[k].num_child {
                assert(m.dom().contains(kc));
                assert(c.dom().contains(kc));
            }
        }
    }
}

/// After a removal's sibling shift every trunk's aggregates still equal the
/// sum over its direct children, the removed entry's values being zero.
#[verifier::rlimit(80)]
proof fn lemma_remove_sums(m: Map<Seq<u32>, TaskView>, id: Seq<u32>, c: Map<Seq<u32>, TaskView>)
    requires
        wf(m),
        m.dom().contains(id),
        id.len() > 0,
        m[id].num_child == 0,
        m[id].planned_value == 0,
        m[id].actual_cost == 0,
        c == spec_shift_upto(
            removed_map(m, id),
            id.drop_last(),
            id.last(),
            m[id.drop_last()].num_child as int,
        ),
    ensures
        forall|k: Seq<u32>|
            #[trigger] c.dom().contains(k) && c[k].num_child > 0 ==> c[k].planned_value == sum_pv(
                c,
                k,
                c[k].num_child as int,
            ) && c[k].actual_cost == sum_ac(c, k, c[k].num_child as int),
{
    let par = id.drop_last();
    let k0 = id.last();
    let d = par.len() as int;
    let n = m[par].num_child as int;
    let md = removed_map(m, id);
    lemma_remove_parts(m, id, c);
    assert(par.push(k0) =~= id);
    assert(md.dom() =~= m.dom().remove(id));
    assert forall|k: Seq<u32>|
        #[trigger] c.dom().contains(k) && c[k].num_child > 0 implies c[k].planned_value == sum_pv(
        c,
        k,
        c[k].num_child as int,
    ) && c[k].actual_cost == sum_ac(c, k, c[k].num_child as int) by {
        if k == par {
            assert(!shift_zone(par, k0, n, par));
            assert(c[par].num_child == n - 1);
            assert(c[par].planned_value == m[par].planned_value);
            assert(c[par].actual_cost == m[par].actual_cost);
            assert forall|i: int|
                1 <= i < k0 implies c[#[trigger] par.push(i as u32)].planned_value == m[par.push(
                i as u32,
            )].planned_value && c[par.push(i as u32)].actual_cost == m[par.push(
                i as u32,
            )].actual_cost by {
                let kc = par.push(i as u32);
                assert(kc[d] == i as u32);
                assert(is_id_prefix(par, kc)) by {
                    assert(kc.take(d) =~= par);
                }
                assert(m.dom().contains(kc));
                assert(kc != id) by {
                    assert(kc[d] == i < k0 && id[d] == k0);
                }
                assert(!shift_zone(par, k0, n, kc));
                assert(c.dom().contains(kc));
                assert(c[kc] == m[kc]);
            }
            assert forall|i: int|
                k0 <= i < n implies c[#[trigger] par.push(i as u32)].planned_value == m[par.push(
                (i + 1) as u32,
            )].planned_value && c[par.push(i as u32)].actual_cost == m[par.push(
                (i + 1) as u32,
            )].actual_cost by {
                let kc = par.push(i as u32);
                assert(kc[d] == i as u32);
                assert(is_id_prefix(par, kc)) by {
                    assert(kc.take(d) =~= par);
                }
                assert(shift_zone(par, k0, n, kc));
                assert(m.dom().contains(par.push((i + 1) as u32)));
                assert(inc_at(kc, d) =~= par.push((i + 1) as u32));
                assert(c.dom().contains(kc));
                assert(c[kc] == retag(m[par.push((i + 1) as u32)], kc));
            }
            lemma_sum_shift(c, m, par, k0 as int, n);
            assert(m[par].num_child > 0);
            assert(m[par].planned_value == sum_pv(m, par, n));
            assert(m[par].actual_cost == sum_ac(m, par, n));
            assert(m[par.push(k0)] == m[id]);
        } else if shift_zone(par, k0, n, k) {
            let q = inc_at(k, d);
            assert(c[k] == retag(m[q], k));
            let nc = m[q].num_child as int;
            assert forall|i: int|
                1 <= i <= nc implies c[#[trigger] k.push(i as u32)].planned_value == m[q.push(
                i as u32,
            )].planned_value && c[k.push(i as u32)].actual_cost == m[q.push(
                i as u32,
            )].actual_cost by {
                let kc = k.push(i as u32);
                assert(m.dom().contains(q.push(i as u32)));
                assert(is_id_prefix(par, kc)) by {
                    assert(kc.take(d) =~= par) by {
                        assert forall|ii: int| 0 <= ii < d implies kc.take(d)[ii] == par[ii] by {
                            assert(kc[ii] == k[ii]);
                            assert(k.take(d)[ii] == k[ii]);
                        }
                    }
                }
                assert(kc.len() > d);
                assert(kc[d] == k[d]);
                assert(shift_zone(par, k0, n, kc));
                assert(inc_at(kc, d) =~= q.push(i as u32)) by {
                    assert forall|ii: int|
                        0 <= ii < kc.len() implies inc_at(kc, d)[ii] == q.push(i as u32)[ii] by {
                        if ii < k.len() {
                            if ii != d {
                                assert(kc[ii] == k[ii]);
                                assert(q[ii] == k[ii]);
                            }
                        } else {
                            assert(kc[ii] == i as u32);
                        }
                    }
                }
                assert(c.dom().contains(kc));
                assert(c[kc] == retag(m[q.push(i as u32)], kc));
            }
            lemma_sum_same(c, m, k, q, nc);
            assert(m[q].num_child > 0);
            assert(m[q].planned_value == sum_pv(m, q, nc));
            assert(m[q].actual_cost == sum_ac(m, q, nc));
        } else {
            assert(m.dom().contains(k) && k != id);
            assert(c[k].num_child == m[k].num_child);
            assert(c[k].planned_value == m[k].planned_value);
            assert(c[k].actual_cost == m[k].actual_cost);
            let nc = m[k].num_child as int;
            assert forall|i: int|
                1 <= i <= nc implies c[#[trigger] k.push(i as u32)].planned_value == m[k.push(
                i as u32,
            )].planned_value && c[k.push(i as u32)].actual_cost == m[k.push(
                i as u32,
            )].actual_cost by {
                let kc = k.push(i as u32);
                assert(kc.drop_last() =~= k);
                assert(m.dom().contains(kc));
                assert(kc != id) by {
                    if kc == id {
                        assert(k =~= par);
                        assert(c[k].num_child == n - 1);
                        assert(false);
                    }
                }
                if is_id_prefix(par, kc) && kc.len() > d {
                    if kc.len() == d + 1 {
                        assert(k =~= par) by {
                            assert forall|ii: int| 0 <= ii < d implies k[ii] == par[ii] by {
                                assert(kc.take(d)[ii] == kc[ii]);
                            }
                            assert(k.len() == d);
                        }
                        assert(false);
                    } else {
                        assert(k.len() > d);
                        assert(kc[d] == k[d]);
                        assert(is_id_prefix(par, k)) by {
                            assert(k.take(d) =~= par) by {
                                assert forall|ii: int|
                                    0 <= ii < d implies k.take(d)[ii] == par[ii] by {
                                    assert(kc[ii] == k[ii]);
                                    assert(kc.take(d)[ii] == kc[ii]);
                                }
                            }
                        }
                        assert(1 <= k[d] <= n);
                        assert(k[d] < k0) by {
                            if k[d] >= k0 {
                                assert(k[d] != k0) by {
                                    if k[d] == k0 {
                                        assert(k == id);
                                    }
                                }
                                assert(!(k0 <= k[d] && k[d] < n));
                                assert(k[d] == n);
                                assert(k0 < n);
                                assert(!c.dom().contains(k));
                            }
                        }
                        assert(kc[d] < k0);
                    }
                }
                assert(!shift_zone(par, k0, n, kc));
                assert(!(is_id_prefix(par, kc) && kc.len() > d && kc[d] == n && k0 < n));
                assert(c.dom().contains(kc));
                if kc == par {
                    assert(c[kc].planned_value == m[kc].planned_value);
                    assert(c[kc].actual_cost == m[kc].actual_cost);
                } else {
                    assert(c[kc] == m[kc]);
                }
            }
            lemma_sum_same(c, m, k, k, nc);
            assert(m[k].num_child > 0);
            assert(m[k].planned_value == sum_pv(m, k, nc));
            assert(m[k].actual_cost == sum_ac(m, k, nc));
        }
    }
}

/// Removing the work package `id` — its aggregates already zeroed — and
/// sliding every later sibling subtree one index down yields a well-formed
/// store again.
#[verifier::rlimit(50)]
pub proof fn lemma_remove_wf(m: Map<Seq<u32>, TaskView>, id: Seq<u32>)
    requires
        wf(m),
        m.dom().contains(id),
        id.len() > 0,
        m[id].num_child == 0,
        m[id].planned_value == 0,
        m[id].actual_cost == 0,
    ensures
        wf(
            spec_shift_upto(
                removed_map(m, id),
                id.drop_last(),
                id.last(),
                m[id.drop_last()].num_child as int,
            ),
        ),
{
    let par = id.drop_last();
    let k0 = id.last();
    let d = par.len() as int;
    let n = m[par].num_child as int;
    let md = removed_map(m, id);
    let c = spec_shift_upto(md, par, k0, n);
    lemma_remove_parts(m, id, c);
    lemma_remove_closure(m, id, c);
    lemma_remove_contig(m, id, c);
    lemma_remove_sums(m, id, c);
    assert(md.dom() =~= m.dom().remove(id));
    assert(c.dom().finite()) by {
        let mapped = m.dom().map(|q: Seq<u32>| dec_at(q, d));
        m.dom().lemma_map_finite(|q: Seq<u32>| dec_at(q, d));
        assert(c.dom().subset_of(m.dom().union(mapped))) by {
            assert forall|k: Seq<u32>| c.dom().contains(k) implies m.dom().union(mapped).contains(
                k,
            ) by {
                if shift_zone(par, k0, n, k) {
                    assert(m.dom().contains(inc_at(k, d)));
                    assert(dec_at(inc_at(k, d), d) =~= k);
                    assert(mapped.contains(k)) by {
                        assert(m.dom().contains(inc_at(k, d)) && dec_at(inc_at(k, d), d) == k);
                    }
                } else {
                    assert(m.dom().contains(k));
                }
            }
        }
        vstd::set_lib::lemma_len_subset(c.dom(), m.dom().union(mapped));
    }
    assert(c.dom().contains(root_key())) by {
        assert(root_key().len() == 0);
        assert(!shift_zone(par, k0, n, root_key()));
        assert(root_key() != id);
        assert(md.dom().contains(root_key()));
    }
    assert forall|k: Seq<u32>| #[trigger] c.dom().contains(k) implies c[k].id == k by {}
}
/// The keys of the subtree rooted at `k`, including `k` itself.
pub open spec fn subtree_keys(m: Map<Seq<u32>, TaskView>, k: Seq<u32>) -> Set<Seq<u32>> {
    m.dom().filter(|q: Seq<u32>| is_id_prefix(k, q))
}

/// The size of the subtree rooted at `k`.
pub open spec fn subtree_count(m: Map<Seq<u32>, TaskView>, k: Seq<u32>) -> nat {
    subtree_keys(m, k).len()
}

/// A child's subtree is strictly smaller than its parent's.
pub proof fn lemma_subtree_child_lt(m: Map<Seq<u32>, TaskView>, k: Seq<u32>, j: u32)
    requires
        wf(m),
        m.dom().contains(k),
        1 <= j <= m[k].num_child,
    ensures
        subtree_count(m, k.push(j)) < subtree_count(m, k),
{
    let sk = subtree_keys(m, k);
    let sc = subtree_keys(m, k.push(j));
    m.dom().lemma_len_filter(|q: Seq<u32>| is_id_prefix(k, q));
    m.dom().lemma_len_filter(|q: Seq<u32>| is_id_prefix(k.push(j), q));
    lemma_prefix_refl(k);
    assert(sk.contains(k));
    assert(sc.subset_of(sk.remove(k))) by {
        assert forall|q: Seq<u32>| sc.contains(q) implies sk.remove(k).contains(q) by {
            assert(is_id_prefix(k, k.push(j))) by {
                assert(k.push(j).take(k.len() as int) =~= k);
            }
            lemma_prefix_trans(k, k.push(j), q);
            assert(q != k) by {
                assert(q.len() >= k.push(j).len());
            }
        }
    }
    vstd::set_lib::lemma_len_subset(sc, sk.remove(k));
    assert(sk.remove(k).len() == sk.len() - 1);
}

/// Every task of a well-formed store has a work package below it; in
/// particular the store always holds at least one work package.
pub proof fn lemma_exists_leaf(m: Map<Seq<u32>, TaskView>, k: Seq<u32>)
    requires
        wf(m),
        m.dom().contains(k),
    ensures
        exists|q: Seq<u32>|
            #[trigger] m.dom().contains(q) && is_id_prefix(k, q) && m[q].num_child == 0,
    decreases subtree_count(m, k),
{
    if m[k].num_child == 0 {
        lemma_prefix_refl(k);
        assert(m.dom().contains(k) && is_id_prefix(k, k) && m[k].num_child == 0);
    } else {
        assert(m.dom().contains(k.push(1)));
        lemma_subtree_child_lt(m, k, 1);
        lemma_exists_leaf(m, k.push(1));
        let q = choose|q: Seq<u32>|
            #[trigger] m.dom().contains(q) && is_id_prefix(k.push(1), q) && m[q].num_child == 0;
        assert(is_id_prefix(k, k.push(1))) by {
            assert(k.push(1).take(k.len() as int) =~= k);
        }
        lemma_prefix_trans(k, k.push(1), q);
        assert(m.dom().contains(q) && is_id_prefix(k, q) && m[q].num_child == 0);
    }
}

/// A well-formed store has at least one work package, and no more work
/// packages are done than exist.
pub proof fn lemma_leaf_counts(m: Map<Seq<u32>, TaskView>)
    requires
        wf(m),
    ensures
        1 <= leaf_count(m),
        done_leaf_count(m) <= leaf_count(m),
        leaf_keys(m).finite(),
        done_leaf_keys(m).finite(),
{
    m.dom().lemma_len_filter(|k: Seq<u32>| m[k].num_child == 0);
    m.dom().lemma_len_filter(|k: Seq<u32>| m[k].num_child == 0 && m[k].status is Done);
    lemma_exists_leaf(m, root_key());
    let q = choose|q: Seq<u32>|
        #[trigger] m.dom().contains(q) && is_id_prefix(root_key(), q) && m[q].num_child == 0;
    assert(leaf_keys(m).contains(q));
    assert(leaf_keys(m).remove(q).len() == leaf_keys(m).len() - 1);
    assert(done_leaf_keys(m).subset_of(leaf_keys(m))) by {
        assert forall|k: Seq<u32>| done_leaf_keys(m).contains(k) implies leaf_keys(m).contains(
            k,
        ) by {}
    }
    vstd::set_lib::lemma_len_subset(done_leaf_keys(m), leaf_keys(m));
}

/// The keys of the work packages of a store.
pub open spec fn leaf_keys(m: Map<Seq<u32>, TaskView>) -> Set<Seq<u32>> {
    m.dom().filter(|k: Seq<u32>| m[k].num_child == 0)
}

/// The number of work packages.
pub open spec fn leaf_count(m: Map<Seq<u32>, TaskView>) -> nat {
    leaf_keys(m).len()
}

/// The keys of the work packages that are done.
pub open spec fn done_leaf_keys(m: Map<Seq<u32>, TaskView>) -> Set<Seq<u32>> {
    m.dom().filter(|k: Seq<u32>| m[k].num_child == 0 && m[k].status is Done)
}

/// The number of work packages that are done.
pub open spec fn done_leaf_count(m: Map<Seq<u32>, TaskView>) -> nat {
    done_leaf_keys(m).len()
}

/// Every child's planned value is at most the sum over the children.
pub proof fn lemma_sum_pv_term(m: Map<Seq<u32>, TaskView>, k: Seq<u32>, n: int, j: int)
    requires
        1 <= j <= n,
    ensures
        m[k.push(j as u32)].planned_value <= sum_pv(m, k, n),
        sum_pv(m, k, n) >= 0,
    decreases n,
{
    if n > j {
        lemma_sum_pv_term(m, k, n - 1, j);
    } else {
        lemma_sum_pv_nonneg(m, k, n - 1);
    }
}

/// A sum of unsigned values is not negative.
pub proof fn lemma_sum_pv_nonneg(m: Map<Seq<u32>, TaskView>, k: Seq<u32>, n: int)
    ensures
        sum_pv(m, k, n) >= 0,
    decreases n,
{
    if n > 0 {
        lemma_sum_pv_nonneg(m, k, n - 1);
    }
}

/// Every child's actual cost is at most the sum over the children.
pub proof fn lemma_sum_ac_term(m: Map<Seq<u32>, TaskView>, k: Seq<u32>, n: int, j: int)
    requires
        1 <= j <= n,
    ensures
        m[k.push(j as u32)].actual_cost <= sum_ac(m, k, n),
        sum_ac(m, k, n) >= 0,
    decreases n,
{
    if n > j {
        lemma_sum_ac_term(m, k, n - 1, j);
    } else {
        lemma_sum_ac_nonneg(m, k, n - 1);
    }
}

/// A sum of unsigned values is not negative.
pub proof fn lemma_sum_ac_nonneg(m: Map<Seq<u32>, TaskView>, k: Seq<u32>, n: int)
    ensures
        sum_ac(m, k, n) >= 0,
    decreases n,
{
    if n > 0 {
        lemma_sum_ac_nonneg(m, k, n - 1);
    }
}

/// Two stores that agree on the children of `k` have the same child sums.
pub proof fn lemma_sum_same(
    m1: Map<Seq<u32>, TaskView>,
    m2: Map<Seq<u32>, TaskView>,
    k1: Seq<u32>,
    k2: Seq<u32>,
    n: int,
)
    requires
        forall|j: int|
            1 <= j <= n ==> m1[#[trigger] k1.push(j as u32)].planned_value == m2[k2.push(
                j as u32,
            )].planned_value && m1[k1.push(j as u32)].actual_cost == m2[k2.push(
                j as u32,
            )].actual_cost,
    ensures
        sum_pv(m1, k1, n) == sum_pv(m2, k2, n),
        sum_ac(m1, k1, n) == sum_ac(m2, k2, n),
    decreases n,
{
    if n > 0 {
        lemma_sum_same(m1, m2, k1, k2, n - 1);
    }
}

/// Along any chain from a task down to a descendant, the aggregates can only
/// shrink: a descendant's value is at most its ancestor's.
pub proof fn lemma_desc_le_anc(m: Map<Seq<u32>, TaskView>, p: Seq<u32>, k: Seq<u32>)
    requires
        wf(m),
        m.dom().contains(k),
        is_id_prefix(p, k),
    ensures
        m[k].planned_value <= m[p].planned_value,
        m[k].actual_cost <= m[p].actual_cost,
        m.dom().contains(p),
    decreases k.len() - p.len(),
{
    if p.len() == k.len() {
        assert(p =~= k);
    } else {
        let q = k.drop_last();
        assert(m.dom().contains(q));
        assert(is_id_prefix(p, q)) by {
            assert(q.take(p.len() as int) =~= k.take(p.len() as int));
        }
        let j = k.last();
        assert(q.push(j) =~= k);
        assert(m.dom().contains(q.push(j)));
        assert(1 <= j <= m[q].num_child);
        assert(m[q].num_child > 0);
        lemma_sum_pv_term(m, q, m[q].num_child as int, j as int);
        lemma_sum_ac_term(m, q, m[q].num_child as int, j as int);
        lemma_desc_le_anc(m, p, q);
    }
}

/// The root is a prefix of every key.
pub proof fn lemma_root_prefix(k: Seq<u32>)
    ensures
        is_id_prefix(root_key(), k),
{
    assert(k.take(0) =~= root_key());
}

/// A key below `p` carries `p`'s index at `layer`, and lowering that index
/// moves it below the lowered `p`.
pub proof fn lemma_prefix_dec(p: Seq<u32>, q: Seq<u32>, layer: int)
    requires
        0 <= layer < p.len(),
        is_id_prefix(p, q),
        p[layer] >= 1,
    ensures
        q[layer] == p[layer],
        is_id_prefix(dec_at(p, layer), dec_at(q, layer)),
        inc_at(dec_at(q, layer), layer) == q,
        dec_at(q, layer)[layer] == p[layer] - 1,
{
    assert(q.take(p.len() as int)[layer] == q[layer]);
    assert(dec_at(q, layer).take(p.len() as int) =~= dec_at(p, layer));
    assert(inc_at(dec_at(q, layer), layer) =~= q);
}

/// A key below the lowered `p` carries the lowered index, and raising it
/// moves it below `p`.
pub proof fn lemma_prefix_inc(p: Seq<u32>, k: Seq<u32>, layer: int)
    requires
        0 <= layer < p.len(),
        p[layer] >= 1,
        is_id_prefix(dec_at(p, layer), k),
    ensures
        k[layer] == p[layer] - 1,
        k[layer] < u32::MAX,
        is_id_prefix(p, inc_at(k, layer)),
        dec_at(inc_at(k, layer), layer) == k,
{
    let p2 = dec_at(p, layer);
    assert(k.take(p2.len() as int)[layer] == k[layer]);
    assert(k[layer] == p2[layer]);
    assert(p2[layer] == p[layer] - 1);
    let ki = inc_at(k, layer);
    assert(ki.take(p.len() as int) =~= p) by {
        assert forall|i: int| 0 <= i < p.len() implies ki.take(p.len() as int)[i] == p[i] by {
            assert(ki.take(p.len() as int)[i] == ki[i]);
            if i != layer {
                assert(ki[i] == k[i]);
                assert(k.take(p2.len() as int)[i] == k[i]);
                assert(p2[i] == p[i]);
            }
        }
    }
    assert(dec_at(ki, layer) =~= k) by {
        assert forall|i: int| 0 <= i < k.len() implies dec_at(ki, layer)[i] == k[i] by {
            if i != layer {
                assert(ki[i] == k[i]);
            }
        }
    }
}

/// Lowering an index is injective on keys that carry a positive index there.
pub proof fn lemma_dec_inj(q1: Seq<u32>, q2: Seq<u32>, layer: int)
    requires
        0 <= layer < q1.len(),
        0 <= layer < q2.len(),
        q1[layer] >= 1,
        q2[layer] >= 1,
        dec_at(q1, layer) == dec_at(q2, layer),
    ensures
        q1 == q2,
{
    assert(dec_at(q1, layer).len() == q1.len());
    assert(q1 =~= q2) by {
        assert forall|i: int| 0 <= i < q1.len() implies q1[i] == q2[i] by {
            assert(dec_at(q1, layer)[i] == dec_at(q2, layer)[i]);
            if i == layer {
                assert(dec_at(q1, layer)[i] == (q1[layer] - 1) as u32);
                assert(dec_at(q2, layer)[i] == (q2[layer] - 1) as u32);
            } else {
                assert(dec_at(q1, layer)[i] == q1[i]);
                assert(dec_at(q2, layer)[i] == q2[i]);
            }
        }
    }
}

/// A child key is a prefix of `id` exactly when its parent is and `id`
/// continues with the child's index.
pub proof fn lemma_push_prefix(k: Seq<u32>, j: u32, id: Seq<u32>)
    ensures
        is_id_prefix(k.push(j), id) <==> (is_id_prefix(k, id) && k.len() < id.len() && id[k.len() as int]
            == j),
{
    if is_id_prefix(k.push(j), id) {
        assert(id.take(k.len() as int + 1) == k.push(j));
        assert(id.take(k.len() as int) =~= k) by {
            assert forall|i: int| 0 <= i < k.len() implies id.take(k.len() as int)[i] == k[i] by {
                assert(id.take(k.len() as int + 1)[i] == id[i]);
                assert(k.push(j)[i] == k[i]);
            }
        }
        assert(id.take(k.len() as int + 1)[k.len() as int] == id[k.len() as int]);
        assert(k.push(j)[k.len() as int] == j);
    }
    if is_id_prefix(k, id) && k.len() < id.len() && id[k.len() as int] == j {
        assert(id.take(k.len() as int + 1) =~= k.push(j)) by {
            assert forall|i: int|
                0 <= i < k.len() + 1 implies id.take(k.len() as int + 1)[i] == k.push(j)[i] by {
                if i < k.len() {
                    assert(id.take(k.len() as int)[i] == id[i]);
                }
            }
        }
    }
}

/// A prefix of full length is the key itself.
pub proof fn lemma_prefix_full(p: Seq<u32>, k: Seq<u32>)
    requires
        is_id_prefix(p, k),
        p.len() == k.len(),
    ensures
        p == k,
{
    assert(k.take(k.len() as int) =~= k);
}

/// A prefix of a prefix is a prefix.
pub proof fn lemma_prefix_trans(a: Seq<u32>, b: Seq<u32>, c: Seq<u32>)
    requires
        is_id_prefix(a, b),
        is_id_prefix(b, c),
    ensures
        is_id_prefix(a, c),
{
    assert(c.take(a.len() as int) =~= a) by {
        assert forall|i: int| 0 <= i < a.len() implies c.take(a.len() as int)[i] == a[i] by {
            assert(c.take(b.len() as int)[i] == c[i]);
            assert(b.take(a.len() as int)[i] == b[i]);
        }
    }
}

/// In a well-formed store, every prefix of a present key is present.
pub proof fn lemma_prefix_in_dom(m: Map<Seq<u32>, TaskView>, id: Seq<u32>, i: int)
    requires
        wf(m),
        m.dom().contains(id),
        0 <= i <= id.len(),
    ensures
        m.dom().contains(id.take(i)),
    decreases id.len() - i,
{
    if i == id.len() {
        assert(id.take(i) =~= id);
    } else {
        lemma_prefix_in_dom(m, id, i + 1);
        assert(id.take(i + 1).len() > 0);
        assert(id.take(i + 1).drop_last() =~= id.take(i));
    }
}

/// In a well-formed store, a work package has no descendant but itself.
pub proof fn lemma_no_descendants(m: Map<Seq<u32>, TaskView>, id: Seq<u32>, q: Seq<u32>)
    requires
        wf(m),
        m.dom().contains(id),
        m[id].num_child == 0,
        m.dom().contains(q),
        is_id_prefix(id, q),
    ensures
        q == id,
{
    if q.len() == id.len() {
        lemma_prefix_full(id, q);
    } else {
        let c = q.take(id.len() as int + 1);
        lemma_prefix_in_dom(m, q, id.len() as int + 1);
        assert(c =~= id.push(q[id.len() as int])) by {
            assert forall|i: int| 0 <= i < id.len() + 1 implies c[i] == id.push(
                q[id.len() as int],
            )[i] by {
                if i < id.len() {
                    assert(q.take(id.len() as int)[i] == q[i]);
                }
            }
        }
        assert(m.dom().contains(id.push(q[id.len() as int])));
        assert(1 <= q[id.len() as int] <= m[id].num_child);
    }
}

/// Sums over children where exactly one child's values changed.
pub proof fn lemma_sum_diff(
    m1: Map<Seq<u32>, TaskView>,
    m2: Map<Seq<u32>, TaskView>,
    k: Seq<u32>,
    n: int,
    j: int,
)
    requires
        1 <= j <= n,
        forall|i: int|
            1 <= i <= n && i != j ==> m1[#[trigger] k.push(i as u32)].planned_value == m2[k.push(
                i as u32,
            )].planned_value && m1[k.push(i as u32)].actual_cost == m2[k.push(
                i as u32,
            )].actual_cost,
    ensures
        sum_pv(m2, k, n) == sum_pv(m1, k, n) + m2[k.push(j as u32)].planned_value - m1[k.push(
            j as u32,
        )].planned_value,
        sum_ac(m2, k, n) == sum_ac(m1, k, n) + m2[k.push(j as u32)].actual_cost - m1[k.push(
            j as u32,
        )].actual_cost,
    decreases n,
{
    if n > j {
        lemma_sum_diff(m1, m2, k, n - 1, j);
    } else {
        lemma_sum_same(m1, m2, k, k, n - 1);
    }
}

/// A store holding the root task alone is well formed.
pub proof fn lemma_construct_wf(name: Seq<char>)
    ensures
        wf(spec_construct(name)),
{
    let m = spec_construct(name);
    assert(m.dom() =~= Set::<Seq<u32>>::empty().insert(root_key()));
    assert forall|k: Seq<u32>, j: u32|
        m.dom().contains(k) implies (m.dom().contains(#[trigger] k.push(j)) <==> 1 <= j <= m[k].num_child) by {
        assert(k.push(j).len() > 0);
        assert(k.push(j) != root_key());
    }
}

/// Fields other than the planned value survive `spec_set_pv`, and the
/// planned value moves by the difference exactly on the ancestor chain.
pub proof fn lemma_set_pv_values(m: Map<Seq<u32>, TaskView>, id: Seq<u32>, v: u64)
    requires
        wf(m),
        m.dom().contains(id),
        m[id].num_child == 0,
        m[root_key()].planned_value - m[id].planned_value + v <= u64::MAX,
    ensures
        spec_set_pv(m, id, v).dom() == m.dom(),
        forall|k: Seq<u32>| #[trigger]
            m.dom().contains(k) ==> spec_set_pv(m, id, v)[k].id == m[k].id && spec_set_pv(
                m,
                id,
                v,
            )[k].num_child == m[k].num_child && spec_set_pv(m, id, v)[k].actual_cost
                == m[k].actual_cost && spec_set_pv(m, id, v)[k].status == m[k].status
                && spec_set_pv(m, id, v)[k].name == m[k].name,
        forall|k: Seq<u32>|
            #[trigger] m.dom().contains(k) && is_id_prefix(k, id) ==> (spec_set_pv(
                m,
                id,
                v,
            )[k].planned_value as int) == m[k].planned_value + v - m[id].planned_value,
        forall|k: Seq<u32>|
            #[trigger] m.dom().contains(k) && !is_id_prefix(k, id) ==> spec_set_pv(
                m,
                id,
                v,
            )[k].planned_value == m[k].planned_value,
{
    let m2 = spec_set_pv(m, id, v);
    assert(m2.dom() =~= m.dom());
    assert forall|k: Seq<u32>|
        #[trigger] m.dom().contains(k) && !is_id_prefix(k, id) implies m2[k].planned_value
        == m[k].planned_value by {
        if k == id {
            assert(id.take(id.len() as int) =~= id);
        }
    }
    assert forall|k: Seq<u32>| #[trigger] m.dom().contains(k) implies m2[k].id == m[k].id
        && m2[k].num_child == m[k].num_child && m2[k].actual_cost == m[k].actual_cost
        && m2[k].status == m[k].status && m2[k].name == m[k].name by {}
    assert forall|k: Seq<u32>|
        #[trigger] m.dom().contains(k) && is_id_prefix(k, id) implies (
    m2[k].planned_value as int) == m[k].planned_value + v - m[id].planned_value by {
        lemma_root_prefix(k);
        lemma_desc_le_anc(m, root_key(), k);
        lemma_desc_le_anc(m, k, id);
        if k.len() == id.len() {
            lemma_prefix_full(k, id);
        }
    }
}

/// Setting the planned value of a work package and propagating the
/// difference keeps the store well formed.
pub proof fn lemma_set_pv_wf(m: Map<Seq<u32>, TaskView>, id: Seq<u32>, v: u64)
    requires
        wf(m),
        m.dom().contains(id),
        m[id].num_child == 0,
        m[root_key()].planned_value - m[id].planned_value + v <= u64::MAX,
    ensures
        wf(spec_set_pv(m, id, v)),
{
    let m2 = spec_set_pv(m, id, v);
    lemma_set_pv_values(m, id, v);
    let diff = v - m[id].planned_value;
    assert forall|k: Seq<u32>|
        #[trigger] m2.dom().contains(k) && m2[k].num_child > 0 implies m2[k].planned_value
        == sum_pv(m2, k, m2[k].num_child as int) && m2[k].actual_cost == sum_ac(
        m2,
        k,
        m2[k].num_child as int,
    ) by {
        let nc = m[k].num_child as int;
        assert forall|i: int|
            1 <= i <= nc implies #[trigger] m.dom().contains(k.push(i as u32)) by {}
        if is_id_prefix(k, id) {
            assert(k != id);
            assert(k.len() < id.len()) by {
                if k.len() == id.len() {
                    lemma_prefix_full(k, id);
                }
            }
            let jstar = id[k.len() as int];
            assert(is_id_prefix(k.push(jstar), id)) by {
                lemma_push_prefix(k, jstar, id);
            }
            assert(m.dom().contains(k.push(jstar))) by {
                lemma_prefix_in_dom(m, id, k.len() as int + 1);
                assert(id.take(k.len() as int + 1) =~= k.push(jstar)) by {
                    lemma_push_prefix(k, jstar, id);
                    assert(is_id_prefix(k.push(jstar), id));
                    assert(id.take(k.push(jstar).len() as int) == k.push(jstar));
                }
            }
            assert(1 <= jstar <= nc);
            assert forall|i: int|
                1 <= i <= nc && i != jstar implies m[#[trigger] k.push(i as u32)].planned_value
                == m2[k.push(i as u32)].planned_value && m[k.push(i as u32)].actual_cost
                == m2[k.push(i as u32)].actual_cost by {
                lemma_push_prefix(k, i as u32, id);
                assert(!is_id_prefix(k.push(i as u32), id));
            }
            lemma_sum_diff(m, m2, k, nc, jstar as int);
            assert(is_id_prefix(k.push(jstar), id));
            assert(m2[k.push(jstar)].planned_value == m[k.push(jstar)].planned_value + diff);
        } else {
            assert forall|i: int|
                1 <= i <= nc implies m[#[trigger] k.push(i as u32)].planned_value == m2[k.push(
                i as u32,
            )].planned_value && m[k.push(i as u32)].actual_cost == m2[k.push(
                i as u32,
            )].actual_cost by {
                lemma_push_prefix(k, i as u32, id);
                if is_id_prefix(k.push(i as u32), id) {
                    assert(is_id_prefix(k, id));
                }
            }
            lemma_sum_same(m, m2, k, k, nc);
        }
    }
    assert forall|k: Seq<u32>, j: u32|
        m2.dom().contains(k) implies (m2.dom().contains(#[trigger] k.push(j)) <==> 1 <= j
        <= m2[k].num_child) by {}
}

/// Every key is a prefix of itself.
pub proof fn lemma_prefix_refl(k: Seq<u32>)
    ensures
        is_id_prefix(k, k),
{
    assert(k.take(k.len() as int) =~= k);
}

/// Fields other than the actual cost survive `spec_set_ac_vals`, and the
/// actual cost moves by the difference exactly on the ancestor chain.
pub proof fn lemma_set_ac_values(m: Map<Seq<u32>, TaskView>, id: Seq<u32>, v: u64)
    requires
        wf(m),
        m.dom().contains(id),
        m[id].num_child == 0,
        m[root_key()].actual_cost - m[id].actual_cost + v <= u64::MAX,
    ensures
        spec_set_ac_vals(m, id, v).dom() == m.dom(),
        forall|k: Seq<u32>| #[trigger]
            m.dom().contains(k) ==> spec_set_ac_vals(m, id, v)[k].id == m[k].id && spec_set_ac_vals(
                m,
                id,
                v,
            )[k].num_child == m[k].num_child && spec_set_ac_vals(m, id, v)[k].planned_value
                == m[k].planned_value && spec_set_ac_vals(m, id, v)[k].status == m[k].status
                && spec_set_ac_vals(m, id, v)[k].name == m[k].name,
        forall|k: Seq<u32>|
            #[trigger] m.dom().contains(k) && is_id_prefix(k, id) ==> (spec_set_ac_vals(
                m,
                id,
                v,
            )[k].actual_cost as int) == m[k].actual_cost + v - m[id].actual_cost,
        forall|k: Seq<u32>|
            #[trigger] m.dom().contains(k) && !is_id_prefix(k, id) ==> spec_set_ac_vals(
                m,
                id,
                v,
            )[k].actual_cost == m[k].actual_cost,
{
    let m2 = spec_set_ac_vals(m, id, v);
    assert(m2.dom() =~= m.dom());
    assert forall|k: Seq<u32>|
        #[trigger] m.dom().contains(k) && !is_id_prefix(k, id) implies m2[k].actual_cost
        == m[k].actual_cost by {
        if k == id {
            lemma_prefix_refl(id);
        }
    }
    assert forall|k: Seq<u32>| #[trigger] m.dom().contains(k) implies m2[k].id == m[k].id
        && m2[k].num_child == m[k].num_child && m2[k].planned_value == m[k].planned_value
        && m2[k].status == m[k].status && m2[k].name == m[k].name by {}
    assert forall|k: Seq<u32>|
        #[trigger] m.dom().contains(k) && is_id_prefix(k, id) implies (
    m2[k].actual_cost as int) == m[k].actual_cost + v - m[id].actual_cost by {
        lemma_root_prefix(k);
        lemma_desc_le_anc(m, root_key(), k);
        lemma_desc_le_anc(m, k, id);
        if k.len() == id.len() {
            lemma_prefix_full(k, id);
        }
    }
}

/// Setting the actual cost of a work package and propagating the difference
/// keeps the store well formed.
pub proof fn lemma_set_ac_vals_wf(m: Map<Seq<u32>, TaskView>, id: Seq<u32>, v: u64)
    requires
        wf(m),
        m.dom().contains(id),
        m[id].num_child == 0,
        m[root_key()].actual_cost - m[id].actual_cost + v <= u64::MAX,
    ensures
        wf(spec_set_ac_vals(m, id, v)),
{
    let m2 = spec_set_ac_vals(m, id, v);
    lemma_set_ac_values(m, id, v);
    let diff = v - m[id].actual_cost;
    assert forall|k: Seq<u32>|
        #[trigger] m2.dom().contains(k) && m2[k].num_child > 0 implies m2[k].planned_value
        == sum_pv(m2, k, m2[k].num_child as int) && m2[k].actual_cost == sum_ac(
        m2,
        k,
        m2[k].num_child as int,
    ) by {
        let nc = m[k].num_child as int;
        assert forall|i: int|
            1 <= i <= nc implies #[trigger] m.dom().contains(k.push(i as u32)) by {}
        if is_id_prefix(k, id) {
            assert(k != id);
            assert(k.len() < id.len()) by {
                if k.len() == id.len() {
                    lemma_prefix_full(k, id);
                }
            }
            let jstar = id[k.len() as int];
            assert(is_id_prefix(k.push(jstar), id)) by {
                lemma_push_prefix(k, jstar, id);
            }
            assert(m.dom().contains(k.push(jstar))) by {
                lemma_prefix_in_dom(m, id, k.len() as int + 1);
                assert(id.take(k.len() as int + 1) =~= k.push(jstar)) by {
                    lemma_push_prefix(k, jstar, id);
                    assert(is_id_prefix(k.push(jstar), id));
                    assert(id.take(k.push(jstar).len() as int) == k.push(jstar));
                }
            }
            assert(1 <= jstar <= nc);
            assert forall|i: int|
                1 <= i <= nc && i != jstar implies m[#[trigger] k.push(i as u32)].planned_value
                == m2[k.push(i as u32)].planned_value && m[k.push(i as u32)].actual_cost
                == m2[k.push(i as u32)].actual_cost by {
                lemma_push_prefix(k, i as u32, id);
                assert(!is_id_prefix(k.push(i as u32), id));
            }
            lemma_sum_diff(m, m2, k, nc, jstar as int);
            assert(is_id_prefix(k.push(jstar), id));
            assert(m2[k.push(jstar)].actual_cost == m[k.push(jstar)].actual_cost + diff);
        } else {
            assert forall|i: int|
                1 <= i <= nc implies m[#[trigger] k.push(i as u32)].planned_value == m2[k.push(
                i as u32,
            )].planned_value && m[k.push(i as u32)].actual_cost == m2[k.push(
                i as u32,
            )].actual_cost by {
                lemma_push_prefix(k, i as u32, id);
                if is_id_prefix(k.push(i as u32), id) {
                    assert(is_id_prefix(k, id));
                }
            }
            lemma_sum_same(m, m2, k, k, nc);
        }
    }
    assert forall|k: Seq<u32>, j: u32|
        m2.dom().contains(k) implies (m2.dom().contains(#[trigger] k.push(j)) <==> 1 <= j
        <= m2[k].num_child) by {}
}

/// One sweep step keeps the domain, every field but the status, and
/// well-formedness.
pub proof fn lemma_sweep_once_wf(m: Map<Seq<u32>, TaskView>, k: Seq<u32>)
    requires
        wf(m),
    ensures
        wf(sweep_once(m, k)),
        sweep_once(m, k).dom() == m.dom(),
        forall|q: Seq<u32>| #[trigger]
            m.dom().contains(q) ==> sweep_once(m, k)[q].id == m[q].id && sweep_once(m, k)[q].name
                == m[q].name && sweep_once(m, k)[q].planned_value == m[q].planned_value
                && sweep_once(m, k)[q].actual_cost == m[q].actual_cost && sweep_once(
                m,
                k,
            )[q].num_child == m[q].num_child,
{
    let m2 = sweep_once(m, k);
    if m.dom().contains(k) && all_children_done(m, k) {
        assert(m2.dom() =~= m.dom());
        assert forall|q: Seq<u32>|
            #[trigger] m2.dom().contains(q) && m2[q].num_child > 0 implies m2[q].planned_value
            == sum_pv(m2, q, m2[q].num_child as int) && m2[q].actual_cost == sum_ac(
            m2,
            q,
            m2[q].num_child as int,
        ) by {
            lemma_sum_same(m, m2, q, q, m[q].num_child as int);
        }
        assert forall|q: Seq<u32>, j: u32|
            m2.dom().contains(q) implies (m2.dom().contains(#[trigger] q.push(j)) <==> 1 <= j
            <= m2[q].num_child) by {}
    }
}

/// The whole sweep keeps the domain, every field but the status, and
/// well-formedness.
pub proof fn lemma_sweep_range_wf(m: Map<Seq<u32>, TaskView>, id: Seq<u32>, stop: int)
    requires
        wf(m),
    ensures
        wf(sweep_range(m, id, stop)),
        sweep_range(m, id, stop).dom() == m.dom(),
        forall|q: Seq<u32>| #[trigger]
            m.dom().contains(q) ==> sweep_range(m, id, stop)[q].id == m[q].id && sweep_range(
                m,
                id,
                stop,
            )[q].name == m[q].name && sweep_range(m, id, stop)[q].planned_value
                == m[q].planned_value && sweep_range(m, id, stop)[q].actual_cost
                == m[q].actual_cost && sweep_range(m, id, stop)[q].num_child == m[q].num_child,
    decreases id.len() - stop + 1,
{
    if stop > id.len() || stop < 0 {
    } else {
        lemma_sweep_range_wf(m, id, stop + 1);
        lemma_sweep_once_wf(sweep_range(m, id, stop + 1), id.take(stop));
    }
}

/// Adding a fresh work package keeps the store well formed, provided the
/// parent's aggregates are already derived (zero when it was a leaf).
pub proof fn lemma_add_wf(m: Map<Seq<u32>, TaskView>, parent: Seq<u32>, name: Seq<char>)
    requires
        wf(m),
        m.dom().contains(parent),
        m[parent].num_child < u32::MAX,
        m[parent].num_child == 0 ==> m[parent].planned_value == 0 && m[parent].actual_cost == 0,
    ensures
        wf(spec_add(m, parent, name)),
        !m.dom().contains(added_key(m, parent)),
        spec_add(m, parent, name).dom() == m.dom().insert(added_key(m, parent)),
{
    let nid = added_key(m, parent);
    let m2 = spec_add(m, parent, name);
    let nc = m[parent].num_child;
    assert(!m.dom().contains(nid)) by {
        if m.dom().contains(nid) {
            assert(1 <= (nc + 1) as u32 <= m[parent].num_child);
        }
    }
    assert(m2.dom() =~= m.dom().insert(nid));
    assert(m2.dom().finite());
    assert(nid.len() > 0);
    assert(m2.dom().contains(root_key()));
    assert(nid.drop_last() =~= parent);
    assert(nid.last() == (nc + 1) as u32);
    // identifiers and closure
    assert forall|k: Seq<u32>|
        #[trigger] m2.dom().contains(k) && k.len() > 0 implies m2.dom().contains(k.drop_last())
        && 1 <= k.last() by {}
    // contiguity
    assert forall|k: Seq<u32>, j: u32|
        m2.dom().contains(k) implies (m2.dom().contains(#[trigger] k.push(j)) <==> 1 <= j
        <= m2[k].num_child) by {
        if k == nid {
            if m2.dom().contains(k.push(j)) {
                assert(k.push(j) != nid) by {
                    assert(k.push(j).len() != nid.len());
                }
                assert(m.dom().contains(k.push(j)));
                assert(k.push(j).drop_last() =~= k);
                assert(m.dom().contains(k));
                assert(false);
            }
        } else if k == parent {
            if 1 <= j <= m2[k].num_child {
                if j == (nc + 1) as u32 {
                    assert(k.push(j) =~= nid);
                    assert(m2.dom().contains(k.push(j)));
                } else {
                    assert(1 <= j <= nc);
                    assert(m.dom().contains(k.push(j)));
                }
            }
            if m2.dom().contains(k.push(j)) {
                if k.push(j) == nid {
                    assert(j == nid.last());
                } else {
                    assert(m.dom().contains(k.push(j)));
                    assert(1 <= j <= nc);
                }
            }
        } else {
            if k.push(j) == nid {
                assert(k =~= parent) by {
                    assert(nid.drop_last() =~= parent);
                    assert(k.push(j).drop_last() =~= k);
                }
            }
        }
    }
    // sums
    assert forall|k: Seq<u32>|
        #[trigger] m2.dom().contains(k) && m2[k].num_child > 0 implies m2[k].planned_value
        == sum_pv(m2, k, m2[k].num_child as int) && m2[k].actual_cost == sum_ac(
        m2,
        k,
        m2[k].num_child as int,
    ) by {
        if k == nid {
            assert(m2[k].num_child == 0);
        } else if k == parent {
            assert forall|i: int|
                1 <= i <= nc implies m[#[trigger] k.push(i as u32)].planned_value == m2[k.push(
                i as u32,
            )].planned_value && m[k.push(i as u32)].actual_cost == m2[k.push(
                i as u32,
            )].actual_cost by {
                assert(m.dom().contains(k.push(i as u32)));
                assert(k.push(i as u32) != nid) by {
                    assert(k.push(i as u32).last() == i as u32);
                }
                assert(k.push(i as u32) != parent) by {
                    assert(k.push(i as u32).len() == parent.len() + 1);
                }
            }
            lemma_sum_same(m, m2, k, k, nc as int);
            assert(m2[k.push((nc + 1) as u32)] == fresh_task(nid, name)) by {
                assert(k.push((nc + 1) as u32) =~= nid);
            }
            assert(sum_pv(m2, k, nc + 1) == sum_pv(m2, k, nc as int) + 0);
            assert(sum_ac(m2, k, nc + 1) == sum_ac(m2, k, nc as int) + 0);
            if nc == 0 {
                assert(m2[k].planned_value == 0);
                assert(m2[k].actual_cost == 0);
            } else {
                assert(m[k].planned_value == sum_pv(m, k, nc as int));
            }
        } else {
            assert(m.dom().contains(k));
            assert(m2[k].num_child == m[k].num_child);
            assert forall|i: int|
                1 <= i <= m[k].num_child implies m[#[trigger] k.push(i as u32)].planned_value
                == m2[k.push(i as u32)].planned_value && m[k.push(i as u32)].actual_cost
                == m2[k.push(i as u32)].actual_cost by {
                assert(m.dom().contains(k.push(i as u32)));
                if k.push(i as u32) == nid {
                    assert(k =~= parent) by {
                        assert(nid.drop_last() =~= parent);
                        assert(k.push(i as u32).drop_last() =~= k);
                    }
                }
            }
            lemma_sum_same(m, m2, k, k, m[k].num_child as int);
        }
    }
}

/// The position of the first record of `x` in a member list.
pub open spec fn member_index_of(s: Seq<Seq<char>>, x: Seq<char>) -> int
    decreases s.len(),
{
    if s.len() == 0 {
        0
    } else if s[0] == x {
        0
    } else {
        1 + member_index_of(s.skip(1), x)
    }
}

/// The first record of `x` sits exactly where the scan first meets it.
pub proof fn lemma_member_index(s: Seq<Seq<char>>, x: Seq<char>, i: int)
    requires
        0 <= i < s.len(),
        s[i] == x,
        forall|j: int| 0 <= j < i ==> s[j] != x,
    ensures
        member_index_of(s, x) == i,
    decreases i,
{
    if i > 0 {
        assert(s[0] != x);
        assert forall|j: int| 0 <= j < i - 1 implies s.skip(1)[j] != x by {
            assert(s.skip(1)[j] == s[j + 1]);
        }
        assert(s.skip(1)[i - 1] == s[i]);
        lemma_member_index(s.skip(1), x, i - 1);
    }
}

/// The store after the named member is recorded on the work package `id`:
/// the record lands on the target task alone, and recording a member twice
/// changes nothing.
pub open spec fn spec_assign_member(
    m: Map<Seq<u32>, TaskView>,
    id: Seq<u32>,
    name: Seq<char>,
) -> Map<Seq<u32>, TaskView> {
    if m[id].members.contains(name) {
        m
    } else {
        m.insert(id, TaskView { members: m[id].members.push(name), ..m[id] })
    }
}

/// The store after the first record of the named member is dropped from the
/// task `id`.
pub open spec fn spec_remove_member(
    m: Map<Seq<u32>, TaskView>,
    id: Seq<u32>,
    name: Seq<char>,
) -> Map<Seq<u32>, TaskView> {
    m.insert(
        id,
        TaskView { members: m[id].members.remove(member_index_of(m[id].members, name)), ..m[id] },
    )
}

/// Rewriting one task's member list touches no tree invariant.
pub proof fn lemma_same_but_members_wf(m: Map<Seq<u32>, TaskView>, id: Seq<u32>, nv: TaskView)
    requires
        wf(m),
        m.dom().contains(id),
        nv.id == m[id].id,
        nv.num_child == m[id].num_child,
        nv.planned_value == m[id].planned_value,
        nv.actual_cost == m[id].actual_cost,
    ensures
        wf(m.insert(id, nv)),
{
    let m2 = m.insert(id, nv);
    assert(m2.dom() =~= m.dom());
    assert forall|k: Seq<u32>, j: u32|
        m2.dom().contains(k) implies (m2.dom().contains(#[trigger] k.push(j)) <==> 1 <= j
        <= m2[k].num_child) by {}
    assert forall|k: Seq<u32>|
        #[trigger] m2.dom().contains(k) && m2[k].num_child > 0 implies m2[k].planned_value
        == sum_pv(m2, k, m2[k].num_child as int) && m2[k].actual_cost == sum_ac(
        m2,
        k,
        m2[k].num_child as int,
    ) by {
        let nc = m[k].num_child as int;
        assert forall|i: int|
            1 <= i <= nc implies m[#[trigger] k.push(i as u32)].planned_value == m2[k.push(
            i as u32,
        )].planned_value && m[k.push(i as u32)].actual_cost == m2[k.push(
            i as u32,
        )].actual_cost by {}
        lemma_sum_same(m, m2, k, k, nc);
    }
}

/// After any sequence of operations the store is well formed again (every
/// operation ensures it), and in a well-formed store the children of every
/// task occupy exactly the indices one through its child count: no gaps and
/// no duplicates.
pub proof fn law_children_contiguous(m: Map<Seq<u32>, TaskView>, k: Seq<u32>, j: u32)
    requires
        wf(m),
        m.dom().contains(k),
    ensures
        m.dom().contains(k.push(j)) <==> 1 <= j <= m[k].num_child,
{
}

/// In a well-formed store — so after every mutation — each trunk's planned
/// value and actual cost equal the sums over its direct children.
pub proof fn law_trunk_aggregates(m: Map<Seq<u32>, TaskView>, k: Seq<u32>)
    requires
        wf(m),
        m.dom().contains(k),
        m[k].num_child > 0,
    ensures
        m[k].planned_value == sum_pv(m, k, m[k].num_child as int),
        m[k].actual_cost == sum_ac(m, k, m[k].num_child as int),
{
}

/// Adding a work package and then removing it returns the root's aggregates
/// to their values before the add. When the parent is itself a work package
/// its aggregates must already be derived (zero): gaining a first child
/// deliberately discards authored values, which the removal cannot restore.
pub proof fn law_add_then_remove_restores_root(
    m: Map<Seq<u32>, TaskView>,
    parent: Seq<u32>,
    name: Seq<char>,
)
    requires
        wf(m),
        m.dom().contains(parent),
        m[parent].num_child < u32::MAX,
        m[parent].num_child == 0 ==> m[parent].planned_value == 0 && m[parent].actual_cost == 0,
    ensures
        spec_remove(spec_add_full(m, parent, name), added_key(m, parent))[
            root_key()
        ].planned_value == m[root_key()].planned_value,
        spec_remove(spec_add_full(m, parent, name), added_key(m, parent))[root_key()].actual_cost
            == m[root_key()].actual_cost,
{
    let nid = added_key(m, parent);
    let nc = m[parent].num_child;
    // the base of the add: the store, its parent aggregates already derived
    let mz: Map<Seq<u32>, TaskView> = if m[parent].num_child == 0 {
        spec_set_pv(spec_set_ac_vals(m, parent, 0), parent, 0)
    } else {
        m
    };
    lemma_root_prefix(parent);
    lemma_desc_le_anc(m, root_key(), parent);
    if m[parent].num_child == 0 {
        lemma_set_ac_values(m, parent, 0);
        lemma_set_ac_vals_wf(m, parent, 0);
        lemma_prefix_refl(parent);
        lemma_root_prefix(root_key());
        let ma1 = spec_set_ac_vals(m, parent, 0);
        lemma_desc_le_anc(ma1, root_key(), parent);
        lemma_set_pv_values(ma1, parent, 0);
        lemma_set_pv_wf(ma1, parent, 0);
        assert(mz[root_key()].planned_value == m[root_key()].planned_value) by {
            lemma_root_prefix(root_key());
            assert(is_id_prefix(root_key(), parent));
        }
        assert(mz[root_key()].actual_cost == m[root_key()].actual_cost);
    }
    assert(wf(mz));
    assert(mz.dom().contains(parent));
    assert(mz[parent].num_child == nc);
    assert(mz[parent].num_child == 0 ==> mz[parent].planned_value == 0 && mz[parent].actual_cost
        == 0);
    lemma_add_wf(mz, parent, name);
    let ma = spec_add_full(m, parent, name);
    assert(ma == spec_add(mz, parent, name));
    assert(added_key(mz, parent) == nid);
    // the fresh task sits at `nid`, a work package with zero aggregates
    assert(ma.dom().contains(nid));
    assert(ma[nid] == fresh_task(nid, name));
    assert(nid.len() > 0);
    assert(nid.drop_last() =~= parent);
    assert(nid.last() == (nc + 1) as u32);
    // root aggregates survive the add
    assert(root_key() != nid) by {
        assert(nid.len() > 0);
    }
    assert(ma[root_key()].planned_value == m[root_key()].planned_value);
    assert(ma[root_key()].actual_cost == m[root_key()].actual_cost);
    // zeroing the fresh task's aggregates moves nothing
    lemma_root_prefix(nid);
    lemma_desc_le_anc(ma, root_key(), nid);
    lemma_set_ac_values(ma, nid, 0);
    lemma_set_ac_vals_wf(ma, nid, 0);
    let mb = spec_set_ac_vals(ma, nid, 0);
    assert forall|k: Seq<u32>| #[trigger] ma.dom().contains(k) implies mb[k].planned_value
        == ma[k].planned_value && mb[k].actual_cost == ma[k].actual_cost by {
        if is_id_prefix(k, nid) {
            assert((mb[k].actual_cost as int) == ma[k].actual_cost + 0 - ma[nid].actual_cost);
        }
    }
    lemma_sweep_range_wf(mb, nid, 0);
    lemma_sweep_marks_leaf(mb, nid, 0);
    let mc = sweep_range(mb, nid, 0);
    assert(mc == spec_set_ac(ma, nid, 0));
    assert(mc.dom() == mb.dom());
    lemma_root_prefix(nid);
    lemma_desc_le_anc(mc, root_key(), nid);
    lemma_set_pv_values(mc, nid, 0);
    lemma_set_pv_wf(mc, nid, 0);
    let md = spec_set_pv(mc, nid, 0);
    assert forall|k: Seq<u32>| #[trigger] mc.dom().contains(k) implies md[k].planned_value
        == mc[k].planned_value && md[k].actual_cost == mc[k].actual_cost by {
        if is_id_prefix(k, nid) {
            assert((md[k].planned_value as int) == mc[k].planned_value + 0 - mc[nid].planned_value);
        }
    }
    assert(md[root_key()].planned_value == m[root_key()].planned_value);
    assert(md[root_key()].actual_cost == m[root_key()].actual_cost);
    // dropping the entry and decrementing the parent leave the root alone
    let n2 = ma[nid.drop_last()].num_child;
    let me = md.insert(
        nid.drop_last(),
        TaskView { num_child: (md[nid.drop_last()].num_child - 1) as u32, ..md[nid.drop_last()] },
    ).remove(nid);
    assert(me.dom().contains(root_key())) by {
        assert(md.dom().contains(root_key()));
    }
    assert(me[root_key()].planned_value == m[root_key()].planned_value);
    assert(me[root_key()].actual_cost == m[root_key()].actual_cost);
    // the final sibling shift never touches the root
    let fin = spec_shift_upto(me, nid.drop_last(), nid.last(), n2 as int);
    assert(spec_remove(ma, nid) == fin);
    assert(root_key().len() == 0);
    assert(!(is_id_prefix(nid.drop_last(), root_key()) && root_key().len()
        > nid.drop_last().len()));
    assert(fin.dom().contains(root_key()));
    assert(fin[root_key()] == me[root_key()]);
}

} // verus!
