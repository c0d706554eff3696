//! The stateless tree engine.
//!
//! Every operation takes the identifiers involved and the store it acts on,
//! enforces the structural invariants, and keeps every summary task's
//! aggregates equal to the sum over its children.

use vstd::prelude::*;

use crate::digits::{dec_rep, push_u128};
use crate::error::{Error, ErrorView};
use crate::model::{
    dec_at, is_id_prefix, lemma_add_wf, lemma_construct_wf, lemma_desc_le_anc,
    lemma_no_descendants, lemma_prefix_in_dom, lemma_prefix_refl, lemma_prefix_trans,
    lemma_push_prefix, lemma_prefix_full, lemma_remove_wf, lemma_root_prefix, lemma_set_ac_vals_wf,
    lemma_set_ac_values, lemma_set_pv_values, lemma_set_pv_wf, lemma_shift_step,
    lemma_member_index, lemma_same_but_members_wf, lemma_sweep_marks_leaf, lemma_sweep_once_wf,
    lemma_sweep_range_wf, removed_map, root_key, added_key, spec_add, spec_add_full, spec_add_upto,
    spec_assign_member, spec_remove_member, member_index_of,
    spec_construct, spec_remove, spec_set_ac, spec_set_ac_upto, spec_set_ac_vals, spec_set_pv,
    spec_set_pv_upto, spec_shift_upto, sweep_once, sweep_range, wf, done_leaf_count,
    done_leaf_keys, leaf_count, leaf_keys, lemma_leaf_counts, lemma_subtree_child_lt,
    subtree_count,
};
use crate::store::TaskStore;
use crate::task::{fresh_task, task_line, Task, TaskStatus, TaskView};
use crate::task_id::TaskId;

verus! {

/// A store that the engine accepts: distinct identifiers and the tree
/// invariants.
pub open spec fn valid_store(store: &TaskStore) -> bool {
    store.inv() && wf(store@)
}

/// The character views of an array of (parent text, task name) pairs.
pub open spec fn pair_views(s: Seq<(&str, &str)>) -> Seq<(Seq<char>, Seq<char>)> {
    Seq::new(s.len(), |i: int| (s[i].0@, s[i].1@))
}

/// Folds the add operation over a pair list: the store reached, and the
/// first error if one stops the walk.
pub open spec fn spec_expand(
    m: Map<Seq<u32>, TaskView>,
    pairs: Seq<(Seq<char>, Seq<char>)>,
) -> (Map<Seq<u32>, TaskView>, Option<ErrorView>)
    decreases pairs.len(),
{
    if pairs.len() == 0 {
        (m, None)
    } else {
        match crate::task_id::parse_id(pairs[0].0) {
            Option::None => (m, Some(ErrorView::BadTaskIdString(pairs[0].0))),
            Option::Some(pid) => if !m.dom().contains(pid) {
                (m, Some(ErrorView::TaskNotFound(pid)))
            } else {
                spec_expand(spec_add_full(m, pid, pairs[0].1), pairs.skip(1))
            },
        }
    }
}

/// Does the fold stay below the machine limit on a parent's child count?
pub open spec fn expand_within_limit(
    m: Map<Seq<u32>, TaskView>,
    pairs: Seq<(Seq<char>, Seq<char>)>,
) -> bool
    decreases pairs.len(),
{
    if pairs.len() == 0 {
        true
    } else {
        match crate::task_id::parse_id(pairs[0].0) {
            Option::None => true,
            Option::Some(pid) => !m.dom().contains(pid) || (m[pid].num_child < u32::MAX
                && expand_within_limit(spec_add_full(m, pid, pairs[0].1), pairs.skip(1))),
        }
    }
}

/// An exact rational: the value `num / den`. Earned-value indicators are
/// returned in this form, so no value is ever not-a-number.
#[derive(Clone, Copy, Debug, PartialEq, Eq, Structural)]
pub struct Ratio {
    pub num: i128,
    pub den: i128,
}

/// Which work packages a filtered view keeps.
enum StatusFilter {
    Any,
    Todo,
    InProgress,
    Done,
}

/// Does the filter keep a task? Only work packages are ever kept.
spec fn keeps(f: StatusFilter, t: TaskView) -> bool {
    t.num_child == 0 && match f {
        StatusFilter::Any => true,
        StatusFilter::Todo => !(t.status is Done),
        StatusFilter::InProgress => t.status is InProgress,
        StatusFilter::Done => t.status is Done,
    }
}

/// The text of a possibly negative integer.
pub open spec fn int_text(n: int) -> Seq<char> {
    if n >= 0 {
        dec_rep(n as nat)
    } else {
        "-"@ + dec_rep((-n) as nat)
    }
}

/// The text of an exact rational: numerator, a slash, denominator.
pub open spec fn ratio_text(num: int, den: int) -> Seq<char> {
    int_text(num) + "/"@ + dec_rep(den as nat)
}

/// The earned-value summary line of the directed-graph text.
pub open spec fn spec_stats_line(m: Map<Seq<u32>, TaskView>) -> Seq<char> {
    let pv = m[root_key()].planned_value as int;
    let ac = m[root_key()].actual_cost as int;
    let done = done_leaf_count(m) as int;
    let leaves = leaf_count(m) as int;
    let evn = pv * done;
    "earned value: "@ + ratio_text(evn, leaves) + ", spi: "@ + (if pv == 0 {
        ratio_text(0, 1)
    } else {
        ratio_text(done, leaves)
    }) + ", sv: "@ + ratio_text(evn - pv * leaves, leaves) + ", cpi: "@ + (if ac == 0 {
        ratio_text(0, 1)
    } else {
        ratio_text(evn, ac * leaves)
    }) + ", cv: "@ + ratio_text(evn - ac * leaves, leaves)
}

/// One edge line per parent-child pair below `k`, depth first, siblings in
/// index order, starting at child `j`.
pub open spec fn dot_edges_from(m: Map<Seq<u32>, TaskView>, k: Seq<u32>, j: int) -> Seq<char>
    decreases subtree_count(m, k), m[k].num_child + 1 - j,
    when wf(m) && m.dom().contains(k) && 1 <= j
{
    if j > m[k].num_child {
        Seq::<char>::empty()
    } else {
        let c = k.push(j as u32);
        proof {
            lemma_subtree_child_lt(m, k, j as u32);
        }
        "\t\""@ + task_line(m[k]) + "\" -> \""@ + task_line(m[c]) + "\"\n"@ + dot_edges(m, c)
            + dot_edges_from(m, k, j + 1)
    }
}

/// Every edge line of the subtree rooted at `k`.
pub open spec fn dot_edges(m: Map<Seq<u32>, TaskView>, k: Seq<u32>) -> Seq<char>
    decreases subtree_count(m, k), m[k].num_child + 2,
    when wf(m) && m.dom().contains(k)
{
    dot_edges_from(m, k, 1)
}

/// The whole directed-graph text: header, summary label, edges, brace.
pub open spec fn spec_dot_text(m: Map<Seq<u32>, TaskView>) -> Seq<char> {
    "digraph G {\nlabel=\""@ + spec_stats_line(m) + "\"\n"@ + dot_edges(m, root_key()) + "}"@
}

/// One line per task below `k`, depth first from child `j`: the connector is
/// the last-child style exactly when no later sibling follows, and deeper
/// levels inherit a continuation mark for every ancestor that has one.
pub open spec fn tree_lines_from(
    m: Map<Seq<u32>, TaskView>,
    k: Seq<u32>,
    prefix: Seq<char>,
    j: int,
) -> Seq<char>
    decreases subtree_count(m, k), m[k].num_child + 1 - j,
    when wf(m) && m.dom().contains(k) && 1 <= j
{
    if j > m[k].num_child {
        Seq::<char>::empty()
    } else {
        let c = k.push(j as u32);
        proof {
            lemma_subtree_child_lt(m, k, j as u32);
        }
        if j < m[k].num_child {
            prefix + "\u{251c}\u{2500} "@ + task_line(m[c]) + "\n"@ + tree_lines(
                m,
                c,
                prefix + "\u{2502}  "@,
            ) + tree_lines_from(m, k, prefix, j + 1)
        } else {
            prefix + "\u{2514}\u{2500} "@ + task_line(m[c]) + "\n"@ + tree_lines(
                m,
                c,
                prefix + "   "@,
            ) + tree_lines_from(m, k, prefix, j + 1)
        }
    }
}

/// Every line of the subtree rooted at `k`.
pub open spec fn tree_lines(m: Map<Seq<u32>, TaskView>, k: Seq<u32>, prefix: Seq<char>) -> Seq<
    char,
>
    decreases subtree_count(m, k), m[k].num_child + 2,
    when wf(m) && m.dom().contains(k)
{
    tree_lines_from(m, k, prefix, 1)
}

/// The whole tree text: the root's line, then one line per descendant.
pub open spec fn spec_tree_text(m: Map<Seq<u32>, TaskView>) -> Seq<char> {
    task_line(m[root_key()]) + "\n"@ + tree_lines(m, root_key(), Seq::<char>::empty())
}

/// Appends the text of an exact rational.
fn push_ratio(s: &mut String, r: Ratio)
    requires
        -0x1000000000000000000000000i128 < r.num < 0x1000000000000000000000000i128,
        1 <= r.den,
    ensures
        final(s)@ == old(s)@ + ratio_text(r.num as int, r.den as int),
{
    if r.num < 0 {
        proof {
            reveal_strlit("-");
        }
        s.append("-");
        push_u128(s, (-r.num) as u128);
    } else {
        push_u128(s, r.num as u128);
    }
    proof {
        reveal_strlit("/");
    }
    s.append("/");
    push_u128(s, r.den as u128);
    proof {
        assert(s@ =~= old(s)@ + ratio_text(r.num as int, r.den as int));
    }
}

/// The stateless engine; all state lives in the store it is handed.
#[derive(Clone, Copy, Debug, PartialEq, Eq, Structural)]
pub struct WSB {}

impl WSB {
    /// Creates the root task, named by the caller, in an empty store.
    pub fn new(name: &str, store: &mut TaskStore) -> (r: WSB)
        requires
            old(store).inv(),
            old(store)@ == Map::<Seq<u32>, TaskView>::empty(),
        ensures
            valid_store(final(store)),
            final(store)@ == spec_construct(name@),
    {
        let root_id = TaskId::get_root_id();
        let root_task = Task::new(root_id, name);
        store.insert_new(root_task);
        proof {
            lemma_construct_wf(name@);
            assert(store@ =~= spec_construct(name@));
        }
        WSB {  }
    }

    /// The name of the root task; the root always exists in a valid store.
    pub fn name<'a>(&'a self, store: &'a TaskStore) -> (r: &'a str)
        requires
            valid_store(store),
        ensures
            r@ == store@[root_key()].name,
    {
        let root_id = TaskId::get_root_id();
        match store.get(&root_id) {
            Some(t) => t.name(),
            None => {
                proof {
                    assert(false);
                }
                vstd::pervasive::unreached()
            },
        }
    }

    /// The project's total planned value: the root task's aggregate.
    pub fn planned_value(&self, store: &TaskStore) -> (r: u64)
        requires
            valid_store(store),
        ensures
            r == store@[root_key()].planned_value,
    {
        let root_id = TaskId::get_root_id();
        match store.get(&root_id) {
            Some(t) => t.get_planned_value(),
            None => {
                proof {
                    assert(false);
                }
                vstd::pervasive::unreached()
            },
        }
    }

    /// The project's total actual cost: the root task's aggregate.
    pub fn actual_cost(&self, store: &TaskStore) -> (r: u64)
        requires
            valid_store(store),
        ensures
            r == store@[root_key()].actual_cost,
    {
        let root_id = TaskId::get_root_id();
        match store.get(&root_id) {
            Some(t) => t.get_actual_cost(),
            None => {
                proof {
                    assert(false);
                }
                vstd::pervasive::unreached()
            },
        }
    }

    /// The task stored under `task_id`, or which identifier was not found.
    pub fn get_task<'a>(&'a self, task_id: &TaskId, store: &'a TaskStore) -> (r: Result<
        &'a Task,
        Error,
    >)
        requires
            store.inv(),
        ensures
            match r {
                Ok(t) => store@.dom().contains(task_id@) && t@ == store@[task_id@],
                Err(e) => !store@.dom().contains(task_id@) && e@ == ErrorView::TaskNotFound(
                    task_id@,
                ),
            },
    {
        match store.get(task_id) {
            Some(t) => Ok(t),
            None => Err(Error::TaskNotFound(task_id.clone())),
        }
    }

    /// A copy of the task stored under `task_id`, for callers that edit task
    /// data; aggregates can only be written back through the engine.
    pub fn get_task_mut(&self, task_id: &TaskId, store: &TaskStore) -> (r: Result<Task, Error>)
        requires
            store.inv(),
        ensures
            match r {
                Ok(t) => store@.dom().contains(task_id@) && t@ == store@[task_id@],
                Err(e) => !store@.dom().contains(task_id@) && e@ == ErrorView::TaskNotFound(
                    task_id@,
                ),
            },
    {
        match store.get(task_id) {
            Some(t) => Ok(t.clone()),
            None => Err(Error::TaskNotFound(task_id.clone())),
        }
    }

    /// The sibling one index after `task_id`; any failure — the root, an
    /// index at the machine limit, or an absent sibling — surfaces as
    /// `NoNextSibling`.
    pub fn next_sibling<'a>(&'a self, task_id: &TaskId, store: &'a TaskStore) -> (r: Result<
        &'a Task,
        Error,
    >)
        requires
            store.inv(),
        ensures
            match r {
                Ok(t) => task_id@.len() > 0 && task_id@.last() < u32::MAX && store@.dom().contains(
                    task_id@.drop_last().push((task_id@.last() + 1) as u32),
                ) && t@ == store@[task_id@.drop_last().push((task_id@.last() + 1) as u32)],
                Err(e) => e@ == ErrorView::NoNextSibling(task_id@) && (task_id@.len() == 0
                    || task_id@.last() == u32::MAX || !store@.dom().contains(
                    task_id@.drop_last().push((task_id@.last() + 1) as u32),
                )),
            },
    {
        let sib = match task_id.next_sibling() {
            Ok(s) => s,
            Err(_) => {
                return Err(Error::NoNextSibling(task_id.clone()));
            },
        };
        match store.get(&sib) {
            Some(t) => Ok(t),
            None => Err(Error::NoNextSibling(task_id.clone())),
        }
    }

    /// The sibling one index before `task_id`; any failure — the root, a
    /// first child, or an absent sibling — surfaces as `NoPrevSibling`.
    pub fn prev_sibling<'a>(&'a self, task_id: &TaskId, store: &'a TaskStore) -> (r: Result<
        &'a Task,
        Error,
    >)
        requires
            store.inv(),
        ensures
            match r {
                Ok(t) => task_id@.len() > 0 && task_id@.last() >= 2 && store@.dom().contains(
                    task_id@.drop_last().push((task_id@.last() - 1) as u32),
                ) && t@ == store@[task_id@.drop_last().push((task_id@.last() - 1) as u32)],
                Err(e) => e@ == ErrorView::NoPrevSibling(task_id@) && (task_id@.len() == 0
                    || task_id@.last() <= 1 || !store@.dom().contains(
                    task_id@.drop_last().push((task_id@.last() - 1) as u32),
                )),
            },
    {
        let sib = match task_id.prev_sibling() {
            Ok(s) => s,
            Err(_) => {
                return Err(Error::NoPrevSibling(task_id.clone()));
            },
        };
        match store.get(&sib) {
            Some(t) => Ok(t),
            None => Err(Error::NoPrevSibling(task_id.clone())),
        }
    }
}

/// Writes planned value `v` to the work package `task_id` and adds the
/// difference to every strict ancestor, from the root down.
fn write_pv(store: &mut TaskStore, task_id: &TaskId, v: u64, old_pv: u64)
    requires
        old(store).inv(),
        wf(old(store)@),
        old(store)@.dom().contains(task_id@),
        old(store)@[task_id@].num_child == 0,
        old_pv == old(store)@[task_id@].planned_value,
        old(store)@[root_key()].planned_value - old(store)@[task_id@].planned_value + v
            <= u64::MAX,
    ensures
        valid_store(final(store)),
        final(store)@ == spec_set_pv(old(store)@, task_id@, v),
{
    let ghost m0 = store@;
    let mut t = match store.get(task_id) {
        Some(t0) => t0.clone(),
        None => {
            proof {
                assert(false);
            }
            vstd::pervasive::unreached()
        },
    };
    t.set_planned_value_raw(v);
    store.replace(task_id, t);
    proof {
        assert(store@ =~= spec_set_pv_upto(m0, task_id@, v, 0));
    }
    let path = task_id.path();
    let pl = task_id.len();
    let mut d: usize = 0;
    while d < pl
        invariant
            store.inv(),
            m0 == old(store)@,
            wf(m0),
            m0.dom().contains(task_id@),
            m0[task_id@].num_child == 0,
            old_pv == m0[task_id@].planned_value,
            m0[root_key()].planned_value - m0[task_id@].planned_value + v <= u64::MAX,
            pl == task_id@.len(),
            d <= pl,
            path@.len() == pl + 1,
            forall|i: int| 0 <= i <= pl ==> (#[trigger] path@[i])@ == task_id@.take(i),
            store@ == spec_set_pv_upto(m0, task_id@, v, d as int),
        decreases pl - d,
    {
        let anc = &path[d];
        proof {
            lemma_prefix_in_dom(m0, task_id@, d as int);
            assert(store@.dom() =~= m0.dom());
            assert(anc@ != task_id@) by {
                assert(anc@.len() == d < task_id@.len());
            }
            assert(store@[anc@] == m0[anc@]);
            assert(is_id_prefix(anc@, task_id@));
            lemma_root_prefix(anc@);
            lemma_desc_le_anc(m0, root_key(), anc@);
            lemma_desc_le_anc(m0, anc@, task_id@);
        }
        let mut at = match store.get(anc) {
            Some(a) => a.clone(),
            None => {
                proof {
                    assert(false);
                }
                vstd::pervasive::unreached()
            },
        };
        let a_pv = at.get_planned_value();
        let nv = if v >= old_pv {
            a_pv + (v - old_pv)
        } else {
            a_pv - (old_pv - v)
        };
        at.set_planned_value_raw(nv);
        store.replace(anc, at);
        proof {
            let prev = spec_set_pv_upto(m0, task_id@, v, d as int);
            assert forall|k: Seq<u32>| #[trigger]
                store@.dom().contains(k) implies store@[k] == spec_set_pv_upto(
                m0,
                task_id@,
                v,
                d + 1,
            )[k] by {
                if k == anc@ {
                } else {
                    if crate::model::is_id_prefix(k, task_id@) && k != task_id@ && d <= k.len()
                        < d + 1 {
                        assert(k.len() == d);
                        assert(k =~= task_id@.take(d as int)) by {
                            assert(task_id@.take(k.len() as int) == k);
                        }
                        assert(false);
                    }
                }
            }
            assert(store@ =~= spec_set_pv_upto(m0, task_id@, v, d + 1));
        }
        d = d + 1;
    }
    proof {
        assert(store@ == spec_set_pv(m0, task_id@, v));
        lemma_set_pv_wf(m0, task_id@, v);
    }
}

/// Writes actual cost `v` to the work package `task_id` and adds the
/// difference to every strict ancestor, from the root down.
fn write_ac(store: &mut TaskStore, task_id: &TaskId, v: u64, old_ac: u64)
    requires
        old(store).inv(),
        wf(old(store)@),
        old(store)@.dom().contains(task_id@),
        old(store)@[task_id@].num_child == 0,
        old_ac == old(store)@[task_id@].actual_cost,
        old(store)@[root_key()].actual_cost - old(store)@[task_id@].actual_cost + v <= u64::MAX,
    ensures
        valid_store(final(store)),
        final(store)@ == spec_set_ac_vals(old(store)@, task_id@, v),
{
    let ghost m0 = store@;
    let mut t = match store.get(task_id) {
        Some(t0) => t0.clone(),
        None => {
            proof {
                assert(false);
            }
            vstd::pervasive::unreached()
        },
    };
    t.set_actual_cost_raw(v);
    store.replace(task_id, t);
    proof {
        assert(store@ =~= spec_set_ac_upto(m0, task_id@, v, 0));
    }
    let path = task_id.path();
    let pl = task_id.len();
    let mut d: usize = 0;
    while d < pl
        invariant
            store.inv(),
            m0 == old(store)@,
            wf(m0),
            m0.dom().contains(task_id@),
            m0[task_id@].num_child == 0,
            old_ac == m0[task_id@].actual_cost,
            m0[root_key()].actual_cost - m0[task_id@].actual_cost + v <= u64::MAX,
            pl == task_id@.len(),
            d <= pl,
            path@.len() == pl + 1,
            forall|i: int| 0 <= i <= pl ==> (#[trigger] path@[i])@ == task_id@.take(i),
            store@ == spec_set_ac_upto(m0, task_id@, v, d as int),
        decreases pl - d,
    {
        let anc = &path[d];
        proof {
            lemma_prefix_in_dom(m0, task_id@, d as int);
            assert(store@.dom() =~= m0.dom());
            assert(anc@ != task_id@) by {
                assert(anc@.len() == d < task_id@.len());
            }
            assert(store@[anc@] == m0[anc@]);
            assert(is_id_prefix(anc@, task_id@));
            lemma_root_prefix(anc@);
            lemma_desc_le_anc(m0, root_key(), anc@);
            lemma_desc_le_anc(m0, anc@, task_id@);
        }
        let mut at = match store.get(anc) {
            Some(a) => a.clone(),
            None => {
                proof {
                    assert(false);
                }
                vstd::pervasive::unreached()
            },
        };
        let a_ac = at.get_actual_cost();
        let nv = if v >= old_ac {
            a_ac + (v - old_ac)
        } else {
            a_ac - (old_ac - v)
        };
        at.set_actual_cost_raw(nv);
        store.replace(anc, at);
        proof {
            assert forall|k: Seq<u32>| #[trigger]
                store@.dom().contains(k) implies store@[k] == spec_set_ac_upto(
                m0,
                task_id@,
                v,
                d + 1,
            )[k] by {
                if k == anc@ {
                } else {
                    if crate::model::is_id_prefix(k, task_id@) && k != task_id@ && d <= k.len()
                        < d + 1 {
                        assert(k.len() == d);
                        assert(k =~= task_id@.take(d as int)) by {
                            assert(task_id@.take(k.len() as int) == k);
                        }
                        assert(false);
                    }
                }
            }
            assert(store@ =~= spec_set_ac_upto(m0, task_id@, v, d + 1));
        }
        d = d + 1;
    }
    proof {
        assert(store@ == spec_set_ac_vals(m0, task_id@, v));
        lemma_set_ac_vals_wf(m0, task_id@, v);
    }
}

/// Re-evaluates completion bottom-up along the path from `task_id` to the
/// root: a task becomes done exactly when all its direct children currently
/// are.
fn sweep(store: &mut TaskStore, task_id: &TaskId)
    requires
        old(store).inv(),
        wf(old(store)@),
        old(store)@.dom().contains(task_id@),
    ensures
        valid_store(final(store)),
        final(store)@ == sweep_range(old(store)@, task_id@, 0),
{
    let ghost m0 = store@;
    let path = task_id.path();
    let mut s: usize = task_id.len();
    proof {
        lemma_sweep_range_wf(m0, task_id@, s as int + 1);
        assert(store@ == sweep_range(m0, task_id@, s as int + 1));
    }
    loop
        invariant_except_break
            store.inv(),
            wf(store@),
            m0 == old(store)@,
            wf(m0),
            m0.dom().contains(task_id@),
            s <= task_id@.len(),
            path@.len() == task_id@.len() + 1,
            forall|i: int| 0 <= i <= task_id@.len() ==> (#[trigger] path@[i])@ == task_id@.take(i),
            store@ == sweep_range(m0, task_id@, s as int + 1),
        ensures
            store.inv(),
            wf(store@),
            store@ == sweep_range(m0, task_id@, 0),
        decreases s,
    {
        let ghost m_in = store@;
        let anc = &path[s];
        proof {
            lemma_prefix_in_dom(m0, task_id@, s as int);
            lemma_sweep_range_wf(m0, task_id@, s as int + 1);
            assert(store@.dom() == m0.dom());
            assert(store@.dom().contains(anc@));
        }
        let t = match store.get(anc) {
            Some(t) => t,
            None => {
                proof {
                    assert(false);
                }
                vstd::pervasive::unreached()
            },
        };
        let kids = t.child_ids();
        let ghost nc = store@[anc@].num_child;
        let mut all_done = true;
        let mut i: usize = 0;
        while i < kids.len()
            invariant
                store.inv(),
                wf(store@),
                m_in == store@,
                store@.dom().contains(anc@),
                nc == store@[anc@].num_child,
                kids@.len() == nc,
                forall|q: int| 0 <= q < nc ==> (#[trigger] kids@[q])@ == anc@.push((q + 1) as u32),
                i <= kids@.len(),
                all_done <==> (forall|q: int|
                    0 <= q < i ==> store@[#[trigger] anc@.push((q + 1) as u32)].status is Done),
            decreases kids@.len() - i,
        {
            let c = match store.get(&kids[i]) {
                Some(c) => c,
                None => {
                    proof {
                        assert(1 <= i + 1 <= nc);
                        assert(store@.dom().contains(anc@.push((i + 1) as u32)));
                    }
                    vstd::pervasive::unreached()
                },
            };
            if !(c.status() == TaskStatus::Done) {
                all_done = false;
            }
            i = i + 1;
        }
        proof {
            assert(all_done <==> crate::model::all_children_done(store@, anc@)) by {
                if all_done {
                    assert forall|j: u32|
                        1 <= j <= store@[anc@].num_child implies store@[#[trigger] anc@.push(
                        j,
                    )].status is Done by {
                        assert(store@[anc@.push(((j - 1) + 1) as u32)].status is Done);
                    }
                } else {
                    let q = choose|q: int|
                        0 <= q < nc && !(store@[#[trigger] anc@.push((q + 1) as u32)].status
                            is Done);
                    assert(1 <= (q + 1) as u32 <= store@[anc@].num_child);
                }
            }
        }
        if all_done {
            let mut t2 = match store.get(anc) {
                Some(x) => x.clone(),
                None => {
                    proof {
                        assert(false);
                    }
                    vstd::pervasive::unreached()
                },
            };
            t2.set_status_raw(TaskStatus::Done);
            store.replace(anc, t2);
            proof {
                lemma_sweep_once_wf(m_in, anc@);
                assert(store@ =~= sweep_once(m_in, anc@));
            }
        } else {
            proof {
                assert(store@ == sweep_once(m_in, anc@));
            }
        }
        proof {
            assert(anc@ == task_id@.take(s as int));
            assert(store@ == sweep_range(m0, task_id@, s as int));
        }
        if s == 0 {
            break ;
        }
        s = s - 1;
    }
}

impl WSB {
    /// Sets the planned value of the work package `task_id` to `v` and adds
    /// the difference to every ancestor, keeping all aggregates consistent.
    /// Fails on the root, on an absent task, and on a summary task.
    pub fn set_planned_value(
        &mut self,
        task_id: &TaskId,
        v: u64,
        store: &mut TaskStore,
    ) -> (r: Result<(), Error>)
        requires
            valid_store(old(store)),
            (old(store)@.dom().contains(task_id@) && task_id@.len() > 0
                && old(store)@[task_id@].num_child == 0) ==> old(
                store,
            )@[root_key()].planned_value - old(store)@[task_id@].planned_value + v <= u64::MAX,
        ensures
            valid_store(final(store)),
            match r {
                Ok(()) => task_id@.len() > 0 && old(store)@.dom().contains(task_id@) && old(
                    store,
                )@[task_id@].num_child == 0 && final(store)@ == spec_set_pv(
                    old(store)@,
                    task_id@,
                    v,
                ),
                Err(e) => final(store)@ == old(store)@ && ((task_id@.len() == 0 && e@
                    == ErrorView::NoParent(task_id@)) || (task_id@.len() > 0 && !old(
                    store,
                )@.dom().contains(task_id@) && e@ == ErrorView::TaskNotFound(task_id@)) || (
                task_id@.len() > 0 && old(store)@.dom().contains(task_id@) && old(
                    store,
                )@[task_id@].num_child > 0 && e@ == ErrorView::TrunkCannotChangeValue(task_id@))),
            },
    {
        if task_id.len() == 0 {
            return Err(Error::NoParent(task_id.clone()));
        }
        let old_pv = match store.get(task_id) {
            Some(t) => {
                if t.is_trunk() {
                    return Err(Error::TrunkCannotChangeValue(task_id.clone()));
                }
                t.get_planned_value()
            },
            None => {
                return Err(Error::TaskNotFound(task_id.clone()));
            },
        };
        write_pv(store, task_id, v, old_pv);
        Ok(())
    }

    /// Sets the actual cost of the work package `task_id` to `v`, adds the
    /// difference to every ancestor, and then re-evaluates completion
    /// bottom-up along the path. Fails on the root, on an absent task, and
    /// on a summary task.
    pub fn set_actual_cost(
        &mut self,
        task_id: &TaskId,
        v: u64,
        store: &mut TaskStore,
    ) -> (r: Result<(), Error>)
        requires
            valid_store(old(store)),
            (old(store)@.dom().contains(task_id@) && task_id@.len() > 0
                && old(store)@[task_id@].num_child == 0) ==> old(store)@[root_key()].actual_cost
                - old(store)@[task_id@].actual_cost + v <= u64::MAX,
        ensures
            valid_store(final(store)),
            match r {
                Ok(()) => task_id@.len() > 0 && old(store)@.dom().contains(task_id@) && old(
                    store,
                )@[task_id@].num_child == 0 && final(store)@ == spec_set_ac(
                    old(store)@,
                    task_id@,
                    v,
                ),
                Err(e) => final(store)@ == old(store)@ && ((task_id@.len() == 0 && e@
                    == ErrorView::NoParent(task_id@)) || (task_id@.len() > 0 && !old(
                    store,
                )@.dom().contains(task_id@) && e@ == ErrorView::TaskNotFound(task_id@)) || (
                task_id@.len() > 0 && old(store)@.dom().contains(task_id@) && old(
                    store,
                )@[task_id@].num_child > 0 && e@ == ErrorView::TrunkCannotChangeCost(task_id@))),
            },
    {
        if task_id.len() == 0 {
            return Err(Error::NoParent(task_id.clone()));
        }
        let old_ac = match store.get(task_id) {
            Some(t) => {
                if t.is_trunk() {
                    return Err(Error::TrunkCannotChangeCost(task_id.clone()));
                }
                t.get_actual_cost()
            },
            None => {
                return Err(Error::TaskNotFound(task_id.clone()));
            },
        };
        write_ac(store, task_id, v, old_ac);
        proof {
            lemma_set_ac_values(old(store)@, task_id@, v);
        }
        sweep(store, task_id);
        Ok(())
    }

    /// Adds a fresh work package named `name` under `parent_task_id`: the
    /// parent's child count grows by one, the new task takes the next free
    /// index, and the whole ancestor chain returns to in progress. A parent
    /// that was a work package first has its authored aggregates returned to
    /// zero, since a summary task's aggregates are derived.
    pub fn add_task(
        &mut self,
        parent_task_id: TaskId,
        name: &str,
        store: &mut TaskStore,
    ) -> (r: Result<Task, Error>)
        requires
            valid_store(old(store)),
            old(store)@.dom().contains(parent_task_id@) ==> old(
                store,
            )@[parent_task_id@].num_child < u32::MAX,
        ensures
            valid_store(final(store)),
            match r {
                Ok(t) => old(store)@.dom().contains(parent_task_id@) && t@ == fresh_task(
                    added_key(old(store)@, parent_task_id@),
                    name@,
                ) && final(store)@ == spec_add_full(old(store)@, parent_task_id@, name@),
                Err(e) => !old(store)@.dom().contains(parent_task_id@) && e@
                    == ErrorView::TaskNotFound(parent_task_id@) && final(store)@ == old(store)@,
            },
    {
        let ghost m0 = store@;
        let (nc, pv0, ac0) = match store.get(&parent_task_id) {
            Some(p) => (p.get_num_child(), p.get_planned_value(), p.get_actual_cost()),
            None => {
                return Err(Error::TaskNotFound(parent_task_id.clone()));
            },
        };
        if nc == 0 {
            proof {
                lemma_root_prefix(parent_task_id@);
                lemma_desc_le_anc(m0, root_key(), parent_task_id@);
            }
            write_ac(store, &parent_task_id, 0, ac0);
            proof {
                lemma_set_ac_values(m0, parent_task_id@, 0);
                lemma_prefix_refl(parent_task_id@);
                lemma_root_prefix(parent_task_id@);
                lemma_desc_le_anc(store@, root_key(), parent_task_id@);
            }
            write_pv(store, &parent_task_id, 0, pv0);
            proof {
                lemma_set_pv_values(spec_set_ac_vals(m0, parent_task_id@, 0), parent_task_id@, 0);
                lemma_prefix_refl(parent_task_id@);
            }
        }
        let ghost m2 = store@;
        proof {
            assert(m2.dom().contains(parent_task_id@));
            assert(m2[parent_task_id@].num_child == nc);
            assert(nc == 0 ==> m2[parent_task_id@].planned_value == 0
                && m2[parent_task_id@].actual_cost == 0);
        }
        let mut pt = match store.get(&parent_task_id) {
            Some(p) => p.clone(),
            None => {
                proof {
                    assert(false);
                }
                vstd::pervasive::unreached()
            },
        };
        pt.set_num_child_raw(nc + 1);
        store.replace(&parent_task_id, pt);
        let nid = match parent_task_id.new_child_id(nc + 1) {
            Ok(c) => c,
            Err(_) => {
                proof {
                    assert(false);
                }
                vstd::pervasive::unreached()
            },
        };
        proof {
            assert(nid@ == added_key(m2, parent_task_id@));
            assert(!m2.dom().contains(nid@)) by {
                if m2.dom().contains(nid@) {
                    assert(1 <= (nc + 1) as u32 <= m2[parent_task_id@].num_child);
                }
            }
        }
        let path = nid.path();
        let nid_len = nid.len();
        let t_new = Task::new(nid, name);
        let t_ret = t_new.clone();
        store.insert_new(t_new);
        proof {
            assert(store@ =~= spec_add_upto(m2, parent_task_id@, name@, 0));
        }
        let mut d: usize = 0;
        while d < nid_len
            invariant
                store.inv(),
                wf(m2),
                m2.dom().contains(parent_task_id@),
                m2[parent_task_id@].num_child == nc,
                nc < u32::MAX,
                nid_len == parent_task_id@.len() + 1,
                nid_len == added_key(m2, parent_task_id@).len(),
                path@.len() == nid_len + 1,
                forall|i: int|
                    0 <= i <= added_key(m2, parent_task_id@).len() ==> (#[trigger] path@[i])@
                        == added_key(m2, parent_task_id@).take(i),
                d <= nid_len,
                store@ == spec_add_upto(m2, parent_task_id@, name@, d as int),
            decreases nid_len - d,
        {
            let ghost nidk = added_key(m2, parent_task_id@);
            let anc = &path[d];
            proof {
                assert(anc@ == nidk.take(d as int));
                assert(anc@ =~= parent_task_id@.take(d as int)) by {
                    assert forall|i: int|
                        0 <= i < d implies nidk.take(d as int)[i] == parent_task_id@.take(
                        d as int,
                    )[i] by {
                        assert(nidk[i] == parent_task_id@[i]);
                    }
                }
                lemma_prefix_in_dom(m2, parent_task_id@, d as int);
                assert(m2.dom().contains(anc@));
                assert(anc@ != nidk) by {
                    assert(anc@.len() == d < nidk.len());
                }
                assert(is_id_prefix(anc@, nidk)) by {
                    assert(nidk.take(anc@.len() as int) == anc@);
                }
                assert(store@.dom().contains(anc@));
            }
            let mut at = match store.get(anc) {
                Some(a) => a.clone(),
                None => {
                    proof {
                        assert(false);
                    }
                    vstd::pervasive::unreached()
                },
            };
            at.set_status_raw(TaskStatus::InProgress);
            store.replace(anc, at);
            proof {
                assert forall|k: Seq<u32>| #[trigger]
                    store@.dom().contains(k) implies store@[k] == spec_add_upto(
                    m2,
                    parent_task_id@,
                    name@,
                    d + 1,
                )[k] by {
                    if k != anc@ && k != nidk {
                        if is_id_prefix(k, nidk) && d <= k.len() < d + 1 {
                            assert(k.len() == d);
                            assert(nidk.take(k.len() as int) == k);
                            assert(false);
                        }
                    }
                }
                assert(store@ =~= spec_add_upto(m2, parent_task_id@, name@, d + 1));
            }
            d = d + 1;
        }
        proof {
            let nidk = added_key(m2, parent_task_id@);
            assert forall|k: Seq<u32>| #[trigger]
                store@.dom().contains(k) implies store@[k] == spec_add(
                m2,
                parent_task_id@,
                name@,
            )[k] by {
                if k != nidk && is_id_prefix(k, nidk) && k.len() >= nid_len {
                    lemma_prefix_full(k, nidk);
                }
            }
            assert(store@ =~= spec_add(m2, parent_task_id@, name@));
            lemma_add_wf(m2, parent_task_id@, name@);
            assert(store@ == spec_add_full(m0, parent_task_id@, name@)) by {
                if nc == 0 {
                    assert(m2 == spec_set_pv(
                        spec_set_ac_vals(m0, parent_task_id@, 0),
                        parent_task_id@,
                        0,
                    ));
                } else {
                    assert(m2 == m0);
                }
            }
            assert(t_ret@ == fresh_task(added_key(m0, parent_task_id@), name@)) by {
                assert(added_key(m0, parent_task_id@) == added_key(m2, parent_task_id@)) by {
                    assert(m0[parent_task_id@].num_child == nc);
                }
            }
        }
        Ok(t_ret)
    }

    /// Adds every pair of the array in order: each entry names the parent by
    /// its identifier text and gives the new task's name; the first failure
    /// stops the walk and the adds so far remain.
    pub fn expand<const N: usize>(
        &mut self,
        arr: &[(&str, &str); N],
        store: &mut TaskStore,
    ) -> (r: Result<(), Error>)
        requires
            valid_store(old(store)),
            expand_within_limit(old(store)@, pair_views(arr@)),
        ensures
            valid_store(final(store)),
            final(store)@ == spec_expand(old(store)@, pair_views(arr@)).0,
            r is Ok ==> spec_expand(old(store)@, pair_views(arr@)).1 is None,
            r is Err ==> spec_expand(old(store)@, pair_views(arr@)).1 == Some(r->Err_0@),
    {
        let ghost m0 = store@;
        let ghost pv = pair_views(arr@);
        let mut i: usize = 0;
        proof {
            assert(pv.skip(0) =~= pv);
        }
        while i < N
            invariant
                store.inv(),
                wf(store@),
                m0 == old(store)@,
                pv == pair_views(arr@),
                pv.len() == N,
                i <= N,
                spec_expand(m0, pv) == spec_expand(store@, pv.skip(i as int)),
                expand_within_limit(store@, pv.skip(i as int)),
            decreases N - i,
        {
            let (pid_str, nm) = arr[i];
            proof {
                assert(pv.skip(i as int)[0] == pv[i as int]);
                assert(pv[i as int] == (arr@[i as int].0@, arr@[i as int].1@));
                assert(pv.skip(i as int).len() > 0);
            }
            let pid = match TaskId::parse(pid_str) {
                Ok(p) => p,
                Err(e) => {
                    proof {
                        assert(spec_expand(store@, pv.skip(i as int)) == (
                            store@,
                            Some(ErrorView::BadTaskIdString(pid_str@)),
                        ));
                    }
                    return Err(e);
                },
            };
            let ghost pre = store@;
            match self.add_task(pid, nm, store) {
                Ok(_) => (),
                Err(e) => {
                    proof {
                        assert(spec_expand(pre, pv.skip(i as int)) == (
                            pre,
                            Some(ErrorView::TaskNotFound(pid@)),
                        ));
                    }
                    return Err(e);
                },
            };
            proof {
                assert(pv.skip(i as int).skip(1) =~= pv.skip(i + 1));
                assert(spec_expand(pre, pv.skip(i as int)) == spec_expand(
                    store@,
                    pv.skip(i + 1),
                ));
            }
            i = i + 1;
        }
        proof {
            assert(pv.skip(N as int).len() == 0);
            assert(spec_expand(store@, pv.skip(N as int)) == (store@, None::<ErrorView>));
        }
        Ok(())
    }

    /// Removes the work package `task_id`. Its aggregates are first zeroed
    /// through the setters so every ancestor stays consistent, the parent's
    /// child count drops by one, the entry is erased, and every later
    /// sibling's subtree shifts one index down, so the parent's children
    /// occupy a contiguous index range again. Fails on a summary task, on an
    /// absent task, and on the root.
    pub fn remove(&mut self, task_id: &TaskId, store: &mut TaskStore) -> (r: Result<Task, Error>)
        requires
            valid_store(old(store)),
        ensures
            valid_store(final(store)),
            match r {
                Ok(t) => task_id@.len() > 0 && old(store)@.dom().contains(task_id@) && old(
                    store,
                )@[task_id@].num_child == 0 && final(store)@ == spec_remove(old(store)@, task_id@)
                    && t@ == (TaskView {
                    planned_value: 0,
                    actual_cost: 0,
                    status: TaskStatus::Done,
                    ..old(store)@[task_id@]
                }),
                Err(e) => final(store)@ == old(store)@ && ((!old(store)@.dom().contains(task_id@)
                    && e@ == ErrorView::TaskNotFound(task_id@)) || (old(store)@.dom().contains(
                    task_id@,
                ) && old(store)@[task_id@].num_child > 0 && e@ == ErrorView::TrunkCannotBeRemoved(
                    task_id@,
                )) || (old(store)@.dom().contains(task_id@) && old(store)@[task_id@].num_child
                    == 0 && task_id@.len() == 0 && e@ == ErrorView::NoParent(task_id@))),
            },
    {
        let ghost m0 = store@;
        let (old_pv, old_ac) = match store.get(task_id) {
            Some(t) => {
                if t.is_trunk() {
                    return Err(Error::TrunkCannotBeRemoved(task_id.clone()));
                }
                (t.get_planned_value(), t.get_actual_cost())
            },
            None => {
                return Err(Error::TaskNotFound(task_id.clone()));
            },
        };
        if task_id.len() == 0 {
            return Err(Error::NoParent(task_id.clone()));
        }
        proof {
            lemma_root_prefix(task_id@);
            lemma_desc_le_anc(m0, root_key(), task_id@);
        }
        write_ac(store, task_id, 0, old_ac);
        let ghost m_ac = store@;
        proof {
            lemma_set_ac_values(m0, task_id@, 0);
            lemma_prefix_refl(task_id@);
        }
        sweep(store, task_id);
        let ghost m_sw = store@;
        proof {
            lemma_sweep_range_wf(m_ac, task_id@, 0);
            lemma_sweep_marks_leaf(m_ac, task_id@, 0);
            assert(m_sw == spec_set_ac(m0, task_id@, 0));
            assert(m_sw[task_id@].planned_value == m0[task_id@].planned_value);
            assert(m_sw[task_id@].num_child == 0);
            lemma_root_prefix(task_id@);
            lemma_desc_le_anc(m_sw, root_key(), task_id@);
        }
        write_pv(store, task_id, 0, old_pv);
        let ghost m2 = store@;
        proof {
            lemma_set_pv_values(m_sw, task_id@, 0);
            lemma_prefix_refl(task_id@);
            assert(m2[task_id@].planned_value == 0);
            assert(m2[task_id@].actual_cost == 0) by {
                assert(m_sw[task_id@].actual_cost == 0);
            }
            assert(m2[task_id@].num_child == 0);
            assert(m2.dom().contains(task_id@));
        }
        let parent_id = match task_id.parent() {
            Ok(p) => p,
            Err(_) => {
                proof {
                    assert(false);
                }
                vstd::pervasive::unreached()
            },
        };
        proof {
            assert(parent_id@ =~= task_id@.take(task_id@.len() - 1));
            lemma_prefix_in_dom(m2, task_id@, task_id@.len() - 1);
            assert(m2.dom().contains(parent_id@));
            assert(parent_id@.push(task_id@.last()) =~= task_id@);
            assert(m2.dom().contains(parent_id@.push(task_id@.last())));
            assert(1 <= task_id@.last() <= m2[parent_id@].num_child);
        }
        let mut pt = match store.get(&parent_id) {
            Some(p) => p.clone(),
            None => {
                proof {
                    assert(false);
                }
                vstd::pervasive::unreached()
            },
        };
        let n = pt.get_num_child();
        pt.set_num_child_raw(n - 1);
        store.replace(&parent_id, pt);
        proof {
            assert(store@ =~= m2.insert(
                parent_id@,
                TaskView { num_child: (m2[parent_id@].num_child - 1) as u32, ..m2[parent_id@] },
            ));
        }
        let removed = match store.remove(task_id) {
            Some(t) => t,
            None => {
                proof {
                    assert(task_id@ != parent_id@) by {
                        assert(task_id@.len() == parent_id@.len() + 1);
                    }
                    assert(false);
                }
                vstd::pervasive::unreached()
            },
        };
        let ghost m4 = store@;
        proof {
            assert(m4 =~= removed_map(m2, task_id@)) by {
                assert(parent_id@ =~= task_id@.drop_last());
            }
            assert forall|q: Seq<u32>|
                #[trigger] m4.dom().contains(q) implies !is_id_prefix(task_id@, q) by {
                if is_id_prefix(task_id@, q) {
                    assert(m2.dom().contains(q)) by {
                        assert(q != parent_id@) by {
                            assert(q.len() >= task_id@.len());
                        }
                    }
                    lemma_no_descendants(m2, task_id@, q);
                }
            }
            assert(removed@ == (TaskView {
                planned_value: 0,
                actual_cost: 0,
                status: TaskStatus::Done,
                ..m0[task_id@]
            })) by {
                assert(removed@ == m2[task_id@]) by {
                    assert(task_id@ != parent_id@) by {
                        assert(task_id@.len() == parent_id@.len() + 1);
                    }
                }
                assert(m_ac[task_id@] == (TaskView { actual_cost: 0, ..m0[task_id@] }));
                assert(m_sw[task_id@] == (TaskView { status: TaskStatus::Done, ..m_ac[task_id@] }));
                assert(m2[task_id@] == (TaskView { planned_value: 0, ..m_sw[task_id@] }));
            }
        }
        let k0 = match task_id.child_idx() {
            Ok(i) => i,
            Err(_) => {
                proof {
                    assert(false);
                }
                vstd::pervasive::unreached()
            },
        };
        let layer = task_id.len() - 1;
        let ghost nn = m2[parent_id@].num_child as int;
        proof {
            assert(spec_shift_upto(m4, parent_id@, k0, k0 as int) =~= m4);
            assert(1 <= k0 <= nn);
        }
        let mut j: u64 = k0 as u64 + 1;
        while j <= n as u64
            invariant
                valid_store(old(store)),
                store.inv(),
                wf(m2),
                m2 == spec_set_pv(spec_set_ac(old(store)@, task_id@, 0), task_id@, 0),
                m2.dom().contains(task_id@),
                m2[task_id@].num_child == 0,
                m2[task_id@].planned_value == 0,
                m2[task_id@].actual_cost == 0,
                task_id@.len() > 0,
                parent_id@ == task_id@.drop_last(),
                k0 == task_id@.last(),
                layer == parent_id@.len(),
                n == m2[parent_id@].num_child,
                nn == n as int,
                1 <= k0 <= nn,
                m4 == removed_map(m2, task_id@),
                forall|q: Seq<u32>| #[trigger] m4.dom().contains(q) ==> !is_id_prefix(task_id@, q),
                k0 as u64 + 1 <= j <= nn + 1,
                store@ == spec_shift_upto(m4, parent_id@, k0, j - 1),
            decreases nn + 1 - j,
        {
            let cid = match parent_id.new_child_id(j as u32) {
                Ok(c) => c,
                Err(_) => {
                    proof {
                        assert(false);
                    }
                    vstd::pervasive::unreached()
                },
            };
            proof {
                let d = parent_id@.len() as int;
                assert(cid@ == parent_id@.push(j as u32));
                assert(cid@[d] == j as u32);
                assert(is_id_prefix(parent_id@, cid@)) by {
                    assert(cid@.take(d) =~= parent_id@);
                }
                // the shifted-so-far store still holds this sibling subtree's
                // root, under its old index
                assert(store@.dom().contains(cid@)) by {
                    assert(!(k0 <= cid@[d] && cid@[d] < j - 1));
                    assert(!(cid@[d] == j - 1 && k0 < j - 1));
                    assert(m4.dom().contains(cid@)) by {
                        assert(m2.dom().contains(parent_id@.push(j as u32))) by {
                            assert(1 <= j as u32 <= m2[parent_id@].num_child);
                        }
                        assert(cid@ != task_id@) by {
                            assert(cid@[d] == j as u32 > k0);
                            assert(task_id@[d] == k0) by {
                                assert(parent_id@.push(k0) =~= task_id@);
                            }
                        }
                        assert(cid@ != parent_id@) by {
                            assert(cid@.len() == parent_id@.len() + 1);
                        }
                    }
                }
                // the landing region one index down is vacant
                assert(dec_at(cid@, d) =~= parent_id@.push((j - 1) as u32));
                assert forall|q: Seq<u32>|
                    store@.dom().contains(q) implies !is_id_prefix(
                    dec_at(cid@, d),
                    q,
                ) by {
                    if is_id_prefix(dec_at(cid@, d), q) {
                        let p2 = dec_at(cid@, d);
                        assert(is_id_prefix(parent_id@, q)) by {
                            assert(is_id_prefix(parent_id@, p2)) by {
                                assert(p2.take(parent_id@.len() as int) =~= parent_id@);
                            }
                            lemma_prefix_trans(parent_id@, p2, q);
                        }
                        assert(q[d] == j - 1) by {
                            assert(q.take(p2.len() as int)[d] == q[d]);
                        }
                        assert(q.len() > d);
                        if k0 < j - 1 {
                            assert(!store@.dom().contains(q));
                        } else {
                            assert(j - 1 == k0);
                            assert(!(k0 <= q[d] && q[d] < j - 1));
                            assert(m4.dom().contains(q));
                            assert(is_id_prefix(task_id@, q)) by {
                                assert(q.take(d + 1) =~= task_id@) by {
                                    assert(parent_id@.push(k0) =~= task_id@);
                                    assert forall|i: int|
                                        0 <= i < d + 1 implies q.take(d + 1)[i] == task_id@[i] by {
                                        if i < d {
                                            assert(q.take(p2.len() as int)[i] == q[i]);
                                            assert(p2[i] == parent_id@[i]);
                                        }
                                    }
                                }
                            }
                        }
                    }
                }
            }
            store.subtract_subtree(&cid, layer);
            proof {
                lemma_shift_step(m4, parent_id@, k0, j as u32);
                assert(store@ == spec_shift_upto(m4, parent_id@, k0, j as int));
            }
            j = j + 1;
        }
        proof {
            assert(store@ == spec_shift_upto(m4, parent_id@, k0, nn));
            lemma_remove_wf(m2, task_id@);
            assert(wf(store@)) by {
                assert(parent_id@ == task_id@.drop_last());
                assert(k0 == task_id@.last());
            }
            assert(store@ == spec_remove(m0, task_id@)) by {
                assert(m2[parent_id@].num_child == m0[parent_id@].num_child) by {
                    lemma_sweep_range_wf(m_ac, task_id@, 0);
                    assert(m_ac.dom().contains(parent_id@));
                    assert(m_sw.dom().contains(parent_id@));
                }
            }
        }
        Ok(removed)
    }

    /// The share of work packages that are done, as an exact rational in
    /// zero to one; its denominator is never zero.
    pub fn completion_percentage(&self, store: &TaskStore) -> (r: Ratio)
        requires
            valid_store(store),
        ensures
            r.num == done_leaf_count(store@),
            r.den == leaf_count(store@),
            0 <= r.num <= r.den,
            1 <= r.den,
    {
        proof {
            store.lemma_finite();
            lemma_leaf_counts(store@);
            vstd::set_lib::lemma_len_subset(leaf_keys(store@), store@.dom());
            vstd::set_lib::lemma_len_subset(done_leaf_keys(store@), store@.dom());
        }
        let (leaves, done) = store.count_leaves();
        Ratio { num: done as i128, den: leaves as i128 }
    }

    /// The earned value: the root's planned value weighted by completion,
    /// as the exact rational planned value times done work packages over all
    /// work packages.
    pub fn earned_value(&self, store: &TaskStore) -> (r: Ratio)
        requires
            valid_store(store),
            leaf_count(store@) <= u32::MAX,
        ensures
            r.num == store@[root_key()].planned_value * done_leaf_count(store@),
            r.den == leaf_count(store@),
            0 <= r.num,
            1 <= r.den,
    {
        let cp = self.completion_percentage(store);
        let pv = self.planned_value(store);
        proof {
            lemma_mul_bound(pv as int, cp.num as int);
        }
        Ratio { num: pv as i128 * cp.num, den: cp.den }
    }

    /// The schedule performance index: earned value over planned value. With
    /// no planned value the quotient is undefined and the index is zero; a
    /// nonzero planned value cancels, leaving done over all work packages.
    pub fn spi(&self, store: &TaskStore) -> (r: Ratio)
        requires
            valid_store(store),
            leaf_count(store@) <= u32::MAX,
        ensures
            store@[root_key()].planned_value == 0 ==> r == (Ratio { num: 0, den: 1 }),
            store@[root_key()].planned_value > 0 ==> r.num == done_leaf_count(store@) && r.den
                == leaf_count(store@),
            0 <= r.num,
            1 <= r.den,
    {
        let pv = self.planned_value(store);
        if pv == 0 {
            Ratio { num: 0, den: 1 }
        } else {
            self.completion_percentage(store)
        }
    }

    /// The schedule variance: earned value minus planned value, exact.
    pub fn sv(&self, store: &TaskStore) -> (r: Ratio)
        requires
            valid_store(store),
            leaf_count(store@) <= u32::MAX,
        ensures
            r.num == store@[root_key()].planned_value * done_leaf_count(store@) - store@[
                root_key()
            ].planned_value * leaf_count(store@),
            r.den == leaf_count(store@),
            1 <= r.den,
    {
        let ev = self.earned_value(store);
        let pv = self.planned_value(store);
        proof {
            lemma_leaf_counts(store@);
            assert(done_leaf_count(store@) <= leaf_count(store@));
            lemma_mul_bound(pv as int, ev.den as int);
        }
        Ratio { num: ev.num - pv as i128 * ev.den, den: ev.den }
    }

    /// The cost performance index: earned value over actual cost. With no
    /// actual cost the quotient is undefined and the index is zero.
    pub fn cpi(&self, store: &TaskStore) -> (r: Ratio)
        requires
            valid_store(store),
            leaf_count(store@) <= u32::MAX,
        ensures
            store@[root_key()].actual_cost == 0 ==> r == (Ratio { num: 0, den: 1 }),
            store@[root_key()].actual_cost > 0 ==> r.num == store@[
                root_key()
            ].planned_value * done_leaf_count(store@) && r.den == store@[
                root_key()
            ].actual_cost * leaf_count(store@),
            0 <= r.num,
            1 <= r.den,
    {
        let ac = self.actual_cost(store);
        if ac == 0 {
            Ratio { num: 0, den: 1 }
        } else {
            let ev = self.earned_value(store);
            proof {
                lemma_mul_bound(ac as int, ev.den as int);
                assert(ac as int * ev.den >= 1) by (nonlinear_arith)
                    requires
                        ac >= 1,
                        ev.den >= 1,
                ;
            }
            Ratio { num: ev.num, den: ac as i128 * ev.den }
        }
    }

    /// The cost variance: earned value minus actual cost, exact.
    pub fn cv(&self, store: &TaskStore) -> (r: Ratio)
        requires
            valid_store(store),
            leaf_count(store@) <= u32::MAX,
        ensures
            r.num == store@[root_key()].planned_value * done_leaf_count(store@) - store@[
                root_key()
            ].actual_cost * leaf_count(store@),
            r.den == leaf_count(store@),
            1 <= r.den,
    {
        let ev = self.earned_value(store);
        let ac = self.actual_cost(store);
        proof {
            lemma_leaf_counts(store@);
            lemma_mul_bound(ac as int, ev.den as int);
        }
        Ratio { num: ev.num - ac as i128 * ev.den, den: ev.den }
    }

    /// Records the named member on the work package `task_id`, on the target
    /// task alone; a member already recorded there stays recorded once.
    /// Members are display data and never constrain any other operation.
    pub fn assign_task_to_member(
        &mut self,
        task_id: &TaskId,
        name: &str,
        store: &mut TaskStore,
    ) -> (r: Result<(), Error>)
        requires
            valid_store(old(store)),
        ensures
            valid_store(final(store)),
            match r {
                Ok(()) => old(store)@.dom().contains(task_id@) && old(
                    store,
                )@[task_id@].num_child == 0 && final(store)@ == spec_assign_member(
                    old(store)@,
                    task_id@,
                    name@,
                ),
                Err(e) => final(store)@ == old(store)@ && ((!old(store)@.dom().contains(task_id@)
                    && e@ == ErrorView::TaskNotFound(task_id@)) || (old(store)@.dom().contains(
                    task_id@,
                ) && old(store)@[task_id@].num_child > 0 && e@ == ErrorView::TrunkCannotAddMember(
                    task_id@,
                ))),
            },
    {
        let ghost m0 = store@;
        let mut t2 = match store.get(task_id) {
            Some(t) => {
                if t.is_trunk() {
                    return Err(Error::TrunkCannotAddMember(task_id.clone()));
                }
                if t.has_member(name) {
                    return Ok(());
                }
                t.clone()
            },
            None => {
                return Err(Error::TaskNotFound(task_id.clone()));
            },
        };
        t2.push_member(name);
        store.replace(task_id, t2);
        proof {
            lemma_same_but_members_wf(
                m0,
                task_id@,
                TaskView { members: m0[task_id@].members.push(name@), ..m0[task_id@] },
            );
            assert(store@ == spec_assign_member(m0, task_id@, name@));
        }
        Ok(())
    }

    /// Drops the first record of the named member from the task `task_id`;
    /// the member must be recorded there. Any task may shed a member it
    /// still carries from its work-package days.
    pub fn remove_member_from_task(
        &mut self,
        task_id: &TaskId,
        name: &str,
        store: &mut TaskStore,
    ) -> (r: Result<(), Error>)
        requires
            valid_store(old(store)),
        ensures
            valid_store(final(store)),
            match r {
                Ok(()) => old(store)@.dom().contains(task_id@) && old(
                    store,
                )@[task_id@].members.contains(name@) && final(store)@ == spec_remove_member(
                    old(store)@,
                    task_id@,
                    name@,
                ),
                Err(e) => final(store)@ == old(store)@ && ((!old(store)@.dom().contains(task_id@)
                    && e@ == ErrorView::TaskNotFound(task_id@)) || (old(store)@.dom().contains(
                    task_id@,
                ) && !old(store)@[task_id@].members.contains(name@) && e@
                    == ErrorView::CannotRemoveMemberFromTask(task_id@, name@))),
            },
    {
        let ghost m0 = store@;
        let (idx, mut t2) = match store.get(task_id) {
            Some(t) => match t.member_index(name) {
                Some(i) => (i, t.clone()),
                None => {
                    return Err(
                        Error::CannotRemoveMemberFromTask(task_id.clone(), name.to_owned()),
                    );
                },
            },
            None => {
                return Err(Error::TaskNotFound(task_id.clone()));
            },
        };
        proof {
            lemma_member_index(m0[task_id@].members, name@, idx as int);
        }
        t2.remove_member_at(idx);
        store.replace(task_id, t2);
        proof {
            lemma_same_but_members_wf(
                m0,
                task_id@,
                TaskView {
                    members: m0[task_id@].members.remove(
                        member_index_of(m0[task_id@].members, name@),
                    ),
                    ..m0[task_id@]
                },
            );
            assert(store@ == spec_remove_member(m0, task_id@, name@));
        }
        Ok(())
    }

    /// Marks the work package `task_id` done, then re-evaluates completion
    /// bottom-up along its path; summary tasks become done through that
    /// re-evaluation alone.
    pub fn mark_done(&mut self, task_id: &TaskId, store: &mut TaskStore) -> (r: Result<
        (),
        Error,
    >)
        requires
            valid_store(old(store)),
        ensures
            valid_store(final(store)),
            match r {
                Ok(()) => old(store)@.dom().contains(task_id@) && old(
                    store,
                )@[task_id@].num_child == 0 && final(store)@ == sweep_range(
                    old(store)@,
                    task_id@,
                    0,
                ),
                Err(e) => final(store)@ == old(store)@ && ((!old(store)@.dom().contains(task_id@)
                    && e@ == ErrorView::TaskNotFound(task_id@)) || (old(store)@.dom().contains(
                    task_id@,
                ) && old(store)@[task_id@].num_child > 0 && e@ == ErrorView::TrunkCannotChangeStatus(
                    task_id@,
                ))),
            },
    {
        match store.get(task_id) {
            Some(t) => {
                if t.is_trunk() {
                    return Err(Error::TrunkCannotChangeStatus(task_id.clone()));
                }
            },
            None => {
                return Err(Error::TaskNotFound(task_id.clone()));
            },
        };
        sweep(store, task_id);
        Ok(())
    }

    /// The directed-graph text: a header, a label carrying the earned-value
    /// summary, one edge per parent-child pair in depth-first index order,
    /// and the closing brace.
    #[verifier::rlimit(50)]
    pub fn to_dot_str(&self, store: &TaskStore) -> (r: String)
        requires
            valid_store(store),
            leaf_count(store@) <= u32::MAX,
        ensures
            r@ == spec_dot_text(store@),
    {
        let ev = self.earned_value(store);
        let spi = self.spi(store);
        let sv = self.sv(store);
        let cpi = self.cpi(store);
        let cv = self.cv(store);
        proof {
            lemma_leaf_counts(store@);
            lemma_mul_bound(store@[root_key()].planned_value as int, done_leaf_count(store@) as int);
            lemma_mul_bound(store@[root_key()].planned_value as int, leaf_count(store@) as int);
            lemma_mul_bound(store@[root_key()].actual_cost as int, leaf_count(store@) as int);
        }
        let mut s = String::new();
        proof {
            reveal_strlit("digraph G {\nlabel=\"");
            reveal_strlit("earned value: ");
            reveal_strlit(", spi: ");
            reveal_strlit(", sv: ");
            reveal_strlit(", cpi: ");
            reveal_strlit(", cv: ");
            reveal_strlit("\"\n");
            reveal_strlit("}");
        }
        s.append("digraph G {\nlabel=\"");
        s.append("earned value: ");
        push_ratio(&mut s, ev);
        s.append(", spi: ");
        push_ratio(&mut s, spi);
        s.append(", sv: ");
        push_ratio(&mut s, sv);
        s.append(", cpi: ");
        push_ratio(&mut s, cpi);
        s.append(", cv: ");
        push_ratio(&mut s, cv);
        s.append("\"\n");
        proof {
            assert(s@ =~= "digraph G {\nlabel=\""@ + spec_stats_line(store@) + "\"\n"@);
        }
        let root_id = TaskId::get_root_id();
        let edges = self.subtasks_to_dot_str(&root_id, store);
        s.append(edges.as_str());
        s.append("}");
        proof {
            assert(s@ =~= spec_dot_text(store@));
        }
        s
    }

    /// The edge lines of the subtree rooted at `root_id`, depth first.
    fn subtasks_to_dot_str(&self, root_id: &TaskId, store: &TaskStore) -> (r: String)
        requires
            valid_store(store),
            store@.dom().contains(root_id@),
        ensures
            r@ == dot_edges(store@, root_id@),
        decreases subtree_count(store@, root_id@),
    {
        let mut s = String::new();
        let (root_line, nc) = match store.get(root_id) {
            Some(t) => (t.to_text(), t.get_num_child()),
            None => {
                proof {
                    assert(false);
                }
                vstd::pervasive::unreached()
            },
        };
        let mut j: u64 = 1;
        proof {
            assert(dot_edges(store@, root_id@) == dot_edges_from(store@, root_id@, 1));
        }
        while j <= nc as u64
            invariant
                valid_store(store),
                store@.dom().contains(root_id@),
                nc == store@[root_id@].num_child,
                root_line@ == task_line(store@[root_id@]),
                1 <= j <= nc as u64 + 1,
                dot_edges(store@, root_id@) == s@ + dot_edges_from(store@, root_id@, j as int),
            decreases nc as u64 + 1 - j,
        {
            let cid = match root_id.new_child_id(j as u32) {
                Ok(c) => c,
                Err(_) => {
                    proof {
                        assert(false);
                    }
                    vstd::pervasive::unreached()
                },
            };
            proof {
                assert(store@.dom().contains(cid@));
            }
            let child_line = match store.get(&cid) {
                Some(c) => c.to_text(),
                None => {
                    proof {
                        assert(false);
                    }
                    vstd::pervasive::unreached()
                },
            };
            proof {
                reveal_strlit("\t\"");
                reveal_strlit("\" -> \"");
                reveal_strlit("\"\n");
                lemma_subtree_child_lt(store@, root_id@, j as u32);
            }
            let ghost s_before = s@;
            s.append("\t\"");
            s.append(root_line.as_str());
            s.append("\" -> \"");
            s.append(child_line.as_str());
            s.append("\"\n");
            let sub = self.subtasks_to_dot_str(&cid, store);
            s.append(sub.as_str());
            proof {
                assert(s@ =~= s_before + ("\t\""@ + task_line(store@[root_id@]) + "\" -> \""@
                    + task_line(store@[cid@]) + "\"\n"@ + dot_edges(store@, cid@)));
                assert(dot_edges_from(store@, root_id@, j as int) == "\t\""@ + task_line(
                    store@[root_id@],
                ) + "\" -> \""@ + task_line(store@[cid@]) + "\"\n"@ + dot_edges(store@, cid@)
                    + dot_edges_from(store@, root_id@, j as int + 1));
                assert(dot_edges(store@, root_id@) =~= s@ + dot_edges_from(
                    store@,
                    root_id@,
                    j as int + 1,
                ));
            }
            j = j + 1;
        }
        proof {
            assert(dot_edges_from(store@, root_id@, j as int) =~= Seq::<char>::empty());
            assert(s@ =~= s@ + Seq::<char>::empty());
        }
        s
    }

    /// The tree text: the root's display line, then one line per task with
    /// branch connectors and continuation marks.
    pub fn to_tree_str(&self, store: &TaskStore) -> (r: String)
        requires
            valid_store(store),
        ensures
            r@ == spec_tree_text(store@),
    {
        let root_id = TaskId::get_root_id();
        let mut s = match store.get(&root_id) {
            Some(t) => t.to_text(),
            None => {
                proof {
                    assert(false);
                }
                vstd::pervasive::unreached()
            },
        };
        proof {
            reveal_strlit("\n");
            reveal_strlit("");
        }
        s.append("\n");
        let empty_prefix = String::new();
        let lines = self.subtasks_to_tree_str(&root_id, empty_prefix.as_str(), store);
        s.append(lines.as_str());
        proof {
            assert(s@ =~= spec_tree_text(store@));
        }
        s
    }

    /// The lines of the subtree rooted at `root_id`, each beginning with the
    /// accumulated continuation prefix.
    fn subtasks_to_tree_str(&self, root_id: &TaskId, prefix: &str, store: &TaskStore) -> (r:
        String)
        requires
            valid_store(store),
            store@.dom().contains(root_id@),
        ensures
            r@ == tree_lines(store@, root_id@, prefix@),
        decreases subtree_count(store@, root_id@),
    {
        let mut s = String::new();
        let nc = match store.get(root_id) {
            Some(t) => t.get_num_child(),
            None => {
                proof {
                    assert(false);
                }
                vstd::pervasive::unreached()
            },
        };
        let mut j: u64 = 1;
        proof {
            assert(tree_lines(store@, root_id@, prefix@) == tree_lines_from(
                store@,
                root_id@,
                prefix@,
                1,
            ));
        }
        while j <= nc as u64
            invariant
                valid_store(store),
                store@.dom().contains(root_id@),
                nc == store@[root_id@].num_child,
                1 <= j <= nc as u64 + 1,
                tree_lines(store@, root_id@, prefix@) == s@ + tree_lines_from(
                    store@,
                    root_id@,
                    prefix@,
                    j as int,
                ),
            decreases nc as u64 + 1 - j,
        {
            let cid = match root_id.new_child_id(j as u32) {
                Ok(c) => c,
                Err(_) => {
                    proof {
                        assert(false);
                    }
                    vstd::pervasive::unreached()
                },
            };
            proof {
                assert(store@.dom().contains(cid@));
            }
            let child_line = match store.get(&cid) {
                Some(c) => c.to_text(),
                None => {
                    proof {
                        assert(false);
                    }
                    vstd::pervasive::unreached()
                },
            };
            proof {
                reveal_strlit("\u{251c}\u{2500} ");
                reveal_strlit("\u{2514}\u{2500} ");
                reveal_strlit("\u{2502}  ");
                reveal_strlit("   ");
                reveal_strlit("\n");
                lemma_subtree_child_lt(store@, root_id@, j as u32);
            }
            let ghost s_before = s@;
            s.append(prefix);
            let has_next = j < nc as u64;
            if has_next {
                s.append("\u{251c}\u{2500} ");
            } else {
                s.append("\u{2514}\u{2500} ");
            }
            s.append(child_line.as_str());
            s.append("\n");
            let mut deeper = String::new();
            deeper.append(prefix);
            if has_next {
                deeper.append("\u{2502}  ");
            } else {
                deeper.append("   ");
            }
            let sub = self.subtasks_to_tree_str(&cid, deeper.as_str(), store);
            s.append(sub.as_str());
            proof {
                if j < nc as u64 {
                    assert(s@ =~= s_before + (prefix@ + "\u{251c}\u{2500} "@ + task_line(
                        store@[cid@],
                    ) + "\n"@ + tree_lines(store@, cid@, prefix@ + "\u{2502}  "@)));
                    assert(tree_lines_from(store@, root_id@, prefix@, j as int) == prefix@
                        + "\u{251c}\u{2500} "@ + task_line(store@[cid@]) + "\n"@ + tree_lines(
                        store@,
                        cid@,
                        prefix@ + "\u{2502}  "@,
                    ) + tree_lines_from(store@, root_id@, prefix@, j as int + 1));
                } else {
                    assert(s@ =~= s_before + (prefix@ + "\u{2514}\u{2500} "@ + task_line(
                        store@[cid@],
                    ) + "\n"@ + tree_lines(store@, cid@, prefix@ + "   "@)));
                    assert(tree_lines_from(store@, root_id@, prefix@, j as int) == prefix@
                        + "\u{2514}\u{2500} "@ + task_line(store@[cid@]) + "\n"@ + tree_lines(
                        store@,
                        cid@,
                        prefix@ + "   "@,
                    ) + tree_lines_from(store@, root_id@, prefix@, j as int + 1));
                }
                assert(tree_lines(store@, root_id@, prefix@) =~= s@ + tree_lines_from(
                    store@,
                    root_id@,
                    prefix@,
                    j as int + 1,
                ));
            }
            j = j + 1;
        }
        proof {
            assert(tree_lines_from(store@, root_id@, prefix@, j as int) =~= Seq::<char>::empty());
            assert(s@ =~= s@ + Seq::<char>::empty());
        }
        s
    }

    /// All work packages, as copies; every one appears exactly once, in
    /// unspecified order.
    pub fn tasks(&self, store: &TaskStore) -> (r: Vec<Task>)
        requires
            store.inv(),
        ensures
            forall|a: int|
                0 <= a < r@.len() ==> store@.dom().contains((#[trigger] r@[a])@.id) && r@[a]@
                    == store@[r@[a]@.id] && r@[a]@.num_child == 0,
            forall|a: int, b: int| 0 <= a < b < r@.len() ==> r@[a]@.id != r@[b]@.id,
            forall|k: Seq<u32>|
                #[trigger] store@.dom().contains(k) && store@[k].num_child == 0 ==> exists|a: int|
                    0 <= a < r@.len() && (#[trigger] r@[a])@.id == k,
    {
        filter_tasks(StatusFilter::Any, store)
    }

    /// The work packages not yet done.
    pub fn todo_tasks(&self, store: &TaskStore) -> (r: Vec<Task>)
        requires
            store.inv(),
        ensures
            forall|a: int|
                0 <= a < r@.len() ==> store@.dom().contains((#[trigger] r@[a])@.id) && r@[a]@
                    == store@[r@[a]@.id] && r@[a]@.num_child == 0 && !(r@[a]@.status is Done),
            forall|a: int, b: int| 0 <= a < b < r@.len() ==> r@[a]@.id != r@[b]@.id,
            forall|k: Seq<u32>|
                #[trigger] store@.dom().contains(k) && store@[k].num_child == 0 && !(store@[k].status
                    is Done) ==> exists|a: int| 0 <= a < r@.len() && (#[trigger] r@[a])@.id == k,
    {
        filter_tasks(StatusFilter::Todo, store)
    }

    /// The work packages in progress.
    pub fn in_progress_tasks(&self, store: &TaskStore) -> (r: Vec<Task>)
        requires
            store.inv(),
        ensures
            forall|a: int|
                0 <= a < r@.len() ==> store@.dom().contains((#[trigger] r@[a])@.id) && r@[a]@
                    == store@[r@[a]@.id] && r@[a]@.num_child == 0 && r@[a]@.status is InProgress,
            forall|a: int, b: int| 0 <= a < b < r@.len() ==> r@[a]@.id != r@[b]@.id,
            forall|k: Seq<u32>|
                #[trigger] store@.dom().contains(k) && store@[k].num_child == 0 && store@[k].status
                    is InProgress ==> exists|a: int|
                    0 <= a < r@.len() && (#[trigger] r@[a])@.id == k,
    {
        filter_tasks(StatusFilter::InProgress, store)
    }

    /// The work packages already done.
    pub fn done_tasks(&self, store: &TaskStore) -> (r: Vec<Task>)
        requires
            store.inv(),
        ensures
            forall|a: int|
                0 <= a < r@.len() ==> store@.dom().contains((#[trigger] r@[a])@.id) && r@[a]@
                    == store@[r@[a]@.id] && r@[a]@.num_child == 0 && r@[a]@.status is Done,
            forall|a: int, b: int| 0 <= a < b < r@.len() ==> r@[a]@.id != r@[b]@.id,
            forall|k: Seq<u32>|
                #[trigger] store@.dom().contains(k) && store@[k].num_child == 0 && store@[k].status
                    is Done ==> exists|a: int| 0 <= a < r@.len() && (#[trigger] r@[a])@.id == k,
    {
        filter_tasks(StatusFilter::Done, store)
    }
}

/// A product of a value and a count stays far below the rational type's
/// range.
proof fn lemma_mul_bound(a: int, b: int)
    requires
        0 <= a <= u64::MAX,
        0 <= b <= u32::MAX,
    ensures
        0 <= a * b <= (u64::MAX as int) * (u32::MAX as int),
    {
    assert(0 <= a * b <= (u64::MAX as int) * (u32::MAX as int)) by (nonlinear_arith)
        requires
            0 <= a <= u64::MAX,
            0 <= b <= u32::MAX,
    ;
}

/// Copies the work packages a filter keeps, each exactly once.
#[verifier::rlimit(50)]
fn filter_tasks(f: StatusFilter, store: &TaskStore) -> (r: Vec<Task>)
    requires
        store.inv(),
    ensures
        forall|a: int|
            0 <= a < r@.len() ==> store@.dom().contains((#[trigger] r@[a])@.id) && r@[a]@
                == store@[r@[a]@.id] && keeps(f, r@[a]@),
        forall|a: int, b: int| 0 <= a < b < r@.len() ==> r@[a]@.id != r@[b]@.id,
        forall|k: Seq<u32>|
            #[trigger] store@.dom().contains(k) && keeps(f, store@[k]) ==> exists|a: int|
                0 <= a < r@.len() && (#[trigger] r@[a])@.id == k,
{
    let n = store.len();
    let mut r: Vec<Task> = Vec::new();
    let mut i: usize = 0;
    while i < n
        invariant
            store.inv(),
            n == store.n_entries(),
            i <= n,
            forall|a: int|
                0 <= a < r@.len() ==> store@.dom().contains((#[trigger] r@[a])@.id) && r@[a]@
                    == store@[r@[a]@.id] && keeps(f, r@[a]@),
            forall|a: int|
                0 <= a < r@.len() ==> exists|j: int|
                    0 <= j < i && (#[trigger] r@[a])@.id == store.entry_at(j).id,
            forall|a: int, b: int| 0 <= a < b < r@.len() ==> r@[a]@.id != r@[b]@.id,
            forall|j: int|
                0 <= j < i && keeps(f, #[trigger] store.entry_at(j)) ==> exists|a: int|
                    0 <= a < r@.len() && (#[trigger] r@[a])@.id == store.entry_at(j).id,
        decreases n - i,
    {
        let t = store.at(i);
        let matched = match f {
            StatusFilter::Any => t.is_leaf(),
            StatusFilter::Todo => t.is_leaf() && !(t.status() == TaskStatus::Done),
            StatusFilter::InProgress => t.is_leaf() && t.status() == TaskStatus::InProgress,
            StatusFilter::Done => t.is_leaf() && t.status() == TaskStatus::Done,
        };
        if matched {
            let ghost r_old = r@;
            let c = t.clone();
            r.push(c);
            proof {
                store.lemma_entry(i as int);
                assert forall|a: int, b: int|
                    0 <= a < b < r@.len() implies r@[a]@.id != r@[b]@.id by {
                    if b == r@.len() - 1 {
                        let j = choose|j: int|
                            0 <= j < i && (#[trigger] r_old[a])@.id == store.entry_at(j).id;
                        store.lemma_entries_distinct(j, i as int);
                    }
                }
                assert forall|j: int|
                    0 <= j < i + 1 && keeps(f, #[trigger] store.entry_at(j)) implies exists|a: int|
                    0 <= a < r@.len() && (#[trigger] r@[a])@.id == store.entry_at(j).id by {
                    if j == i {
                        assert(r@[r@.len() - 1]@.id == store.entry_at(i as int).id);
                    } else {
                        let a = choose|a: int|
                            0 <= a < r_old.len() && (#[trigger] r_old[a])@.id == store.entry_at(
                                j,
                            ).id;
                        assert(r@[a] == r_old[a]);
                        assert(r@[a]@.id == store.entry_at(j).id);
                    }
                }
            }
        }
        i = i + 1;
    }
    proof {
        assert forall|k: Seq<u32>|
            #[trigger] store@.dom().contains(k) && keeps(f, store@[k]) implies exists|a: int|
            0 <= a < r@.len() && (#[trigger] r@[a])@.id == k by {
            store.lemma_dom_entry(k);
            let j = choose|j: int|
                0 <= j < store.n_entries() && (#[trigger] store.entry_at(j)).id == k;
            assert(keeps(f, store.entry_at(j)));
        }
    }
    r
}

} // verus!
