//! A work breakdown structure that owns its store.
//!
//! This is the convenience surface: identifiers arrive as text, failures
//! collapse to `None`, and the engine enforces every invariant on the owned
//! store.

use vstd::prelude::*;

use crate::model::{
    added_key, leaf_count, root_key, spec_add_full, spec_remove, spec_set_ac, spec_set_pv,
    spec_subtract, wf,
};
use crate::store::TaskStore;
use crate::subsystem::{
    expand_within_limit, pair_views, spec_dot_text, spec_expand, valid_store, WSB as Engine,
};
use crate::task::{fresh_task, Task, TaskStatus, TaskView};
use crate::task_id::{parse_id, TaskId};

verus! {

/// A project tree: the root task plus every work package added below it.
#[derive(Debug)]
pub struct WSB {
    tree: TaskStore,
}

impl View for WSB {
    type V = Map<Seq<u32>, TaskView>;

    closed spec fn view(&self) -> Map<Seq<u32>, TaskView> {
        self.tree@
    }
}

impl WSB {
    /// Does the owned store satisfy the tree invariants?
    pub closed spec fn wf(&self) -> bool {
        valid_store(&self.tree)
    }

    /// A new structure holding only the root task, named by the caller.
    pub fn new(name: &str) -> (r: Self)
        ensures
            r.wf(),
            r@ == crate::model::spec_construct(name@),
    {
        let mut tree = TaskStore::new();
        Engine::new(name, &mut tree);
        WSB { tree }
    }

    /// The project's total planned value: the root task's aggregate.
    pub fn get_planned_value(&self) -> (r: u64)
        requires
            self.wf(),
        ensures
            r == self@[root_key()].planned_value,
    {
        let engine = Engine {  };
        engine.planned_value(&self.tree)
    }

    /// The project's total actual cost: the root task's aggregate.
    pub fn get_actual_cost(&self) -> (r: u64)
        requires
            self.wf(),
        ensures
            r == self@[root_key()].actual_cost,
    {
        let engine = Engine {  };
        engine.actual_cost(&self.tree)
    }

    /// The task named by the identifier text, if the text parses and the
    /// task exists.
    pub fn get_task(&self, id: &str) -> (r: Option<&Task>)
        requires
            self.wf(),
        ensures
            match r {
                Some(t) => parse_id(id@) is Some && self@.dom().contains(parse_id(id@)->Some_0)
                    && t@ == self@[parse_id(id@)->Some_0],
                None => parse_id(id@) is None || (parse_id(id@) is Some && !self@.dom().contains(
                    parse_id(id@)->Some_0,
                )),
            },
    {
        let task_id = match TaskId::parse(id) {
            Ok(t) => t,
            Err(_) => {
                return None;
            },
        };
        self.tree.get(&task_id)
    }

    /// A copy of the task named by the identifier text; aggregates can only
    /// be written back through the engine.
    pub fn get_task_mut(&mut self, id: &str) -> (r: Option<Task>)
        requires
            old(self).wf(),
        ensures
            final(self).wf(),
            final(self)@ == old(self)@,
            match r {
                Some(t) => parse_id(id@) is Some && old(self)@.dom().contains(
                    parse_id(id@)->Some_0,
                ) && t@ == old(self)@[parse_id(id@)->Some_0],
                None => parse_id(id@) is None || (parse_id(id@) is Some && !old(
                    self,
                )@.dom().contains(parse_id(id@)->Some_0)),
            },
    {
        let task_id = match TaskId::parse(id) {
            Ok(t) => t,
            Err(_) => {
                return None;
            },
        };
        match self.tree.get(&task_id) {
            Some(t) => Some(t.clone()),
            None => None,
        }
    }

    /// Adds a fresh work package under the parent named by text; returns the
    /// new task, or nothing if the text is malformed or the parent absent.
    pub fn add_task(&mut self, parent_id: &str, name: &str) -> (r: Option<Task>)
        requires
            old(self).wf(),
            (parse_id(parent_id@) is Some && old(self)@.dom().contains(
                parse_id(parent_id@)->Some_0,
            )) ==> old(self)@[parse_id(parent_id@)->Some_0].num_child < u32::MAX,
        ensures
            final(self).wf(),
            match r {
                Some(t) => parse_id(parent_id@) is Some && old(self)@.dom().contains(
                    parse_id(parent_id@)->Some_0,
                ) && t@ == fresh_task(
                    added_key(old(self)@, parse_id(parent_id@)->Some_0),
                    name@,
                ) && final(self)@ == spec_add_full(
                    old(self)@,
                    parse_id(parent_id@)->Some_0,
                    name@,
                ),
                None => final(self)@ == old(self)@ && (parse_id(parent_id@) is None || !old(
                    self,
                )@.dom().contains(parse_id(parent_id@)->Some_0)),
            },
    {
        let task_id = match TaskId::parse(parent_id) {
            Ok(t) => t,
            Err(_) => {
                return None;
            },
        };
        let mut engine = Engine {  };
        match engine.add_task(task_id, name, &mut self.tree) {
            Ok(t) => Some(t),
            Err(_) => None,
        }
    }

    /// Adds every pair of the array in order — parent text, then name — and
    /// stops at the first failure, keeping the adds made so far.
    pub fn expand<const N: usize>(&mut self, arr: &[(&str, &str); N]) -> (r: Option<()>)
        requires
            old(self).wf(),
            expand_within_limit(old(self)@, pair_views(arr@)),
        ensures
            final(self).wf(),
            final(self)@ == spec_expand(old(self)@, pair_views(arr@)).0,
            r is Some <==> spec_expand(old(self)@, pair_views(arr@)).1 is None,
    {
        let mut engine = Engine {  };
        match engine.expand(arr, &mut self.tree) {
            Ok(()) => Some(()),
            Err(_) => None,
        }
    }

    /// Lowers the index at `layer_idx` for the task at `child_id` and its
    /// whole subtree. This is one step of the removal algorithm; on its own
    /// it can leave the tree invariants broken, so the landing region one
    /// index down must be vacant, and only the whole removal restores a
    /// well-formed store.
    pub fn subtract_id(&mut self, child_id: &TaskId, layer_idx: usize)
        requires
            old(self).wf(),
            layer_idx < child_id@.len(),
            child_id@[layer_idx as int] >= 1,
            old(self)@.dom().contains(child_id@),
            forall|q: Seq<u32>|
                old(self)@.dom().contains(q) ==> !crate::model::is_id_prefix(
                    crate::model::dec_at(child_id@, layer_idx as int),
                    q,
                ),
        ensures
            final(self)@ == spec_subtract(old(self)@, child_id@, layer_idx as int),
    {
        self.tree.subtract_subtree(child_id, layer_idx);
    }

    /// Removes the work package named by text: aggregates return to zero,
    /// the entry disappears, and later siblings close the index gap.
    pub fn remove(&mut self, id: &str) -> (r: Option<Task>)
        requires
            old(self).wf(),
        ensures
            final(self).wf(),
            match r {
                Some(t) => parse_id(id@) is Some && parse_id(id@)->Some_0.len() > 0 && old(
                    self,
                )@.dom().contains(parse_id(id@)->Some_0) && old(self)@[parse_id(
                    id@,
                )->Some_0].num_child == 0 && final(self)@ == spec_remove(
                    old(self)@,
                    parse_id(id@)->Some_0,
                ) && t@ == (TaskView {
                    planned_value: 0,
                    actual_cost: 0,
                    status: TaskStatus::Done,
                    ..old(self)@[parse_id(id@)->Some_0]
                }),
                None => final(self)@ == old(self)@ && (parse_id(id@) is None || !old(
                    self,
                )@.dom().contains(parse_id(id@)->Some_0) || old(self)@[parse_id(
                    id@,
                )->Some_0].num_child > 0 || parse_id(id@)->Some_0.len() == 0),
            },
    {
        let task_id = match TaskId::parse(id) {
            Ok(t) => t,
            Err(_) => {
                return None;
            },
        };
        let mut engine = Engine {  };
        match engine.remove(&task_id, &mut self.tree) {
            Ok(t) => Some(t),
            Err(_) => None,
        }
    }

    /// Sets the planned value of the work package named by text and keeps
    /// every ancestor's aggregate consistent.
    pub fn set_planned_value(&mut self, id: &str, v: u64) -> (r: Option<()>)
        requires
            old(self).wf(),
            (parse_id(id@) is Some && old(self)@.dom().contains(parse_id(id@)->Some_0)
                && parse_id(id@)->Some_0.len() > 0 && old(self)@[parse_id(
                id@,
            )->Some_0].num_child == 0) ==> old(self)@[root_key()].planned_value - old(self)@[
                parse_id(id@)->Some_0
            ].planned_value + v <= u64::MAX,
        ensures
            final(self).wf(),
            match r {
                Some(()) => parse_id(id@) is Some && parse_id(id@)->Some_0.len() > 0 && old(
                    self,
                )@.dom().contains(parse_id(id@)->Some_0) && old(self)@[parse_id(
                    id@,
                )->Some_0].num_child == 0 && final(self)@ == spec_set_pv(
                    old(self)@,
                    parse_id(id@)->Some_0,
                    v,
                ),
                None => final(self)@ == old(self)@ && (parse_id(id@) is None || parse_id(
                    id@,
                )->Some_0.len() == 0 || !old(self)@.dom().contains(parse_id(id@)->Some_0) || old(
                    self,
                )@[parse_id(id@)->Some_0].num_child > 0),
            },
    {
        let task_id = match TaskId::parse(id) {
            Ok(t) => t,
            Err(_) => {
                return None;
            },
        };
        let mut engine = Engine {  };
        match engine.set_planned_value(&task_id, v, &mut self.tree) {
            Ok(()) => Some(()),
            Err(_) => None,
        }
    }

    /// Sets the actual cost of the work package named by text, keeps every
    /// ancestor's aggregate consistent, and re-evaluates completion along
    /// the path.
    pub fn set_actual_cost(&mut self, id: &str, v: u64) -> (r: Option<()>)
        requires
            old(self).wf(),
            (parse_id(id@) is Some && old(self)@.dom().contains(parse_id(id@)->Some_0)
                && parse_id(id@)->Some_0.len() > 0 && old(self)@[parse_id(
                id@,
            )->Some_0].num_child == 0) ==> old(self)@[root_key()].actual_cost - old(self)@[
                parse_id(id@)->Some_0
            ].actual_cost + v <= u64::MAX,
        ensures
            final(self).wf(),
            match r {
                Some(()) => parse_id(id@) is Some && parse_id(id@)->Some_0.len() > 0 && old(
                    self,
                )@.dom().contains(parse_id(id@)->Some_0) && old(self)@[parse_id(
                    id@,
                )->Some_0].num_child == 0 && final(self)@ == spec_set_ac(
                    old(self)@,
                    parse_id(id@)->Some_0,
                    v,
                ),
                None => final(self)@ == old(self)@ && (parse_id(id@) is None || parse_id(
                    id@,
                )->Some_0.len() == 0 || !old(self)@.dom().contains(parse_id(id@)->Some_0) || old(
                    self,
                )@[parse_id(id@)->Some_0].num_child > 0),
            },
    {
        let task_id = match TaskId::parse(id) {
            Ok(t) => t,
            Err(_) => {
                return None;
            },
        };
        let mut engine = Engine {  };
        match engine.set_actual_cost(&task_id, v, &mut self.tree) {
            Ok(()) => Some(()),
            Err(_) => None,
        }
    }

    /// Marks the work package named by text done and re-evaluates completion
    /// along its path.
    pub fn mark_done(&mut self, id: &str) -> (r: Option<()>)
        requires
            old(self).wf(),
        ensures
            final(self).wf(),
            match r {
                Some(()) => parse_id(id@) is Some && old(self)@.dom().contains(
                    parse_id(id@)->Some_0,
                ) && old(self)@[parse_id(id@)->Some_0].num_child == 0 && final(self)@
                    == crate::model::sweep_range(old(self)@, parse_id(id@)->Some_0, 0),
                None => final(self)@ == old(self)@ && (parse_id(id@) is None || !old(
                    self,
                )@.dom().contains(parse_id(id@)->Some_0) || old(self)@[parse_id(
                    id@,
                )->Some_0].num_child > 0),
            },
    {
        let task_id = match TaskId::parse(id) {
            Ok(t) => t,
            Err(_) => {
                return None;
            },
        };
        let mut engine = Engine {  };
        match engine.mark_done(&task_id, &mut self.tree) {
            Ok(()) => Some(()),
            Err(_) => None,
        }
    }

    /// The directed-graph text of the whole structure.
    pub fn to_dot_str(&self) -> (r: String)
        requires
            self.wf(),
            leaf_count(self@) <= u32::MAX,
        ensures
            r@ == spec_dot_text(self@),
    {
        let engine = Engine {  };
        engine.to_dot_str(&self.tree)
    }

    /// The tree text of the whole structure.
    pub fn to_tree_str(&self) -> (r: String)
        requires
            self.wf(),
        ensures
            r@ == crate::subsystem::spec_tree_text(self@),
    {
        let engine = Engine {  };
        engine.to_tree_str(&self.tree)
    }

    /// Copies of all stored tasks, for persistence layers; each task appears
    /// exactly once, in unspecified order.
    pub fn all_tasks(&self) -> (r: Vec<Task>)
        requires
            self.wf(),
        ensures
            forall|a: int|
                0 <= a < r@.len() ==> self@.dom().contains((#[trigger] r@[a])@.id) && r@[a]@
                    == self@[r@[a]@.id],
            forall|a: int, b: int| 0 <= a < b < r@.len() ==> r@[a]@.id != r@[b]@.id,
            forall|k: Seq<u32>|
                #[trigger] self@.dom().contains(k) ==> exists|a: int|
                    0 <= a < r@.len() && (#[trigger] r@[a])@.id == k,
    {
        let n = self.tree.len();
        let mut r: Vec<Task> = Vec::new();
        let mut i: usize = 0;
        while i < n
            invariant
                self.wf(),
                n == self.tree.n_entries(),
                i <= n,
                forall|a: int|
                    0 <= a < r@.len() ==> self@.dom().contains((#[trigger] r@[a])@.id) && r@[a]@
                        == self@[r@[a]@.id],
                forall|a: int|
                    0 <= a < r@.len() ==> exists|j: int|
                        0 <= j < i && (#[trigger] r@[a])@.id == self.tree.entry_at(j).id,
                forall|a: int, b: int| 0 <= a < b < r@.len() ==> r@[a]@.id != r@[b]@.id,
                r@.len() == i,
                forall|j: int|
                    0 <= j < i ==> (#[trigger] self.tree.entry_at(j)).id == r@[j]@.id,
            decreases n - i,
        {
            let t = self.tree.at(i);
            let ghost r_old = r@;
            let c = t.clone();
            r.push(c);
            proof {
                self.tree.lemma_entry(i as int);
                assert forall|a: int, b: int|
                    0 <= a < b < r@.len() implies r@[a]@.id != r@[b]@.id by {
                    if b == r@.len() - 1 {
                        self.tree.lemma_entries_distinct(a, i as int);
                    }
                }
            }
            i = i + 1;
        }
        proof {
            assert forall|k: Seq<u32>| #[trigger] self@.dom().contains(k) implies exists|a: int|
                0 <= a < r@.len() && (#[trigger] r@[a])@.id == k by {
                self.tree.lemma_dom_entry(k);
                let j = choose|j: int|
                    0 <= j < self.tree.n_entries() && (#[trigger] self.tree.entry_at(j)).id == k;
                assert(r@[j]@.id == k);
            }
        }
        r
    }
}

} // verus!
