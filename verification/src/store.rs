//! The task store: the sole owner of all node data.
//!
//! The store is a mapping from identifier to task, held as a vector of tasks
//! with pairwise distinct identifiers. Its mathematical value is the map
//! from identifier sequence to task view.

use vstd::prelude::*;

use crate::model::{dec_at, inc_at, is_id_prefix, lemma_dec_inj, lemma_prefix_dec, lemma_prefix_inc, retag, spec_subtract};
use crate::task::{Task, TaskStatus, TaskView};
use crate::task_id::TaskId;

verus! {

/// An exclusively-owned mapping from identifier to task.
#[derive(Debug)]
pub struct TaskStore {
    tasks: Vec<Task>,
}

impl View for TaskStore {
    type V = Map<Seq<u32>, TaskView>;

    closed spec fn view(&self) -> Map<Seq<u32>, TaskView> {
        Map::new(
            |k: Seq<u32>|
                exists|i: int|
                    0 <= i < self.tasks@.len() && (#[trigger] self.tasks@[i])@.id == k,
            |k: Seq<u32>|
                self.tasks@[choose|i: int|
                    0 <= i < self.tasks@.len() && (#[trigger] self.tasks@[i])@.id == k]@,
        )
    }
}

impl TaskStore {
    /// All entries carry distinct identifiers.
    pub closed spec fn inv(&self) -> bool {
        forall|i: int, j: int|
            0 <= i < j < self.tasks@.len() ==> (#[trigger] self.tasks@[i])@.id != (
            #[trigger] self.tasks@[j])@.id
    }

    /// The number of entries.
    pub closed spec fn n_entries(&self) -> nat {
        self.tasks@.len()
    }

    /// The view of the entry at position `i`.
    pub closed spec fn entry_at(&self, i: int) -> TaskView {
        self.tasks@[i]@
    }

    /// Each entry is in the map, under its own identifier.
    pub proof fn lemma_entry(&self, i: int)
        requires
            self.inv(),
            0 <= i < self.n_entries(),
        ensures
            self@.dom().contains(self.entry_at(i).id),
            self@[self.entry_at(i).id] == self.entry_at(i),
    {
        let k = self.entry_at(i).id;
        assert(self@.dom().contains(k));
        let j = choose|j: int| 0 <= j < self.tasks@.len() && (#[trigger] self.tasks@[j])@.id == k;
        assert(j == i);
    }

    /// Each key of the map names some entry.
    pub proof fn lemma_dom_entry(&self, k: Seq<u32>)
        requires
            self.inv(),
            self@.dom().contains(k),
        ensures
            exists|i: int| 0 <= i < self.n_entries() && (#[trigger] self.entry_at(i)).id == k,
            self@[k] == self.entry_at(
                choose|i: int| 0 <= i < self.n_entries() && (#[trigger] self.entry_at(i)).id == k,
            ),
    {
        let j = choose|j: int| 0 <= j < self.tasks@.len() && (#[trigger] self.tasks@[j])@.id == k;
        assert(self.entry_at(j).id == k);
        let i = choose|i: int|
            0 <= i < self.n_entries() && (#[trigger] self.entry_at(i)).id == k;
        assert(i == j);
    }

    /// Two entries never share an identifier.
    pub proof fn lemma_entries_distinct(&self, i: int, j: int)
        requires
            self.inv(),
            0 <= i < self.n_entries(),
            0 <= j < self.n_entries(),
            i != j,
        ensures
            self.entry_at(i).id != self.entry_at(j).id,
    {
    }

    /// The map is finite, with at most one key per entry.
    pub proof fn lemma_finite(&self)
        requires
            self.inv(),
        ensures
            self@.dom().finite(),
            self@.dom().len() <= self.n_entries(),
    {
        broadcast use vstd::seq_lib::seq_to_set_is_finite;

        let ids = self.tasks@.map_values(|t: Task| t@.id);
        assert(self@.dom().subset_of(ids.to_set())) by {
            assert forall|k: Seq<u32>| self@.dom().contains(k) implies ids.to_set().contains(
                k,
            ) by {
                let i = choose|i: int|
                    0 <= i < self.tasks@.len() && (#[trigger] self.tasks@[i])@.id == k;
                assert(ids[i] == k);
                assert(ids.contains(k));
            }
        }
        ids.lemma_cardinality_of_set();
        vstd::set_lib::lemma_len_subset(self@.dom(), ids.to_set());
    }

    /// An empty store.
    pub fn new() -> (r: Self)
        ensures
            r.inv(),
            r@ == Map::<Seq<u32>, TaskView>::empty(),
            r.n_entries() == 0,
    {
        let r = TaskStore { tasks: Vec::new() };
        proof {
            assert(r@ =~= Map::<Seq<u32>, TaskView>::empty());
        }
        r
    }

    /// The number of entries.
    pub fn len(&self) -> (r: usize)
        ensures
            r == self.n_entries(),
    {
        self.tasks.len()
    }

    /// A reference to the entry at position `i`.
    pub fn at(&self, i: usize) -> (r: &Task)
        requires
            i < self.n_entries(),
        ensures
            r@ == self.entry_at(i as int),
    {
        &self.tasks[i]
    }

    /// The position of the entry with identifier `id`, if any.
    fn find(&self, id: &TaskId) -> (r: Option<usize>)
        requires
            self.inv(),
        ensures
            match r {
                Some(i) => i < self.n_entries() && self.entry_at(i as int).id == id@
                    && self@.dom().contains(id@) && self@[id@] == self.entry_at(i as int),
                None => !self@.dom().contains(id@),
            },
    {
        let mut i: usize = 0;
        while i < self.tasks.len()
            invariant
                self.inv(),
                i <= self.tasks@.len(),
                forall|j: int| 0 <= j < i ==> (#[trigger] self.tasks@[j])@.id != id@,
            decreases self.tasks@.len() - i,
        {
            if self.tasks[i].id() == id {
                proof {
                    self.lemma_entry(i as int);
                }
                return Some(i);
            }
            i = i + 1;
        }
        proof {
            if self@.dom().contains(id@) {
                let j = choose|j: int|
                    0 <= j < self.tasks@.len() && (#[trigger] self.tasks@[j])@.id == id@;
                assert(false);
            }
        }
        None
    }

    /// Is a task with this identifier in the store?
    pub fn contains(&self, id: &TaskId) -> (r: bool)
        requires
            self.inv(),
        ensures
            r == self@.dom().contains(id@),
    {
        self.find(id).is_some()
    }

    /// A reference to the task with this identifier, if any.
    pub fn get(&self, id: &TaskId) -> (r: Option<&Task>)
        requires
            self.inv(),
        ensures
            match r {
                Some(t) => self@.dom().contains(id@) && t@ == self@[id@],
                None => !self@.dom().contains(id@),
            },
    {
        match self.find(id) {
            Some(i) => Some(&self.tasks[i]),
            None => None,
        }
    }

    /// Inserts a task under an identifier that is not yet present.
    pub fn insert_new(&mut self, t: Task)
        requires
            old(self).inv(),
            !old(self)@.dom().contains(t@.id),
        ensures
            final(self).inv(),
            final(self)@ == old(self)@.insert(t@.id, t@),
            final(self).n_entries() == old(self).n_entries() + 1,
    {
        let ghost pre = *self;
        let ghost tv = t@;
        self.tasks.push(t);
        proof {
            let n = pre.tasks@.len();
            assert forall|i: int| 0 <= i < n implies (#[trigger] pre.tasks@[i])@.id != tv.id by {
                if pre.tasks@[i]@.id == tv.id {
                    pre.lemma_entry(i);
                }
            }
            assert(self.inv()) by {
                assert(forall|i: int|
                    0 <= i < n ==> (#[trigger] self.tasks@[i]) == pre.tasks@[i]);
            }
            assert forall|k: Seq<u32>|
                self@.dom().contains(k) == pre@.dom().insert(tv.id).contains(k) by {
                if k == tv.id {
                    assert(self.tasks@[n as int]@.id == k);
                    assert(self@.dom().contains(k));
                } else {
                    if self@.dom().contains(k) {
                        let i = choose|i: int|
                            0 <= i < self.tasks@.len() && (#[trigger] self.tasks@[i])@.id == k;
                        assert(i < n);
                        assert(pre.tasks@[i]@.id == k);
                        assert(pre@.dom().contains(k));
                    }
                    if pre@.dom().contains(k) {
                        let i = choose|i: int|
                            0 <= i < pre.tasks@.len() && (#[trigger] pre.tasks@[i])@.id == k;
                        assert(self.tasks@[i]@.id == k);
                        assert(self@.dom().contains(k));
                    }
                }
            }
            assert forall|k: Seq<u32>| #[trigger]
                self@.dom().contains(k) implies self@[k] == pre@.insert(tv.id, tv)[k] by {
                self.lemma_dom_entry(k);
                let i = choose|i: int|
                    0 <= i < self.n_entries() && (#[trigger] self.entry_at(i)).id == k;
                if k == tv.id {
                    assert(i == n);
                } else {
                    assert(i < n);
                    assert(pre.entry_at(i).id == k);
                    pre.lemma_entry(i);
                }
            }
            assert(self@ =~= pre@.insert(tv.id, tv));
        }
    }

    /// Replaces the task stored under `id` with `t`, which carries the same
    /// identifier.
    pub fn replace(&mut self, id: &TaskId, t: Task)
        requires
            old(self).inv(),
            old(self)@.dom().contains(id@),
            t@.id == id@,
        ensures
            final(self).inv(),
            final(self)@ == old(self)@.insert(id@, t@),
            final(self).n_entries() == old(self).n_entries(),
    {
        let ghost pre = *self;
        let ghost tv = t@;
        let i = match self.find(id) {
            Some(i) => i,
            None => {
                proof {
                    assert(false);
                }
                vstd::pervasive::unreached()
            },
        };
        self.tasks.set(i, t);
        proof {
            let n = pre.tasks@.len();
            assert(self.inv()) by {
                assert forall|a: int, b: int|
                    0 <= a < b < n implies (#[trigger] self.tasks@[a])@.id != (
                #[trigger] self.tasks@[b])@.id by {
                    assert(pre.tasks@[a]@.id != pre.tasks@[b]@.id);
                }
            }
            assert forall|k: Seq<u32>|
                self@.dom().contains(k) == pre@.insert(id@, tv).dom().contains(k) by {
                if self@.dom().contains(k) {
                    let a = choose|a: int|
                        0 <= a < self.tasks@.len() && (#[trigger] self.tasks@[a])@.id == k;
                    if a != i as int {
                        assert(pre.tasks@[a]@.id == k);
                        assert(pre@.dom().contains(k));
                    }
                }
                if pre@.insert(id@, tv).dom().contains(k) {
                    if k == id@ {
                        assert(self.tasks@[i as int]@.id == k);
                        assert(self@.dom().contains(k));
                    } else {
                        let a = choose|a: int|
                            0 <= a < pre.tasks@.len() && (#[trigger] pre.tasks@[a])@.id == k;
                        assert(a != i as int);
                        assert(self.tasks@[a]@.id == k);
                        assert(self@.dom().contains(k));
                    }
                }
            }
            assert forall|k: Seq<u32>| #[trigger]
                self@.dom().contains(k) implies self@[k] == pre@.insert(id@, tv)[k] by {
                self.lemma_dom_entry(k);
                let a = choose|a: int|
                    0 <= a < self.n_entries() && (#[trigger] self.entry_at(a)).id == k;
                if k == id@ {
                    assert(a == i as int) by {
                        if a != i as int {
                            assert(pre.tasks@[a]@.id == k);
                            assert(pre.entry_at(a).id == pre.entry_at(i as int).id);
                        }
                    }
                } else {
                    assert(a != i as int);
                    assert(pre.entry_at(a).id == k);
                    pre.lemma_entry(a);
                }
            }
            assert(self@ =~= pre@.insert(id@, tv));
        }
    }

    /// Removes and returns the task stored under `id`, if any.
    pub fn remove(&mut self, id: &TaskId) -> (r: Option<Task>)
        requires
            old(self).inv(),
        ensures
            final(self).inv(),
            match r {
                Some(t) => old(self)@.dom().contains(id@) && t@ == old(self)@[id@] && final(self)@
                    == old(self)@.remove(id@) && final(self).n_entries() + 1 == old(
                    self).n_entries(),
                None => !old(self)@.dom().contains(id@) && final(self)@ == old(self)@ && final(
                    self).n_entries() == old(self).n_entries(),
            },
    {
        let ghost pre = *self;
        let i = match self.find(id) {
            Some(i) => i,
            None => {
                return None;
            },
        };
        let t = self.tasks.remove(i);
        proof {
            let n = pre.tasks@.len();
            assert(self.tasks@ =~= pre.tasks@.remove(i as int));
            assert forall|a: int|
                0 <= a < n - 1 implies (#[trigger] self.tasks@[a]) == (if a < i as int {
                pre.tasks@[a]
            } else {
                pre.tasks@[a + 1]
            }) by {}
            assert(self.inv()) by {
                assert forall|a: int, b: int|
                    0 <= a < b < n - 1 implies (#[trigger] self.tasks@[a])@.id != (
                #[trigger] self.tasks@[b])@.id by {}
            }
            assert forall|k: Seq<u32>|
                self@.dom().contains(k) == pre@.remove(id@).dom().contains(k) by {
                if self@.dom().contains(k) {
                    let a = choose|a: int|
                        0 <= a < self.tasks@.len() && (#[trigger] self.tasks@[a])@.id == k;
                    let b: int = if a < i as int {
                        a
                    } else {
                        a + 1
                    };
                    assert(pre.tasks@[b]@.id == k);
                    assert(pre@.dom().contains(k));
                    assert(k != id@) by {
                        if k == id@ {
                            assert(pre.tasks@[b]@.id == pre.tasks@[i as int]@.id);
                        }
                    }
                }
                if pre@.remove(id@).dom().contains(k) {
                    let b = choose|b: int|
                        0 <= b < pre.tasks@.len() && (#[trigger] pre.tasks@[b])@.id == k;
                    assert(b != i as int);
                    let a: int = if b < i as int {
                        b
                    } else {
                        b - 1
                    };
                    assert(self.tasks@[a]@.id == k);
                    assert(self@.dom().contains(k));
                }
            }
            assert forall|k: Seq<u32>| #[trigger]
                self@.dom().contains(k) implies self@[k] == pre@.remove(id@)[k] by {
                self.lemma_dom_entry(k);
                let a = choose|a: int|
                    0 <= a < self.n_entries() && (#[trigger] self.entry_at(a)).id == k;
                let b: int = if a < i as int {
                    a
                } else {
                    a + 1
                };
                assert(pre.entry_at(b).id == k);
                pre.lemma_entry(b);
            }
            assert(self@ =~= pre@.remove(id@));
            pre.lemma_entry(i as int);
        }
        Some(t)
    }

    /// Lowers the index at `layer` for the task at `p` and its whole subtree.
    /// The region one index down must be vacant.
    pub fn subtract_subtree(&mut self, p: &TaskId, layer: usize)
        requires
            old(self).inv(),
            layer < p@.len(),
            p@[layer as int] >= 1,
            old(self)@.dom().contains(p@),
            forall|q: Seq<u32>|
                old(self)@.dom().contains(q) ==> !is_id_prefix(
                    dec_at(p@, layer as int),
                    q,
                ),
        ensures
            final(self).inv(),
            final(self)@ == spec_subtract(old(self)@, p@, layer as int),
            final(self).n_entries() == old(self).n_entries(),
    {
        let ghost pre = *self;
        let n = self.tasks.len();
        let mut i: usize = 0;
        while i < n
            invariant
                n == self.tasks@.len(),
                self.tasks@.len() == pre.tasks@.len(),
                i <= n,
                pre.inv(),
                layer < p@.len(),
                p@[layer as int] >= 1,
                forall|j: int|
                    0 <= j < i ==> #[trigger] self.tasks@[j]@ == shift_task(
                        pre.tasks@[j]@,
                        p@,
                        layer as int,
                    ),
                forall|j: int| i <= j < n ==> #[trigger] self.tasks@[j]@ == pre.tasks@[j]@,
            decreases n - i,
        {
            if self.tasks[i].id().starts_with(p) {
                proof {
                    lemma_prefix_dec(p@, self.tasks@[i as int]@.id, layer as int);
                }
                let new_id = self.tasks[i].id().with_dec_index(layer);
                let mut t = self.tasks[i].clone();
                t.set_id_raw(new_id);
                self.tasks.set(i, t);
            }
            i = i + 1;
        }
        proof {
            lemma_subtract_shape(pre, *self, p@, layer as int);
        }
    }
}

/// The identifiers of work packages among the first `i` entries.
spec fn prefix_leaf_keys(s: Seq<Task>, i: int) -> Set<Seq<u32>> {
    Set::new(
        |k: Seq<u32>|
            exists|j: int|
                0 <= j < i && (#[trigger] s[j])@.id == k && s[j]@.num_child == 0,
    )
}

/// The identifiers of done work packages among the first `i` entries.
spec fn prefix_done_keys(s: Seq<Task>, i: int) -> Set<Seq<u32>> {
    Set::new(
        |k: Seq<u32>|
            exists|j: int|
                0 <= j < i && (#[trigger] s[j])@.id == k && s[j]@.num_child == 0 && s[j]@.status
                    is Done,
    )
}

impl TaskStore {
    /// Counts the work packages, and among them the done ones.
    pub fn count_leaves(&self) -> (r: (usize, usize))
        requires
            self.inv(),
        ensures
            r.0 == crate::model::leaf_count(self@),
            r.1 == crate::model::done_leaf_count(self@),
    {
        let n = self.tasks.len();
        let mut leaves: usize = 0;
        let mut done: usize = 0;
        let mut i: usize = 0;
        proof {
            assert(prefix_leaf_keys(self.tasks@, 0) =~= Set::<Seq<u32>>::empty());
            assert(prefix_done_keys(self.tasks@, 0) =~= Set::<Seq<u32>>::empty());
        }
        while i < n
            invariant
                self.inv(),
                n == self.tasks@.len(),
                i <= n,
                leaves <= i,
                done <= i,
                prefix_leaf_keys(self.tasks@, i as int).finite(),
                prefix_done_keys(self.tasks@, i as int).finite(),
                leaves == prefix_leaf_keys(self.tasks@, i as int).len(),
                done == prefix_done_keys(self.tasks@, i as int).len(),
            decreases n - i,
        {
            let ghost sl = prefix_leaf_keys(self.tasks@, i as int);
            let ghost sd = prefix_done_keys(self.tasks@, i as int);
            let t = &self.tasks[i];
            proof {
                let tid = self.tasks@[i as int]@.id;
                assert forall|j: int|
                    0 <= j < i implies (#[trigger] self.tasks@[j])@.id != tid by {}
                if self.tasks@[i as int]@.num_child == 0 {
                    assert(prefix_leaf_keys(self.tasks@, i + 1) =~= sl.insert(tid));
                    assert(!sl.contains(tid));
                    if self.tasks@[i as int]@.status is Done {
                        assert(prefix_done_keys(self.tasks@, i + 1) =~= sd.insert(tid));
                        assert(!sd.contains(tid));
                    } else {
                        assert(prefix_done_keys(self.tasks@, i + 1) =~= sd);
                    }
                } else {
                    assert(prefix_leaf_keys(self.tasks@, i + 1) =~= sl);
                    assert(prefix_done_keys(self.tasks@, i + 1) =~= sd);
                }
            }
            if t.is_leaf() {
                leaves = leaves + 1;
                if t.status() == TaskStatus::Done {
                    done = done + 1;
                }
            }
            i = i + 1;
        }
        proof {
            assert(prefix_leaf_keys(self.tasks@, n as int) =~= crate::model::leaf_keys(self@)) by {
                assert forall|k: Seq<u32>|
                    prefix_leaf_keys(self.tasks@, n as int).contains(k)
                        == crate::model::leaf_keys(self@).contains(k) by {
                    if prefix_leaf_keys(self.tasks@, n as int).contains(k) {
                        let j = choose|j: int|
                            0 <= j < n && (#[trigger] self.tasks@[j])@.id == k
                                && self.tasks@[j]@.num_child == 0;
                        self.lemma_entry(j);
                    }
                    if crate::model::leaf_keys(self@).contains(k) {
                        self.lemma_dom_entry(k);
                        let j = choose|j: int|
                            0 <= j < self.n_entries() && (#[trigger] self.entry_at(j)).id == k;
                        assert(self.tasks@[j]@.id == k && self.tasks@[j]@.num_child == 0);
                    }
                }
            }
            assert(prefix_done_keys(self.tasks@, n as int) =~= crate::model::done_leaf_keys(
                self@,
            )) by {
                assert forall|k: Seq<u32>|
                    prefix_done_keys(self.tasks@, n as int).contains(k)
                        == crate::model::done_leaf_keys(self@).contains(k) by {
                    if prefix_done_keys(self.tasks@, n as int).contains(k) {
                        let j = choose|j: int|
                            0 <= j < n && (#[trigger] self.tasks@[j])@.id == k
                                && self.tasks@[j]@.num_child == 0 && self.tasks@[j]@.status
                                is Done;
                        self.lemma_entry(j);
                    }
                    if crate::model::done_leaf_keys(self@).contains(k) {
                        self.lemma_dom_entry(k);
                        let j = choose|j: int|
                            0 <= j < self.n_entries() && (#[trigger] self.entry_at(j)).id == k;
                        assert(self.tasks@[j]@.id == k && self.tasks@[j]@.num_child == 0
                            && self.tasks@[j]@.status is Done);
                    }
                }
            }
        }
        (leaves, done)
    }
}

/// The view a task takes when the subtree at `p` is lowered at `layer`.
spec fn shift_task(t: TaskView, p: Seq<u32>, layer: int) -> TaskView {
    if is_id_prefix(p, t.id) {
        retag(t, dec_at(t.id, layer))
    } else {
        t
    }
}

/// A store whose entries were each relabelled by `shift_task` is exactly the
/// subtree-lowering transform of the original store.
proof fn lemma_subtract_shape(pre: TaskStore, post: TaskStore, p: Seq<u32>, layer: int)
    requires
        pre.inv(),
        0 <= layer < p.len(),
        p[layer] >= 1,
        forall|q: Seq<u32>| pre@.dom().contains(q) ==> !is_id_prefix(dec_at(p, layer), q),
        post.tasks@.len() == pre.tasks@.len(),
        forall|j: int|
            0 <= j < pre.tasks@.len() ==> #[trigger] post.tasks@[j]@ == shift_task(
                pre.tasks@[j]@,
                p,
                layer,
            ),
    ensures
        post.inv(),
        post@ == spec_subtract(pre@, p, layer),
        post.n_entries() == pre.n_entries(),
{
    let n = pre.tasks@.len();
    let p2 = dec_at(p, layer);
    assert forall|a: int, b: int|
        0 <= a < b < n implies (#[trigger] post.tasks@[a])@.id != (
    #[trigger] post.tasks@[b])@.id by {
        let qa = pre.tasks@[a]@.id;
        let qb = pre.tasks@[b]@.id;
        pre.lemma_entry(a);
        pre.lemma_entry(b);
        if is_id_prefix(p, qa) && is_id_prefix(p, qb) {
            lemma_prefix_dec(p, qa, layer);
            lemma_prefix_dec(p, qb, layer);
            if dec_at(qa, layer) == dec_at(qb, layer) {
                lemma_dec_inj(qa, qb, layer);
            }
        } else if is_id_prefix(p, qa) {
            lemma_prefix_dec(p, qa, layer);
            if dec_at(qa, layer) == qb {
                assert(is_id_prefix(p2, qb));
            }
        } else if is_id_prefix(p, qb) {
            lemma_prefix_dec(p, qb, layer);
            if dec_at(qb, layer) == qa {
                assert(is_id_prefix(p2, qa));
            }
        }
    }
    assert(post.inv());
    let sub = spec_subtract(pre@, p, layer);
    assert forall|k: Seq<u32>| post@.dom().contains(k) == sub.dom().contains(k) by {
        if post@.dom().contains(k) {
            let j = choose|j: int|
                0 <= j < post.tasks@.len() && (#[trigger] post.tasks@[j])@.id == k;
            let q = pre.tasks@[j]@.id;
            pre.lemma_entry(j);
            if is_id_prefix(p, q) {
                lemma_prefix_dec(p, q, layer);
                assert(is_id_prefix(p2, k));
                assert(inc_at(k, layer) == q);
                assert(sub.dom().contains(k));
            } else {
                assert(k == q);
                assert(!is_id_prefix(p2, k));
                assert(sub.dom().contains(k));
            }
        }
        if sub.dom().contains(k) {
            if is_id_prefix(p2, k) {
                lemma_prefix_inc(p, k, layer);
                pre.lemma_dom_entry(inc_at(k, layer));
                let j = choose|j: int|
                    0 <= j < pre.n_entries() && (#[trigger] pre.entry_at(j)).id == inc_at(
                        k,
                        layer,
                    );
                lemma_prefix_dec(p, inc_at(k, layer), layer);
                assert(post.tasks@[j]@.id == k);
                assert(post@.dom().contains(k));
            } else {
                pre.lemma_dom_entry(k);
                let j = choose|j: int|
                    0 <= j < pre.n_entries() && (#[trigger] pre.entry_at(j)).id == k;
                assert(post.tasks@[j]@.id == k);
                assert(post@.dom().contains(k));
            }
        }
    }
    assert forall|k: Seq<u32>| #[trigger] post@.dom().contains(k) implies post@[k] == sub[k] by {
        post.lemma_dom_entry(k);
        let j = choose|j: int|
            0 <= j < post.n_entries() && (#[trigger] post.entry_at(j)).id == k;
        let q = pre.tasks@[j]@.id;
        pre.lemma_entry(j);
        if is_id_prefix(p, q) {
            lemma_prefix_dec(p, q, layer);
            assert(is_id_prefix(p2, k));
            assert(inc_at(k, layer) == q);
            assert(post@[k] == retag(pre@[inc_at(k, layer)], k));
        } else {
            assert(k == q);
            assert(!is_id_prefix(p2, k));
            assert(post@[k] == pre@[k]);
        }
    }
    assert(post@ =~= sub);
}

} // verus!
