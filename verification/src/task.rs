//! Tree nodes: name, identifier, aggregates, child count and status.
//!
//! A task with children is a trunk: its planned value and actual cost are
//! derived sums, never authored. A task without children is a work package
//! and carries authored values. Dependency identifiers and member names are
//! recorded for display only and are never interpreted.

use vstd::prelude::*;

use crate::digits::{dec_rep, push_u64};
use crate::task_id::{id_text, TaskId};

verus! {

/// Completion state of a task.
#[derive(Clone, Copy, Debug, PartialEq, Eq, Structural)]
pub enum TaskStatus {
    InProgress,
    Done,
}

/// The status glyph used in display lines.
pub open spec fn status_icon(st: TaskStatus) -> Seq<char> {
    if st is Done {
        "\u{2714}"@
    } else {
        "\u{2717}"@
    }
}

impl TaskStatus {
    /// The glyph for this status.
    pub fn to_icon(&self) -> (r: &'static str)
        ensures
            r@ == status_icon(*self),
    {
        match &self {
            TaskStatus::InProgress => "\u{2717}",
            TaskStatus::Done => "\u{2714}",
        }
    }
}

/// The mathematical value of a [`Task`]: every field as a plain value.
#[verifier::ext_equal]
pub ghost struct TaskView {
    pub name: Seq<char>,
    pub id: Seq<u32>,
    pub planned_value: u64,
    pub actual_cost: u64,
    pub num_child: u32,
    pub status: TaskStatus,
    pub members: Seq<Seq<char>>,
    pub dependencies: Seq<Seq<u32>>,
    pub dependency_for: Seq<Seq<u32>>,
}

/// The value of a task as the add operation creates it: a work package with
/// zero aggregates, in progress, with no members and no dependencies.
pub open spec fn fresh_task(id: Seq<u32>, name: Seq<char>) -> TaskView {
    TaskView {
        name,
        id,
        planned_value: 0,
        actual_cost: 0,
        num_child: 0,
        status: TaskStatus::InProgress,
        members: Seq::empty(),
        dependencies: Seq::empty(),
        dependency_for: Seq::empty(),
    }
}

/// The dependency identifiers rendered as text, joined by single spaces.
pub open spec fn deps_text(deps: Seq<Seq<u32>>) -> Seq<char>
    decreases deps.len(),
{
    if deps.len() == 0 {
        Seq::<char>::empty()
    } else if deps.len() == 1 {
        id_text(deps[0])
    } else {
        id_text(deps[0]) + " "@ + deps_text(deps.skip(1))
    }
}

/// Unrolls `deps_text` at the back.
pub proof fn lemma_deps_text_push(v: Seq<Seq<u32>>, x: Seq<u32>)
    ensures
        v.len() == 0 ==> deps_text(v.push(x)) == id_text(x),
        v.len() >= 1 ==> deps_text(v.push(x)) == deps_text(v) + " "@ + id_text(x),
    decreases v.len(),
{
    if v.len() == 0 {
        assert(v.push(x)[0] == x);
    } else if v.len() == 1 {
        assert(v.push(x).skip(1) =~= seq![x]);
        assert(seq![x][0] == x);
        assert(deps_text(seq![x]) == id_text(x));
        assert(v.push(x)[0] == v[0]);
    } else {
        assert(v.push(x).skip(1) =~= v.skip(1).push(x));
        lemma_deps_text_push(v.skip(1), x);
        assert(v.push(x)[0] == v[0]);
        assert(id_text(v[0]) + " "@ + (deps_text(v.skip(1)) + " "@ + id_text(x)) =~= (id_text(
            v[0],
        ) + " "@ + deps_text(v.skip(1))) + " "@ + id_text(x));
    }
}

/// A task's display line: the root shows its name and status glyph; any
/// other task shows its identifier, name, status glyph and dependency list.
pub open spec fn task_line(t: TaskView) -> Seq<char> {
    if t.id.len() == 0 {
        t.name + " "@ + status_icon(t.status)
    } else {
        id_text(t.id) + " - "@ + t.name + " "@ + status_icon(t.status) + " -> ["@ + deps_text(
            t.dependencies,
        ) + "]"@
    }
}

/// A task's node label for the directed-graph text: identifier, name, status
/// glyph, and both aggregates.
pub open spec fn dot_label(t: TaskView) -> Seq<char> {
    id_text(t.id) + " - "@ + t.name + " "@ + status_icon(t.status) + "\npv: "@ + dec_rep(
        t.planned_value as nat,
    ) + " ac: "@ + dec_rep(t.actual_cost as nat)
}

/// One node of the work breakdown structure.
#[derive(Debug)]
pub struct Task {
    pub(crate) name: String,
    pub(crate) id: TaskId,
    pub(crate) planned_value: u64,
    pub(crate) actual_cost: u64,
    pub(crate) num_child: u32,
    pub(crate) status: TaskStatus,
    pub(crate) members: Vec<String>,
    pub(crate) dependencies: Vec<TaskId>,
    pub(crate) dependency_for: Vec<TaskId>,
}

impl View for Task {
    type V = TaskView;

    closed spec fn view(&self) -> TaskView {
        TaskView {
            name: self.name@,
            id: self.id@,
            planned_value: self.planned_value,
            actual_cost: self.actual_cost,
            num_child: self.num_child,
            status: self.status,
            members: self.members@.map_values(|s: String| s@),
            dependencies: self.dependencies@.map_values(|d: TaskId| d@),
            dependency_for: self.dependency_for@.map_values(|d: TaskId| d@),
        }
    }
}

/// Copies a vector of identifiers.
fn clone_ids(v: &Vec<TaskId>) -> (r: Vec<TaskId>)
    ensures
        r@.len() == v@.len(),
        forall|j: int| 0 <= j < v@.len() ==> (#[trigger] r@[j])@ == v@[j]@,
{
    let mut r: Vec<TaskId> = Vec::new();
    let mut i: usize = 0;
    while i < v.len()
        invariant
            i <= v.len(),
            r@.len() == i,
            forall|j: int| 0 <= j < i ==> (#[trigger] r@[j])@ == v@[j]@,
        decreases v.len() - i,
    {
        r.push(v[i].clone());
        i = i + 1;
    }
    r
}

/// Copies a vector of member names.
fn clone_strings(v: &Vec<String>) -> (r: Vec<String>)
    ensures
        r@.len() == v@.len(),
        forall|j: int| 0 <= j < v@.len() ==> (#[trigger] r@[j])@ == v@[j]@,
{
    let mut r: Vec<String> = Vec::new();
    let mut i: usize = 0;
    while i < v.len()
        invariant
            i <= v.len(),
            r@.len() == i,
            forall|j: int| 0 <= j < i ==> (#[trigger] r@[j])@ == v@[j]@,
        decreases v.len() - i,
    {
        r.push(v[i].clone());
        i = i + 1;
    }
    r
}

impl Clone for Task {
    fn clone(&self) -> (r: Self)
        ensures
            r@ == self@,
    {
        let r = Task {
            name: self.name.clone(),
            id: self.id.clone(),
            planned_value: self.planned_value,
            actual_cost: self.actual_cost,
            num_child: self.num_child,
            status: self.status,
            members: clone_strings(&self.members),
            dependencies: clone_ids(&self.dependencies),
            dependency_for: clone_ids(&self.dependency_for),
        };
        proof {
            assert(r@.members =~= self@.members);
            assert(r@.dependencies =~= self@.dependencies);
            assert(r@.dependency_for =~= self@.dependency_for);
            assert(r@ =~= self@);
        }
        r
    }
}

impl PartialEq for Task {
    fn eq(&self, other: &Self) -> (r: bool) {
        self.id == other.id && self.name == other.name
    }
}

impl Eq for Task {

}

impl vstd::std_specs::cmp::PartialEqSpecImpl for Task {
    open spec fn obeys_eq_spec() -> bool {
        true
    }

    open spec fn eq_spec(&self, other: &Self) -> bool {
        self@.id == other@.id && self@.name == other@.name
    }
}

impl Task {
    /// A new work package: zero aggregates, in progress, no members and no
    /// dependencies.
    pub fn new(id: TaskId, name: &str) -> (r: Self)
        ensures
            r@ == fresh_task(id@, name@),
    {
        let r = Task {
            id,
            name: name.to_owned(),
            planned_value: 0,
            actual_cost: 0,
            num_child: 0,
            status: TaskStatus::InProgress,
            members: Vec::new(),
            dependencies: Vec::new(),
            dependency_for: Vec::new(),
        };
        proof {
            assert(r@ =~= fresh_task(r.id@, name@));
        }
        r
    }

    /// The identifier.
    pub fn id(&self) -> (r: &TaskId)
        ensures
            r@ == self@.id,
    {
        &self.id
    }

    /// The name.
    pub fn name(&self) -> (r: &str)
        ensures
            r@ == self@.name,
    {
        self.name.as_str()
    }

    /// The planned value: authored on work packages, derived on trunks.
    pub fn get_planned_value(&self) -> (r: u64)
        ensures
            r == self@.planned_value,
    {
        self.planned_value
    }

    /// The actual cost: authored on work packages, derived on trunks.
    pub fn get_actual_cost(&self) -> (r: u64)
        ensures
            r == self@.actual_cost,
    {
        self.actual_cost
    }

    /// The completion status.
    pub fn status(&self) -> (r: TaskStatus)
        ensures
            r == self@.status,
    {
        self.status
    }

    /// The identifiers of the direct children, in index order.
    pub fn child_ids(&self) -> (r: Vec<TaskId>)
        ensures
            r@.len() == self@.num_child,
            forall|i: int|
                0 <= i < self@.num_child ==> (#[trigger] r@[i])@ == self@.id.push((i + 1) as u32),
    {
        self.id.child_ids(self.num_child)
    }

    /// The number of direct children.
    pub(crate) fn get_num_child(&self) -> (r: u32)
        ensures
            r == self@.num_child,
    {
        self.num_child
    }

    /// Sets the stored planned value, leaving every other field unchanged.
    pub(crate) fn set_planned_value_raw(&mut self, v: u64)
        ensures
            final(self)@ == (TaskView { planned_value: v, ..old(self)@ }),
    {
        self.planned_value = v;
        proof {
            assert(self@ =~= (TaskView { planned_value: v, ..old(self)@ }));
        }
    }

    /// Sets the stored actual cost, leaving every other field unchanged.
    pub(crate) fn set_actual_cost_raw(&mut self, v: u64)
        ensures
            final(self)@ == (TaskView { actual_cost: v, ..old(self)@ }),
    {
        self.actual_cost = v;
        proof {
            assert(self@ =~= (TaskView { actual_cost: v, ..old(self)@ }));
        }
    }

    /// Sets the status, leaving every other field unchanged.
    pub(crate) fn set_status_raw(&mut self, st: TaskStatus)
        ensures
            final(self)@ == (TaskView { status: st, ..old(self)@ }),
    {
        self.status = st;
        proof {
            assert(self@ =~= (TaskView { status: st, ..old(self)@ }));
        }
    }

    /// Sets the child count, leaving every other field unchanged.
    pub(crate) fn set_num_child_raw(&mut self, n: u32)
        ensures
            final(self)@ == (TaskView { num_child: n, ..old(self)@ }),
    {
        self.num_child = n;
        proof {
            assert(self@ =~= (TaskView { num_child: n, ..old(self)@ }));
        }
    }

    /// Relabels the task to sit at `id`, leaving every other field unchanged.
    pub(crate) fn set_id_raw(&mut self, id: TaskId)
        ensures
            final(self)@ == crate::model::retag(old(self)@, id@),
    {
        self.id = id;
        proof {
            assert(self@ =~= crate::model::retag(old(self)@, self.id@));
        }
    }

    /// The display line.
    pub fn to_text(&self) -> (r: String)
        ensures
            r@ == task_line(self@),
    {
        let mut s = String::new();
        if self.id.len() == 0 {
            s.append(self.name.as_str());
            proof {
                reveal_strlit(" ");
            }
            s.append(" ");
            s.append(self.status.to_icon());
            proof {
                assert(s@ =~= self@.name + " "@ + status_icon(self@.status));
            }
        } else {
            let id_txt = self.id.to_text();
            s.append(id_txt.as_str());
            proof {
                reveal_strlit(" - ");
                reveal_strlit(" ");
                reveal_strlit(" -> [");
                reveal_strlit("]");
            }
            s.append(" - ");
            s.append(self.name.as_str());
            s.append(" ");
            s.append(self.status.to_icon());
            s.append(" -> [");
            let ghost head = id_text(self@.id) + " - "@ + self@.name + " "@ + status_icon(
                self@.status,
            ) + " -> ["@;
            proof {
                assert(s@ =~= head);
                assert(s@ =~= head + deps_text(self@.dependencies.take(0)));
            }
            let mut i: usize = 0;
            while i < self.dependencies.len()
                invariant
                    i <= self.dependencies@.len(),
                    self@.dependencies.len() == self.dependencies@.len(),
                    forall|j: int|
                        0 <= j < self.dependencies@.len() ==> self@.dependencies[j] == (
                        #[trigger] self.dependencies@[j])@,
                    s@ == head + deps_text(self@.dependencies.take(i as int)),
                decreases self.dependencies@.len() - i,
            {
                if i > 0 {
                    proof {
                        reveal_strlit(" ");
                    }
                    s.append(" ");
                }
                let dep_txt = self.dependencies[i].to_text();
                s.append(dep_txt.as_str());
                proof {
                    lemma_deps_text_push(
                        self@.dependencies.take(i as int),
                        self@.dependencies[i as int],
                    );
                    assert(self@.dependencies.take(i + 1) =~= self@.dependencies.take(
                        i as int,
                    ).push(self@.dependencies[i as int]));
                    assert(s@ =~= head + deps_text(self@.dependencies.take(i + 1)));
                }
                i = i + 1;
            }
            proof {
                assert(self@.dependencies.take(self.dependencies@.len() as int)
                    =~= self@.dependencies);
            }
            s.append("]");
            proof {
                assert(s@ =~= task_line(self@));
            }
        }
        s
    }

    /// The node label for the directed-graph text.
    pub fn to_dot_str(&self) -> (r: String)
        ensures
            r@ == dot_label(self@),
    {
        let mut s = String::new();
        let id_txt = self.id.to_text();
        s.append(id_txt.as_str());
        proof {
            reveal_strlit(" - ");
            reveal_strlit(" ");
            reveal_strlit("\npv: ");
            reveal_strlit(" ac: ");
        }
        s.append(" - ");
        s.append(self.name.as_str());
        s.append(" ");
        s.append(self.status.to_icon());
        s.append("\npv: ");
        push_u64(&mut s, self.planned_value);
        s.append(" ac: ");
        push_u64(&mut s, self.actual_cost);
        proof {
            assert(s@ =~= dot_label(self@));
        }
        s
    }

    /// The member names assigned to the task, for display.
    pub fn members(&self) -> (r: &Vec<String>)
        ensures
            r@.len() == self@.members.len(),
            forall|i: int| 0 <= i < r@.len() ==> (#[trigger] r@[i])@ == self@.members[i],
    {
        &self.members
    }

    /// Is the named member recorded on the task?
    pub fn has_member(&self, name: &str) -> (r: bool)
        ensures
            r == self@.members.contains(name@),
    {
        self.member_index(name).is_some()
    }

    /// The position of the first record of the named member, if any.
    pub(crate) fn member_index(&self, name: &str) -> (r: Option<usize>)
        ensures
            match r {
                Some(i) => i < self@.members.len() && self@.members[i as int] == name@ && (forall|
                    j: int,
                |
                    0 <= j < i ==> self@.members[j] != name@),
                None => !self@.members.contains(name@),
            },
    {
        let wanted = name.to_owned();
        let mut i: usize = 0;
        while i < self.members.len()
            invariant
                wanted@ == name@,
                i <= self.members@.len(),
                self@.members.len() == self.members@.len(),
                forall|j: int|
                    0 <= j < self.members@.len() ==> self@.members[j] == (
                    #[trigger] self.members@[j])@,
                forall|j: int| 0 <= j < i ==> self@.members[j] != name@,
            decreases self.members@.len() - i,
        {
            if self.members[i] == wanted {
                return Some(i);
            }
            i = i + 1;
        }
        None
    }

    /// Records the named member on the task.
    pub(crate) fn push_member(&mut self, name: &str)
        ensures
            final(self)@ == (TaskView { members: old(self)@.members.push(name@), ..old(self)@ }),
    {
        self.members.push(name.to_owned());
        proof {
            assert(self@.members =~= old(self)@.members.push(name@));
            assert(self@ =~= (TaskView { members: old(self)@.members.push(name@), ..old(self)@ }));
        }
    }

    /// Drops the member record at position `i`.
    pub(crate) fn remove_member_at(&mut self, i: usize)
        requires
            i < old(self)@.members.len(),
        ensures
            final(self)@ == (TaskView {
                members: old(self)@.members.remove(i as int),
                ..old(self)@
            }),
    {
        self.members.remove(i);
        proof {
            assert(self@.members =~= old(self)@.members.remove(i as int));
            assert(self@ =~= (TaskView {
                members: old(self)@.members.remove(i as int),
                ..old(self)@
            }));
        }
    }

    /// The dependency identifiers recorded for display.
    pub fn dependencies(&self) -> (r: &Vec<TaskId>)
        ensures
            r@.len() == self@.dependencies.len(),
            forall|i: int| 0 <= i < r@.len() ==> (#[trigger] r@[i])@ == self@.dependencies[i],
    {
        &self.dependencies
    }

    /// The tasks that record this one as a dependency.
    pub fn dependency_for(&self) -> (r: &Vec<TaskId>)
        ensures
            r@.len() == self@.dependency_for.len(),
            forall|i: int| 0 <= i < r@.len() ==> (#[trigger] r@[i])@ == self@.dependency_for[i],
    {
        &self.dependency_for
    }

    /// Does the node have children?
    pub fn is_trunk(&self) -> (r: bool)
        ensures
            r == (self@.num_child > 0),
    {
        self.num_child > 0
    }

    /// Is the node a work package?
    pub fn is_leaf(&self) -> (r: bool)
        ensures
            r == (self@.num_child == 0),
    {
        self.num_child == 0
    }
}

} // verus!
