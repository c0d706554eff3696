use wsb_tree::error::Error;
use wsb_tree::store::TaskStore;
use wsb_tree::subsystem::{Ratio, WSB as Engine};
use wsb_tree::task::TaskStatus;
use wsb_tree::task_id::TaskId;
use wsb_tree::wsb::WSB;

#[test]
fn scenario_construct() {
    let wsb = WSB::new("Project");
    let root = wsb.get_task("").unwrap();
    assert_eq!(root.name(), "Project");
    assert_eq!(root.get_planned_value(), 0);
    assert_eq!(root.get_actual_cost(), 0);
    assert_eq!(wsb.get_planned_value(), 0);
    assert_eq!(wsb.get_actual_cost(), 0);
}

#[test]
fn scenario_add_and_set() {
    let mut wsb = WSB::new("Project");
    let a = wsb.add_task("", "A").unwrap();
    assert_eq!(a.id().to_text(), "1");
    let b = wsb.add_task("1", "B").unwrap();
    assert_eq!(b.id().to_text(), "1.1");
    assert_eq!(wsb.set_planned_value("1.1", 2), Some(()));
    assert_eq!(wsb.get_task("1").unwrap().get_planned_value(), 2);
    assert_eq!(wsb.get_planned_value(), 2);
}

#[test]
fn scenario_remove_renumbers() {
    let mut wsb = WSB::new("Project");
    wsb.add_task("", "first").unwrap();
    wsb.add_task("", "X").unwrap();
    wsb.add_task("2", "left").unwrap();
    wsb.add_task("2", "right").unwrap();
    assert_eq!(wsb.set_planned_value("2.1", 7), Some(()));
    assert_eq!(wsb.set_planned_value("2.2", 33), Some(()));
    assert!(wsb.remove("2.1").is_some());
    assert_eq!(wsb.get_task("2.1").unwrap().name(), "right");
    assert_eq!(wsb.get_task("2.1").unwrap().get_planned_value(), 33);
    assert!(wsb.get_task("2.2").is_none());
    assert_eq!(wsb.get_task("2").unwrap().get_planned_value(), 33);
}

#[test]
fn scenario_remove_trunk_rejected() {
    let mut wsb = WSB::new("Project");
    wsb.add_task("", "A").unwrap();
    wsb.add_task("1", "B").unwrap();
    assert_eq!(wsb.set_planned_value("1.1", 5), Some(()));
    assert_eq!(wsb.remove("1"), None);
    assert_eq!(wsb.get_planned_value(), 5);
    assert_eq!(wsb.get_task("1").unwrap().name(), "A");
    assert_eq!(wsb.get_task("1.1").unwrap().name(), "B");
}

#[test]
fn scenario_set_trunk_rejected() {
    let mut wsb = WSB::new("Project");
    wsb.add_task("", "A").unwrap();
    wsb.add_task("1", "B").unwrap();
    assert_eq!(wsb.set_planned_value("1", 9), None);
    assert_eq!(wsb.set_actual_cost("1", 9), None);
    assert_eq!(wsb.get_planned_value(), 0);
    assert_eq!(wsb.get_task("1").unwrap().get_planned_value(), 0);
}

#[test]
fn scenario_parse_root_and_malformed() {
    assert!(TaskId::parse("1.1.").is_err());
    assert!(TaskId::parse(".1.1").is_err());
    let root = TaskId::parse("").unwrap();
    assert_eq!(root, TaskId::get_root_id());
    assert_eq!(root.len(), 0);
}

#[test]
fn engine_error_values() {
    let mut tasks = TaskStore::new();
    let map = &mut tasks;
    let mut wsb = Engine::new("Project", map);
    let missing = TaskId::new(vec![7]);
    assert_eq!(
        wsb.get_task(&missing, map).err(),
        Some(Error::TaskNotFound(missing.clone()))
    );
    assert_eq!(
        wsb.set_planned_value(&TaskId::get_root_id(), 3, map),
        Err(Error::NoParent(TaskId::get_root_id()))
    );
    wsb.add_task(TaskId::get_root_id(), "A", map).unwrap();
    assert_eq!(
        wsb.set_planned_value(&missing, 3, map),
        Err(Error::TaskNotFound(missing.clone()))
    );
    assert_eq!(
        wsb.set_actual_cost(&TaskId::get_root_id(), 3, map),
        Err(Error::NoParent(TaskId::get_root_id()))
    );
    let one = TaskId::new(vec![1]);
    wsb.add_task(one.clone(), "B", map).unwrap();
    assert_eq!(
        wsb.set_actual_cost(&one, 3, map),
        Err(Error::TrunkCannotChangeCost(one.clone()))
    );
    assert_eq!(
        wsb.set_planned_value(&one, 3, map),
        Err(Error::TrunkCannotChangeValue(one.clone()))
    );
    assert_eq!(
        wsb.mark_done(&TaskId::get_root_id(), map),
        Err(Error::TrunkCannotChangeStatus(TaskId::get_root_id()))
    );
    assert_eq!(
        wsb.remove(&missing, map),
        Err(Error::TaskNotFound(missing.clone()))
    );
    let one = TaskId::new(vec![1]);
    assert_eq!(
        wsb.next_sibling(&one, map).err(),
        Some(Error::NoNextSibling(one.clone()))
    );
    assert_eq!(
        wsb.prev_sibling(&one, map).err(),
        Some(Error::NoPrevSibling(one.clone()))
    );
}

#[test]
fn engine_siblings() {
    let mut tasks = TaskStore::new();
    let map = &mut tasks;
    let mut wsb = Engine::new("Project", map);
    wsb.add_task(TaskId::get_root_id(), "A", map).unwrap();
    wsb.add_task(TaskId::get_root_id(), "B", map).unwrap();
    let one = TaskId::new(vec![1]);
    let two = TaskId::new(vec![2]);
    assert_eq!(wsb.next_sibling(&one, map).unwrap().name(), "B");
    assert_eq!(wsb.prev_sibling(&two, map).unwrap().name(), "A");
}

#[test]
fn completion_and_indices() {
    let mut tasks = TaskStore::new();
    let map = &mut tasks;
    let mut wsb = Engine::new("Project", map);
    // a fresh project: one work package (the root), nothing done
    assert_eq!(wsb.completion_percentage(map), Ratio { num: 0, den: 1 });
    assert_eq!(wsb.spi(map), Ratio { num: 0, den: 1 });
    assert_eq!(wsb.cpi(map), Ratio { num: 0, den: 1 });
    wsb.add_task(TaskId::get_root_id(), "A", map).unwrap();
    wsb.add_task(TaskId::get_root_id(), "B", map).unwrap();
    let one = TaskId::new(vec![1]);
    wsb.set_planned_value(&one, 10, map).unwrap();
    assert_eq!(wsb.completion_percentage(map), Ratio { num: 0, den: 2 });
    wsb.mark_done(&one, map).unwrap();
    assert_eq!(wsb.completion_percentage(map), Ratio { num: 1, den: 2 });
    // earned value is planned value weighted by completion
    assert_eq!(wsb.earned_value(map), Ratio { num: 10, den: 2 });
    assert_eq!(wsb.spi(map), Ratio { num: 1, den: 2 });
    assert_eq!(wsb.sv(map), Ratio { num: 10 - 20, den: 2 });
    // no cost booked yet: the cost index is zero, not undefined
    assert_eq!(wsb.cpi(map), Ratio { num: 0, den: 1 });
    assert_eq!(wsb.cv(map), Ratio { num: 10, den: 2 });
    wsb.set_actual_cost(&one, 5, map).unwrap();
    assert_eq!(wsb.cpi(map), Ratio { num: 10, den: 10 });
}

#[test]
fn cost_marks_done_bottom_up() {
    let mut tasks = TaskStore::new();
    let map = &mut tasks;
    let mut wsb = Engine::new("Project", map);
    wsb.add_task(TaskId::get_root_id(), "A", map).unwrap();
    wsb.add_task(TaskId::new(vec![1]), "B", map).unwrap();
    let leaf = TaskId::new(vec![1, 1]);
    wsb.set_actual_cost(&leaf, 4, map).unwrap();
    // the touched work package becomes done, and so does its whole chain
    assert_eq!(wsb.get_task(&leaf, map).unwrap().status(), TaskStatus::Done);
    assert_eq!(
        wsb.get_task(&TaskId::new(vec![1]), map).unwrap().status(),
        TaskStatus::Done
    );
    assert_eq!(wsb.done_tasks(map).len(), 1);
    assert_eq!(wsb.tasks(map).len(), 1);
    // a new sibling puts the chain back in progress
    wsb.add_task(TaskId::new(vec![1]), "C", map).unwrap();
    assert_eq!(
        wsb.get_task(&TaskId::new(vec![1]), map).unwrap().status(),
        TaskStatus::InProgress
    );
    assert_eq!(wsb.todo_tasks(map).len(), 1);
    assert_eq!(wsb.in_progress_tasks(map).len(), 1);
    assert_eq!(wsb.done_tasks(map).len(), 1);
}

#[test]
fn add_then_remove_restores_root() {
    let mut wsb = WSB::new("Project");
    wsb.add_task("", "A").unwrap();
    wsb.add_task("1", "B").unwrap();
    assert_eq!(wsb.set_planned_value("1.1", 5), Some(()));
    assert_eq!(wsb.set_actual_cost("1.1", 3), Some(()));
    let pv = wsb.get_planned_value();
    let ac = wsb.get_actual_cost();
    wsb.add_task("1", "extra").unwrap();
    assert!(wsb.remove("1.2").is_some());
    assert_eq!(wsb.get_planned_value(), pv);
    assert_eq!(wsb.get_actual_cost(), ac);
}

#[test]
fn tree_text_layout() {
    let mut wsb = WSB::new("Project");
    wsb.add_task("", "A").unwrap();
    wsb.add_task("", "B").unwrap();
    wsb.add_task("1", "C").unwrap();
    let expected = "Project \u{2717}\n\
        \u{251c}\u{2500} 1 - A \u{2717} -> []\n\
        \u{2502}  \u{2514}\u{2500} 1.1 - C \u{2717} -> []\n\
        \u{2514}\u{2500} 2 - B \u{2717} -> []\n";
    assert_eq!(wsb.to_tree_str(), expected);
}

#[test]
fn dot_text_layout() {
    let wsb = WSB::new("Project");
    let expected = "digraph G {\nlabel=\"earned value: 0/1, spi: 0/1, sv: 0/1, cpi: 0/1, cv: 0/1\"\n}";
    assert_eq!(wsb.to_dot_str(), expected);
    let mut wsb2 = WSB::new("P");
    wsb2.add_task("", "A").unwrap();
    let expected2 = "digraph G {\nlabel=\"earned value: 0/1, spi: 0/1, sv: 0/1, cpi: 0/1, cv: 0/1\"\n\t\"P \u{2717}\" -> \"1 - A \u{2717} -> []\"\n}";
    assert_eq!(wsb2.to_dot_str(), expected2);
}

#[test]
fn contiguous_children_after_removals() {
    let mut wsb = WSB::new("Project");
    for name in ["a", "b", "c", "d", "e"] {
        wsb.add_task("", name).unwrap();
    }
    wsb.add_task("3", "c1").unwrap();
    wsb.add_task("3", "c2").unwrap();
    assert!(wsb.remove("2").is_some());
    // later siblings shifted down, subtrees intact
    assert_eq!(wsb.get_task("1").unwrap().name(), "a");
    assert_eq!(wsb.get_task("2").unwrap().name(), "c");
    assert_eq!(wsb.get_task("2.1").unwrap().name(), "c1");
    assert_eq!(wsb.get_task("2.2").unwrap().name(), "c2");
    assert_eq!(wsb.get_task("3").unwrap().name(), "d");
    assert_eq!(wsb.get_task("4").unwrap().name(), "e");
    assert!(wsb.get_task("5").is_none());
    // every identifier the store reports parses back to itself
    for t in wsb.all_tasks() {
        let text = t.id().to_text();
        assert_eq!(&TaskId::parse(&text).unwrap(), t.id());
    }
}

#[test]
fn members_record_and_shed() {
    let mut tasks = TaskStore::new();
    let map = &mut tasks;
    let mut wsb = Engine::new("Project", map);
    wsb.add_task(TaskId::get_root_id(), "A", map).unwrap();
    let one = TaskId::new(vec![1]);
    let missing = TaskId::new(vec![9]);
    assert_eq!(
        wsb.assign_task_to_member(&missing, "ana", map),
        Err(Error::TaskNotFound(missing.clone()))
    );
    assert_eq!(
        wsb.assign_task_to_member(&TaskId::get_root_id(), "ana", map),
        Err(Error::TrunkCannotAddMember(TaskId::get_root_id()))
    );
    assert_eq!(wsb.assign_task_to_member(&one, "ana", map), Ok(()));
    assert_eq!(wsb.assign_task_to_member(&one, "bob", map), Ok(()));
    // recording a member twice keeps a single record
    assert_eq!(wsb.assign_task_to_member(&one, "ana", map), Ok(()));
    let t = wsb.get_task(&one, map).unwrap();
    assert_eq!(t.members(), &vec!["ana".to_string(), "bob".to_string()]);
    assert!(t.has_member("ana"));
    assert!(!t.has_member("cleo"));
    assert_eq!(
        wsb.remove_member_from_task(&one, "cleo", map),
        Err(Error::CannotRemoveMemberFromTask(one.clone(), "cleo".to_string()))
    );
    assert_eq!(wsb.remove_member_from_task(&one, "ana", map), Ok(()));
    assert_eq!(
        wsb.get_task(&one, map).unwrap().members(),
        &vec!["bob".to_string()]
    );
    // members survive on a task that later gains children
    wsb.add_task(one.clone(), "B", map).unwrap();
    assert!(wsb.get_task(&one, map).unwrap().has_member("bob"));
    assert_eq!(wsb.remove_member_from_task(&one, "bob", map), Ok(()));
    assert_eq!(wsb.get_task(&one, map).unwrap().members(), &Vec::<String>::new());
}

#[test]
fn identifier_error_kinds() {
    let root = TaskId::get_root_id();
    assert_eq!(root.child_idx(), Err(Error::NoChildIndex(root.clone())));
    assert_eq!(root.parent(), Err(Error::NoParent(root.clone())));
    assert_eq!(root.new_child_id(0), Err(Error::BadTaskIdNum));
    assert_eq!(
        TaskId::parse("x"),
        Err(Error::BadTaskIdString("x".to_string()))
    );
}
