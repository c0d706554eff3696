use wsb_tree::task::{Task, TaskStatus};
use wsb_tree::task_id::TaskId;

#[test]
fn create_task() {
    let task_id = TaskId::parse("1.1").unwrap();
    let task = Task::new(task_id.clone(), "Create Task Struct");
    assert_eq!(task.id(), &task_id);
}

#[test]
fn fresh_task_fields() {
    let task = Task::new(TaskId::parse("2").unwrap(), "X");
    assert_eq!(task.name(), "X");
    assert_eq!(task.get_planned_value(), 0);
    assert_eq!(task.get_actual_cost(), 0);
    assert!(task.is_leaf());
    assert!(!task.is_trunk());
    assert_eq!(task.status(), TaskStatus::InProgress);
    assert_eq!(task.to_text(), "2 - X \u{2717} -> []");
    assert_eq!(task.to_dot_str(), "2 - X \u{2717}\npv: 0 ac: 0");
}

#[test]
fn root_task_line() {
    let task = Task::new(TaskId::get_root_id(), "Project");
    assert_eq!(task.to_text(), "Project \u{2717}");
}
