use wsb_tree::task::Task;
use wsb_tree::task_id::TaskId;
use wsb_tree::wsb::WSB;

#[test]
fn tasks() {
    let mut wsb = WSB::new("Project");

    assert!(wsb.add_task("1", "Create WSB").is_none());
    assert_eq!(
        wsb.add_task("", "Create WSB"),
        Some(Task::new(TaskId::new(vec![1]), "Create WSB"))
    );
    assert_eq!(
        wsb.add_task("1", "Create Task struct"),
        Some(Task::new(TaskId::new(vec![1, 1]), "Create Task struct"))
    );
    wsb.expand(&[
        ("", "Create CLI tool"),
        ("2", "Create argument parser"),
        ("2", "Create help menu"),
        ("", "Create GUI tool"),
        ("3", "Create plot visualizer"),
    ]);
    assert_eq!(wsb.get_task("1"), Some(&Task::new(TaskId::new(vec![1]), "Create WSB")));
    assert_eq!(wsb.get_task_mut("1"), Some(Task::new(TaskId::new(vec![1]), "Create WSB")));

    assert_eq!(
        wsb.get_task("1.1"),
        Some(&Task::new(TaskId::new(vec![1, 1]), "Create Task struct"))
    );
    assert_eq!(
        wsb.get_task_mut("1.1"),
        Some(Task::new(TaskId::new(vec![1, 1]), "Create Task struct"))
    );
    assert_eq!(wsb.set_planned_value("1.1", 2), Some(()));
    assert_eq!(wsb.get_planned_value(), 2);
    assert_eq!(wsb.get_task("1.1").unwrap().get_planned_value(), 2);
    assert_eq!(wsb.get_task("1").unwrap().get_planned_value(), 2);

    assert_eq!(wsb.get_task("2"), Some(&Task::new(TaskId::new(vec![2]), "Create CLI tool")));
    assert_eq!(
        wsb.get_task_mut("2"),
        Some(Task::new(TaskId::new(vec![2]), "Create CLI tool"))
    );

    assert_eq!(
        wsb.get_task("2.1"),
        Some(&Task::new(TaskId::new(vec![2, 1]), "Create argument parser"))
    );
    assert_eq!(
        wsb.get_task_mut("2.1"),
        Some(Task::new(TaskId::new(vec![2, 1]), "Create argument parser"))
    );
    assert_eq!(wsb.set_planned_value("2.1", 7), Some(()));
    assert_eq!(wsb.get_planned_value(), 9);
    assert_eq!(wsb.get_task("2.1").unwrap().get_planned_value(), 7);
    assert_eq!(wsb.get_task("2.2").unwrap().get_planned_value(), 0);
    assert_eq!(wsb.get_task("2").unwrap().get_planned_value(), 7);

    assert_eq!(
        wsb.get_task("2.2"),
        Some(&Task::new(TaskId::new(vec![2, 2]), "Create help menu"))
    );
    assert_eq!(
        wsb.get_task_mut("2.2"),
        Some(Task::new(TaskId::new(vec![2, 2]), "Create help menu"))
    );
    assert_eq!(wsb.set_planned_value("2.2", 33), Some(()));
    assert_eq!(wsb.get_planned_value(), 42);
    assert_eq!(wsb.get_task("2.1").unwrap().get_planned_value(), 7);
    assert_eq!(wsb.get_task("2.2").unwrap().get_planned_value(), 33);
    assert_eq!(wsb.get_task("2").unwrap().get_planned_value(), 40);

    assert_eq!(wsb.get_task("3"), Some(&Task::new(TaskId::new(vec![3]), "Create GUI tool")));
    assert_eq!(
        wsb.get_task_mut("3"),
        Some(Task::new(TaskId::new(vec![3]), "Create GUI tool"))
    );

    assert_eq!(
        wsb.get_task("3.1"),
        Some(&Task::new(TaskId::new(vec![3, 1]), "Create plot visualizer"))
    );
    assert_eq!(
        wsb.get_task_mut("3.1"),
        Some(Task::new(TaskId::new(vec![3, 1]), "Create plot visualizer"))
    );
    assert_eq!(wsb.set_planned_value("3.1", 20), Some(()));
    assert_eq!(wsb.get_planned_value(), 62);
    assert_eq!(wsb.get_task("3.1").unwrap().get_planned_value(), 20);
    assert_eq!(wsb.get_task("3").unwrap().get_planned_value(), 20);
    assert_eq!(
        wsb.remove("2.1"),
        Some(Task::new(TaskId::new(vec![2, 1]), "Create argument parser"))
    );

    assert_eq!(wsb.get_planned_value(), 55);
    assert_eq!(
        wsb.get_task("2.1"),
        Some(&Task::new(TaskId::new(vec![2, 1]), "Create help menu"))
    );
    assert_eq!(wsb.get_task("2"), Some(&Task::new(TaskId::new(vec![2]), "Create CLI tool")));
    assert_eq!(wsb.get_task("2").unwrap().get_planned_value(), 33);

    assert_eq!(wsb.remove("2"), None);
    assert_eq!(wsb.get_planned_value(), 55);
    assert_eq!(
        wsb.remove("2.1"),
        Some(Task::new(TaskId::new(vec![2, 1]), "Create help menu"))
    );
    assert_eq!(wsb.get_planned_value(), 22);
    assert_eq!(wsb.get_task("2").unwrap().get_planned_value(), 0);
    assert_eq!(wsb.remove("2"), Some(Task::new(TaskId::new(vec![2]), "Create CLI tool")));
    assert_eq!(wsb.get_planned_value(), 22);

    assert_eq!(wsb.get_task("1"), Some(&Task::new(TaskId::new(vec![1]), "Create WSB")));
    assert_eq!(wsb.get_task_mut("1"), Some(Task::new(TaskId::new(vec![1]), "Create WSB")));

    assert_eq!(
        wsb.get_task("1.1"),
        Some(&Task::new(TaskId::new(vec![1, 1]), "Create Task struct"))
    );
    assert_eq!(
        wsb.get_task_mut("1.1"),
        Some(Task::new(TaskId::new(vec![1, 1]), "Create Task struct"))
    );

    assert_eq!(wsb.get_task("2"), Some(&Task::new(TaskId::new(vec![2]), "Create GUI tool")));
    assert_eq!(
        wsb.get_task_mut("2"),
        Some(Task::new(TaskId::new(vec![2]), "Create GUI tool"))
    );

    assert_eq!(
        wsb.get_task("2.1"),
        Some(&Task::new(TaskId::new(vec![2, 1]), "Create plot visualizer"))
    );
    assert_eq!(
        wsb.get_task_mut("2.1"),
        Some(Task::new(TaskId::new(vec![2, 1]), "Create plot visualizer"))
    );
}
