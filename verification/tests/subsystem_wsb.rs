use wsb_tree::error::Error;
use wsb_tree::store::TaskStore;
use wsb_tree::subsystem::WSB;
use wsb_tree::task::Task;
use wsb_tree::task_id::TaskId;

#[test]
fn wsb_tasks() {
    let mut tasks = TaskStore::new();
    let map = &mut tasks;
    let mut wsb = WSB::new("Project", map);

    let root = TaskId::get_root_id();
    let task_id_1 = TaskId::new(vec![1]);
    let task_id_2 = TaskId::new(vec![2]);
    let task_id_3 = TaskId::new(vec![3]);
    let task_id_1_1 = TaskId::new(vec![1, 1]);
    let task_id_2_1 = TaskId::new(vec![2, 1]);
    let task_id_2_2 = TaskId::new(vec![2, 2]);
    let task_id_3_1 = TaskId::new(vec![3, 1]);

    assert!(wsb.add_task(task_id_1.clone(), "Create WSB", map).is_err());
    assert_eq!(
        wsb.add_task(root.clone(), "Create WSB", map),
        Ok(Task::new(TaskId::new(vec![1]), "Create WSB"))
    );
    assert_eq!(
        wsb.add_task(task_id_1.clone(), "Create Task struct", map),
        Ok(Task::new(TaskId::new(vec![1, 1]), "Create Task struct"))
    );
    wsb.expand(
        &[
            ("", "Create CLI tool"),
            ("2", "Create argument parser"),
            ("2", "Create help menu"),
            ("", "Create GUI tool"),
            ("3", "Create plot visualizer"),
        ],
        map,
    )
    .unwrap();
    assert_eq!(
        wsb.get_task(&task_id_1, map),
        Ok(&Task::new(TaskId::new(vec![1]), "Create WSB"))
    );
    assert_eq!(
        wsb.get_task_mut(&task_id_1, map),
        Ok(Task::new(TaskId::new(vec![1]), "Create WSB"))
    );

    assert_eq!(
        wsb.get_task(&task_id_1_1, map),
        Ok(&Task::new(TaskId::new(vec![1, 1]), "Create Task struct"))
    );
    assert_eq!(
        wsb.get_task_mut(&task_id_1_1, map),
        Ok(Task::new(TaskId::new(vec![1, 1]), "Create Task struct"))
    );
    assert_eq!(wsb.set_planned_value(&task_id_1_1, 2, map), Ok(()));
    assert_eq!(wsb.planned_value(map), 2);
    assert_eq!(wsb.get_task(&task_id_1_1, map).unwrap().get_planned_value(), 2);
    assert_eq!(wsb.get_task(&task_id_1, map).unwrap().get_planned_value(), 2);

    assert_eq!(
        wsb.get_task(&task_id_2, map),
        Ok(&Task::new(TaskId::new(vec![2]), "Create CLI tool"))
    );
    assert_eq!(
        wsb.get_task_mut(&task_id_2, map),
        Ok(Task::new(TaskId::new(vec![2]), "Create CLI tool"))
    );

    assert_eq!(
        wsb.get_task(&task_id_2_1, map),
        Ok(&Task::new(TaskId::new(vec![2, 1]), "Create argument parser"))
    );
    assert_eq!(
        wsb.get_task_mut(&task_id_2_1, map),
        Ok(Task::new(TaskId::new(vec![2, 1]), "Create argument parser"))
    );
    assert_eq!(wsb.set_planned_value(&task_id_2_1, 7, map), Ok(()));
    assert_eq!(wsb.planned_value(map), 9);
    assert_eq!(wsb.get_task(&task_id_2_1, map).unwrap().get_planned_value(), 7);
    assert_eq!(wsb.get_task(&task_id_2_2, map).unwrap().get_planned_value(), 0);
    assert_eq!(wsb.get_task(&task_id_2, map).unwrap().get_planned_value(), 7);

    assert_eq!(
        wsb.get_task(&task_id_2_2, map),
        Ok(&Task::new(TaskId::new(vec![2, 2]), "Create help menu"))
    );
    assert_eq!(
        wsb.get_task_mut(&task_id_2_2, map),
        Ok(Task::new(TaskId::new(vec![2, 2]), "Create help menu"))
    );
    assert_eq!(wsb.set_planned_value(&task_id_2_2, 33, map), Ok(()));
    assert_eq!(wsb.planned_value(map), 42);
    assert_eq!(wsb.get_task(&task_id_2_1, map).unwrap().get_planned_value(), 7);
    assert_eq!(wsb.get_task(&task_id_2_2, map).unwrap().get_planned_value(), 33);
    assert_eq!(wsb.get_task(&task_id_2, map).unwrap().get_planned_value(), 40);

    assert_eq!(
        wsb.get_task(&task_id_3, map),
        Ok(&Task::new(TaskId::new(vec![3]), "Create GUI tool"))
    );
    assert_eq!(
        wsb.get_task_mut(&task_id_3, map),
        Ok(Task::new(TaskId::new(vec![3]), "Create GUI tool"))
    );

    assert_eq!(
        wsb.get_task(&task_id_3_1, map),
        Ok(&Task::new(TaskId::new(vec![3, 1]), "Create plot visualizer"))
    );
    assert_eq!(
        wsb.get_task_mut(&task_id_3_1, map),
        Ok(Task::new(TaskId::new(vec![3, 1]), "Create plot visualizer"))
    );
    assert_eq!(wsb.set_planned_value(&task_id_3_1, 20, map), Ok(()));
    assert_eq!(wsb.planned_value(map), 62);
    assert_eq!(wsb.get_task(&task_id_3_1, map).unwrap().get_planned_value(), 20);
    assert_eq!(wsb.get_task(&task_id_3, map).unwrap().get_planned_value(), 20);
    assert_eq!(
        wsb.remove(&task_id_2_1, map),
        Ok(Task::new(TaskId::new(vec![2, 1]), "Create argument parser"))
    );

    assert_eq!(wsb.planned_value(map), 55);
    assert_eq!(
        wsb.get_task(&task_id_2_1, map),
        Ok(&Task::new(TaskId::new(vec![2, 1]), "Create help menu"))
    );
    assert_eq!(
        wsb.get_task(&task_id_2, map),
        Ok(&Task::new(TaskId::new(vec![2]), "Create CLI tool"))
    );
    assert_eq!(wsb.get_task(&task_id_2, map).unwrap().get_planned_value(), 33);

    assert_eq!(
        wsb.remove(&task_id_2, map),
        Err(Error::TrunkCannotBeRemoved(task_id_2.clone()))
    );
    assert_eq!(wsb.planned_value(map), 55);
    assert_eq!(
        wsb.remove(&task_id_2_1, map),
        Ok(Task::new(TaskId::new(vec![2, 1]), "Create help menu"))
    );
    assert_eq!(wsb.planned_value(map), 22);
    assert_eq!(wsb.get_task(&task_id_2, map).unwrap().get_planned_value(), 0);
    assert_eq!(
        wsb.remove(&task_id_2, map),
        Ok(Task::new(TaskId::new(vec![2]), "Create CLI tool"))
    );
    assert_eq!(wsb.planned_value(map), 22);

    assert_eq!(
        wsb.get_task(&task_id_1, map),
        Ok(&Task::new(TaskId::new(vec![1]), "Create WSB"))
    );
    assert_eq!(
        wsb.get_task_mut(&task_id_1, map),
        Ok(Task::new(TaskId::new(vec![1]), "Create WSB"))
    );

    assert_eq!(
        wsb.get_task(&task_id_1_1, map),
        Ok(&Task::new(TaskId::new(vec![1, 1]), "Create Task struct"))
    );
    assert_eq!(
        wsb.get_task_mut(&task_id_1_1, map),
        Ok(Task::new(TaskId::new(vec![1, 1]), "Create Task struct"))
    );

    assert_eq!(
        wsb.get_task(&task_id_2, map),
        Ok(&Task::new(TaskId::new(vec![2]), "Create GUI tool"))
    );
    assert_eq!(
        wsb.get_task_mut(&task_id_2, map),
        Ok(Task::new(TaskId::new(vec![2]), "Create GUI tool"))
    );

    assert_eq!(
        wsb.get_task(&task_id_2_1, map),
        Ok(&Task::new(TaskId::new(vec![2, 1]), "Create plot visualizer"))
    );
    assert_eq!(
        wsb.get_task_mut(&task_id_2_1, map),
        Ok(Task::new(TaskId::new(vec![2, 1]), "Create plot visualizer"))
    );
}
