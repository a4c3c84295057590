use task_manager::{Task, TaskManager, TaskManagerData};

fn active_ids(manager: &TaskManager) -> Vec<usize> {
    manager.get_active_tasks().iter().map(|t| t.id).collect()
}

#[test]
fn reordering_an_ordered_task_keeps_its_work_reachable() {
    let mut manager = TaskManager::new();
    let p = manager.add_task("P".to_string(), true);
    let s1 = manager.add_subtask(p, "s1".to_string()).unwrap();
    let s2 = manager.add_subtask(p, "s2".to_string()).unwrap();
    assert_eq!(manager.get_task(s2).unwrap().predecessors, vec![s1]);
    assert_eq!(active_ids(&manager), vec![s1]);
    manager.reorder_subtasks(p, vec![s2, s1]).unwrap();
    // Only the list changes; s2 still lists s1, but siblings do not hold each other back.
    assert_eq!(manager.get_task(s2).unwrap().predecessors, vec![s1]);
    assert!(manager.get_task(s1).unwrap().predecessors.is_empty());
    assert_eq!(active_ids(&manager), vec![s2]);
    manager.complete_task(s2).unwrap();
    assert_eq!(active_ids(&manager), vec![s1]);
}

#[test]
fn toggling_changes_only_the_flag() {
    let mut manager = TaskManager::new();
    let p = manager.add_task("P".to_string(), true);
    let other = manager.add_task("other".to_string(), false);
    let a = manager.add_subtask(p, "a".to_string()).unwrap();
    let b = manager.add_subtask(p, "b".to_string()).unwrap();
    manager.add_predecessor(b, other).unwrap();
    assert_eq!(manager.get_task(b).unwrap().predecessors, vec![a, other]);
    manager.toggle_ordered(p).unwrap();
    assert_eq!(manager.get_task(b).unwrap().predecessors, vec![a, other]);
    // Unordered: a is open; b waits on `other` (not on its sibling a); `other` is open.
    assert_eq!(active_ids(&manager), vec![a, other]);
    manager.toggle_ordered(p).unwrap();
    assert!(manager.get_task(p).unwrap().ordered);
    assert_eq!(manager.get_task(b).unwrap().predecessors, vec![a, other]);
}

#[test]
fn predecessor_counts_once_work_on_it_has_started() {
    let mut manager = TaskManager::new();
    let c = manager.add_task("C".to_string(), true);
    let c1 = manager.add_subtask(c, "C1".to_string()).unwrap();
    let c2 = manager.add_subtask(c, "C2".to_string()).unwrap();
    let b = manager.add_task("B".to_string(), false);
    manager.add_predecessor(b, c).unwrap();
    assert_eq!(active_ids(&manager), vec![c1]);
    manager.complete_task(c1).unwrap();
    assert_eq!(active_ids(&manager), vec![c2, b]);
}

#[test]
fn ordered_task_stays_on_its_first_open_subtask() {
    let mut manager = TaskManager::new();
    let p = manager.add_task("P".to_string(), true);
    let x = manager.add_subtask(p, "x".to_string()).unwrap();
    let y = manager.add_subtask(p, "y".to_string()).unwrap();
    let x1 = manager.add_subtask(x, "x1".to_string()).unwrap();
    assert_eq!(active_ids(&manager), vec![x1]);
    // x is not completed, though all of its subtasks are: nothing under P is
    // actionable, and y waits for x.
    manager.complete_task(x1).unwrap();
    assert!(manager.get_active_tasks().is_empty());
    manager.complete_task(x).unwrap();
    assert_eq!(active_ids(&manager), vec![y]);
}

#[test]
fn completed_task_is_not_active() {
    let mut manager = TaskManager::new();
    let id = manager.add_task("Only".to_string(), false);
    assert_eq!(active_ids(&manager), vec![id]);
    manager.complete_task(id).unwrap();
    assert!(manager.get_active_tasks().is_empty());
    manager.uncomplete_task(id).unwrap();
    assert_eq!(active_ids(&manager), vec![id]);
}

#[test]
fn missing_ids_are_reported() {
    let mut manager = TaskManager::new();
    assert_eq!(manager.complete_task(42), Err("Task with id: 42 not found".to_string()));
    assert_eq!(manager.uncomplete_task(7), Err("Task with id: 7 not found".to_string()));
    assert_eq!(manager.toggle_ordered(0), Err("Task with id: 0 not found".to_string()));
    assert_eq!(
        manager.update_task_text(1234567890, "x".to_string()),
        Err("Task with id: 1234567890 not found".to_string())
    );
    assert_eq!(
        manager.reorder_subtasks(5, vec![]),
        Err("Parent task with id: 5 not found".to_string())
    );
    assert!(manager.get_task(3).is_none());
    assert!(manager.get_subtasks(3).is_err());
    assert!(manager.get_subtasks_recursive(3, 10).is_err());
    assert_eq!(
        manager.get_parent_tasks(9).err(),
        Some("Task with id: 9 not found".to_string())
    );
    assert_eq!(manager.remove_task_recursive(11), Err("Task with id: 11 not found".to_string()));
}

#[test]
fn failed_add_subtask_uses_up_an_id() {
    let mut manager = TaskManager::new();
    assert_eq!(manager.next_id(), 1);
    assert_eq!(
        manager.add_subtask(99, "orphan".to_string()),
        Err("Task with id: 99 not found".to_string())
    );
    assert_eq!(manager.next_id(), 2);
    let id = manager.add_task("root".to_string(), false);
    assert_eq!(id, 2);
    assert!(manager.get_task(1).is_none());
}

#[test]
fn unordered_parent_gives_no_predecessor() {
    let mut manager = TaskManager::new();
    let parent = manager.add_task("P".to_string(), false);
    let s1 = manager.add_subtask(parent, "S1".to_string()).unwrap();
    let s2 = manager.add_subtask(parent, "S2".to_string()).unwrap();
    let t1 = manager.get_task(s1).unwrap();
    let t2 = manager.get_task(s2).unwrap();
    assert!(t1.predecessors.is_empty());
    assert!(t2.predecessors.is_empty());
    assert!(t2.ordered);
    assert_eq!(t2.parent, Some(parent));
    assert!(!t2.completed);
}

#[test]
fn update_text_and_toggle_twice() {
    let mut manager = TaskManager::new();
    let id = manager.add_task("old".to_string(), true);
    manager.update_task_text(id, "new".to_string()).unwrap();
    assert_eq!(manager.get_task(id).unwrap().text, "new");
    manager.toggle_ordered(id).unwrap();
    assert!(!manager.get_task(id).unwrap().ordered);
    manager.toggle_ordered(id).unwrap();
    assert!(manager.get_task(id).unwrap().ordered);
}

#[test]
fn reorder_checks_the_set_of_subtasks() {
    let mut manager = TaskManager::new();
    let p = manager.add_task("P".to_string(), true);
    let a = manager.add_subtask(p, "a".to_string()).unwrap();
    let b = manager.add_subtask(p, "b".to_string()).unwrap();
    assert_eq!(
        manager.reorder_subtasks(p, vec![a]),
        Err("New order must contain the same subtasks".to_string())
    );
    assert_eq!(
        manager.reorder_subtasks(p, vec![a, b, 77]),
        Err("New order must contain the same subtasks".to_string())
    );
    assert_eq!(manager.get_task(p).unwrap().subtasks, vec![a, b]);
    manager.reorder_subtasks(p, vec![b, a]).unwrap();
    assert_eq!(manager.get_task(p).unwrap().subtasks, vec![b, a]);
    // Repeated ids pass the check, as the same set of ids.
    manager.reorder_subtasks(p, vec![b, a, a]).unwrap();
    assert_eq!(manager.get_task(p).unwrap().subtasks, vec![b, a, a]);
}

#[test]
fn subtasks_and_recursive_subtasks() {
    let mut manager = TaskManager::new();
    let root = manager.add_task("root".to_string(), false);
    let a = manager.add_subtask(root, "a".to_string()).unwrap();
    let b = manager.add_subtask(root, "b".to_string()).unwrap();
    let a1 = manager.add_subtask(a, "a1".to_string()).unwrap();
    let b1 = manager.add_subtask(b, "b1".to_string()).unwrap();
    let direct: Vec<usize> = manager.get_subtasks(root).unwrap().iter().map(|t| t.id).collect();
    assert_eq!(direct, vec![a, b]);
    // Pending ids are taken from the end of the stack.
    let all: Vec<usize> = manager
        .get_subtasks_recursive(root, 10)
        .unwrap()
        .iter()
        .map(|t| t.id)
        .collect();
    assert_eq!(all, vec![b, b1, a, a1]);
    let two: Vec<usize> = manager
        .get_subtasks_recursive(root, 2)
        .unwrap()
        .iter()
        .map(|t| t.id)
        .collect();
    assert_eq!(two, vec![b, b1]);
    // A limit of zero still reports the first task reached.
    assert_eq!(manager.get_subtasks_recursive(root, 0).unwrap().len(), 1);
    assert!(manager.get_subtasks_recursive(a1, 5).unwrap().is_empty());
}

#[test]
fn remove_counts_the_whole_tree() {
    let mut manager = TaskManager::new();
    let keep = manager.add_task("keep".to_string(), false);
    let root = manager.add_task("root".to_string(), false);
    let a = manager.add_subtask(root, "a".to_string()).unwrap();
    let _a1 = manager.add_subtask(a, "a1".to_string()).unwrap();
    let _b = manager.add_subtask(root, "b".to_string()).unwrap();
    assert_eq!(manager.remove_task_recursive(root), Ok(4));
    assert!(manager.get_task(root).is_none());
    assert!(manager.get_task(a).is_none());
    assert!(manager.get_task(keep).is_some());
    assert_eq!(active_ids(&manager), vec![keep]);
}

#[test]
fn remove_stops_at_a_missing_subtask() {
    let mut manager = TaskManager::new();
    let root = manager.add_task("root".to_string(), false);
    let a = manager.add_subtask(root, "a".to_string()).unwrap();
    let b = manager.add_subtask(root, "b".to_string()).unwrap();
    // Removing a subtask leaves its id in the parent's list.
    assert_eq!(manager.remove_task_recursive(a), Ok(1));
    assert_eq!(manager.get_task(root).unwrap().subtasks, vec![a, b]);
    assert_eq!(
        manager.remove_task_recursive(root),
        Err(format!("Task with id: {} not found", a))
    );
    assert!(manager.get_task(root).is_some());
    assert!(manager.get_task(b).is_some());
}

#[test]
fn saved_data_restores_the_state() {
    let mut manager = TaskManager::new();
    let p = manager.add_task("P".to_string(), true);
    let s = manager.add_subtask(p, "S".to_string()).unwrap();
    manager.complete_task(s).unwrap();
    let data = manager.to_data();
    assert_eq!(data.tasks.len(), 2);
    assert_eq!(data.root_tasks, vec![p]);
    assert_eq!(data.next_id, 3);

    let mut other = TaskManager::new();
    other.load_data(data).unwrap();
    assert_eq!(other.next_id(), 3);
    let restored = other.get_task(s).unwrap();
    assert!(restored.completed);
    assert_eq!(restored.parent, Some(p));
    assert_eq!(other.get_task(p).unwrap().subtasks, vec![s]);
}

#[test]
fn inconsistent_data_is_refused() {
    let mut manager = TaskManager::new();
    let id = manager.add_task("kept".to_string(), false);
    let mut a = Task::new(1, "a".to_string(), true);
    let mut b = Task::new(2, "b".to_string(), true);
    a.subtasks = vec![2];
    a.parent = Some(2);
    b.subtasks = vec![1];
    b.parent = Some(1);
    let data = TaskManagerData { tasks: vec![a, b], root_tasks: vec![1], next_id: 10 };
    assert_eq!(
        manager.load_data(data),
        Err("Invalid task data: inconsistent task hierarchy".to_string())
    );
    assert_eq!(manager.get_task(id).unwrap().text, "kept");

    let mut own = Task::new(3, "own subtask".to_string(), false);
    own.subtasks = vec![3];
    let data = TaskManagerData { tasks: vec![own], root_tasks: vec![3], next_id: 4 };
    assert!(manager.load_data(data).is_err());

    let stale = TaskManagerData {
        tasks: vec![Task::new(4, "t".to_string(), false)],
        root_tasks: vec![4],
        next_id: 4,
    };
    assert!(manager.load_data(stale).is_err());
    assert_eq!(manager.next_id(), 2);
}

#[test]
fn data_with_any_id_order_is_loaded() {
    let mut manager = TaskManager::new();
    let mut parent = Task::new(7, "parent".to_string(), true);
    let mut child = Task::new(5, "child".to_string(), true);
    parent.subtasks = vec![5];
    child.parent = Some(7);
    let mut loose = Task::new(2, "loose".to_string(), false);
    loose.parent = Some(6);
    let data = TaskManagerData { tasks: vec![parent, child, loose], root_tasks: vec![7], next_id: 8 };
    manager.load_data(data).unwrap();
    let chain: Vec<usize> = manager.get_parent_tasks(5).unwrap().iter().map(|t| t.id).collect();
    assert_eq!(chain, vec![5, 7]);
    assert_eq!(
        manager.get_parent_tasks(2).err(),
        Some("Task with id: 6 not found".to_string())
    );
    assert_eq!(active_ids(&manager), vec![5]);
    assert_eq!(manager.add_task("next".to_string(), false), 8);
    assert_eq!(manager.remove_task_recursive(7), Ok(2));
    assert!(manager.get_task(5).is_none());
}

#[test]
fn later_duplicate_wins_when_loading() {
    let mut manager = TaskManager::new();
    let first = Task::new(1, "first".to_string(), false);
    let second = Task::new(1, "second".to_string(), false);
    let data = TaskManagerData { tasks: vec![first, second], root_tasks: vec![1], next_id: 2 };
    manager.load_data(data).unwrap();
    assert_eq!(manager.get_task(1).unwrap().text, "second");
}

#[test]
fn uncomplete_restores_the_task() {
    let mut manager = TaskManager::new();
    let id = manager.add_task("t".to_string(), true);
    let before = manager.get_task(id).unwrap();
    manager.complete_task(id).unwrap();
    assert!(manager.get_task(id).unwrap().completed);
    manager.uncomplete_task(id).unwrap();
    let after = manager.get_task(id).unwrap();
    assert_eq!(after.completed, before.completed);
    assert_eq!(after.text, before.text);
    assert_eq!(after.ordered, before.ordered);
    assert_eq!(after.subtasks, before.subtasks);
}

#[test]
fn parent_chain_reaches_the_root() {
    let mut manager = TaskManager::new();
    let root = manager.add_task("root".to_string(), true);
    let mid = manager.add_subtask(root, "mid".to_string()).unwrap();
    let leaf = manager.add_subtask(mid, "leaf".to_string()).unwrap();
    let chain: Vec<usize> = manager.get_parent_tasks(leaf).unwrap().iter().map(|t| t.id).collect();
    assert_eq!(chain, vec![leaf, mid, root]);
    let tasks = manager.get_parent_tasks(leaf).unwrap();
    assert_eq!(tasks[0].parent, Some(mid));
    assert_eq!(tasks[1].parent, Some(root));
    assert_eq!(tasks[2].parent, None);
}

#[test]
fn new_root_task_joins_the_active_tasks() {
    let mut manager = TaskManager::new();
    let a = manager.add_task("a".to_string(), true);
    let a1 = manager.add_subtask(a, "a1".to_string()).unwrap();
    assert_eq!(active_ids(&manager), vec![a1]);
    let b = manager.add_task("b".to_string(), false);
    assert_eq!(active_ids(&manager), vec![a1, b]);
}

#[test]
fn predecessor_blocks_until_finished() {
    let mut manager = TaskManager::new();
    let first = manager.add_task("first".to_string(), false);
    let second = manager.add_task("second".to_string(), false);
    manager.add_predecessor(second, first).unwrap();
    assert_eq!(active_ids(&manager), vec![first]);
    manager.complete_task(first).unwrap();
    assert_eq!(active_ids(&manager), vec![second]);
    assert_eq!(manager.add_predecessor(77, first), Err("Task with id: 77 not found".to_string()));
}

#[test]
fn messages_spell_out_the_largest_id() {
    let mut manager = TaskManager::new();
    assert_eq!(
        manager.complete_task(usize::MAX),
        Err(format!("Task with id: {} not found", usize::MAX))
    );
    assert_eq!(
        manager.reorder_subtasks(10, vec![]),
        Err("Parent task with id: 10 not found".to_string())
    );
}
