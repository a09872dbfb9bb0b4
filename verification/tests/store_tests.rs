use task_tracker::store::{Task, Tasks};

fn task(id: usize, title: &str, high_priority: bool, done: bool) -> Task {
    Task { id, title: title.to_string(), high_priority, done }
}

#[test]
fn next_id_on_empty_store_is_one() {
    let t = Tasks::new();
    assert_eq!(t.next_id(), 1);
}

#[test]
fn appends_on_empty_store_assign_contiguous_ids() {
    let mut t = Tasks::new();
    t.append("a".to_string(), true);
    t.append("b".to_string(), false);
    t.append("c".to_string(), false);
    t.append("d".to_string(), true);
    assert_eq!(t.tasks.len(), 4);
    for (k, task) in t.tasks.iter().enumerate() {
        assert_eq!(task.id, k + 1);
        assert!(!task.done);
    }
    assert_eq!(t.tasks[0].title, "a");
    assert!(t.tasks[0].high_priority);
    assert_eq!(t.tasks[1].title, "b");
    assert!(!t.tasks[1].high_priority);
}

#[test]
fn next_id_is_one_above_max_of_sparse_ids() {
    let mut t = Tasks {
        tasks: vec![task(2, "x", false, false), task(5, "y", true, false), task(7, "z", false, true)],
    };
    assert_eq!(t.next_id(), 8);
    t.append("w".to_string(), false);
    assert_eq!(t.tasks.last().unwrap().id, 8);
    assert_eq!(t.next_id(), 9);
}

#[test]
fn mark_done_sets_the_flag_for_the_matching_id() {
    let mut t = Tasks { tasks: vec![task(1, "a", false, false), task(2, "b", false, false)] };
    t.mark_done(2);
    assert!(!t.tasks[0].done);
    assert!(t.tasks[1].done);
}

#[test]
fn mark_done_on_nonexistent_id_changes_nothing() {
    let mut t = Tasks { tasks: vec![task(1, "a", false, false), task(3, "b", true, true)] };
    t.mark_done(42);
    assert_eq!(t.tasks.len(), 2);
    assert_eq!(t.tasks[0].id, 1);
    assert_eq!(t.tasks[0].title, "a");
    assert!(!t.tasks[0].high_priority);
    assert!(!t.tasks[0].done);
    assert_eq!(t.tasks[1].id, 3);
    assert_eq!(t.tasks[1].title, "b");
    assert!(t.tasks[1].high_priority);
    assert!(t.tasks[1].done);
}

#[test]
fn mark_done_never_resets_a_done_flag() {
    let mut t = Tasks { tasks: vec![task(1, "a", false, true)] };
    t.mark_done(1);
    assert!(t.tasks[0].done);
    t.mark_done(9);
    assert!(t.tasks[0].done);
}

#[test]
fn two_adds_assign_ids_one_and_two_in_order() {
    let mut t = Tasks::new();
    t.append("A".to_string(), true);
    t.append("B".to_string(), false);
    assert_eq!(t.tasks[0].id, 1);
    assert_eq!(t.tasks[0].title, "A");
    assert!(t.tasks[0].high_priority);
    assert_eq!(t.tasks[1].id, 2);
    assert_eq!(t.tasks[1].title, "B");
    assert!(!t.tasks[1].high_priority);
}
