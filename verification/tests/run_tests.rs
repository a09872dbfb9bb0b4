use task_tracker::args::AddTaskArg;
use task_tracker::run::Request;
use task_tracker::store::{Task, Tasks};

#[test]
fn add_and_mark_done_in_one_invocation_lists_nothing() {
    let mut t = Tasks::new();
    let req = Request {
        add: vec![AddTaskArg::from_str("Buy milk,true").unwrap()],
        done: vec![1],
        get: true,
    };
    let lines = t.apply(&req);
    assert!(lines.is_empty());
    assert_eq!(t.tasks.len(), 1);
    assert_eq!(t.tasks[0].id, 1);
    assert_eq!(t.tasks[0].title, "Buy milk");
    assert!(t.tasks[0].high_priority);
    assert!(t.tasks[0].done);
}

#[test]
fn add_without_done_lists_the_exact_pending_line() {
    let mut t = Tasks::new();
    let req = Request {
        add: vec![AddTaskArg::from_str("Write report,false").unwrap()],
        done: vec![],
        get: true,
    };
    let lines = t.apply(&req);
    assert_eq!(lines.len(), 1);
    assert_eq!(lines[0], "[ ] Write report (priority : normal, id: 1)");
}

#[test]
fn render_line_shows_priority_and_id() {
    let t = Task { id: 3, title: "Buy".to_string(), high_priority: true, done: false };
    assert_eq!(t.render_line(), "[ ] Buy (priority : high, id: 3)");
}

#[test]
fn two_adds_in_one_request_get_ids_in_order() {
    let mut t = Tasks::new();
    let req = Request {
        add: vec![
            AddTaskArg::from_str("A,true").unwrap(),
            AddTaskArg::from_str("B,false").unwrap(),
        ],
        done: vec![],
        get: false,
    };
    let lines = t.apply(&req);
    assert!(lines.is_empty());
    assert_eq!(t.tasks[0].id, 1);
    assert_eq!(t.tasks[0].title, "A");
    assert_eq!(t.tasks[1].id, 2);
    assert_eq!(t.tasks[1].title, "B");
}

#[test]
fn listing_skips_done_tasks_and_keeps_store_order() {
    let mut t = Tasks {
        tasks: vec![
            Task { id: 1, title: "a".to_string(), high_priority: false, done: true },
            Task { id: 2, title: "b".to_string(), high_priority: true, done: false },
            Task { id: 3, title: "c".to_string(), high_priority: false, done: false },
        ],
    };
    let req = Request { add: vec![], done: vec![3], get: true };
    let lines = t.apply(&req);
    assert_eq!(lines.len(), 1);
    assert_eq!(lines[0], "[ ] b (priority : high, id: 2)");
}

#[test]
fn whole_invocation_round_trip_through_persisted_text() {
    let mut t = Tasks::load_from_str("");
    let req = Request {
        add: vec![AddTaskArg::from_str("Buy milk,true").unwrap()],
        done: vec![1],
        get: false,
    };
    t.apply(&req);
    let text = t.save_to_string();
    assert_eq!(
        text,
        "{\"tasks\":[{\"id\":1,\"title\":\"Buy milk\",\"highPriority\":true,\"done\":true}]}"
    );
    let back = Tasks::load_from_str(&text);
    assert_eq!(back.tasks.len(), 1);
    assert!(back.tasks[0].done);
}
