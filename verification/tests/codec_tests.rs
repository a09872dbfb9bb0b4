use task_tracker::store::{Task, Tasks};

fn task(id: usize, title: &str, high_priority: bool, done: bool) -> Task {
    Task { id, title: title.to_string(), high_priority, done }
}

fn assert_same_tasks(a: &Tasks, b: &Tasks) {
    assert_eq!(a.tasks.len(), b.tasks.len());
    for (x, y) in a.tasks.iter().zip(b.tasks.iter()) {
        assert_eq!(x.id, y.id);
        assert_eq!(x.title, y.title);
        assert_eq!(x.high_priority, y.high_priority);
        assert_eq!(x.done, y.done);
    }
}

#[test]
fn empty_store_saves_to_the_well_formed_empty_document() {
    let t = Tasks::new();
    assert_eq!(t.save_to_string(), "{\"tasks\":[]}");
}

#[test]
fn one_task_saves_to_the_exact_document() {
    let t = Tasks { tasks: vec![task(1, "Buy milk", true, false)] };
    assert_eq!(
        t.save_to_string(),
        "{\"tasks\":[{\"id\":1,\"title\":\"Buy milk\",\"highPriority\":true,\"done\":false}]}"
    );
}

#[test]
fn save_then_load_is_identity() {
    let t = Tasks {
        tasks: vec![
            task(1, "Buy milk", true, false),
            task(2, "Write report", false, true),
            task(5, "", false, false),
        ],
    };
    let text = t.save_to_string();
    let back = Tasks::load_from_str(&text);
    assert_same_tasks(&t, &back);
}

#[test]
fn save_then_load_keeps_quotes_and_backslashes_in_titles() {
    let t = Tasks { tasks: vec![task(1, "a\"b\\c", false, false)] };
    let back = Tasks::load_from_str(&t.save_to_string());
    assert_same_tasks(&t, &back);
}

#[test]
fn loading_corrupt_data_yields_an_empty_store() {
    assert!(Tasks::load_from_str("this is not the expected shape").tasks.is_empty());
    assert!(Tasks::load_from_str("").tasks.is_empty());
    assert!(Tasks::load_from_str("{\"tasks\":").tasks.is_empty());
    assert!(Tasks::load_from_str("{\"tasks\":[{}]}").tasks.is_empty());
    assert!(Tasks::load_from_str("{\"tasks\":[]} trailing").tasks.is_empty());
    assert!(Tasks::load_from_str("[]").tasks.is_empty());
}

#[test]
fn loading_a_number_too_large_for_an_id_yields_an_empty_store() {
    let text = "{\"tasks\":[{\"id\":99999999999999999999999999,\"title\":\"x\",\"highPriority\":false,\"done\":false}]}";
    assert!(Tasks::load_from_str(text).tasks.is_empty());
}

#[test]
fn loading_tolerates_whitespace_between_tokens() {
    let text = "{\n  \"tasks\": [\n    {\n      \"id\": 7,\n      \"title\": \"Call home\",\n      \"highPriority\": false,\n      \"done\": true\n    }\n  ]\n}";
    let t = Tasks::load_from_str(text);
    assert_eq!(t.tasks.len(), 1);
    assert_eq!(t.tasks[0].id, 7);
    assert_eq!(t.tasks[0].title, "Call home");
    assert!(!t.tasks[0].high_priority);
    assert!(t.tasks[0].done);
}

#[test]
fn loading_two_records_keeps_stored_order() {
    let text = "{\"tasks\":[{\"id\":9,\"title\":\"b\",\"highPriority\":false,\"done\":false},{\"id\":3,\"title\":\"a\",\"highPriority\":true,\"done\":false}]}";
    let t = Tasks::load_from_str(text);
    assert_eq!(t.tasks.len(), 2);
    assert_eq!(t.tasks[0].id, 9);
    assert_eq!(t.tasks[1].id, 3);
}
