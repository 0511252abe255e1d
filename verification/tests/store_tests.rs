use todo_store::store::Command;
use todo_store::store::Outcome;
use todo_store::store::Todo;
use todo_store::store::TodoApp;
use todo_store::store::TodoError;
use todo_store::store::TodoStatus;

fn sample_store() -> TodoApp {
    let mut app = TodoApp::new();
    app.add(String::from("buy milk"));
    app.add(String::from("water plants"));
    app.add(String::from("write letter"));
    let r = app.toggle(2);
    assert!(r.is_ok());
    app
}

fn assert_items_equal(a: &TodoApp, b: &TodoApp) {
    assert_eq!(a.todos.len(), b.todos.len());
    for k in 0..a.todos.len() {
        assert_eq!(a.todos[k].id, b.todos[k].id);
        assert_eq!(a.todos[k].text, b.todos[k].text);
        assert_eq!(a.todos[k].is_complete, b.todos[k].is_complete);
    }
}

#[test]
fn new_store_is_empty() {
    let app = TodoApp::new();
    assert_eq!(app.last_id, 0);
    assert_eq!(app.todos.len(), 0);
}

#[test]
fn add_assigns_sequential_ids() {
    let mut app = TodoApp::new();
    let a = app.add(String::from("one"));
    let b = app.add(String::from("two"));
    assert_eq!(a, 1);
    assert_eq!(b, 2);
    assert_eq!(app.last_id, 2);
    assert_eq!(app.todos[0].id, 1);
    assert_eq!(app.todos[1].id, 2);
    assert!(!app.todos[0].is_complete);
    assert!(!app.todos[1].is_complete);
}

#[test]
fn scenario_add_toggle_show_remove() {
    let mut app = TodoApp::new();
    let id = app.add(String::from("buy milk"));
    assert_eq!(id, 1);
    assert!(!app.todos[0].is_complete);
    let r = app.toggle(1);
    assert!(r.is_ok());
    assert!(app.todos[0].is_complete);
    let lines = app.show(Some(TodoStatus::Completed));
    assert_eq!(lines.len(), 1);
    assert_eq!(lines[0], String::from("1. buy milk [completed]"));
    app.remove(1);
    assert_eq!(app.todos.len(), 0);
    assert_eq!(app.last_id, 1);
}

#[test]
fn toggle_missing_id_fails_and_leaves_store() {
    let mut app = sample_store();
    let before = app.to_json();
    let r = app.toggle(99);
    assert_eq!(r, Err(TodoError::NotFound));
    let after = app.to_json();
    assert_eq!(before, after);
}

#[test]
fn dispatch_failed_toggle_asks_no_save() {
    let mut app = sample_store();
    let before = app.to_json();
    let (outcome, save) = app.dispatch(Command::Toggle(99));
    assert!(matches!(outcome, Outcome::Failed(TodoError::NotFound)));
    assert!(!save);
    assert_eq!(app.to_json(), before);
}

#[test]
fn dispatch_show_asks_no_save() {
    let mut app = sample_store();
    let (outcome, save) = app.dispatch(Command::Show(None));
    assert!(!save);
    match outcome {
        Outcome::Listed(lines) => assert_eq!(lines.len(), 3),
        _ => panic!("show must list"),
    }
}

#[test]
fn dispatch_mutations_ask_save() {
    let mut app = sample_store();
    let (outcome, save) = app.dispatch(Command::Add(String::from("new one")));
    assert!(matches!(outcome, Outcome::Added(4)));
    assert!(save);
    let (outcome, save) = app.dispatch(Command::Remove(4));
    assert!(matches!(outcome, Outcome::Changed));
    assert!(save);
    let (outcome, save) = app.dispatch(Command::Toggle(1));
    assert!(matches!(outcome, Outcome::Changed));
    assert!(save);
    let (outcome, save) = app.dispatch(Command::Clear(None));
    assert!(matches!(outcome, Outcome::Changed));
    assert!(save);
}

#[test]
fn remove_after_add_restores_items() {
    let mut app = sample_store();
    let before_last_id = app.last_id;
    let snapshot = sample_store();
    let id = app.add(String::from("x"));
    app.remove(id);
    assert_items_equal(&app, &snapshot);
    assert_eq!(app.last_id, before_last_id + 1);
}

#[test]
fn remove_missing_id_is_a_no_op() {
    let mut app = sample_store();
    let snapshot = sample_store();
    app.remove(99);
    assert_items_equal(&app, &snapshot);
    assert_eq!(app.last_id, snapshot.last_id);
}

#[test]
fn toggle_twice_restores_flag() {
    let mut app = sample_store();
    let flags: Vec<bool> = app.todos.iter().map(|t| t.is_complete).collect();
    assert!(app.toggle(2).is_ok());
    assert!(app.toggle(2).is_ok());
    let after: Vec<bool> = app.todos.iter().map(|t| t.is_complete).collect();
    assert_eq!(flags, after);
}

#[test]
fn clear_all_empties_and_preserves_last_id() {
    let mut app = sample_store();
    app.clear(None);
    assert_eq!(app.todos.len(), 0);
    assert_eq!(app.last_id, 3);
}

#[test]
fn clear_completed_leaves_pending_untouched() {
    let mut app = sample_store();
    app.clear(Some(TodoStatus::Completed));
    assert_eq!(app.todos.len(), 2);
    assert_eq!(app.todos[0].id, 1);
    assert_eq!(app.todos[0].text, String::from("buy milk"));
    assert!(!app.todos[0].is_complete);
    assert_eq!(app.todos[1].id, 3);
    assert_eq!(app.todos[1].text, String::from("write letter"));
    assert!(!app.todos[1].is_complete);
    assert_eq!(app.last_id, 3);
}

#[test]
fn clear_pending_leaves_completed_untouched() {
    let mut app = sample_store();
    app.clear(Some(TodoStatus::Pending));
    assert_eq!(app.todos.len(), 1);
    assert_eq!(app.todos[0].id, 2);
    assert_eq!(app.todos[0].text, String::from("water plants"));
    assert!(app.todos[0].is_complete);
    assert_eq!(app.last_id, 3);
}

#[test]
fn ids_never_decrease_and_never_repeat() {
    let mut app = TodoApp::new();
    let mut seen: Vec<u8> = Vec::new();
    let a = app.add(String::from("one"));
    seen.push(a);
    let b = app.add(String::from("two"));
    seen.push(b);
    app.remove(a);
    let mut last = app.last_id;
    let c = app.add(String::from("three"));
    assert!(app.last_id >= last);
    assert!(!seen.contains(&c));
    seen.push(c);
    app.clear(None);
    last = app.last_id;
    let d = app.add(String::from("four"));
    assert!(app.last_id >= last);
    assert!(!seen.contains(&d));
}

#[test]
fn show_orders_lines_by_id() {
    let app = sample_store();
    let lines = app.show(None);
    assert_eq!(lines.len(), 3);
    assert_eq!(lines[0], String::from("1. buy milk [pending]"));
    assert_eq!(lines[1], String::from("2. water plants [completed]"));
    assert_eq!(lines[2], String::from("3. write letter [pending]"));
}

#[test]
fn show_pending_filters_completed_out() {
    let app = sample_store();
    let lines = app.show(Some(TodoStatus::Pending));
    assert_eq!(lines.len(), 2);
    assert_eq!(lines[0], String::from("1. buy milk [pending]"));
    assert_eq!(lines[1], String::from("3. write letter [pending]"));
}

#[test]
fn display_line_formats_both_statuses() {
    let pending = Todo { id: 7, text: String::from("call home"), is_complete: false };
    assert_eq!(pending.display_line(), String::from("7. call home [pending]"));
    let done = Todo { id: 255, text: String::from("rest"), is_complete: true };
    assert_eq!(done.display_line(), String::from("255. rest [completed]"));
}

#[test]
fn not_found_error_has_a_message() {
    let e = TodoError::NotFound;
    assert_eq!(e.message(), "no todo has the requested id");
}
