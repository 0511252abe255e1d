use todo_store::store::TodoApp;
use todo_store::store::TodoStatus;

fn sample_store() -> TodoApp {
    let mut app = TodoApp::new();
    app.add(String::from("buy milk"));
    app.add(String::from("water plants"));
    assert!(app.toggle(2).is_ok());
    app
}

fn assert_stores_equal(a: &TodoApp, b: &TodoApp) {
    assert_eq!(a.last_id, b.last_id);
    assert_eq!(a.todos.len(), b.todos.len());
    for k in 0..a.todos.len() {
        assert_eq!(a.todos[k].id, b.todos[k].id);
        assert_eq!(a.todos[k].text, b.todos[k].text);
        assert_eq!(a.todos[k].is_complete, b.todos[k].is_complete);
    }
}

#[test]
fn empty_store_renders_exactly() {
    let app = TodoApp::new();
    assert_eq!(app.to_json(), String::from("{\"last_id\":0,\"todos\":{}}"));
}

#[test]
fn one_item_renders_exactly() {
    let mut app = TodoApp::new();
    app.add(String::from("buy milk"));
    assert_eq!(
        app.to_json(),
        String::from(
            "{\"last_id\":1,\"todos\":{\"1\":{\"id\":1,\"todo\":\"buy milk\",\"is_complete\":false}}}"
        )
    );
}

#[test]
fn save_load_save_reproduces_the_document() {
    let app = sample_store();
    let first = app.to_json();
    let reloaded = TodoApp::from_json(&first).expect("a rendered store must parse");
    assert_stores_equal(&app, &reloaded);
    let second = reloaded.to_json();
    assert_eq!(first, second);
}

#[test]
fn round_trip_keeps_escaped_text() {
    let mut app = TodoApp::new();
    app.add(String::from("say \"hi\" to a\\b"));
    app.add(String::from("tabs\tand\nnewlines"));
    let doc = app.to_json();
    let reloaded = TodoApp::from_json(&doc).expect("a rendered store must parse");
    assert_stores_equal(&app, &reloaded);
    assert_eq!(reloaded.todos[0].text, String::from("say \"hi\" to a\\b"));
    assert_eq!(reloaded.todos[1].text, String::from("tabs\tand\nnewlines"));
}

#[test]
fn round_trip_keeps_non_ascii_text() {
    let mut app = TodoApp::new();
    app.add(String::from("caf\u{e9} \u{2615} \u{1f600}"));
    let doc = app.to_json();
    let reloaded = TodoApp::from_json(&doc).expect("a rendered store must parse");
    assert_stores_equal(&app, &reloaded);
    assert_eq!(reloaded.todos[0].text, String::from("caf\u{e9} \u{2615} \u{1f600}"));
}

#[test]
fn round_trip_keeps_flags_and_last_id() {
    let mut app = sample_store();
    app.remove(1);
    let doc = app.to_json();
    let reloaded = TodoApp::from_json(&doc).expect("a rendered store must parse");
    assert_eq!(reloaded.last_id, 2);
    assert_eq!(reloaded.todos.len(), 1);
    assert_eq!(reloaded.todos[0].id, 2);
    assert!(reloaded.todos[0].is_complete);
}

#[test]
fn parser_allows_whitespace_between_tokens() {
    let doc = "{ \"last_id\" : 2 ,\n  \"todos\" : {\n    \"2\" : { \"id\" : 2 , \"todo\" : \"x\" , \"is_complete\" : true }\n  }\n}";
    let app = TodoApp::from_json(doc).expect("whitespace is allowed between tokens");
    assert_eq!(app.last_id, 2);
    assert_eq!(app.todos.len(), 1);
    assert_eq!(app.todos[0].id, 2);
    assert_eq!(app.todos[0].text, String::from("x"));
    assert!(app.todos[0].is_complete);
}

#[test]
fn parser_accepts_the_largest_id() {
    let doc = "{\"last_id\":255,\"todos\":{\"255\":{\"id\":255,\"todo\":\"last\",\"is_complete\":false}}}";
    let app = TodoApp::from_json(doc).expect("255 fits the id counter");
    assert_eq!(app.last_id, 255);
    assert_eq!(app.todos[0].id, 255);
}

#[test]
fn parser_rejects_malformed_documents() {
    assert!(TodoApp::from_json("").is_none());
    assert!(TodoApp::from_json("not json").is_none());
    assert!(TodoApp::from_json("{\"last_id\":0}").is_none());
    assert!(TodoApp::from_json("{\"last_id\":0,\"todos\":{}} trailing").is_none());
    assert!(TodoApp::from_json("{\"todos\":{},\"last_id\":0}").is_none());
}

#[test]
fn parser_rejects_numbers_beyond_the_counter() {
    assert!(TodoApp::from_json("{\"last_id\":256,\"todos\":{}}").is_none());
    let doc = "{\"last_id\":300,\"todos\":{\"300\":{\"id\":300,\"todo\":\"x\",\"is_complete\":false}}}";
    assert!(TodoApp::from_json(doc).is_none());
}

#[test]
fn parser_rejects_bad_ids() {
    let zero = "{\"last_id\":1,\"todos\":{\"0\":{\"id\":0,\"todo\":\"x\",\"is_complete\":false}}}";
    assert!(TodoApp::from_json(zero).is_none());
    let mismatch = "{\"last_id\":2,\"todos\":{\"1\":{\"id\":2,\"todo\":\"x\",\"is_complete\":false}}}";
    assert!(TodoApp::from_json(mismatch).is_none());
    let above = "{\"last_id\":1,\"todos\":{\"2\":{\"id\":2,\"todo\":\"x\",\"is_complete\":false}}}";
    assert!(TodoApp::from_json(above).is_none());
    let unsorted = "{\"last_id\":2,\"todos\":{\"2\":{\"id\":2,\"todo\":\"x\",\"is_complete\":false},\"1\":{\"id\":1,\"todo\":\"y\",\"is_complete\":false}}}";
    assert!(TodoApp::from_json(unsorted).is_none());
    let duplicate = "{\"last_id\":2,\"todos\":{\"1\":{\"id\":1,\"todo\":\"x\",\"is_complete\":false},\"1\":{\"id\":1,\"todo\":\"y\",\"is_complete\":false}}}";
    assert!(TodoApp::from_json(duplicate).is_none());
}

#[test]
fn load_text_falls_back_to_a_fresh_store() {
    let (app, accepted) = TodoApp::load_text("corrupt contents");
    assert!(!accepted);
    assert_eq!(app.last_id, 0);
    assert_eq!(app.todos.len(), 0);
    let (app2, accepted2) = TodoApp::load_text("");
    assert!(!accepted2);
    assert_eq!(app2.last_id, 0);
    assert_eq!(app2.todos.len(), 0);
}

#[test]
fn load_text_accepts_a_saved_store() {
    let mut app = sample_store();
    app.clear(Some(TodoStatus::Pending));
    let doc = app.to_json();
    let (reloaded, accepted) = TodoApp::load_text(&doc);
    assert!(accepted);
    assert_stores_equal(&app, &reloaded);
}
