use todorust::codec::{decode_todos, encode_todos, DecodeError};
use todorust::store::{JsonStorage, JsonTodoRepository, TodoRepository};
use todorust::task::Todo;

fn repo() -> JsonTodoRepository {
    JsonTodoRepository::new(JsonStorage::new(String::from("todos.json")))
}

#[test]
fn empty_collection_has_exact_document() {
    let todos: Vec<Todo> = Vec::new();
    assert_eq!(encode_todos(&todos), "{\"todos\":[]}");
}

#[test]
fn one_task_has_exact_document() {
    let todos = vec![Todo {
        id: String::from("aaaaaaaa-bbbb-cccc-dddd-eeeeeeeeeeee"),
        title: String::from("Buy milk"),
        completed: false,
        created_at: String::from("2024-01-02T03:04:05+00:00"),
    }];
    let expected = "{\"todos\":[{\"id\":\"aaaaaaaa-bbbb-cccc-dddd-eeeeeeeeeeee\",\"title\":\"Buy milk\",\"completed\":false,\"created_at\":\"2024-01-02T03:04:05+00:00\"}]}";
    assert_eq!(encode_todos(&todos), expected);
}

#[test]
fn round_trip_reproduces_tasks_bit_for_bit() {
    let mut t2 = Todo::new(String::from("say \"hi\" and \\escape\\ { } , [ ]"));
    t2.toggle_completion();
    let todos = vec![
        Todo::new(String::from("Buy milk")),
        t2,
        Todo::new(String::new()),
    ];
    let text = encode_todos(&todos);
    let back = decode_todos(&text).unwrap();
    assert_eq!(back.len(), todos.len());
    for (a, b) in todos.iter().zip(back.iter()) {
        assert_eq!(a.id, b.id);
        assert_eq!(a.title, b.title);
        assert_eq!(a.completed, b.completed);
        assert_eq!(a.created_at, b.created_at);
    }
    assert_eq!(encode_todos(&back), text);
}

#[test]
fn decoding_rejects_malformed_documents() {
    assert!(decode_todos("").is_err());
    assert!(decode_todos("garbage").is_err());
    assert!(decode_todos("{\"todos\":[}").is_err());
    assert!(decode_todos("{\"todos\":[]} ").is_err());
    assert!(decode_todos("{\"todos\":[{\"id\":\"a\"}]}").is_err());
    assert!(decode_todos("[]").is_err());
}

#[test]
fn decode_error_has_message() {
    let e = decode_todos("nope").unwrap_err();
    assert_eq!(e, DecodeError);
    assert_eq!(e.message(), "malformed task snapshot");
}

#[test]
fn missing_file_reads_as_empty() {
    let storage = JsonStorage::new(String::from("todos.json"));
    assert!(matches!(storage.read(None), Ok(None)));
    let all = repo().find_all(None).unwrap();
    assert!(all.is_empty());
}

#[test]
fn storage_keeps_its_path() {
    let storage = JsonStorage::new(String::from("some/dir/todos.json"));
    assert_eq!(storage.file_path(), "some/dir/todos.json");
}

#[test]
fn save_appends_and_find_all_returns_file_order() {
    let r = repo();
    let mut content: Option<String> = None;
    for i in 0..5 {
        let todo = Todo::new(format!("task {}", i));
        let new_content = r.save(content.as_deref(), &todo).unwrap();
        content = Some(new_content);
    }
    let all = r.find_all(content.as_deref()).unwrap();
    assert_eq!(all.len(), 5);
    for i in 0..5 {
        let title = format!("task {}", i);
        assert_eq!(
            all.iter().filter(|t| t.title == title).count(),
            1,
            "each title present exactly once"
        );
        assert_eq!(all[i].title, format!("task {}", i));
    }
}

#[test]
fn find_by_id_returns_first_match_and_none_when_absent() {
    let r = repo();
    let todo = Todo::new(String::from("find me"));
    let content = r.save(None, &todo).unwrap();
    let found = r.find_by_id(Some(&content), &todo.id).unwrap().unwrap();
    assert_eq!(found.title, "find me");
    let missing = r
        .find_by_id(Some(&content), &String::from("no-such-id"))
        .unwrap();
    assert!(missing.is_none());
}

#[test]
fn delete_of_absent_id_keeps_bytes_unchanged() {
    let r = repo();
    let content = r.save(None, &Todo::new(String::from("stay"))).unwrap();
    let after = r
        .delete(Some(&content), &String::from("no-such-id"))
        .unwrap();
    assert_eq!(after, content);
}

#[test]
fn update_of_absent_id_is_a_silent_no_op() {
    let r = repo();
    let content = r.save(None, &Todo::new(String::from("stay"))).unwrap();
    let stranger = Todo::new(String::from("stranger"));
    let outcome = r.update(Some(&content), &stranger).unwrap();
    assert!(outcome.is_none());
}

#[test]
fn save_keeps_duplicate_ids_and_delete_removes_them_all() {
    let r = repo();
    let twin = Todo::new(String::from("twin"));
    let c1 = r.save(None, &twin).unwrap();
    let c2 = r.save(Some(&c1), &twin).unwrap();
    assert_eq!(r.find_all(Some(&c2)).unwrap().len(), 2);
    let c3 = r.delete(Some(&c2), &twin.id).unwrap();
    assert!(r.find_all(Some(&c3)).unwrap().is_empty());
}

#[test]
fn update_replaces_in_place() {
    let r = repo();
    let first = Todo::new(String::from("first"));
    let second = Todo::new(String::from("second"));
    let c1 = r.save(None, &first).unwrap();
    let c2 = r.save(Some(&c1), &second).unwrap();
    let mut changed = first.clone();
    changed.title = String::from("first, edited");
    let c3 = r.update(Some(&c2), &changed).unwrap().unwrap();
    let all = r.find_all(Some(&c3)).unwrap();
    assert_eq!(all.len(), 2);
    assert_eq!(all[0].title, "first, edited");
    assert_eq!(all[0].id, first.id);
    assert_eq!(all[1].title, "second");
}

#[test]
fn delete_removes_all_records_with_the_id() {
    let r = repo();
    let keep = Todo::new(String::from("keep"));
    let go = Todo::new(String::from("go"));
    let c1 = r.save(None, &keep).unwrap();
    let c2 = r.save(Some(&c1), &go).unwrap();
    let c3 = r.delete(Some(&c2), &go.id).unwrap();
    let all = r.find_all(Some(&c3)).unwrap();
    assert_eq!(all.len(), 1);
    assert_eq!(all[0].title, "keep");
}
