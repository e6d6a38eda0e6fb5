use todorust::service::TodoService;
use todorust::store::{JsonStorage, JsonTodoRepository};
use todorust::task::Todo;
use uuid::Uuid;

fn service() -> TodoService<JsonTodoRepository> {
    TodoService::new(JsonTodoRepository::new(JsonStorage::new(String::from(
        "todos.json",
    ))))
}

#[test]
fn fresh_tasks_get_distinct_canonical_ids() {
    let a = Todo::new(String::from("one"));
    let b = Todo::new(String::from("one"));
    assert_ne!(a.id, b.id);
    assert_eq!(a.id.len(), 36);
    assert_eq!(b.id.len(), 36);
    assert!(Uuid::parse_str(&a.id).is_ok());
    assert!(Uuid::parse_str(&b.id).is_ok());
    assert!(!a.completed);
    assert!(!b.completed);
}

#[test]
fn toggle_completion_flips_only_the_flag() {
    let mut t = Todo::new(String::from("flag"));
    let id = t.id.clone();
    let created = t.created_at.clone();
    t.toggle_completion();
    assert!(t.completed);
    t.toggle_completion();
    assert!(!t.completed);
    assert_eq!(t.id, id);
    assert_eq!(t.title, "flag");
    assert_eq!(t.created_at, created);
}

#[test]
fn create_toggle_delete_scenario() {
    let svc = service();
    let (c1, created) = svc.create_todo(None, String::from("Buy milk")).unwrap();
    let listed = svc.list_todos(Some(&c1)).unwrap();
    assert_eq!(listed.len(), 1);
    assert_eq!(listed[0].title, "Buy milk");
    assert!(!listed[0].completed);
    assert_eq!(listed[0].id, created.id);

    let c2 = svc.toggle_todo(Some(&c1), &created.id).unwrap().unwrap();
    let listed = svc.list_todos(Some(&c2)).unwrap();
    assert_eq!(listed.len(), 1);
    assert!(listed[0].completed);

    let c3 = svc.delete_todo(Some(&c2), &created.id).unwrap();
    let listed = svc.list_todos(Some(&c3)).unwrap();
    assert!(listed.is_empty());
}

#[test]
fn toggling_twice_restores_the_snapshot_exactly() {
    let svc = service();
    let (c1, first) = svc.create_todo(None, String::from("first")).unwrap();
    let (c2, second) = svc
        .create_todo(Some(&c1), String::from("second"))
        .unwrap();
    let c3 = svc.toggle_todo(Some(&c2), &second.id).unwrap().unwrap();
    assert_ne!(c3, c2);
    let c4 = svc.toggle_todo(Some(&c3), &second.id).unwrap().unwrap();
    assert_eq!(c4, c2);
    let listed = svc.list_todos(Some(&c4)).unwrap();
    assert_eq!(listed.len(), 2);
    assert_eq!(listed[0].id, first.id);
    assert!(!listed[0].completed);
    assert_eq!(listed[1].id, second.id);
    assert!(!listed[1].completed);
}

#[test]
fn toggle_of_absent_id_is_a_silent_no_op() {
    let svc = service();
    let (c1, _) = svc.create_todo(None, String::from("stay")).unwrap();
    let unused = Uuid::new_v4().to_string();
    let outcome = svc.toggle_todo(Some(&c1), &unused).unwrap();
    assert!(outcome.is_none());
}

#[test]
fn delete_of_random_unused_id_on_empty_store_succeeds() {
    let svc = service();
    let unused = Uuid::new_v4().to_string();
    let content = svc.delete_todo(None, &unused).unwrap();
    let listed = svc.list_todos(Some(&content)).unwrap();
    assert!(listed.is_empty());
}

#[test]
fn errors_from_a_corrupt_file_bubble_up() {
    let svc = service();
    assert!(svc.list_todos(Some("not a snapshot")).is_err());
    assert!(svc
        .create_todo(Some("not a snapshot"), String::from("x"))
        .is_err());
    assert!(svc
        .delete_todo(Some("not a snapshot"), &String::from("id"))
        .is_err());
}
