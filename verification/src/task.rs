use vstd::prelude::*;

verus! {

/// Ghost-level image of one task: the four persisted fields as plain values.
pub struct TodoModel {
    pub id: Seq<char>,
    pub title: Seq<char>,
    pub completed: bool,
    pub created_at: Seq<char>,
}

/// One to-do item: a unique textual identifier, a human-readable title, a
/// completion flag, and the creation time captured as text at construction.
#[derive(Debug)]
pub struct Todo {
    pub id: String,
    pub title: String,
    pub completed: bool,
    pub created_at: String,
}

impl View for Todo {
    type V = TodoModel;

    open spec fn view(&self) -> TodoModel {
        TodoModel {
            id: self.id@,
            title: self.title@,
            completed: self.completed,
            created_at: self.created_at@,
        }
    }
}

/// The ghost images of a sequence of tasks.
pub open spec fn models(ts: Seq<Todo>) -> Seq<TodoModel> {
    ts.map_values(|t: Todo| t@)
}

/// Relies on uuid::Uuid::new_v4 and Uuid's Display impl: a fresh random
/// version-4 identifier rendered in the canonical hyphenated textual form,
/// which is always 36 characters long. Nothing more can be promised: the
/// value is random.
#[verifier::external_body]
fn fresh_id() -> (r: String)
    ensures
        r@.len() == 36,
{
    uuid::Uuid::new_v4().to_string()
}

/// Relies on chrono::Local::now and DateTime::to_rfc3339: the current local
/// wall-clock time as text. Nothing is promised of the result: it depends on
/// the clock.
#[verifier::external_body]
fn now_text() -> (r: String)
{
    chrono::Local::now().to_rfc3339()
}

impl Clone for Todo {
    /// An equal task, field for field.
    fn clone(&self) -> (r: Todo)
        ensures
            r == *self,
    {
        Todo {
            id: self.id.clone(),
            title: self.title.clone(),
            completed: self.completed,
            created_at: self.created_at.clone(),
        }
    }
}

impl Todo {
    /// Builds a new task: fresh identifier, the given title, not completed,
    /// creation time read from the clock.
    pub fn new(title: String) -> (t: Todo)
        ensures
            t@.title == title@,
            t@.completed == false,
            t@.id.len() == 36,
    {
        Todo { id: fresh_id(), title, completed: false, created_at: now_text() }
    }

    /// Flips the completion flag; every other field is kept.
    pub fn toggle_completion(&mut self)
        ensures
            final(self)@.completed == !old(self)@.completed,
            final(self)@.id == old(self)@.id,
            final(self)@.title == old(self)@.title,
            final(self)@.created_at == old(self)@.created_at,
    {
        self.completed = !self.completed;
    }
}

} // verus!
