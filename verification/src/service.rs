//! The task service: thin orchestration over a repository. Creation builds
//! the task and saves it; toggling finds the task, flips its flag, and
//! updates it; deleting and listing pass straight through. The service owns
//! no state of its own.

use vstd::prelude::*;
use crate::task::{Todo, models};
use crate::codec::DecodeError;
use crate::store::{
    TodoRepository, content_view, find_index, delete_model, update_model, toggle_model, flip,
    lemma_find_index,
};

verus! {

pub struct TodoService<R: TodoRepository> {
    pub repository: R,
}

impl<R: TodoRepository> TodoService<R> {
    /// A service over the given repository.
    pub fn new(repository: R) -> (s: TodoService<R>)
        ensures
            s.repository == repository,
    {
        TodoService { repository }
    }

    /// Creates a task with the given title — fresh identifier, not yet
    /// completed — and appends it to the snapshot: the new backing text and
    /// the task itself.
    pub fn create_todo(&self, content: Option<&str>, title: String) -> (r: Result<
        (String, Todo),
        DecodeError,
    >)
        ensures
            r is Ok <==> self.repository.stored(content_view(content)) is Some,
            r is Ok ==> r->Ok_0.1@.title == title@ && r->Ok_0.1@.completed == false
                && r->Ok_0.1@.id.len() == 36,
            r is Ok ==> self.repository.stored(Some(r->Ok_0.0@)) == Some(
                self.repository.stored(content_view(content))->Some_0.push(r->Ok_0.1@),
            ),
    {
        let todo = Todo::new(title);
        match self.repository.save(content, &todo) {
            Ok(out) => Ok((out, todo)),
            Err(e) => Err(e),
        }
    }

    /// Flips the completion flag of the first task carrying `id` and
    /// persists it: the new backing text, or `None` — and no write — when no
    /// task carries the identifier, a silent no-op by design.
    pub fn toggle_todo(&self, content: Option<&str>, id: &String) -> (r: Result<
        Option<String>,
        DecodeError,
    >)
        ensures
            r is Ok <==> self.repository.stored(content_view(content)) is Some,
            r is Ok ==> match r->Ok_0 {
                Some(out) => find_index(self.repository.stored(content_view(content))->Some_0, id@)
                    >= 0 && self.repository.stored(Some(out@)) == Some(
                    toggle_model(self.repository.stored(content_view(content))->Some_0, id@),
                ),
                None => find_index(self.repository.stored(content_view(content))->Some_0, id@)
                    == -1,
            },
    {
        let found = match self.repository.find_by_id(content, id) {
            Ok(o) => o,
            Err(e) => {
                return Err(e);
            },
        };
        match found {
            None => {
                proof {
                    lemma_find_index(
                        self.repository.stored(content_view(content))->Some_0,
                        id@,
                    );
                }
                Ok(None)
            },
            Some(mut todo) => {
                let ghost ts = self.repository.stored(content_view(content))->Some_0;
                let ghost fi = find_index(ts, id@);
                proof {
                    lemma_find_index(ts, id@);
                    assert(todo@ == ts[fi]);
                }
                let ghost before = todo@;
                todo.toggle_completion();
                proof {
                    assert(todo@ == flip(before));
                    assert(todo@.id == id@);
                }
                match self.repository.update(content, &todo) {
                    Ok(Some(out)) => {
                        proof {
                            assert(update_model(ts, todo@) == toggle_model(ts, id@));
                        }
                        Ok(Some(out))
                    },
                    Ok(None) => {
                        proof {
                            assert(find_index(ts, todo@.id) == -1);
                            assert(false);
                        }
                        Ok(None)
                    },
                    Err(e) => {
                        proof {
                            assert(false);
                        }
                        Err(e)
                    },
                }
            },
        }
    }

    /// Removes every task carrying `id` and persists the result: the new
    /// backing text. Deleting an absent identifier succeeds and changes
    /// nothing.
    pub fn delete_todo(&self, content: Option<&str>, id: &String) -> (r: Result<
        String,
        DecodeError,
    >)
        ensures
            r is Ok <==> self.repository.stored(content_view(content)) is Some,
            r is Ok ==> self.repository.stored(Some(r->Ok_0@)) == Some(
                delete_model(self.repository.stored(content_view(content))->Some_0, id@),
            ),
    {
        self.repository.delete(content, id)
    }

    /// The current snapshot, in file order.
    pub fn list_todos(&self, content: Option<&str>) -> (r: Result<Vec<Todo>, DecodeError>)
        ensures
            r is Ok <==> self.repository.stored(content_view(content)) is Some,
            r is Ok ==> Some(models(r->Ok_0@)) == self.repository.stored(content_view(content)),
    {
        self.repository.find_all(content)
    }
}

} // verus!
