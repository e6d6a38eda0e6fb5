//! The task store: full-snapshot CRUD over the collection held in a backing
//! text. Every operation is read-modify-write on the whole snapshot: decode
//! the current content (a missing file is the empty collection), change the
//! sequence in memory, and hand back the new content to be written. The
//! embedding program performs the file reads and writes themselves and keeps
//! the operations serialized.

use vstd::prelude::*;
use crate::task::{Todo, TodoModel, models};
use crate::codec::{
    DecodeError, decode_todos, encode_todos, encode_spec, lemma_encode_injective,
};

verus! {

/// The ghost image of a file's content handed to an operation.
pub open spec fn content_view(content: Option<&str>) -> Option<Seq<char>> {
    match content {
        None => None,
        Some(c) => Some(c@),
    }
}

/// The collection a backing text stands for: a missing file is the empty
/// collection, text is meaningful exactly when it is the canonical document
/// of some task sequence, and then stands for that sequence.
pub open spec fn snapshot_of(content: Option<Seq<char>>) -> Option<Seq<TodoModel>> {
    match content {
        None => Some(Seq::empty()),
        Some(c) => if exists|ts: Seq<TodoModel>| c == encode_spec(ts) {
            Some(choose|ts: Seq<TodoModel>| c == encode_spec(ts))
        } else {
            None
        },
    }
}

/// A stored collection has exactly one canonical text.
pub proof fn lemma_snapshot_canonical(c: Seq<char>, ts: Seq<TodoModel>)
    requires
        snapshot_of(Some(c)) == Some(ts),
    ensures
        c == encode_spec(ts),
{
}

/// Round trip: the document written for any collection stands for exactly
/// that collection when read back.
pub proof fn lemma_round_trip(ts: Seq<TodoModel>)
    ensures
        snapshot_of(Some(encode_spec(ts))) == Some(ts),
{
    let c = encode_spec(ts);
    assert(c == encode_spec(ts));
    let x = choose|x: Seq<TodoModel>| c == encode_spec(x);
    lemma_encode_injective(x, ts);
}

/// The position of the first task carrying `id`, or -1 when none does.
pub open spec fn find_index(ts: Seq<TodoModel>, id: Seq<char>) -> int
    decreases ts.len(),
{
    if ts.len() == 0 {
        -1
    } else if ts[0].id == id {
        0
    } else {
        let rest = find_index(ts.drop_first(), id);
        if rest == -1 {
            -1
        } else {
            rest + 1
        }
    }
}

/// What the first-index position means.
pub proof fn lemma_find_index(ts: Seq<TodoModel>, id: Seq<char>)
    ensures
        -1 <= find_index(ts, id) < ts.len(),
        find_index(ts, id) >= 0 ==> ts[find_index(ts, id)].id == id,
        forall|k: int| 0 <= k < find_index(ts, id) ==> (#[trigger] ts[k]).id != id,
        find_index(ts, id) == -1 ==> forall|k: int|
            0 <= k < ts.len() ==> (#[trigger] ts[k]).id != id,
    decreases ts.len(),
{
    if ts.len() > 0 && ts[0].id != id {
        let sub = ts.drop_first();
        lemma_find_index(sub, id);
        let fi = find_index(ts, id);
        let fis = find_index(sub, id);
        if fis == -1 {
            assert forall|k: int| 0 <= k < ts.len() implies (#[trigger] ts[k]).id != id by {
                if k > 0 {
                    assert(sub[k - 1] == ts[k]);
                    assert(sub[k - 1].id != id);
                }
            }
        } else {
            assert(fi == fis + 1);
            assert(ts[fi] == sub[fis]);
            assert forall|k: int| 0 <= k < fi implies (#[trigger] ts[k]).id != id by {
                if k > 0 {
                    assert(sub[k - 1] == ts[k]);
                    assert(sub[k - 1].id != id);
                }
            }
        }
    }
}

/// The first occurrence of `id`, if any.
pub open spec fn find_first(ts: Seq<TodoModel>, id: Seq<char>) -> Option<TodoModel> {
    if find_index(ts, id) >= 0 {
        Some(ts[find_index(ts, id)])
    } else {
        None
    }
}

/// A collection after removing every task carrying `id`.
pub open spec fn delete_model(ts: Seq<TodoModel>, id: Seq<char>) -> Seq<TodoModel> {
    ts.filter(|t: TodoModel| t.id != id)
}

/// A collection after replacing the first task carrying the new task's
/// identifier; unchanged when none does.
pub open spec fn update_model(ts: Seq<TodoModel>, t: TodoModel) -> Seq<TodoModel> {
    if find_index(ts, t.id) >= 0 {
        ts.update(find_index(ts, t.id), t)
    } else {
        ts
    }
}

/// The same task with its completion flag flipped.
pub open spec fn flip(t: TodoModel) -> TodoModel {
    TodoModel { completed: !t.completed, ..t }
}

/// A collection after toggling the first task carrying `id`; unchanged when
/// none does.
pub open spec fn toggle_model(ts: Seq<TodoModel>, id: Seq<char>) -> Seq<TodoModel> {
    if find_index(ts, id) >= 0 {
        ts.update(find_index(ts, id), flip(ts[find_index(ts, id)]))
    } else {
        ts
    }
}

/// A delete, update, or toggle aimed at an identifier that no task carries
/// leaves the collection unchanged.
pub proof fn lemma_absent_id_noop(ts: Seq<TodoModel>, id: Seq<char>, t: TodoModel)
    requires
        find_index(ts, id) == -1,
        t.id == id,
    ensures
        delete_model(ts, id) == ts,
        update_model(ts, t) == ts,
        toggle_model(ts, id) == ts,
{
    lemma_find_index(ts, id);
    lemma_filter_keep_all(ts, id);
}

/// Deleting an identifier that no task carries writes back the very same
/// text, byte for byte.
pub proof fn lemma_absent_delete_same_bytes(c: Seq<char>, id: Seq<char>, ts: Seq<TodoModel>)
    requires
        snapshot_of(Some(c)) == Some(ts),
        find_index(ts, id) == -1,
    ensures
        encode_spec(delete_model(ts, id)) == c,
{
    lemma_snapshot_canonical(c, ts);
    lemma_find_index(ts, id);
    lemma_filter_keep_all(ts, id);
}

/// A filter that no element falls to keeps the whole sequence.
proof fn lemma_filter_keep_all(ts: Seq<TodoModel>, id: Seq<char>)
    requires
        forall|k: int| 0 <= k < ts.len() ==> (#[trigger] ts[k]).id != id,
    ensures
        ts.filter(|t: TodoModel| t.id != id) == ts,
    decreases ts.len(),
{
    reveal(Seq::filter);
    if ts.len() == 0 {
        assert(ts.filter(|t: TodoModel| t.id != id) =~= ts);
    } else {
        lemma_filter_keep_all(ts.drop_last(), id);
        assert(ts.filter(|t: TodoModel| t.id != id) =~= ts);
    }
}

/// Toggling the same identifier twice in succession restores the collection:
/// the flag returns to its old value and no other field moves.
pub proof fn lemma_toggle_twice(ts: Seq<TodoModel>, id: Seq<char>)
    ensures
        toggle_model(toggle_model(ts, id), id) == ts,
{
    lemma_find_index(ts, id);
    let fi = find_index(ts, id);
    if fi >= 0 {
        let ts1 = ts.update(fi, flip(ts[fi]));
        lemma_find_index(ts1, id);
        let fi1 = find_index(ts1, id);
        assert(ts1[fi].id == id);
        if fi1 == -1 {
            assert(ts1[fi as int].id != id);
            assert(false);
        } else if fi1 < fi {
            assert(ts1[fi1] == ts[fi1]);
            assert(false);
        } else if fi1 > fi {
            assert(false);
        }
        assert(fi1 == fi);
        assert(flip(flip(ts[fi])) == ts[fi]);
        assert(toggle_model(ts1, id) =~= ts);
    }
}

/// What a run of saves leaves behind, one save after another.
pub open spec fn saved_from(start: Seq<TodoModel>, adds: Seq<TodoModel>) -> Seq<TodoModel>
    decreases adds.len(),
{
    if adds.len() == 0 {
        start
    } else {
        saved_from(start.push(adds[0]), adds.drop_first())
    }
}

/// A serialized run of saves lands every task, in order: none lost, none
/// duplicated, whatever collection it starts from.
pub proof fn lemma_saves_accumulate(start: Seq<TodoModel>, adds: Seq<TodoModel>)
    ensures
        saved_from(start, adds) == start + adds,
    decreases adds.len(),
{
    if adds.len() == 0 {
        assert(start + adds =~= start);
    } else {
        lemma_saves_accumulate(start.push(adds[0]), adds.drop_first());
        assert(start.push(adds[0]) + adds.drop_first() =~= start + adds);
    }
}

/// Saving tasks with pairwise distinct titles into the empty store ends with
/// exactly those tasks: each title present exactly once.
pub proof fn lemma_saves_isolated(adds: Seq<TodoModel>)
    ensures
        saved_from(Seq::empty(), adds) == adds,
        (forall|i: int, j: int|
            0 <= i < j < adds.len() ==> (#[trigger] adds[i]).title != (#[trigger] adds[j]).title)
            ==> (forall|i: int, j: int|
            0 <= i < j < adds.len() ==> (#[trigger] saved_from(Seq::empty(), adds)[i]).title != (
            #[trigger] saved_from(Seq::empty(), adds)[j]).title),
{
    lemma_saves_accumulate(Seq::empty(), adds);
    assert(Seq::<TodoModel>::empty() + adds =~= adds);
}

/// The storage codec bound to a file path: it maps between the file's
/// content and whole task collections. Reading and writing the file itself
/// is the embedding program's part.
pub struct JsonStorage {
    pub file_path: String,
}

impl JsonStorage {
    /// A storage for the file at the given path.
    pub fn new(file_path: String) -> (s: JsonStorage)
        ensures
            s.file_path@ == file_path@,
    {
        JsonStorage { file_path }
    }

    /// Where the snapshot lives on disk.
    pub fn file_path(&self) -> (r: &String)
        ensures
            r@ == self.file_path@,
    {
        &self.file_path
    }

    /// Decodes a file's content. A missing file (`None`) is no error and no
    /// data; text that is not a canonical snapshot document is a decode
    /// error; otherwise the collection the text stands for.
    pub fn read(&self, content: Option<&str>) -> (r: Result<Option<Vec<Todo>>, DecodeError>)
        ensures
            content is None ==> r == Result::<Option<Vec<Todo>>, DecodeError>::Ok(None),
            content is Some ==> match r {
                Ok(o) => o is Some && snapshot_of(content_view(content)) == Some(
                    models(o->Some_0@),
                ),
                Err(_) => snapshot_of(content_view(content)) is None,
            },
    {
        match content {
            None => Ok(None),
            Some(c) => match decode_todos(c) {
                Ok(v) => {
                    proof {
                        assert(c@ == encode_spec(models(v@)));
                        let x = choose|x: Seq<TodoModel>| c@ == encode_spec(x);
                        lemma_encode_injective(x, models(v@));
                    }
                    Ok(Some(v))
                },
                Err(e) => {
                    proof {
                        if exists|ts: Seq<TodoModel>| c@ == encode_spec(ts) {
                            let ts = choose|ts: Seq<TodoModel>| c@ == encode_spec(ts);
                            assert(false);
                        }
                    }
                    Err(e)
                },
            },
        }
    }

    /// Serializes a collection: the canonical document to be written over
    /// the file, standing for exactly that collection.
    pub fn write(&self, todos: &Vec<Todo>) -> (r: String)
        ensures
            r@ == encode_spec(models(todos@)),
            snapshot_of(Some(r@)) == Some(models(todos@)),
    {
        let out = encode_todos(todos);
        proof {
            lemma_round_trip(models(todos@));
        }
        out
    }
}

/// The repository capability: full-snapshot CRUD over the collection held in
/// a backing text. A backend supplies `stored`, the collection a backing
/// text stands for under its encoding; a missing backing is the empty
/// collection. Alternate backends (in-memory, other encodings) satisfy the
/// same contract.
pub trait TodoRepository: Sized {
    /// The collection a backing text stands for under this backend.
    spec fn stored(&self, content: Option<Seq<char>>) -> Option<Seq<TodoModel>>;

    /// A missing backing stands for the empty collection.
    proof fn stored_missing(&self)
        ensures
            self.stored(None) == Some(Seq::<TodoModel>::empty()),
    ;

    /// Appends the task to the snapshot: the new backing text.
    fn save(&self, content: Option<&str>, todo: &Todo) -> (r: Result<String, DecodeError>)
        ensures
            r is Ok <==> self.stored(content_view(content)) is Some,
            r is Ok ==> self.stored(Some(r->Ok_0@)) == Some(
                self.stored(content_view(content))->Some_0.push(todo@),
            ),
    ;

    /// The whole current snapshot, in file order.
    fn find_all(&self, content: Option<&str>) -> (r: Result<Vec<Todo>, DecodeError>)
        ensures
            r is Ok <==> self.stored(content_view(content)) is Some,
            r is Ok ==> Some(models(r->Ok_0@)) == self.stored(content_view(content)),
    ;

    /// The first task carrying `id`, if any; absence is no error.
    fn find_by_id(&self, content: Option<&str>, id: &String) -> (r: Result<
        Option<Todo>,
        DecodeError,
    >)
        ensures
            r is Ok <==> self.stored(content_view(content)) is Some,
            r is Ok ==> match r->Ok_0 {
                Some(t) => find_first(self.stored(content_view(content))->Some_0, id@) == Some(t@),
                None => find_first(self.stored(content_view(content))->Some_0, id@) is None,
            },
    ;

    /// Removes every task carrying `id`: the new backing text; removing an
    /// absent identifier is a no-op, not an error.
    fn delete(&self, content: Option<&str>, id: &String) -> (r: Result<String, DecodeError>)
        ensures
            r is Ok <==> self.stored(content_view(content)) is Some,
            r is Ok ==> self.stored(Some(r->Ok_0@)) == Some(
                delete_model(self.stored(content_view(content))->Some_0, id@),
            ),
    ;

    /// Replaces the first task carrying the given task's identifier in
    /// place: the new backing text, or `None` (and no write) when no task
    /// carries it — a silent no-op, not an error.
    fn update(&self, content: Option<&str>, todo: &Todo) -> (r: Result<
        Option<String>,
        DecodeError,
    >)
        ensures
            r is Ok <==> self.stored(content_view(content)) is Some,
            r is Ok ==> match r->Ok_0 {
                Some(s) => find_index(self.stored(content_view(content))->Some_0, todo@.id) >= 0
                    && self.stored(Some(s@)) == Some(
                    update_model(self.stored(content_view(content))->Some_0, todo@),
                ),
                None => find_index(self.stored(content_view(content))->Some_0, todo@.id) == -1,
            },
    ;
}

/// The JSON-file backend: the snapshot lives in one file as the canonical
/// snapshot document.
pub struct JsonTodoRepository {
    pub storage: JsonStorage,
}

impl JsonTodoRepository {
    /// A repository over the given storage.
    pub fn new(storage: JsonStorage) -> (r: JsonTodoRepository)
        ensures
            r.storage == storage,
    {
        JsonTodoRepository { storage }
    }

    /// The current collection: a missing file is the empty collection.
    fn load(&self, content: Option<&str>) -> (r: Result<Vec<Todo>, DecodeError>)
        ensures
            r is Ok <==> snapshot_of(content_view(content)) is Some,
            r is Ok ==> Some(models(r->Ok_0@)) == snapshot_of(content_view(content)),
    {
        match self.storage.read(content) {
            Ok(Some(v)) => Ok(v),
            Ok(None) => {
                let v: Vec<Todo> = Vec::new();
                proof {
                    assert(models(v@) =~= Seq::<TodoModel>::empty());
                }
                Ok(v)
            },
            Err(e) => Err(e),
        }
    }
}

impl TodoRepository for JsonTodoRepository {
    open spec fn stored(&self, content: Option<Seq<char>>) -> Option<Seq<TodoModel>> {
        snapshot_of(content)
    }

    proof fn stored_missing(&self) {
    }

    fn save(&self, content: Option<&str>, todo: &Todo) -> (r: Result<String, DecodeError>) {
        let mut data = match self.load(content) {
            Ok(d) => d,
            Err(e) => {
                return Err(e);
            },
        };
        let ghost ts = models(data@);
        data.push(todo.clone());
        let out = self.storage.write(&data);
        proof {
            assert(models(data@) =~= ts.push(todo@));
        }
        Ok(out)
    }

    fn find_all(&self, content: Option<&str>) -> (r: Result<Vec<Todo>, DecodeError>) {
        self.load(content)
    }

    #[verifier::loop_isolation(false)]
    fn find_by_id(&self, content: Option<&str>, id: &String) -> (r: Result<
        Option<Todo>,
        DecodeError,
    >) {
        let mut data = match self.load(content) {
            Ok(d) => d,
            Err(e) => {
                return Err(e);
            },
        };
        let ghost ts = models(data@);
        let mut k: usize = 0;
        while k < data.len()
            invariant
                k <= data@.len(),
                models(data@) == ts,
                data@.len() == ts.len(),
                forall|j: int| 0 <= j < k ==> (#[trigger] ts[j]).id != id@,
            decreases data@.len() - k,
        {
            if data[k].id == *id {
                proof {
                    lemma_find_index(ts, id@);
                    assert(ts[k as int] == data@[k as int]@);
                    assert(ts[k as int].id == id@);
                    assert(find_index(ts, id@) == k as int);
                }
                let t = data.remove(k);
                return Ok(Some(t));
            }
            k = k + 1;
        }
        proof {
            lemma_find_index(ts, id@);
            assert(find_index(ts, id@) == -1);
        }
        Ok(None)
    }

    #[verifier::loop_isolation(false)]
    fn delete(&self, content: Option<&str>, id: &String) -> (r: Result<String, DecodeError>) {
        let data = match self.load(content) {
            Ok(d) => d,
            Err(e) => {
                return Err(e);
            },
        };
        let ghost ts = models(data@);
        let ghost pred = |t: TodoModel| t.id != id@;
        let mut kept: Vec<Todo> = Vec::new();
        let mut k: usize = 0;
        proof {
            reveal(Seq::filter);
            assert(models(kept@) =~= ts.take(0).filter(pred));
        }
        while k < data.len()
            invariant
                k <= data@.len(),
                models(kept@) == ts.take(k as int).filter(pred),
            decreases data@.len() - k,
        {
            let ghost pre = models(kept@);
            proof {
                assert(ts[k as int] == data@[k as int]@);
            }
            let t = &data[k];
            if !(t.id == *id) {
                kept.push(t.clone());
            }
            proof {
                reveal(Seq::filter);
                assert(ts.take(k as int + 1).drop_last() =~= ts.take(k as int));
                assert(ts.take(k as int + 1).last() == ts[k as int]);
                if t@.id != id@ {
                    assert(models(kept@) =~= pre.push(ts[k as int]));
                    assert(models(kept@) =~= ts.take(k as int + 1).filter(pred));
                } else {
                    assert(models(kept@) =~= ts.take(k as int + 1).filter(pred));
                }
            }
            k = k + 1;
        }
        proof {
            assert(ts.take(ts.len() as int) =~= ts);
        }
        let out = self.storage.write(&kept);
        Ok(out)
    }

    #[verifier::loop_isolation(false)]
    fn update(&self, content: Option<&str>, todo: &Todo) -> (r: Result<
        Option<String>,
        DecodeError,
    >) {
        let mut data = match self.load(content) {
            Ok(d) => d,
            Err(e) => {
                return Err(e);
            },
        };
        let ghost ts = models(data@);
        let mut k: usize = 0;
        while k < data.len()
            invariant
                k <= data@.len(),
                data@.len() == ts.len(),
                models(data@) == ts,
                forall|j: int| 0 <= j < k ==> (#[trigger] ts[j]).id != todo@.id,
            decreases data@.len() - k,
        {
            if data[k].id == todo.id {
                proof {
                    lemma_find_index(ts, todo@.id);
                    assert(ts[k as int] == data@[k as int]@);
                    assert(ts[k as int].id == todo@.id);
                    assert(find_index(ts, todo@.id) == k as int);
                }
                data[k] = todo.clone();
                let out = self.storage.write(&data);
                proof {
                    assert(models(data@) =~= ts.update(k as int, todo@));
                }
                return Ok(Some(out));
            }
            k = k + 1;
        }
        proof {
            lemma_find_index(ts, todo@.id);
            assert(find_index(ts, todo@.id) == -1);
        }
        Ok(None)
    }
}

} // verus!
