//! The storage codec: one whole collection of tasks to and from its textual
//! snapshot, a single JSON-style document `{"todos":[...]}` with one record
//! per task. The encoder produces exactly one canonical text for a sequence
//! of tasks, and the decoder accepts exactly those texts, so a snapshot
//! round-trips bit for bit.

use vstd::prelude::*;
use vstd::string::StringExecFns;
use crate::task::{Todo, TodoModel, models};

verus! {

/// The file held a document that is not a well-formed snapshot.
#[derive(Clone, Copy, PartialEq, Eq, Structural, Debug)]
pub struct DecodeError;

impl DecodeError {
    /// A short description for the presentation layer to show.
    pub fn message(&self) -> (r: &'static str)
        ensures
            r@ == "malformed task snapshot"@,
    {
        "malformed task snapshot"
    }
}

/// Relies on String::push, as std documents it: appends the given character
/// to the end of this string.
pub assume_specification[ String::push ](s: &mut String, ch: char)
    ensures
        final(s)@ == old(s)@.push(ch),
;

// The fixed pieces of the snapshot grammar.
pub open spec fn lit_open() -> Seq<char> {
    "{\"todos\":["@
}

pub open spec fn lit_close() -> Seq<char> {
    "]}"@
}

pub open spec fn lit_id() -> Seq<char> {
    "{\"id\":\""@
}

pub open spec fn lit_title() -> Seq<char> {
    ",\"title\":\""@
}

pub open spec fn lit_completed() -> Seq<char> {
    ",\"completed\":"@
}

pub open spec fn lit_true() -> Seq<char> {
    "true"@
}

pub open spec fn lit_false() -> Seq<char> {
    "false"@
}

pub open spec fn lit_created() -> Seq<char> {
    ",\"created_at\":\""@
}

pub open spec fn lit_comma() -> Seq<char> {
    ","@
}

/// How one character of a field is written: quote and backslash get a
/// backslash in front, every other character stands for itself.
pub open spec fn esc_char(c: char) -> Seq<char> {
    if c == '\\' || c == '"' {
        seq!['\\', c]
    } else {
        seq![c]
    }
}

/// A field's text, escaped for embedding between quotes.
pub open spec fn esc(s: Seq<char>) -> Seq<char>
    decreases s.len(),
{
    if s.len() == 0 {
        Seq::empty()
    } else {
        esc_char(s[0]) + esc(s.drop_first())
    }
}

/// Reads an escaped field from the front of `s` up to and including its
/// closing quote: the field's unescaped text and what follows the quote.
/// `None` when `s` holds no well-formed quoted field.
pub open spec fn unesc(s: Seq<char>) -> Option<(Seq<char>, Seq<char>)>
    decreases s.len(),
{
    if s.len() == 0 {
        None
    } else if s[0] == '"' {
        Some((Seq::empty(), s.drop_first()))
    } else if s[0] == '\\' {
        if s.len() >= 2 && (s[1] == '\\' || s[1] == '"') {
            match unesc(s.skip(2)) {
                Some(p) => Some((seq![s[1]] + p.0, p.1)),
                None => None,
            }
        } else {
            None
        }
    } else {
        match unesc(s.drop_first()) {
            Some(p) => Some((seq![s[0]] + p.0, p.1)),
            None => None,
        }
    }
}

pub open spec fn lit_rbrace() -> Seq<char> {
    "}"@
}

/// The text a completion flag is written as.
pub open spec fn bool_lit(b: bool) -> Seq<char> {
    if b {
        lit_true()
    } else {
        lit_false()
    }
}

/// One task as a record of the snapshot document.
pub open spec fn encode_record(t: TodoModel) -> Seq<char> {
    lit_id() + esc(t.id) + seq!['"'] + lit_title() + esc(t.title) + seq!['"'] + lit_completed()
        + bool_lit(t.completed) + lit_created() + esc(t.created_at) + seq!['"'] + lit_rbrace()
}

/// The records of a snapshot, separated by commas.
pub open spec fn encode_records(ts: Seq<TodoModel>) -> Seq<char>
    decreases ts.len(),
{
    if ts.len() == 0 {
        Seq::empty()
    } else if ts.len() == 1 {
        encode_record(ts[0])
    } else {
        encode_record(ts[0]) + lit_comma() + encode_records(ts.drop_first())
    }
}

/// The whole snapshot document for a sequence of tasks: the one canonical
/// text that `write` produces and `read` accepts.
pub open spec fn encode_spec(ts: Seq<TodoModel>) -> Seq<char> {
    lit_open() + encode_records(ts) + lit_close()
}

/// Escaping distributes over concatenation.
proof fn lemma_esc_add(a: Seq<char>, b: Seq<char>)
    ensures
        esc(a + b) == esc(a) + esc(b),
    decreases a.len(),
{
    if a.len() == 0 {
        assert(a + b =~= b);
        assert(esc(a) + esc(b) =~= esc(b));
    } else {
        assert((a + b).drop_first() =~= a.drop_first() + b);
        lemma_esc_add(a.drop_first(), b);
        assert(esc(a + b) =~= esc(a) + esc(b));
    }
}

/// Reading back an escaped field finds exactly the original text and leaves
/// exactly what followed it.
proof fn lemma_unesc_esc(t: Seq<char>, rest: Seq<char>)
    ensures
        unesc(esc(t) + seq!['"'] + rest) == Some((t, rest)),
    decreases t.len(),
{
    let s = esc(t) + seq!['"'] + rest;
    if t.len() == 0 {
        assert(s =~= seq!['"'] + rest);
        assert(s[0] == '"');
        assert(s.drop_first() =~= rest);
    } else {
        lemma_unesc_esc(t.drop_first(), rest);
        let tail = esc(t.drop_first()) + seq!['"'] + rest;
        if t[0] == '\\' || t[0] == '"' {
            assert(s =~= seq!['\\', t[0]] + tail);
            assert(s[0] == '\\' && s[1] == t[0]);
            assert(s.skip(2) =~= tail);
            assert(seq![s[1]] + t.drop_first() =~= t);
        } else {
            assert(s =~= seq![t[0]] + tail);
            assert(s[0] == t[0]);
            assert(s.drop_first() =~= tail);
            assert(seq![s[0]] + t.drop_first() =~= t);
        }
    }
}

/// Escaping a single character is exactly its escaped form.
proof fn lemma_esc_single(c: char)
    ensures
        esc(seq![c]) == esc_char(c),
{
    assert(seq![c].drop_first() =~= Seq::<char>::empty());
    assert(esc(Seq::<char>::empty()) =~= Seq::<char>::empty());
    assert(esc(seq![c]) =~= esc_char(c));
}

/// A successful read of an escaped field pins the input down: it was exactly
/// the escaped text, the quote, and the rest.
proof fn lemma_unesc_canon(s: Seq<char>)
    ensures
        unesc(s) matches Some(p) ==> s == esc(p.0) + seq!['"'] + p.1 && p.1.len() < s.len(),
    decreases s.len(),
{
    if s.len() == 0 {
    } else if s[0] == '"' {
        if unesc(s) is Some {
            let p = unesc(s)->Some_0;
            assert(s =~= esc(p.0) + seq!['"'] + p.1);
        }
    } else if s[0] == '\\' {
        if s.len() >= 2 && (s[1] == '\\' || s[1] == '"') {
            lemma_unesc_canon(s.skip(2));
            if unesc(s) is Some {
                let p = unesc(s)->Some_0;
                let q = unesc(s.skip(2))->Some_0;
                assert(esc_char(s[1]) =~= seq!['\\', s[1]]);
                assert(esc(seq![s[1]] + q.0) == esc(seq![s[1]]) + esc(q.0)) by {
                    lemma_esc_add(seq![s[1]], q.0);
                }
                lemma_esc_single(s[1]);
                let rhs = esc(p.0) + seq!['"'] + p.1;
                assert(esc(p.0) == seq!['\\', s[1]] + esc(q.0));
                assert forall|k: int| 0 <= k < s.len() implies s[k] == rhs[k] by {
                    if k >= 2 {
                        assert(s.skip(2)[k - 2] == s[k]);
                    }
                }
                assert(s =~= rhs);
            }
        }
    } else {
        lemma_unesc_canon(s.drop_first());
        if unesc(s) is Some {
            let p = unesc(s)->Some_0;
            let q = unesc(s.drop_first())->Some_0;
            assert(esc(seq![s[0]] + q.0) == esc(seq![s[0]]) + esc(q.0)) by {
                lemma_esc_add(seq![s[0]], q.0);
            }
            lemma_esc_single(s[0]);
            assert(esc_char(s[0]) =~= seq![s[0]]);
            let rhs = esc(p.0) + seq!['"'] + p.1;
            assert(esc(p.0) == seq![s[0]] + esc(q.0));
            assert forall|k: int| 0 <= k < s.len() implies s[k] == rhs[k] by {
                if k >= 1 {
                    assert(s.drop_first()[k - 1] == s[k]);
                }
            }
            assert(s =~= rhs);
        }
    }
}

/// Prepending already-read text onto the outcome of reading the remainder.
spec fn opt_prepend(p: Seq<char>, o: Option<(Seq<char>, Seq<char>)>) -> Option<
    (Seq<char>, Seq<char>),
> {
    match o {
        Some(q) => Some((p + q.0, q.1)),
        None => None,
    }
}

/// Matches the fixed text `lit` at position `i` of `s`: the position after
/// it, or `None` when `lit` does not stand there.
fn expect_lit(s: &str, i: usize, n: usize, lit: &str) -> (r: Option<usize>)
    requires
        n == s@.len(),
        i <= n,
    ensures
        match r {
            Some(j) => i <= j <= n && j - i == lit@.len() && s@.subrange(i as int, j as int)
                == lit@,
            None => !lit@.is_prefix_of(s@.skip(i as int)),
        },
{
    let m = lit.unicode_len();
    if m > n - i {
        assert(s@.skip(i as int).len() < lit@.len());
        return None;
    }
    let mut k: usize = 0;
    while k < m
        invariant
            n == s@.len(),
            i <= n,
            m == lit@.len(),
            m <= n - i,
            k <= m,
            forall|x: int| 0 <= x < k ==> s@[i + x] == lit@[x],
        decreases m - k,
    {
        let c = s.get_char(i + k);
        let d = lit.get_char(k);
        if c != d {
            assert(!lit@.is_prefix_of(s@.skip(i as int))) by {
                assert(s@.skip(i as int)[k as int] == s@[i + k]);
            }
            return None;
        }
        k = k + 1;
    }
    assert(s@.subrange(i as int, (i + m) as int) =~= lit@);
    Some(i + m)
}

/// Reads one quoted, escaped field starting at position `i` (just after its
/// opening quote): the field's text and the position after its closing
/// quote.
fn parse_string(s: &str, i: usize, n: usize) -> (r: Option<(String, usize)>)
    requires
        n == s@.len(),
        i <= n,
    ensures
        match r {
            Some(p) => i <= p.1 <= n && unesc(s@.skip(i as int)) == Some(
                (p.0@, s@.skip(p.1 as int)),
            ),
            None => unesc(s@.skip(i as int)) is None,
        },
{
    let mut acc = String::new();
    let mut cur = i;
    loop
        invariant
            n == s@.len(),
            i <= cur <= n,
            unesc(s@.skip(i as int)) == opt_prepend(acc@, unesc(s@.skip(cur as int))),
        decreases n - cur,
    {
        if cur == n {
            assert(s@.skip(cur as int) =~= Seq::<char>::empty());
            return None;
        }
        let c = s.get_char(cur);
        assert(s@.skip(cur as int)[0] == c);
        if c == '"' {
            assert(s@.skip(cur as int).drop_first() =~= s@.skip(cur + 1));
            assert(acc@ + Seq::<char>::empty() =~= acc@);
            return Some((acc, cur + 1));
        } else if c == '\\' {
            if n - cur < 2 {
                assert(unesc(s@.skip(cur as int)) is None);
                return None;
            }
            let c2 = s.get_char(cur + 1);
            assert(s@.skip(cur as int)[1] == c2);
            if c2 == '\\' || c2 == '"' {
                proof {
                    assert(s@.skip(cur as int).skip(2) =~= s@.skip(cur + 2));
                    if unesc(s@.skip(cur + 2)) is Some {
                        let q = unesc(s@.skip(cur + 2))->Some_0;
                        assert(acc@ + (seq![c2] + q.0) =~= acc@.push(c2) + q.0);
                    }
                }
                acc.push(c2);
                cur = cur + 2;
            } else {
                return None;
            }
        } else {
            proof {
                assert(s@.skip(cur as int).drop_first() =~= s@.skip(cur + 1));
                if unesc(s@.skip(cur + 1)) is Some {
                    let q = unesc(s@.skip(cur + 1))->Some_0;
                    assert(acc@ + (seq![c] + q.0) =~= acc@.push(c) + q.0);
                }
            }
            acc.push(c);
            cur = cur + 1;
        }
    }
}

// What follows each already-read piece of a record, when the text after the
// whole record is `r`. Each tail starts with the fixed text the reader
// expects next, so reading a record is a chain of these shapes.
spec fn tail_after_created(r: Seq<char>) -> Seq<char> {
    lit_rbrace() + r
}

spec fn tail_after_bool(t: TodoModel, r: Seq<char>) -> Seq<char> {
    lit_created() + (esc(t.created_at) + seq!['"'] + tail_after_created(r))
}

spec fn tail_after_title(t: TodoModel, r: Seq<char>) -> Seq<char> {
    lit_completed() + (bool_lit(t.completed) + tail_after_bool(t, r))
}

spec fn tail_after_id(t: TodoModel, r: Seq<char>) -> Seq<char> {
    lit_title() + (esc(t.title) + seq!['"'] + tail_after_title(t, r))
}

/// A sequence is a prefix of itself followed by anything.
proof fn lemma_prefix_of_concat(a: Seq<char>, b: Seq<char>)
    ensures
        a.is_prefix_of(a + b),
{
    assert((a + b).subrange(0, a.len() as int) =~= a);
}

/// Dropping a concatenation's first part leaves its second.
proof fn lemma_concat_skip(a: Seq<char>, b: Seq<char>)
    ensures
        (a + b).skip(a.len() as int) == b,
{
    assert((a + b).skip(a.len() as int) =~= b);
}

/// A suffix of `s` splits at any nearer position into a subrange and a
/// further suffix.
proof fn lemma_subrange_to_skip(s: Seq<char>, i: int, j: int)
    requires
        0 <= i <= j <= s.len(),
    ensures
        s.skip(i) == s.subrange(i, j) + s.skip(j),
{
    assert(s.skip(i) =~= s.subrange(i, j) + s.skip(j));
}

/// When the suffix at `p` starts with a known chunk, the suffix after the
/// chunk is what follows it.
proof fn lemma_skip_chunk(s: Seq<char>, p: int, chunk: Seq<char>, tail: Seq<char>)
    requires
        0 <= p <= s.len(),
        s.skip(p) == chunk + tail,
    ensures
        p + chunk.len() <= s.len(),
        s.skip(p + chunk.len()) == tail,
{
    assert(s.skip(p).len() == s.len() - p);
    assert forall|k: int| 0 <= k < tail.len() implies s.skip(p + chunk.len())[k] == tail[k] by {
        assert(s.skip(p)[chunk.len() + k] == (chunk + tail)[chunk.len() + k]);
        assert(s.skip(p)[chunk.len() + k] == s[p + chunk.len() + k]);
        assert(s.skip(p + chunk.len())[k] == s[p + chunk.len() + k]);
    }
    assert(s.skip(p + chunk.len()) =~= tail);
}

/// A record followed by `r` regrouped into the reader's first step: the `id`
/// key, then the escaped identifier, its quote, and the rest.
proof fn lemma_record_decomp(t: TodoModel, r: Seq<char>)
    ensures
        encode_record(t) + r == lit_id() + (esc(t.id) + seq!['"'] + tail_after_id(t, r)),
{
    assert(encode_record(t) + r =~= lit_id() + (esc(t.id) + seq!['"'] + tail_after_id(t, r)));
}

/// Every shape the reader meets while walking a record that is followed by
/// `r`: each stage starts with its fixed text, and each escaped field reads
/// back as itself.
proof fn lemma_hyp_stages(s: Seq<char>, i: int, t: TodoModel, r: Seq<char>)
    requires
        0 <= i <= s.len(),
        s.skip(i) == encode_record(t) + r,
    ensures
        lit_id().is_prefix_of(s.skip(i)),
        i + lit_id().len() <= s.len(),
        unesc(s.skip(i + lit_id().len())) == Some((t.id, tail_after_id(t, r))),
        lit_title().is_prefix_of(tail_after_id(t, r)),
        tail_after_id(t, r).skip(lit_title().len() as int) == esc(t.title) + seq!['"']
            + tail_after_title(t, r),
        unesc(esc(t.title) + seq!['"'] + tail_after_title(t, r)) == Some(
            (t.title, tail_after_title(t, r)),
        ),
        lit_completed().is_prefix_of(tail_after_title(t, r)),
        tail_after_title(t, r).skip(lit_completed().len() as int) == bool_lit(t.completed)
            + tail_after_bool(t, r),
        bool_lit(t.completed).is_prefix_of(bool_lit(t.completed) + tail_after_bool(t, r)),
        lit_created().is_prefix_of(tail_after_bool(t, r)),
        tail_after_bool(t, r).skip(lit_created().len() as int) == esc(t.created_at) + seq!['"']
            + tail_after_created(r),
        unesc(esc(t.created_at) + seq!['"'] + tail_after_created(r)) == Some(
            (t.created_at, tail_after_created(r)),
        ),
        lit_rbrace().is_prefix_of(tail_after_created(r)),
        tail_after_created(r).skip(lit_rbrace().len() as int) == r,
{
    lemma_record_decomp(t, r);
    lemma_prefix_of_concat(lit_id(), esc(t.id) + seq!['"'] + tail_after_id(t, r));
    lemma_skip_chunk(s, i, lit_id(), esc(t.id) + seq!['"'] + tail_after_id(t, r));
    lemma_unesc_esc(t.id, tail_after_id(t, r));
    lemma_prefix_of_concat(lit_title(), esc(t.title) + seq!['"'] + tail_after_title(t, r));
    lemma_concat_skip(lit_title(), esc(t.title) + seq!['"'] + tail_after_title(t, r));
    lemma_unesc_esc(t.title, tail_after_title(t, r));
    lemma_prefix_of_concat(lit_completed(), bool_lit(t.completed) + tail_after_bool(t, r));
    lemma_concat_skip(lit_completed(), bool_lit(t.completed) + tail_after_bool(t, r));
    lemma_prefix_of_concat(bool_lit(t.completed), tail_after_bool(t, r));
    lemma_prefix_of_concat(lit_created(), esc(t.created_at) + seq!['"'] + tail_after_created(r));
    lemma_concat_skip(lit_created(), esc(t.created_at) + seq!['"'] + tail_after_created(r));
    lemma_unesc_esc(t.created_at, tail_after_created(r));
    lemma_prefix_of_concat(lit_rbrace(), r);
    lemma_concat_skip(lit_rbrace(), r);
}

/// A record's text determines the task and where the following text begins:
/// two readings of the same characters agree on both.
proof fn lemma_record_unique(t1: TodoModel, r1: Seq<char>, t2: TodoModel, r2: Seq<char>)
    requires
        encode_record(t1) + r1 == encode_record(t2) + r2,
    ensures
        t1 == t2,
        r1 == r2,
{
    let s0 = encode_record(t1) + r1;
    assert(s0.skip(0) =~= s0);
    lemma_hyp_stages(s0, 0, t1, r1);
    lemma_hyp_stages(s0, 0, t2, r2);
    assert(t1.id == t2.id && tail_after_id(t1, r1) == tail_after_id(t2, r2));
    assert(tail_after_id(t1, r1).skip(lit_title().len() as int) == tail_after_id(t2, r2).skip(
        lit_title().len() as int,
    ));
    lemma_unesc_esc(t1.title, tail_after_title(t1, r1));
    lemma_unesc_esc(t2.title, tail_after_title(t2, r2));
    assert(t1.title == t2.title && tail_after_title(t1, r1) == tail_after_title(t2, r2));
    assert(tail_after_title(t1, r1).skip(lit_completed().len() as int) == tail_after_title(
        t2,
        r2,
    ).skip(lit_completed().len() as int));
    if t1.completed != t2.completed {
        reveal_strlit("true");
        reveal_strlit("false");
        assert((bool_lit(t1.completed) + tail_after_bool(t1, r1))[0] == bool_lit(t1.completed)[0]);
        assert((bool_lit(t2.completed) + tail_after_bool(t2, r2))[0] == bool_lit(t2.completed)[0]);
        assert(false);
    }
    lemma_concat_skip(bool_lit(t1.completed), tail_after_bool(t1, r1));
    lemma_concat_skip(bool_lit(t2.completed), tail_after_bool(t2, r2));
    assert(tail_after_bool(t1, r1) == tail_after_bool(t2, r2));
    assert(tail_after_bool(t1, r1).skip(lit_created().len() as int) == tail_after_bool(t2, r2).skip(
        lit_created().len() as int,
    ));
    lemma_unesc_esc(t1.created_at, tail_after_created(r1));
    lemma_unesc_esc(t2.created_at, tail_after_created(r2));
    assert(t1.created_at == t2.created_at && tail_after_created(r1) == tail_after_created(r2));
    lemma_concat_skip(lit_rbrace(), r1);
    lemma_concat_skip(lit_rbrace(), r2);
}

/// No two different record lists write the same document body.
proof fn lemma_records_close_inj(a: Seq<TodoModel>, b: Seq<TodoModel>)
    requires
        encode_records(a) + lit_close() == encode_records(b) + lit_close(),
    ensures
        a == b,
    decreases a.len(),
{
    reveal_strlit("]}");
    reveal_strlit(",");
    reveal_strlit("{\"id\":\"");
    if a.len() == 0 {
        if b.len() != 0 {
            lemma_records_front(b);
            lemma_record_decomp(b[0], rec_rest(b));
            assert(encode_records(a) == Seq::<char>::empty());
            assert(encode_records(a) + lit_close() =~= lit_close());
            assert((encode_records(a) + lit_close())[0] == ']');
            assert((encode_record(b[0]) + rec_rest(b))[0] == lit_id()[0]);
            assert(false);
        }
        assert(a =~= b);
    } else if b.len() == 0 {
        lemma_records_front(a);
        lemma_record_decomp(a[0], rec_rest(a));
        assert(encode_records(b) == Seq::<char>::empty());
        assert(encode_records(b) + lit_close() =~= lit_close());
        assert((encode_records(b) + lit_close())[0] == ']');
        assert((encode_record(a[0]) + rec_rest(a))[0] == lit_id()[0]);
        assert(false);
    } else {
        lemma_records_front(a);
        lemma_records_front(b);
        lemma_record_unique(a[0], rec_rest(a), b[0], rec_rest(b));
        if a.len() == 1 && b.len() >= 2 {
            assert(rec_rest(a)[0] == ']');
            assert(rec_rest(b)[0] == ',');
            assert(false);
        }
        if b.len() == 1 && a.len() >= 2 {
            assert(rec_rest(a)[0] == ',');
            assert(rec_rest(b)[0] == ']');
            assert(false);
        }
        if a.len() == 1 && b.len() == 1 {
            assert(a =~= b);
        } else {
            lemma_concat_skip(lit_comma(), encode_records(a.drop_first()) + lit_close());
            lemma_concat_skip(lit_comma(), encode_records(b.drop_first()) + lit_close());
            lemma_records_close_inj(a.drop_first(), b.drop_first());
            assert(a.len() == b.len());
            assert forall|i: int| 0 <= i < a.len() implies a[i] == b[i] by {
                if i > 0 {
                    assert(a.drop_first()[i - 1] == a[i]);
                    assert(b.drop_first()[i - 1] == b[i]);
                }
            }
            assert(a =~= b);
        }
    }
}

/// One collection, one document: equal snapshot texts stand for equal task
/// sequences.
pub proof fn lemma_encode_injective(a: Seq<TodoModel>, b: Seq<TodoModel>)
    requires
        encode_spec(a) == encode_spec(b),
    ensures
        a == b,
{
    let s = encode_spec(a);
    assert(s.skip(0) =~= s);
    assert(encode_spec(a) =~= lit_open() + (encode_records(a) + lit_close()));
    assert(encode_spec(b) =~= lit_open() + (encode_records(b) + lit_close()));
    lemma_skip_chunk(s, 0, lit_open(), encode_records(a) + lit_close());
    lemma_skip_chunk(s, 0, lit_open(), encode_records(b) + lit_close());
    lemma_records_close_inj(a, b);
}

/// Reads one task record starting at position `i`: the task and the position
/// after the record's closing brace. The suffix at `i` starts with the
/// record's canonical text exactly when the read succeeds, and that text
/// determines the task.
#[verifier::rlimit(100)]
fn parse_record(s: &str, i: usize, n: usize) -> (r: Option<(Todo, usize)>)
    requires
        n == s@.len(),
        i <= n,
    ensures
        match r {
            Some(p) => {
                &&& i < p.1 <= n
                &&& s@.skip(i as int) == encode_record(p.0@) + s@.skip(p.1 as int)
                &&& forall|t2: TodoModel, r2: Seq<char>|
                    s@.skip(i as int) == #[trigger] (encode_record(t2) + r2) ==> t2 == p.0@ && r2
                        == s@.skip(p.1 as int)
            },
            None => forall|t2: TodoModel, r2: Seq<char>|
                s@.skip(i as int) != #[trigger] (encode_record(t2) + r2),
        },
{
    let i1 = match expect_lit(s, i, n, "{\"id\":\"") {
        Some(j) => j,
        None => {
            proof {
                assert forall|t2: TodoModel, r2: Seq<char>|
                    s@.skip(i as int) != #[trigger] (encode_record(t2) + r2) by {
                    if s@.skip(i as int) == encode_record(t2) + r2 {
                        lemma_hyp_stages(s@, i as int, t2, r2);
                    }
                }
            }
            return None;
        },
    };
    let (id, i2) = match parse_string(s, i1, n) {
        Some(p) => p,
        None => {
            proof {
                assert forall|t2: TodoModel, r2: Seq<char>|
                    s@.skip(i as int) != #[trigger] (encode_record(t2) + r2) by {
                    if s@.skip(i as int) == encode_record(t2) + r2 {
                        lemma_hyp_stages(s@, i as int, t2, r2);
                    }
                }
            }
            return None;
        },
    };
    let i3 = match expect_lit(s, i2, n, ",\"title\":\"") {
        Some(j) => j,
        None => {
            proof {
                assert forall|t2: TodoModel, r2: Seq<char>|
                    s@.skip(i as int) != #[trigger] (encode_record(t2) + r2) by {
                    if s@.skip(i as int) == encode_record(t2) + r2 {
                        lemma_hyp_stages(s@, i as int, t2, r2);
                        assert(s@.skip(i2 as int) == tail_after_id(t2, r2));
                    }
                }
            }
            return None;
        },
    };
    let (title, i4) = match parse_string(s, i3, n) {
        Some(p) => p,
        None => {
            proof {
                assert forall|t2: TodoModel, r2: Seq<char>|
                    s@.skip(i as int) != #[trigger] (encode_record(t2) + r2) by {
                    if s@.skip(i as int) == encode_record(t2) + r2 {
                        lemma_hyp_stages(s@, i as int, t2, r2);
                        assert(s@.skip(i2 as int) == tail_after_id(t2, r2));
                        lemma_skip_chunk(
                            s@,
                            i2 as int,
                            lit_title(),
                            esc(t2.title) + seq!['"'] + tail_after_title(t2, r2),
                        );
                    }
                }
            }
            return None;
        },
    };
    let i5 = match expect_lit(s, i4, n, ",\"completed\":") {
        Some(j) => j,
        None => {
            proof {
                assert forall|t2: TodoModel, r2: Seq<char>|
                    s@.skip(i as int) != #[trigger] (encode_record(t2) + r2) by {
                    if s@.skip(i as int) == encode_record(t2) + r2 {
                        lemma_hyp_stages(s@, i as int, t2, r2);
                        assert(s@.skip(i2 as int) == tail_after_id(t2, r2));
                        lemma_skip_chunk(
                            s@,
                            i2 as int,
                            lit_title(),
                            esc(t2.title) + seq!['"'] + tail_after_title(t2, r2),
                        );
                        assert(s@.skip(i4 as int) == tail_after_title(t2, r2));
                    }
                }
            }
            return None;
        },
    };
    let (completed, i6) = match expect_lit(s, i5, n, "true") {
        Some(j) => (true, j),
        None => match expect_lit(s, i5, n, "false") {
            Some(j) => (false, j),
            None => {
                proof {
                    assert forall|t2: TodoModel, r2: Seq<char>|
                        s@.skip(i as int) != #[trigger] (encode_record(t2) + r2) by {
                        if s@.skip(i as int) == encode_record(t2) + r2 {
                            lemma_hyp_stages(s@, i as int, t2, r2);
                            assert(s@.skip(i2 as int) == tail_after_id(t2, r2));
                            lemma_skip_chunk(
                                s@,
                                i2 as int,
                                lit_title(),
                                esc(t2.title) + seq!['"'] + tail_after_title(t2, r2),
                            );
                            assert(s@.skip(i4 as int) == tail_after_title(t2, r2));
                            lemma_skip_chunk(
                                s@,
                                i4 as int,
                                lit_completed(),
                                bool_lit(t2.completed) + tail_after_bool(t2, r2),
                            );
                            assert(bool_lit(t2.completed).is_prefix_of(s@.skip(i5 as int)));
                        }
                    }
                }
                return None;
            },
        },
    };
    proof {
        assert(s@.subrange(i5 as int, i6 as int) == bool_lit(completed));
        assert(i6 - i5 == bool_lit(completed).len());
    }
    let i7 = match expect_lit(s, i6, n, ",\"created_at\":\"") {
        Some(j) => j,
        None => {
            proof {
                assert forall|t2: TodoModel, r2: Seq<char>|
                    s@.skip(i as int) != #[trigger] (encode_record(t2) + r2) by {
                    if s@.skip(i as int) == encode_record(t2) + r2 {
                        lemma_hyp_stages(s@, i as int, t2, r2);
                        assert(s@.skip(i2 as int) == tail_after_id(t2, r2));
                        lemma_skip_chunk(
                            s@,
                            i2 as int,
                            lit_title(),
                            esc(t2.title) + seq!['"'] + tail_after_title(t2, r2),
                        );
                        assert(s@.skip(i4 as int) == tail_after_title(t2, r2));
                        lemma_skip_chunk(
                            s@,
                            i4 as int,
                            lit_completed(),
                            bool_lit(t2.completed) + tail_after_bool(t2, r2),
                        );
                        lemma_bool_agrees(s@, i5 as int, i6 as int, t2.completed, completed);
                        lemma_skip_chunk(
                            s@,
                            i5 as int,
                            bool_lit(t2.completed),
                            tail_after_bool(t2, r2),
                        );
                        assert(s@.skip(i6 as int) == tail_after_bool(t2, r2));
                    }
                }
            }
            return None;
        },
    };
    let (created_at, i8) = match parse_string(s, i7, n) {
        Some(p) => p,
        None => {
            proof {
                assert forall|t2: TodoModel, r2: Seq<char>|
                    s@.skip(i as int) != #[trigger] (encode_record(t2) + r2) by {
                    if s@.skip(i as int) == encode_record(t2) + r2 {
                        lemma_hyp_stages(s@, i as int, t2, r2);
                        assert(s@.skip(i2 as int) == tail_after_id(t2, r2));
                        lemma_skip_chunk(
                            s@,
                            i2 as int,
                            lit_title(),
                            esc(t2.title) + seq!['"'] + tail_after_title(t2, r2),
                        );
                        assert(s@.skip(i4 as int) == tail_after_title(t2, r2));
                        lemma_skip_chunk(
                            s@,
                            i4 as int,
                            lit_completed(),
                            bool_lit(t2.completed) + tail_after_bool(t2, r2),
                        );
                        lemma_bool_agrees(s@, i5 as int, i6 as int, t2.completed, completed);
                        lemma_skip_chunk(
                            s@,
                            i5 as int,
                            bool_lit(t2.completed),
                            tail_after_bool(t2, r2),
                        );
                        assert(s@.skip(i6 as int) == tail_after_bool(t2, r2));
                        lemma_skip_chunk(
                            s@,
                            i6 as int,
                            lit_created(),
                            esc(t2.created_at) + seq!['"'] + tail_after_created(r2),
                        );
                    }
                }
            }
            return None;
        },
    };
    let i9 = match expect_lit(s, i8, n, "}") {
        Some(j) => j,
        None => {
            proof {
                assert forall|t2: TodoModel, r2: Seq<char>|
                    s@.skip(i as int) != #[trigger] (encode_record(t2) + r2) by {
                    if s@.skip(i as int) == encode_record(t2) + r2 {
                        lemma_hyp_stages(s@, i as int, t2, r2);
                        assert(s@.skip(i2 as int) == tail_after_id(t2, r2));
                        lemma_skip_chunk(
                            s@,
                            i2 as int,
                            lit_title(),
                            esc(t2.title) + seq!['"'] + tail_after_title(t2, r2),
                        );
                        assert(s@.skip(i4 as int) == tail_after_title(t2, r2));
                        lemma_skip_chunk(
                            s@,
                            i4 as int,
                            lit_completed(),
                            bool_lit(t2.completed) + tail_after_bool(t2, r2),
                        );
                        lemma_bool_agrees(s@, i5 as int, i6 as int, t2.completed, completed);
                        lemma_skip_chunk(
                            s@,
                            i5 as int,
                            bool_lit(t2.completed),
                            tail_after_bool(t2, r2),
                        );
                        assert(s@.skip(i6 as int) == tail_after_bool(t2, r2));
                        lemma_skip_chunk(
                            s@,
                            i6 as int,
                            lit_created(),
                            esc(t2.created_at) + seq!['"'] + tail_after_created(r2),
                        );
                        assert(s@.skip(i8 as int) == tail_after_created(r2));
                    }
                }
            }
            return None;
        },
    };
    let todo = Todo { id, title, completed, created_at };
    proof {
        let tm = todo@;
        lemma_subrange_to_skip(s@, i as int, i1 as int);
        lemma_unesc_canon(s@.skip(i1 as int));
        lemma_subrange_to_skip(s@, i2 as int, i3 as int);
        lemma_unesc_canon(s@.skip(i3 as int));
        lemma_subrange_to_skip(s@, i4 as int, i5 as int);
        lemma_subrange_to_skip(s@, i5 as int, i6 as int);
        lemma_subrange_to_skip(s@, i6 as int, i7 as int);
        lemma_unesc_canon(s@.skip(i7 as int));
        lemma_subrange_to_skip(s@, i8 as int, i9 as int);
        assert(tail_after_created(s@.skip(i9 as int)) == s@.skip(i8 as int));
        assert(tail_after_bool(tm, s@.skip(i9 as int)) == s@.skip(i6 as int));
        assert(tail_after_title(tm, s@.skip(i9 as int)) == s@.skip(i4 as int));
        assert(tail_after_id(tm, s@.skip(i9 as int)) == s@.skip(i2 as int));
        lemma_record_decomp(tm, s@.skip(i9 as int));
        assert(s@.skip(i as int) == encode_record(tm) + s@.skip(i9 as int));
        assert forall|t2: TodoModel, r2: Seq<char>|
            s@.skip(i as int) == #[trigger] (encode_record(t2) + r2) implies t2 == tm && r2
            == s@.skip(i9 as int) by {
            lemma_record_unique(tm, s@.skip(i9 as int), t2, r2);
        }
    }
    Some((todo, i9))
}

/// What the already-written records of a snapshot look like while another
/// record is still expected: nothing yet, or the records and the comma that
/// announces the next one.
spec fn enc_mid(ts: Seq<TodoModel>) -> Seq<char> {
    if ts.len() == 0 {
        Seq::empty()
    } else {
        encode_records(ts) + lit_comma()
    }
}

/// What follows the first record of a non-empty record list, with the
/// document's closing text after it.
spec fn rec_rest(ts: Seq<TodoModel>) -> Seq<char> {
    if ts.len() == 1 {
        lit_close()
    } else {
        lit_comma() + (encode_records(ts.drop_first()) + lit_close())
    }
}

/// Appending one more record to an encoded record list.
proof fn lemma_records_push(ts: Seq<TodoModel>, t: TodoModel)
    ensures
        encode_records(ts.push(t)) == if ts.len() == 0 {
            encode_record(t)
        } else {
            encode_records(ts) + lit_comma() + encode_record(t)
        },
    decreases ts.len(),
{
    if ts.len() == 0 {
        assert(ts.push(t)[0] == t);
    } else {
        assert(ts.push(t).drop_first() =~= ts.drop_first().push(t));
        lemma_records_push(ts.drop_first(), t);
        if ts.len() == 1 {
            assert(encode_records(ts.push(t)) == encode_record(ts[0]) + lit_comma()
                + encode_record(t));
        } else {
            assert(encode_records(ts.push(t)) =~= encode_records(ts) + lit_comma()
                + encode_record(t));
        }
    }
}

/// A non-empty encoded record list with the closing text regrouped into its
/// first record and everything after it.
proof fn lemma_records_front(ts: Seq<TodoModel>)
    requires
        ts.len() > 0,
    ensures
        encode_records(ts) + lit_close() == encode_record(ts[0]) + rec_rest(ts),
{
    if ts.len() == 1 {
    } else {
        assert(encode_records(ts) + lit_close() =~= encode_record(ts[0]) + rec_rest(ts));
    }
}

/// When the text at `p` is one of the two flag spellings and the reader has
/// matched the spelling `got`, the written flag was `got`.
proof fn lemma_bool_agrees(s: Seq<char>, p: int, q: int, wrote: bool, got: bool)
    requires
        0 <= p <= q <= s.len(),
        bool_lit(wrote).is_prefix_of(s.skip(p)),
        s.subrange(p, q) == bool_lit(got),
    ensures
        wrote == got,
{
    reveal_strlit("true");
    reveal_strlit("false");
    assert(bool_lit(true).len() == 4);
    assert(bool_lit(false).len() == 5);
    assert(bool_lit(true)[0] == 't');
    assert(bool_lit(false)[0] == 'f');
    if wrote != got {
        let w = bool_lit(wrote).len() as int;
        assert(bool_lit(wrote) =~= s.skip(p).subrange(0, w));
        assert(bool_lit(wrote)[0] == s.skip(p)[0]);
        assert(s.skip(p)[0] == s[p]);
        assert(q - p == bool_lit(got).len());
        assert(s.subrange(p, q)[0] == s[p]);
        assert(false);
    }
}

/// Writes a field's text onto `out`, escaped for the snapshot format.
fn push_escaped(out: &mut String, field: &str)
    ensures
        final(out)@ == old(out)@ + esc(field@),
{
    let n = field.unicode_len();
    let mut k: usize = 0;
    while k < n
        invariant
            n == field@.len(),
            k <= n,
            out@ == old(out)@ + esc(field@.take(k as int)),
        decreases n - k,
    {
        let c = field.get_char(k);
        let ghost pre = out@;
        if c == '"' || c == '\\' {
            out.push('\\');
            out.push(c);
            proof {
                assert(out@ =~= pre + esc_char(c));
            }
        } else {
            out.push(c);
            proof {
                assert(out@ =~= pre + esc_char(c));
            }
        }
        proof {
            assert(field@.take(k as int + 1) =~= field@.take(k as int) + seq![c]);
            lemma_esc_add(field@.take(k as int), seq![c]);
            lemma_esc_single(c);
            assert(out@ =~= old(out)@ + esc(field@.take(k as int + 1)));
        }
        k = k + 1;
    }
    proof {
        assert(field@.take(n as int) =~= field@);
    }
}

/// Writes one task onto `out` as its canonical record text.
#[verifier::rlimit(30)]
fn push_record(out: &mut String, t: &Todo)
    ensures
        final(out)@ == old(out)@ + encode_record(t@),
{
    out.append("{\"id\":\"");
    push_escaped(out, t.id.as_str());
    out.append("\"");
    out.append(",\"title\":\"");
    push_escaped(out, t.title.as_str());
    out.append("\"");
    out.append(",\"completed\":");
    if t.completed {
        out.append("true");
    } else {
        out.append("false");
    }
    out.append(",\"created_at\":\"");
    push_escaped(out, t.created_at.as_str());
    out.append("\"");
    out.append("}");
    proof {
        reveal_strlit("\"");
        assert("\""@ =~= seq!['"']);
        assert(out@ =~= old(out)@ + encode_record(t@));
    }
}

/// In the document of a non-empty collection, the first record's opening
/// brace stands right after the document's opening text.
proof fn lemma_open_list_head(s: Seq<char>, i0: int, ts: Seq<TodoModel>)
    requires
        s == encode_spec(ts),
        ts.len() > 0,
        i0 == lit_open().len(),
    ensures
        i0 < s.len(),
        s[i0] == '{',
{
    assert(s.skip(0) =~= s);
    assert(encode_spec(ts) =~= lit_open() + (encode_records(ts) + lit_close()));
    lemma_skip_chunk(s, 0, lit_open(), encode_records(ts) + lit_close());
    lemma_records_front(ts);
    lemma_record_decomp(ts[0], rec_rest(ts));
    reveal_strlit("{\"id\":\"");
    assert(lit_id().len() == 7);
    assert(lit_id()[0] == '{');
    assert(s.skip(i0).len() >= 7);
    assert(s.skip(i0)[0] == s[i0]);
    assert(s.skip(i0)[0] == lit_id()[0]);
}

/// Serializes a whole collection into its snapshot document: exactly the
/// canonical text of the task sequence.
pub fn encode_todos(todos: &Vec<Todo>) -> (r: String)
    ensures
        r@ == encode_spec(models(todos@)),
{
    let mut out = String::new();
    out.append("{\"todos\":[");
    proof {
        assert(models(todos@.take(0)) =~= Seq::<TodoModel>::empty());
        assert(out@ =~= lit_open() + encode_records(models(todos@.take(0))));
        assert(out@ =~= lit_open() + enc_mid(models(todos@.take(0))));
    }
    let mut k: usize = 0;
    while k < todos.len()
        invariant
            k <= todos@.len(),
            out@ == lit_open() + (if k == todos@.len() {
                encode_records(models(todos@.take(k as int)))
            } else {
                enc_mid(models(todos@.take(k as int)))
            }),
        decreases todos@.len() - k,
    {
        let ghost pre = out@;
        push_record(&mut out, &todos[k]);
        proof {
            let ms = models(todos@.take(k as int));
            let t = todos@[k as int]@;
            assert(models(todos@.take(k as int + 1)) =~= ms.push(t));
            lemma_records_push(ms, t);
            if k == 0 {
                assert(out@ =~= lit_open() + encode_records(ms.push(t)));
            } else {
                assert(out@ =~= lit_open() + encode_records(ms.push(t)));
            }
        }
        k = k + 1;
        if k < todos.len() {
            out.append(",");
            proof {
                let ms = models(todos@.take(k as int));
                assert(ms.len() > 0);
                assert(out@ =~= lit_open() + enc_mid(ms));
            }
        }
    }
    proof {
        assert(todos@.take(todos@.len() as int) =~= todos@);
    }
    out.append("]}");
    proof {
        assert(out@ =~= encode_spec(models(todos@)));
    }
    out
}

/// Parses a snapshot document back into its collection. The read succeeds
/// exactly on the canonical text of some task sequence, and then returns
/// that sequence; any other text is a decode error.
#[verifier::rlimit(100)]
pub fn decode_todos(s: &str) -> (r: Result<Vec<Todo>, DecodeError>)
    ensures
        r is Ok ==> s@ == encode_spec(models(r->Ok_0@)),
        forall|ts: Seq<TodoModel>| s@ == #[trigger] encode_spec(ts) ==> r is Ok && models(
            r->Ok_0@,
        ) == ts,
{
    let n = s.unicode_len();
    proof {
        assert(s@.skip(0) =~= s@);
    }
    let i0 = match expect_lit(s, 0, n, "{\"todos\":[") {
        Some(j) => j,
        None => {
            proof {
                assert forall|ts: Seq<TodoModel>| s@ != #[trigger] encode_spec(ts) by {
                    if s@ == encode_spec(ts) {
                        assert(encode_spec(ts) =~= lit_open() + (encode_records(ts)
                            + lit_close()));
                        lemma_prefix_of_concat(lit_open(), encode_records(ts) + lit_close());
                        assert(false);
                    }
                }
            }
            return Err(DecodeError);
        },
    };
    match expect_lit(s, i0, n, "]}") {
        Some(j) => {
            proof {
                reveal_strlit("]}");
                assert(s@.subrange(i0 as int, j as int)[0] == s@[i0 as int]);
                assert(s@[i0 as int] == ']');
            }
            if j == n {
                let v: Vec<Todo> = Vec::new();
                proof {
                    lemma_subrange_to_skip(s@, 0, i0 as int);
                    lemma_subrange_to_skip(s@, i0 as int, j as int);
                    assert(s@.skip(j as int) =~= Seq::<char>::empty());
                    assert(models(v@) =~= Seq::<TodoModel>::empty());
                    assert(encode_records(models(v@)) == Seq::<char>::empty());
                    assert(s@ =~= encode_spec(models(v@)));
                    assert forall|ts: Seq<TodoModel>| s@ == #[trigger] encode_spec(ts) implies
                        models(v@) == ts by {
                        if ts.len() > 0 {
                            lemma_open_list_head(s@, i0 as int, ts);
                        }
                        assert(ts =~= models(v@));
                    }
                }
                return Ok(v);
            } else {
                proof {
                    assert forall|ts: Seq<TodoModel>| s@ != #[trigger] encode_spec(ts) by {
                        if s@ == encode_spec(ts) {
                            if ts.len() > 0 {
                                lemma_open_list_head(s@, i0 as int, ts);
                            } else {
                                assert(encode_records(ts) == Seq::<char>::empty());
                                assert(s@.len() == lit_open().len() + lit_close().len());
                                assert(false);
                            }
                        }
                    }
                }
                return Err(DecodeError);
            }
        },
        None => {},
    }
    let mut v: Vec<Todo> = Vec::new();
    let mut cur = i0;
    proof {
        lemma_subrange_to_skip(s@, 0, i0 as int);
        assert(enc_mid(models(v@)) =~= Seq::<char>::empty());
        assert(enc_mid(models(v@)) + s@.skip(cur as int) =~= s@.skip(cur as int));
        assert forall|ts: Seq<TodoModel>| s@ == #[trigger] encode_spec(ts) implies ts.len()
            > v@.len() && models(v@) == ts.take(v@.len() as int) && s@.skip(cur as int)
            == encode_records(ts.skip(v@.len() as int)) + lit_close() by {
            assert(encode_spec(ts) =~= lit_open() + (encode_records(ts) + lit_close()));
            lemma_skip_chunk(s@, 0, lit_open(), encode_records(ts) + lit_close());
            if ts.len() == 0 {
                assert(encode_records(ts) == Seq::<char>::empty());
                assert(s@.skip(i0 as int) =~= lit_close());
                assert(lit_close().is_prefix_of(s@.skip(i0 as int))) by {
                    assert(s@.skip(i0 as int).subrange(0, lit_close().len() as int) =~= lit_close(
                    ));
                }
                assert(false);
            }
            assert(ts.skip(0) =~= ts);
            assert(ts.take(0) =~= models(v@));
        }
    }
    loop
        invariant
            n == s@.len(),
            i0 <= cur <= n,
            i0 as int == lit_open().len(),
            s@.subrange(0, i0 as int) == lit_open(),
            s@.skip(i0 as int) == enc_mid(models(v@)) + s@.skip(cur as int),
            forall|ts: Seq<TodoModel>| s@ == #[trigger] encode_spec(ts) ==> ts.len() > v@.len()
                && models(v@) == ts.take(v@.len() as int) && s@.skip(cur as int) == encode_records(
                ts.skip(v@.len() as int),
            ) + lit_close(),
        decreases n - cur,
    {
        let (t, j) = match parse_record(s, cur, n) {
            Some(p) => p,
            None => {
                proof {
                    assert forall|ts: Seq<TodoModel>| s@ != #[trigger] encode_spec(ts) by {
                        if s@ == encode_spec(ts) {
                            let tsk = ts.skip(v@.len() as int);
                            lemma_records_front(tsk);
                            assert(s@.skip(cur as int) == encode_record(tsk[0]) + rec_rest(tsk));
                            assert(false);
                        }
                    }
                }
                return Err(DecodeError);
            },
        };
        match expect_lit(s, j, n, ",") {
            Some(j2) => {
                proof {
                    lemma_subrange_to_skip(s@, j as int, j2 as int);
                    let msv = models(v@);
                    let t0 = t@;
                    assert(models(v@.push(t)) =~= msv.push(t0));
                    lemma_records_push(msv, t0);
                    assert(s@.skip(i0 as int) == enc_mid(msv.push(t0)) + s@.skip(j2 as int)) by {
                        assert(enc_mid(msv) + (encode_record(t0) + (lit_comma() + s@.skip(
                            j2 as int,
                        ))) =~= enc_mid(msv.push(t0)) + s@.skip(j2 as int));
                    }
                    assert forall|ts: Seq<TodoModel>| s@ == #[trigger] encode_spec(ts) implies
                        ts.len() > msv.push(t0).len() && msv.push(t0) == ts.take(
                        msv.push(t0).len() as int,
                    ) && s@.skip(j2 as int) == encode_records(
                        ts.skip(msv.push(t0).len() as int),
                    ) + lit_close() by {
                        let k = v@.len() as int;
                        let tsk = ts.skip(k);
                        lemma_records_front(tsk);
                        assert(t0 == tsk[0]);
                        assert(s@.skip(j as int) == rec_rest(tsk));
                        if tsk.len() == 1 {
                            reveal_strlit("]}");
                            reveal_strlit(",");
                            assert(s@.subrange(j as int, j2 as int)[0] == s@[j as int]);
                            assert(s@.skip(j as int)[0] == s@[j as int]);
                            assert(false);
                        }
                        lemma_skip_chunk(
                            s@,
                            j as int,
                            lit_comma(),
                            encode_records(tsk.drop_first()) + lit_close(),
                        );
                        assert(tsk.drop_first() =~= ts.skip(k + 1));
                        assert(tsk[0] == ts[k]);
                        assert(ts.take(k + 1) =~= msv.push(t0));
                    }
                }
                v.push(t);
                cur = j2;
            },
            None => {
                match expect_lit(s, j, n, "]}") {
                    Some(j3) => {
                        if j3 == n {
                            proof {
                                lemma_subrange_to_skip(s@, j as int, j3 as int);
                                assert(s@.skip(j3 as int) =~= Seq::<char>::empty());
                                assert(s@.skip(j as int) =~= lit_close());
                                let msv = models(v@);
                                let t0 = t@;
                                assert(models(v@.push(t)) =~= msv.push(t0));
                                lemma_records_push(msv, t0);
                                lemma_subrange_to_skip(s@, 0, i0 as int);
                                assert(s@.skip(0) =~= s@);
                                assert(s@ =~= encode_spec(msv.push(t0)));
                                assert forall|ts: Seq<TodoModel>| s@ == #[trigger] encode_spec(ts)
                                    implies models(v@.push(t)) == ts by {
                                    let k = v@.len() as int;
                                    let tsk = ts.skip(k);
                                    lemma_records_front(tsk);
                                    assert(t0 == tsk[0]);
                                    assert(s@.skip(j as int) == rec_rest(tsk));
                                    if tsk.len() >= 2 {
                                        lemma_prefix_of_concat(
                                            lit_comma(),
                                            encode_records(tsk.drop_first()) + lit_close(),
                                        );
                                        assert(false);
                                    }
                                    assert(tsk[0] == ts[k]);
                                    assert(ts =~= msv.push(t0));
                                }
                            }
                            v.push(t);
                            return Ok(v);
                        } else {
                            proof {
                                assert forall|ts: Seq<TodoModel>| s@ != #[trigger] encode_spec(ts)
                                    by {
                                    if s@ == encode_spec(ts) {
                                        let tsk = ts.skip(v@.len() as int);
                                        lemma_records_front(tsk);
                                        assert(s@.skip(j as int) == rec_rest(tsk));
                                        if tsk.len() >= 2 {
                                            lemma_prefix_of_concat(
                                                lit_comma(),
                                                encode_records(tsk.drop_first()) + lit_close(),
                                            );
                                            assert(false);
                                        }
                                        assert(s@.skip(j as int) =~= lit_close());
                                        assert(n - j == lit_close().len());
                                        assert(false);
                                    }
                                }
                            }
                            return Err(DecodeError);
                        }
                    },
                    None => {
                        proof {
                            assert forall|ts: Seq<TodoModel>| s@ != #[trigger] encode_spec(ts) by {
                                if s@ == encode_spec(ts) {
                                    let tsk = ts.skip(v@.len() as int);
                                    lemma_records_front(tsk);
                                    assert(s@.skip(j as int) == rec_rest(tsk));
                                    if tsk.len() >= 2 {
                                        lemma_prefix_of_concat(
                                            lit_comma(),
                                            encode_records(tsk.drop_first()) + lit_close(),
                                        );
                                        assert(false);
                                    }
                                    assert(s@.skip(j as int) =~= lit_close());
                                    assert(lit_close().is_prefix_of(s@.skip(j as int))) by {
                                        assert(s@.skip(j as int).subrange(
                                            0,
                                            lit_close().len() as int,
                                        ) =~= lit_close());
                                    }
                                    assert(false);
                                }
                            }
                        }
                        return Err(DecodeError);
                    },
                }
            },
        }
    }
}

} // verus!
