use vstd::prelude::*;

use crate::error::AppError;
use crate::models::{ApiToken, Session, Todo};
use crate::text::str_eq;

verus! {

/// First element of `s` satisfying `p`, scanning left to right.
pub open spec fn find_first<T>(s: Seq<T>, p: spec_fn(T) -> bool) -> Option<T>
    decreases s.len(),
{
    if s.len() == 0 {
        None
    } else if p(s[0]) {
        Some(s[0])
    } else {
        find_first(s.skip(1), p)
    }
}

/// A scan that stopped at `i` (or ran off the end) pins `find_first`.
pub proof fn lemma_find_first_at<T>(s: Seq<T>, p: spec_fn(T) -> bool, i: int)
    requires
        0 <= i <= s.len(),
        forall|k: int| 0 <= k < i ==> !p(s[k]),
        i < s.len() ==> p(s[i]),
    ensures
        i < s.len() ==> find_first(s, p) == Some(s[i]),
        i == s.len() ==> find_first(s, p) is None,
    decreases s.len(),
{
    if s.len() > 0 && !p(s[0]) {
        assert(forall|k: int| 0 <= k < s.skip(1).len() ==> s.skip(1)[k] == s[k + 1]);
        lemma_find_first_at(s.skip(1), p, i - 1);
    }
}

/// What `find_first` returns is an element of `s` satisfying `p`; `None` means
/// no element satisfies `p`.
pub proof fn lemma_find_first<T>(s: Seq<T>, p: spec_fn(T) -> bool)
    ensures
        match find_first(s, p) {
            Some(x) => p(x) && s.contains(x),
            None => forall|i: int| 0 <= i < s.len() ==> !p(s[i]),
        },
    decreases s.len(),
{
    if s.len() > 0 && !p(s[0]) {
        lemma_find_first(s.skip(1), p);
        assert(forall|k: int| 0 <= k < s.skip(1).len() ==> s.skip(1)[k] == s[k + 1]);
        match find_first(s.skip(1), p) {
            Some(x) => {
                assert(find_first(s, p) == Some(x));
                assert(s.skip(1).contains(x));
                let i = choose|i: int| 0 <= i < s.skip(1).len() && s.skip(1)[i] == x;
                assert(s[i + 1] == x);
                assert(s.contains(x));
            },
            None => {
                assert forall|i: int| 0 <= i < s.len() implies !p(s[i]) by {
                    if i >= 1 {
                        assert(s.skip(1)[i - 1] == s[i]);
                    }
                }
            },
        }
    }
}

/// Every element of a filtered sequence occurs in the original.
pub proof fn lemma_filter_members<T>(s: Seq<T>, pred: spec_fn(T) -> bool)
    ensures
        forall|i: int| 0 <= i < s.filter(pred).len() ==> s.contains(#[trigger] s.filter(pred)[i]),
    decreases s.len(),
{
    reveal(Seq::filter);
    if s.len() > 0 {
        lemma_filter_members(s.drop_last(), pred);
        let pre = s.drop_last();
        let out = s.filter(pred);
        assert forall|i: int| 0 <= i < out.len() implies s.contains(out[i]) by {
            if i < pre.filter(pred).len() {
                assert(out[i] == pre.filter(pred)[i]);
                assert(pre.contains(pre.filter(pred)[i]));
                let j = choose|j: int| 0 <= j < pre.len() && pre[j] == pre.filter(pred)[i];
                assert(s[j] == out[i]);
            } else {
                assert(s[s.len() - 1] == out[i]);
            }
        }
    }
}

/// Filtering keeps every pairwise relation that held along the original order.
pub proof fn lemma_filter_pairwise<T>(s: Seq<T>, pred: spec_fn(T) -> bool, rel: spec_fn(T, T) -> bool)
    requires
        forall|i: int, j: int| 0 <= i < j < s.len() ==> rel(s[i], s[j]),
    ensures
        forall|i: int, j: int|
            0 <= i < j < s.filter(pred).len() ==> rel(
                #[trigger] s.filter(pred)[i],
                #[trigger] s.filter(pred)[j],
            ),
    decreases s.len(),
{
    reveal(Seq::filter);
    if s.len() > 0 {
        let pre = s.drop_last();
        assert(forall|i: int, j: int| 0 <= i < j < pre.len() ==> rel(pre[i], pre[j]));
        lemma_filter_pairwise(pre, pred, rel);
        let out = s.filter(pred);
        assert forall|i: int, j: int| 0 <= i < j < out.len() implies rel(out[i], out[j]) by {
            if j < pre.filter(pred).len() {
                assert(out[i] == pre.filter(pred)[i] && out[j] == pre.filter(pred)[j]);
            } else {
                assert(out[j] == s.last());
                assert(out[i] == pre.filter(pred)[i]);
                lemma_filter_members(pre, pred);
                let k = choose|k: int| 0 <= k < pre.len() && pre[k] == pre.filter(pred)[i];
                assert(rel(s[k], s.last()));
            }
        }
    }
}

/// The mathematical contents of the row store: three tables and the two
/// surrogate-key counters the integer primary keys are drawn from.
#[verifier::ext_equal]
pub ghost struct StoreModel {
    pub sessions: Seq<Session>,
    pub tokens: Seq<ApiToken>,
    pub todos: Seq<Todo>,
    pub next_token_id: int,
    pub next_todo_id: int,
}

impl StoreModel {
    /// Session-table invariant: ids are unique and every row expires after its
    /// creation.
    pub open spec fn sessions_wf(self) -> bool {
        &&& forall|i: int, j: int|
            0 <= i < j < self.sessions.len() ==> self.sessions[i].id@ != self.sessions[j].id@
        &&& forall|i: int| 0 <= i < self.sessions.len() ==> (#[trigger] self.sessions[i]).wf()
    }

    /// Token-table invariant: ids and bearer values are unique; ids are
    /// positive and below the counter.
    pub open spec fn tokens_wf(self) -> bool {
        &&& forall|i: int, j: int|
            0 <= i < j < self.tokens.len() ==> self.tokens[i].id != self.tokens[j].id
        &&& forall|i: int, j: int|
            0 <= i < j < self.tokens.len() ==> self.tokens[i].token@ != self.tokens[j].token@
        &&& forall|i: int| 0 <= i < self.tokens.len() ==> 0 < (#[trigger] self.tokens[i]).id
            < self.next_token_id
        &&& self.next_token_id >= 1
    }

    /// Task-table invariant: rows are kept in strictly increasing id order
    /// (insertion order), ids are positive and below the counter, and
    /// positions never go negative.
    pub open spec fn todos_wf(self) -> bool {
        &&& forall|i: int, j: int|
            0 <= i < j < self.todos.len() ==> self.todos[i].id < self.todos[j].id
        &&& forall|i: int| 0 <= i < self.todos.len() ==> 0 < (#[trigger] self.todos[i]).id
            < self.next_todo_id
        &&& forall|i: int| 0 <= i < self.todos.len() ==> (#[trigger] self.todos[i]).position >= 0
        &&& self.next_todo_id >= 1
    }

    /// The row-store invariant as a whole.
    pub open spec fn wf(self) -> bool {
        self.sessions_wf() && self.tokens_wf() && self.todos_wf()
    }

    /// Some session row carries this id.
    pub open spec fn has_session(self, id: Seq<char>) -> bool {
        exists|i: int| 0 <= i < self.sessions.len() && self.sessions[i].id@ == id
    }

    /// Some session row carries this id and has not expired at `now`.
    pub open spec fn has_valid_session(self, id: Seq<char>, now: int) -> bool {
        exists|i: int|
            0 <= i < self.sessions.len() && self.sessions[i].id@ == id
                && self.sessions[i].expires_at > now
    }

    /// Some token row carries this bearer value.
    pub open spec fn has_token_value(self, value: Seq<char>) -> bool {
        exists|i: int| 0 <= i < self.tokens.len() && self.tokens[i].token@ == value
    }

    /// Some token row carries this id.
    pub open spec fn has_token_id(self, id: int) -> bool {
        exists|i: int| 0 <= i < self.tokens.len() && self.tokens[i].id == id
    }

    /// Some task row carries this id.
    pub open spec fn has_todo(self, id: int) -> bool {
        exists|i: int| 0 <= i < self.todos.len() && self.todos[i].id == id
    }
}

/// A table invariant carries over to any state holding the same table.
pub proof fn lemma_sessions_wf_same(a: StoreModel, b: StoreModel)
    requires
        a.sessions_wf(),
        b.sessions == a.sessions,
    ensures
        b.sessions_wf(),
{
    assert forall|i: int, j: int| 0 <= i < j < b.sessions.len() implies b.sessions[i].id@
        != b.sessions[j].id@ by {
        assert(b.sessions[i] == a.sessions[i]);
        assert(b.sessions[j] == a.sessions[j]);
    }
    assert forall|i: int| 0 <= i < b.sessions.len() implies (#[trigger] b.sessions[i]).wf() by {
        assert(b.sessions[i] == a.sessions[i]);
    }
}

/// A table invariant carries over to any state holding the same table.
pub proof fn lemma_tokens_wf_same(a: StoreModel, b: StoreModel)
    requires
        a.tokens_wf(),
        b.tokens == a.tokens,
        b.next_token_id == a.next_token_id,
    ensures
        b.tokens_wf(),
{
    assert forall|i: int, j: int| 0 <= i < j < b.tokens.len() implies b.tokens[i].id != b.tokens[j].id
        && b.tokens[i].token@ != b.tokens[j].token@ by {
        assert(b.tokens[i] == a.tokens[i]);
        assert(b.tokens[j] == a.tokens[j]);
    }
    assert forall|i: int| 0 <= i < b.tokens.len() implies 0 < (#[trigger] b.tokens[i]).id
        < b.next_token_id by {
        assert(b.tokens[i] == a.tokens[i]);
    }
}

/// A table invariant carries over to any state holding the same table.
pub proof fn lemma_todos_wf_same(a: StoreModel, b: StoreModel)
    requires
        a.todos_wf(),
        b.todos == a.todos,
        b.next_todo_id == a.next_todo_id,
    ensures
        b.todos_wf(),
{
    assert forall|i: int, j: int| 0 <= i < j < b.todos.len() implies b.todos[i].id
        < b.todos[j].id by {
        assert(b.todos[i] == a.todos[i]);
        assert(b.todos[j] == a.todos[j]);
    }
    assert forall|i: int| 0 <= i < b.todos.len() implies 0 < (#[trigger] b.todos[i]).id
        < b.next_todo_id && (#[trigger] b.todos[i]).position >= 0 by {
        assert(b.todos[i] == a.todos[i]);
    }
}

/// Listing order of the token table: newest first, with the id as tie-break,
/// as a scan in insertion order sorts it.
pub open spec fn token_le(a: ApiToken, b: ApiToken) -> bool {
    a.created_at > b.created_at || (a.created_at == b.created_at && a.id <= b.id)
}

pub open spec fn sorted_tokens(s: Seq<ApiToken>) -> bool {
    forall|i: int, j: int| 0 <= i < j < s.len() ==> token_le(s[i], s[j])
}

/// Listing order of the task table: ascending position, with the id (the
/// insertion order) as tie-break.
pub open spec fn todo_le(a: Todo, b: Todo) -> bool {
    a.position < b.position || (a.position == b.position && a.id <= b.id)
}

pub open spec fn sorted_todos(s: Seq<Todo>) -> bool {
    forall|i: int, j: int| 0 <= i < j < s.len() ==> todo_le(s[i], s[j])
}

/// The greatest position among the task rows, or 0 when there are none (the
/// `COALESCE(MAX(..), 0)` of the listing query); positions are never negative.
pub open spec fn max_position(ts: Seq<Todo>) -> int
    decreases ts.len(),
{
    if ts.len() == 0 {
        0
    } else {
        let m = max_position(ts.drop_last());
        if ts.last().position > m {
            ts.last().position as int
        } else {
            m
        }
    }
}

pub proof fn lemma_max_position(ts: Seq<Todo>)
    ensures
        max_position(ts) >= 0,
        forall|i: int| 0 <= i < ts.len() ==> (#[trigger] ts[i]).position <= max_position(ts),
    decreases ts.len(),
{
    if ts.len() > 0 {
        lemma_max_position(ts.drop_last());
        assert(forall|k: int| 0 <= k < ts.len() - 1 ==> ts.drop_last()[k] == ts[k]);
    }
}

/// Index of the first task row with this id, or -1 when absent.
pub open spec fn todo_index(ts: Seq<Todo>, id: int) -> int
    decreases ts.len(),
{
    if ts.len() == 0 {
        -1
    } else if ts[0].id == id {
        0
    } else {
        let r = todo_index(ts.skip(1), id);
        if r < 0 {
            -1
        } else {
            r + 1
        }
    }
}

/// A scan that stopped at `i` (or ran off the end) pins `todo_index`.
pub proof fn lemma_todo_index_at(ts: Seq<Todo>, id: int, i: int)
    requires
        0 <= i <= ts.len(),
        forall|k: int| 0 <= k < i ==> ts[k].id != id,
        i < ts.len() ==> ts[i].id == id,
    ensures
        i < ts.len() ==> todo_index(ts, id) == i,
        i == ts.len() ==> todo_index(ts, id) == -1,
    decreases ts.len(),
{
    if ts.len() > 0 && ts[0].id != id {
        assert(forall|k: int| 0 <= k < ts.skip(1).len() ==> ts.skip(1)[k] == ts[k + 1]);
        lemma_todo_index_at(ts.skip(1), id, i - 1);
    }
}

pub proof fn lemma_todo_index(ts: Seq<Todo>, id: int)
    ensures
        todo_index(ts, id) < 0 ==> forall|k: int| 0 <= k < ts.len() ==> ts[k].id != id,
        todo_index(ts, id) >= 0 ==> todo_index(ts, id) < ts.len() && ts[todo_index(ts, id)].id
            == id && forall|k: int| 0 <= k < todo_index(ts, id) ==> ts[k].id != id,
    decreases ts.len(),
{
    if ts.len() > 0 && ts[0].id != id {
        lemma_todo_index(ts.skip(1), id);
        let r = todo_index(ts.skip(1), id);
        if r >= 0 {
            assert(ts[r + 1] == ts.skip(1)[r]);
            assert forall|k: int| 0 <= k < r + 1 implies ts[k].id != id by {
                if k >= 1 {
                    assert(ts.skip(1)[k - 1] == ts[k]);
                }
            }
        } else {
            assert forall|k: int| 0 <= k < ts.len() implies ts[k].id != id by {
                if k >= 1 {
                    assert(ts.skip(1)[k - 1] == ts[k]);
                }
            }
        }
    }
}

/// Index of the last occurrence of `x` in `s`, or -1 when absent: the index
/// whose per-row update survives when the same id is named twice.
pub open spec fn last_index_of(s: Seq<i64>, x: i64) -> int
    decreases s.len(),
{
    if s.len() == 0 {
        -1
    } else if s.last() == x {
        s.len() - 1
    } else {
        last_index_of(s.drop_last(), x)
    }
}

/// A scan from the end that stopped at `i` (or `-1` for no match) pins
/// `last_index_of`.
pub proof fn lemma_last_index_at(s: Seq<i64>, x: i64, i: int)
    requires
        -1 <= i < s.len(),
        i >= 0 ==> s[i] == x,
        forall|k: int| i < k < s.len() ==> s[k] != x,
    ensures
        last_index_of(s, x) == i,
    decreases s.len(),
{
    if s.len() > 0 && s.last() != x {
        assert(forall|k: int| 0 <= k < s.drop_last().len() ==> s.drop_last()[k] == s[k]);
        lemma_last_index_at(s.drop_last(), x, i);
    }
}

pub proof fn lemma_last_index_of(s: Seq<i64>, x: i64)
    ensures
        last_index_of(s, x) < 0 ==> forall|k: int| 0 <= k < s.len() ==> s[k] != x,
        last_index_of(s, x) >= 0 ==> last_index_of(s, x) < s.len() && s[last_index_of(s, x)] == x
            && forall|k: int| last_index_of(s, x) < k < s.len() ==> s[k] != x,
    decreases s.len(),
{
    if s.len() > 0 && s.last() != x {
        lemma_last_index_of(s.drop_last(), x);
        let r = last_index_of(s.drop_last(), x);
        assert(forall|k: int| 0 <= k < s.drop_last().len() ==> s.drop_last()[k] == s[k]);
        if r >= 0 {
            assert forall|k: int| r < k < s.len() implies s[k] != x by {
                if k < s.len() - 1 {
                    assert(s.drop_last()[k] == s[k]);
                }
            }
        } else {
            assert forall|k: int| 0 <= k < s.len() implies s[k] != x by {
                if k < s.len() - 1 {
                    assert(s.drop_last()[k] == s[k]);
                }
            }
        }
    }
}

/// How one task row comes out of a reorder request: a row whose id is named
/// gets the index of its last mention as its position and a fresh `updated_at`;
/// every other row, and every other field, is untouched.
pub open spec fn row_reordered(pre: Todo, post: Todo, ids: Seq<i64>, now: int) -> bool {
    &&& post.id == pre.id
    &&& post.title == pre.title
    &&& post.completed == pre.completed
    &&& post.created_at == pre.created_at
    &&& (last_index_of(ids, pre.id) >= 0 ==> post.position == last_index_of(ids, pre.id)
        && post.updated_at == now)
    &&& (last_index_of(ids, pre.id) < 0 ==> post.position == pre.position && post.updated_at
        == pre.updated_at)
}

/// The whole effect of a reorder request on the task table: row for row, in
/// unchanged table order.
pub open spec fn reorder_applied(pre: Seq<Todo>, post: Seq<Todo>, ids: Seq<i64>, now: int) -> bool {
    &&& post.len() == pre.len()
    &&& forall|k: int|
        0 <= k < pre.len() ==> row_reordered(#[trigger] pre[k], #[trigger] post[k], ids, now)
}

/// The effect of a partial update on the task table: the row at the id's
/// index takes the supplied fields and a fresh `updated_at`; every other row,
/// and every untouched field, stays as it was.
pub open spec fn update_applied(
    pre: Seq<Todo>,
    post: Seq<Todo>,
    id: int,
    title: Option<Seq<char>>,
    completed: Option<bool>,
    now: int,
) -> bool {
    let at = todo_index(pre, id);
    &&& post.len() == pre.len()
    &&& forall|k: int| 0 <= k < pre.len() && k != at ==> post[k] == pre[k]
    &&& post[at].id == id
    &&& post[at].title@ == (match title {
        Some(x) => x,
        None => pre[at].title@,
    })
    &&& post[at].completed == (match completed {
        Some(c) => c,
        None => pre[at].completed,
    })
    &&& post[at].position == pre[at].position
    &&& post[at].created_at == pre[at].created_at
    &&& post[at].updated_at == now
}

fn token_le_exec(a: &ApiToken, b: &ApiToken) -> (r: bool)
    ensures
        r == token_le(*a, *b),
{
    a.created_at > b.created_at || (a.created_at == b.created_at && a.id <= b.id)
}

fn todo_le_exec(a: &Todo, b: &Todo) -> (r: bool)
    ensures
        r == todo_le(*a, *b),
{
    a.position < b.position || (a.position == b.position && a.id <= b.id)
}

/// Stable listing order for tokens: insertion sort by `token_le`.
fn sort_tokens(input: &Vec<ApiToken>) -> (out: Vec<ApiToken>)
    ensures
        out@.to_multiset() == input@.to_multiset(),
        sorted_tokens(out@),
{
    broadcast use vstd::seq_lib::group_to_multiset_ensures;

    let mut out: Vec<ApiToken> = Vec::new();
    let mut idx: usize = 0;
    proof {
        assert(input@.take(0) =~= Seq::<ApiToken>::empty());
        assert(out@.to_multiset() =~= input@.take(0).to_multiset());
    }
    while idx < input.len()
        invariant
            idx <= input.len(),
            out@.to_multiset() == input@.take(idx as int).to_multiset(),
            sorted_tokens(out@),
        decreases input.len() - idx,
    {
        broadcast use vstd::seq_lib::group_to_multiset_ensures;

        let t = input[idx].clone();
        let mut j: usize = 0;
        while j < out.len() && token_le_exec(&out[j], &t)
            invariant
                j <= out.len(),
                forall|k: int| 0 <= k < j ==> token_le(out@[k], t),
            decreases out.len() - j,
        {
            j += 1;
        }
        let ghost old_out = out@;
        out.insert(j, t);
        proof {
            assert(out@ == old_out.insert(j as int, t));
            assert(forall|k: int| 0 <= k < j ==> out@[k] == old_out[k]);
            assert(out@[j as int] == t);
            assert(forall|k: int| j < k < out@.len() ==> out@[k] == old_out[k - 1]);
            assert forall|a: int, b: int| 0 <= a < b < out@.len() implies token_le(
                out@[a],
                out@[b],
            ) by {
                let ji = j as int;
                if b < ji {
                    assert(out@[a] == old_out[a] && out@[b] == old_out[b]);
                } else if a < ji && b == ji {
                    assert(out@[a] == old_out[a]);
                    assert(token_le(old_out[a], t));
                } else if a < ji && b > ji {
                    assert(out@[a] == old_out[a] && out@[b] == old_out[b - 1]);
                    assert(token_le(old_out[a], old_out[b - 1]));
                } else if a == ji && b > ji {
                    assert(out@[b] == old_out[b - 1]);
                    assert(ji < old_out.len());
                    assert(!token_le(old_out[ji], t));
                    assert(token_le(t, old_out[ji]));
                    if b - 1 > ji {
                        assert(token_le(old_out[ji], old_out[b - 1]));
                    }
                    assert(token_le(t, old_out[b - 1]));
                } else {
                    assert(out@[a] == old_out[a - 1] && out@[b] == old_out[b - 1]);
                    assert(token_le(old_out[a - 1], old_out[b - 1]));
                }
            }
            assert(input@.take(idx + 1) =~= input@.take(idx as int).push(input@[idx as int]));
            assert(out@.to_multiset() =~= input@.take(idx + 1).to_multiset());
        }
        idx += 1;
    }
    proof {
        assert(input@.take(input@.len() as int) =~= input@);
    }
    out
}

/// Stable listing order for tasks: insertion sort by `todo_le`.
fn sort_todos(input: &Vec<Todo>) -> (out: Vec<Todo>)
    ensures
        out@.to_multiset() == input@.to_multiset(),
        sorted_todos(out@),
{
    broadcast use vstd::seq_lib::group_to_multiset_ensures;

    let mut out: Vec<Todo> = Vec::new();
    let mut idx: usize = 0;
    proof {
        assert(input@.take(0) =~= Seq::<Todo>::empty());
        assert(out@.to_multiset() =~= input@.take(0).to_multiset());
    }
    while idx < input.len()
        invariant
            idx <= input.len(),
            out@.to_multiset() == input@.take(idx as int).to_multiset(),
            sorted_todos(out@),
        decreases input.len() - idx,
    {
        broadcast use vstd::seq_lib::group_to_multiset_ensures;

        let t = input[idx].clone();
        let mut j: usize = 0;
        while j < out.len() && todo_le_exec(&out[j], &t)
            invariant
                j <= out.len(),
                forall|k: int| 0 <= k < j ==> todo_le(out@[k], t),
            decreases out.len() - j,
        {
            j += 1;
        }
        let ghost old_out = out@;
        out.insert(j, t);
        proof {
            assert(out@ == old_out.insert(j as int, t));
            assert(forall|k: int| 0 <= k < j ==> out@[k] == old_out[k]);
            assert(out@[j as int] == t);
            assert(forall|k: int| j < k < out@.len() ==> out@[k] == old_out[k - 1]);
            assert forall|a: int, b: int| 0 <= a < b < out@.len() implies todo_le(
                out@[a],
                out@[b],
            ) by {
                let ji = j as int;
                if b < ji {
                    assert(out@[a] == old_out[a] && out@[b] == old_out[b]);
                } else if a < ji && b == ji {
                    assert(out@[a] == old_out[a]);
                    assert(todo_le(old_out[a], t));
                } else if a < ji && b > ji {
                    assert(out@[a] == old_out[a] && out@[b] == old_out[b - 1]);
                    assert(todo_le(old_out[a], old_out[b - 1]));
                } else if a == ji && b > ji {
                    assert(out@[b] == old_out[b - 1]);
                    assert(ji < old_out.len());
                    assert(!todo_le(old_out[ji], t));
                    assert(todo_le(t, old_out[ji]));
                    if b - 1 > ji {
                        assert(todo_le(old_out[ji], old_out[b - 1]));
                    }
                    assert(todo_le(t, old_out[b - 1]));
                } else {
                    assert(out@[a] == old_out[a - 1] && out@[b] == old_out[b - 1]);
                    assert(todo_le(old_out[a - 1], old_out[b - 1]));
                }
            }
            assert(input@.take(idx + 1) =~= input@.take(idx as int).push(input@[idx as int]));
            assert(out@.to_multiset() =~= input@.take(idx + 1).to_multiset());
        }
        idx += 1;
    }
    proof {
        assert(input@.take(input@.len() as int) =~= input@);
    }
    out
}

/// The in-memory row store behind the managers: sessions, API tokens and the
/// ordered task list. It stands in for the embedded relational store of the
/// deployment, which only persists these same rows.
pub struct Store {
    sessions: Vec<Session>,
    tokens: Vec<ApiToken>,
    todos: Vec<Todo>,
    next_token_id: i64,
    next_todo_id: i64,
}

impl View for Store {
    type V = StoreModel;

    closed spec fn view(&self) -> StoreModel {
        StoreModel {
            sessions: self.sessions@,
            tokens: self.tokens@,
            todos: self.todos@,
            next_token_id: self.next_token_id as int,
            next_todo_id: self.next_todo_id as int,
        }
    }
}

impl Store {
    /// An empty store: the state right after the schema is created.
    pub fn new() -> (r: Store)
        ensures
            r@.wf(),
            r@.sessions == Seq::<Session>::empty(),
            r@.tokens == Seq::<ApiToken>::empty(),
            r@.todos == Seq::<Todo>::empty(),
            r@.next_token_id == 1,
            r@.next_todo_id == 1,
    {
        let r = Store {
            sessions: Vec::new(),
            tokens: Vec::new(),
            todos: Vec::new(),
            next_token_id: 1,
            next_todo_id: 1,
        };
        proof {
            assert(r@.sessions =~= Seq::<Session>::empty());
            assert(r@.tokens =~= Seq::<ApiToken>::empty());
            assert(r@.todos =~= Seq::<Todo>::empty());
        }
        r
    }

    /// Inserts a session row; a duplicate id violates the primary key and is
    /// reported as a storage error, leaving the store unchanged.
    pub fn create_session(&mut self, session: &Session) -> (r: Result<(), AppError>)
        requires
            old(self)@.wf(),
            session.wf(),
        ensures
            final(self)@.wf(),
            final(self)@.tokens == old(self)@.tokens,
            final(self)@.todos == old(self)@.todos,
            final(self)@.next_token_id == old(self)@.next_token_id,
            final(self)@.next_todo_id == old(self)@.next_todo_id,
            old(self)@.has_session(session.id@) ==> r is Err && (r matches Err(e) ==> e is Database)
                && final(self)@.sessions == old(self)@.sessions,
            !old(self)@.has_session(session.id@) ==> r is Ok && final(self)@.sessions == old(self)@.sessions.push(*session),
    {
        let n = self.sessions.len();
        let mut i: usize = 0;
        while i < n
            invariant
                i <= n,
                n == self.sessions.len(),
                self@ == old(self)@,
                old(self)@.wf(),
                forall|k: int| 0 <= k < i ==> self.sessions@[k].id@ != session.id@,
            decreases n - i,
        {
            if str_eq(self.sessions[i].id.as_str(), session.id.as_str()) {
                proof {
                    assert(old(self)@.sessions[i as int].id@ == session.id@);
                }
                return Err(AppError::Database(String::from_str(
                    "UNIQUE constraint failed: sessions.id",
                )));
            }
            i += 1;
        }
        self.sessions.push(session.clone());
        proof {
            let ss = self@.sessions;
            assert(ss == old(self)@.sessions.push(*session));
            assert forall|a: int, b: int| 0 <= a < b < ss.len() implies ss[a].id@ != ss[b].id@ by {
                assert(ss[a] == old(self)@.sessions[a]);
                if b == ss.len() - 1 {
                    assert(old(self)@.sessions[a].id@ != session.id@);
                } else {
                    assert(ss[b] == old(self)@.sessions[b]);
                }
            }
            assert forall|k: int| 0 <= k < ss.len() implies (#[trigger] ss[k]).wf() by {
                if k < ss.len() - 1 {
                    assert(ss[k] == old(self)@.sessions[k]);
                } else {
                    assert(ss[k] == *session);
                }
            }
            lemma_tokens_wf_same(old(self)@, self@);
            lemma_todos_wf_same(old(self)@, self@);
        }
        Ok(())
    }

    /// Fetches a session row by id, expired or not; the sweep, not the read,
    /// removes expired rows.
    pub fn get_session(&self, id: &str) -> (r: Result<Option<Session>, AppError>)
        requires
            self@.wf(),
        ensures
            r matches Ok(o) && o == find_first(self@.sessions, |s: Session| s.id@ == id@),
    {
        let n = self.sessions.len();
        let mut i: usize = 0;
        while i < n
            invariant
                i <= n,
                n == self.sessions.len(),
                forall|k: int| 0 <= k < i ==> self.sessions@[k].id@ != id@,
            decreases n - i,
        {
            if str_eq(self.sessions[i].id.as_str(), id) {
                proof {
                    lemma_find_first_at(self@.sessions, |s: Session| s.id@ == id@, i as int);
                }
                return Ok(Some(self.sessions[i].clone()));
            }
            i += 1;
        }
        proof {
            lemma_find_first_at(self@.sessions, |s: Session| s.id@ == id@, n as int);
        }
        Ok(None)
    }

    /// The Session Manager's validation read: the session is returned exactly
    /// when it exists and has not expired at `now`; a row with
    /// `expires_at <= now` is treated as absent.
    pub fn validate_session(&self, id: &str, now: i64) -> (r: Option<Session>)
        requires
            self@.wf(),
        ensures
            match r {
                Some(s) => self@.has_valid_session(id@, now as int) && s.id@ == id@ && s.expires_at > now
                    && self@.sessions.contains(s),
                None => !self@.has_valid_session(id@, now as int),
            },
    {
        let found = match self.get_session(id) {
            Ok(o) => o,
            Err(_) => None,
        };
        proof {
            lemma_find_first(self@.sessions, |s: Session| s.id@ == id@);
        }
        match found {
            Some(s) => {
                if s.expires_at > now {
                    proof {
                        let i = choose|i: int|
                            0 <= i < self@.sessions.len() && self@.sessions[i] == s;
                        assert(self@.sessions[i].id@ == id@ && self@.sessions[i].expires_at > now);
                    }
                    Some(s)
                } else {
                    proof {
                        if self@.has_valid_session(id@, now as int) {
                            let i = choose|i: int|
                                0 <= i < self@.sessions.len() && self@.sessions[i].id@ == id@
                                    && self@.sessions[i].expires_at > now;
                            let j = choose|j: int|
                                0 <= j < self@.sessions.len() && self@.sessions[j] == s;
                            assert(i == j);
                        }
                    }
                    None
                }
            },
            None => None,
        }
    }

    /// Deletes the session row with this id; deleting a missing id succeeds and
    /// changes nothing.
    pub fn delete_session(&mut self, id: &str) -> (r: Result<(), AppError>)
        requires
            old(self)@.wf(),
        ensures
            r is Ok,
            final(self)@.wf(),
            final(self)@.sessions == old(self)@.sessions.filter(|s: Session| s.id@ != id@),
            final(self)@.tokens == old(self)@.tokens,
            final(self)@.todos == old(self)@.todos,
            final(self)@.next_token_id == old(self)@.next_token_id,
            final(self)@.next_todo_id == old(self)@.next_todo_id,
    {
        let n = self.sessions.len();
        let mut kept: Vec<Session> = Vec::new();
        let mut i: usize = 0;
        proof {
            assert(self@.sessions.take(0).filter(|s: Session| s.id@ != id@) =~= Seq::<
                Session,
            >::empty());
        }
        while i < n
            invariant
                i <= n,
                n == self.sessions.len(),
                self@ == old(self)@,
                kept@ =~= self.sessions@.take(i as int).filter(|s: Session| s.id@ != id@),
            decreases n - i,
        {
            let ghost pre = self.sessions@.take(i as int);
            proof {
                reveal(Seq::filter);
                assert(self.sessions@.take(i + 1).drop_last() =~= pre);
                assert(self.sessions@.take(i + 1).last() == self.sessions@[i as int]);
            }
            if !str_eq(self.sessions[i].id.as_str(), id) {
                kept.push(self.sessions[i].clone());
            }
            i += 1;
        }
        proof {
            assert(self.sessions@.take(n as int) =~= self.sessions@);
        }
        let ghost old_sessions = self.sessions@;
        self.sessions = kept;
        proof {
            let p = |s: Session| s.id@ != id@;
            lemma_filter_pairwise(old_sessions, p, |a: Session, b: Session| a.id@ != b.id@);
            lemma_filter_members(old_sessions, p);
            assert(self@.sessions == old_sessions.filter(p));
            assert forall|a: int, b: int| 0 <= a < b < self@.sessions.len() implies self@.sessions[a].id@
                != self@.sessions[b].id@ by {
                assert(self@.sessions[a] == old_sessions.filter(p)[a]);
                assert(self@.sessions[b] == old_sessions.filter(p)[b]);
            }
            assert forall|k: int| 0 <= k < self@.sessions.len() implies (
            #[trigger] self@.sessions[k]).wf() by {
                assert(old_sessions.contains(old_sessions.filter(p)[k]));
                let j = choose|j: int|
                    0 <= j < old_sessions.len() && old_sessions[j] == old_sessions.filter(p)[k];
                assert(old_sessions[j].wf());
            }
            lemma_tokens_wf_same(old(self)@, self@);
            lemma_todos_wf_same(old(self)@, self@);
        }
        Ok(())
    }

    /// The startup sweep: deletes every session row already expired strictly
    /// before `now`.
    pub fn cleanup_expired_sessions(&mut self, now: i64) -> (r: Result<(), AppError>)
        requires
            old(self)@.wf(),
        ensures
            r is Ok,
            final(self)@.wf(),
            final(self)@.sessions == old(self)@.sessions.filter(
                |s: Session| s.expires_at >= now,
            ),
            final(self)@.tokens == old(self)@.tokens,
            final(self)@.todos == old(self)@.todos,
            final(self)@.next_token_id == old(self)@.next_token_id,
            final(self)@.next_todo_id == old(self)@.next_todo_id,
    {
        let n = self.sessions.len();
        let mut kept: Vec<Session> = Vec::new();
        let mut i: usize = 0;
        proof {
            assert(self@.sessions.take(0).filter(|s: Session| s.expires_at >= now) =~= Seq::<
                Session,
            >::empty());
        }
        while i < n
            invariant
                i <= n,
                n == self.sessions.len(),
                self@ == old(self)@,
                kept@ =~= self.sessions@.take(i as int).filter(|s: Session| s.expires_at >= now),
            decreases n - i,
        {
            let ghost pre = self.sessions@.take(i as int);
            proof {
                reveal(Seq::filter);
                assert(self.sessions@.take(i + 1).drop_last() =~= pre);
                assert(self.sessions@.take(i + 1).last() == self.sessions@[i as int]);
            }
            if self.sessions[i].expires_at >= now {
                kept.push(self.sessions[i].clone());
            }
            i += 1;
        }
        proof {
            assert(self.sessions@.take(n as int) =~= self.sessions@);
        }
        let ghost old_sessions = self.sessions@;
        self.sessions = kept;
        proof {
            let p = |s: Session| s.expires_at >= now;
            lemma_filter_pairwise(old_sessions, p, |a: Session, b: Session| a.id@ != b.id@);
            lemma_filter_members(old_sessions, p);
            assert(self@.sessions == old_sessions.filter(p));
            assert forall|a: int, b: int| 0 <= a < b < self@.sessions.len() implies self@.sessions[a].id@
                != self@.sessions[b].id@ by {
                assert(self@.sessions[a] == old_sessions.filter(p)[a]);
                assert(self@.sessions[b] == old_sessions.filter(p)[b]);
            }
            assert forall|k: int| 0 <= k < self@.sessions.len() implies (
            #[trigger] self@.sessions[k]).wf() by {
                assert(old_sessions.contains(old_sessions.filter(p)[k]));
                let j = choose|j: int|
                    0 <= j < old_sessions.len() && old_sessions[j] == old_sessions.filter(p)[k];
                assert(old_sessions[j].wf());
            }
            lemma_tokens_wf_same(old(self)@, self@);
            lemma_todos_wf_same(old(self)@, self@);
        }
        Ok(())
    }

    /// Persists a new API token row and returns it, id and timestamp included;
    /// a duplicate bearer value violates the unique constraint and is reported
    /// as a storage error, leaving the store unchanged.
    pub fn create_api_token(&mut self, token: &str, name: Option<&str>, now: i64) -> (r: Result<
        ApiToken,
        AppError,
    >)
        requires
            old(self)@.wf(),
            old(self)@.next_token_id < i64::MAX,
        ensures
            final(self)@.wf(),
            final(self)@.sessions == old(self)@.sessions,
            final(self)@.todos == old(self)@.todos,
            final(self)@.next_todo_id == old(self)@.next_todo_id,
            old(self)@.has_token_value(token@) ==> r is Err && (r matches Err(e)
                ==> e is Database) && final(self)@.tokens == old(self)@.tokens && final(self)@.next_token_id == old(self)@.next_token_id,
            !old(self)@.has_token_value(token@) ==> (r matches Ok(t) && t.id as int == old(self)@.next_token_id && t.token@ == token@ && t.created_at == now && (match (name, t.name) {
                (Some(given), Some(stored)) => stored@ == given@,
                (None, None) => true,
                _ => false,
            }) && final(self)@.tokens == old(self)@.tokens.push(t) && final(self)@.next_token_id
                == old(self)@.next_token_id + 1),
    {
        let n = self.tokens.len();
        let mut i: usize = 0;
        while i < n
            invariant
                i <= n,
                n == self.tokens.len(),
                self@ == old(self)@,
                old(self)@.wf(),
                forall|k: int| 0 <= k < i ==> self.tokens@[k].token@ != token@,
            decreases n - i,
        {
            if str_eq(self.tokens[i].token.as_str(), token) {
                proof {
                    assert(old(self)@.tokens[i as int].token@ == token@);
                }
                return Err(AppError::Database(String::from_str(
                    "UNIQUE constraint failed: api_tokens.token",
                )));
            }
            i += 1;
        }
        let t = ApiToken {
            id: self.next_token_id,
            token: String::from_str(token),
            name: match name {
                Some(x) => Some(String::from_str(x)),
                None => None,
            },
            created_at: now,
        };
        let ret = t.clone();
        self.tokens.push(t);
        self.next_token_id = self.next_token_id + 1;
        proof {
            let ts = self@.tokens;
            assert(ts == old(self)@.tokens.push(ret));
            assert forall|a: int, b: int| 0 <= a < b < ts.len() implies ts[a].id != ts[b].id
                && ts[a].token@ != ts[b].token@ by {
                assert(ts[a] == old(self)@.tokens[a]);
                if b == ts.len() - 1 {
                    assert(0 < old(self)@.tokens[a].id < old(self)@.next_token_id);
                    assert(old(self)@.tokens[a].token@ != token@);
                } else {
                    assert(ts[b] == old(self)@.tokens[b]);
                }
            }
            assert forall|k: int| 0 <= k < ts.len() implies 0 < (#[trigger] ts[k]).id
                < self@.next_token_id by {
                if k < ts.len() - 1 {
                    assert(ts[k] == old(self)@.tokens[k]);
                }
            }
            lemma_sessions_wf_same(old(self)@, self@);
            lemma_todos_wf_same(old(self)@, self@);
        }
        Ok(ret)
    }

    /// Looks a token row up by its bearer value; purely an existence signal to
    /// the resolver.
    pub fn get_api_token_by_value(&self, token: &str) -> (r: Result<Option<ApiToken>, AppError>)
        requires
            self@.wf(),
        ensures
            r matches Ok(o) && o == find_first(self@.tokens, |t: ApiToken| t.token@ == token@),
            r matches Ok(o) && ((o is Some) <==> self@.has_token_value(token@)),
    {
        let n = self.tokens.len();
        let mut i: usize = 0;
        while i < n
            invariant
                i <= n,
                n == self.tokens.len(),
                forall|k: int| 0 <= k < i ==> self.tokens@[k].token@ != token@,
            decreases n - i,
        {
            if str_eq(self.tokens[i].token.as_str(), token) {
                proof {
                    lemma_find_first_at(self@.tokens, |t: ApiToken| t.token@ == token@, i as int);
                    assert(self@.tokens[i as int].token@ == token@);
                }
                return Ok(Some(self.tokens[i].clone()));
            }
            i += 1;
        }
        proof {
            lemma_find_first_at(self@.tokens, |t: ApiToken| t.token@ == token@, n as int);
        }
        Ok(None)
    }

    /// All token rows, newest first (`created_at` descending, insertion order
    /// breaking ties).
    pub fn list_api_tokens(&self) -> (r: Result<Vec<ApiToken>, AppError>)
        requires
            self@.wf(),
        ensures
            r matches Ok(v) && v@.to_multiset() == self@.tokens.to_multiset() && sorted_tokens(v@),
    {
        Ok(sort_tokens(&self.tokens))
    }

    /// Deletes a token row by id, reporting whether a row existed.
    pub fn delete_api_token(&mut self, id: i64) -> (r: Result<bool, AppError>)
        requires
            old(self)@.wf(),
        ensures
            final(self)@.wf(),
            r matches Ok(b) && b == old(self)@.has_token_id(id as int),
            final(self)@.tokens == old(self)@.tokens.filter(|t: ApiToken| t.id != id),
            final(self)@.sessions == old(self)@.sessions,
            final(self)@.todos == old(self)@.todos,
            final(self)@.next_token_id == old(self)@.next_token_id,
            final(self)@.next_todo_id == old(self)@.next_todo_id,
    {
        let n = self.tokens.len();
        let mut kept: Vec<ApiToken> = Vec::new();
        let mut found = false;
        let mut i: usize = 0;
        proof {
            assert(self@.tokens.take(0).filter(|t: ApiToken| t.id != id) =~= Seq::<
                ApiToken,
            >::empty());
        }
        while i < n
            invariant
                i <= n,
                n == self.tokens.len(),
                self@ == old(self)@,
                kept@ =~= self.tokens@.take(i as int).filter(|t: ApiToken| t.id != id),
                found <==> exists|k: int| 0 <= k < i && self.tokens@[k].id == id,
            decreases n - i,
        {
            let ghost pre = self.tokens@.take(i as int);
            proof {
                reveal(Seq::filter);
                assert(self.tokens@.take(i + 1).drop_last() =~= pre);
                assert(self.tokens@.take(i + 1).last() == self.tokens@[i as int]);
            }
            if self.tokens[i].id == id {
                found = true;
            } else {
                kept.push(self.tokens[i].clone());
            }
            i += 1;
        }
        proof {
            assert(self.tokens@.take(n as int) =~= self.tokens@);
        }
        let ghost old_tokens = self.tokens@;
        self.tokens = kept;
        proof {
            let p = |t: ApiToken| t.id != id;
            lemma_filter_pairwise(old_tokens, p, |a: ApiToken, b: ApiToken| a.id != b.id);
            lemma_filter_pairwise(old_tokens, p, |a: ApiToken, b: ApiToken| a.token@ != b.token@);
            lemma_filter_members(old_tokens, p);
            assert(self@.tokens == old_tokens.filter(p));
            assert forall|a: int, b: int| 0 <= a < b < self@.tokens.len() implies self@.tokens[a].id
                != self@.tokens[b].id && self@.tokens[a].token@ != self@.tokens[b].token@ by {
                assert(self@.tokens[a] == old_tokens.filter(p)[a]);
                assert(self@.tokens[b] == old_tokens.filter(p)[b]);
            }
            assert forall|k: int| 0 <= k < self@.tokens.len() implies 0 < (
            #[trigger] self@.tokens[k]).id < self@.next_token_id by {
                assert(old_tokens.contains(old_tokens.filter(p)[k]));
                let j = choose|j: int|
                    0 <= j < old_tokens.len() && old_tokens[j] == old_tokens.filter(p)[k];
                assert(0 < old_tokens[j].id < old(self)@.next_token_id);
            }
            lemma_sessions_wf_same(old(self)@, self@);
            lemma_todos_wf_same(old(self)@, self@);
        }
        Ok(found)
    }

    /// Inserts a new task row appended to the end of the display order:
    /// its position strictly exceeds the position of every existing row.
    pub fn create_todo(&mut self, title: &str, now: i64) -> (r: Result<Todo, AppError>)
        requires
            old(self)@.wf(),
            old(self)@.next_todo_id < i64::MAX,
            max_position(old(self)@.todos) < i64::MAX,
        ensures
            final(self)@.wf(),
            final(self)@.sessions == old(self)@.sessions,
            final(self)@.tokens == old(self)@.tokens,
            final(self)@.next_token_id == old(self)@.next_token_id,
            final(self)@.next_todo_id == old(self)@.next_todo_id + 1,
            r matches Ok(t) && t.id as int == old(self)@.next_todo_id && t.title@ == title@
                && !t.completed && t.position as int == max_position(old(self)@.todos) + 1
                && t.created_at == now && t.updated_at == now && final(self)@.todos == old(self)@.todos.push(t),
            r matches Ok(t) && forall|i: int|
                0 <= i < old(self)@.todos.len() ==> (#[trigger] old(self)@.todos[i]).position
                    < t.position,
    {
        proof {
            lemma_max_position(self@.todos);
        }
        let n = self.todos.len();
        let mut max_pos: i64 = 0;
        let mut i: usize = 0;
        proof {
            assert(self@.todos.take(0) =~= Seq::<Todo>::empty());
        }
        while i < n
            invariant
                i <= n,
                n == self.todos.len(),
                self@ == old(self)@,
                max_pos as int == max_position(self.todos@.take(i as int)),
            decreases n - i,
        {
            proof {
                assert(self.todos@.take(i + 1).drop_last() =~= self.todos@.take(i as int));
                assert(self.todos@.take(i + 1).last() == self.todos@[i as int]);
            }
            if self.todos[i].position > max_pos {
                max_pos = self.todos[i].position;
            }
            i += 1;
        }
        proof {
            assert(self.todos@.take(n as int) =~= self.todos@);
        }
        let t = Todo {
            id: self.next_todo_id,
            title: String::from_str(title),
            completed: false,
            position: max_pos + 1,
            created_at: now,
            updated_at: now,
        };
        let ret = t.clone();
        self.todos.push(t);
        self.next_todo_id = self.next_todo_id + 1;
        proof {
            let ts = self@.todos;
            assert(ts == old(self)@.todos.push(ret));
            assert forall|a: int, b: int| 0 <= a < b < ts.len() implies ts[a].id < ts[b].id by {
                assert(ts[a] == old(self)@.todos[a]);
                if b == ts.len() - 1 {
                    assert(0 < old(self)@.todos[a].id < old(self)@.next_todo_id);
                } else {
                    assert(ts[b] == old(self)@.todos[b]);
                }
            }
            assert forall|k: int| 0 <= k < ts.len() implies 0 < (#[trigger] ts[k]).id
                < self@.next_todo_id && (#[trigger] ts[k]).position >= 0 by {
                if k < ts.len() - 1 {
                    assert(ts[k] == old(self)@.todos[k]);
                }
            }
            lemma_sessions_wf_same(old(self)@, self@);
            lemma_tokens_wf_same(old(self)@, self@);
        }
        Ok(ret)
    }

    /// Fetches a task row by id.
    pub fn get_todo(&self, id: i64) -> (r: Result<Option<Todo>, AppError>)
        requires
            self@.wf(),
        ensures
            r matches Ok(o) && o == find_first(self@.todos, |t: Todo| t.id == id),
            r matches Ok(o) && ((o is Some) <==> self@.has_todo(id as int)),
    {
        let n = self.todos.len();
        let mut i: usize = 0;
        while i < n
            invariant
                i <= n,
                n == self.todos.len(),
                forall|k: int| 0 <= k < i ==> self.todos@[k].id != id,
            decreases n - i,
        {
            if self.todos[i].id == id {
                proof {
                    lemma_find_first_at(self@.todos, |t: Todo| t.id == id, i as int);
                    assert(self@.todos[i as int].id == id);
                }
                return Ok(Some(self.todos[i].clone()));
            }
            i += 1;
        }
        proof {
            lemma_find_first_at(self@.todos, |t: Todo| t.id == id, n as int);
        }
        Ok(None)
    }

    /// Partial update of one task row: absent fields are unchanged; the title
    /// and completion flag can be set; `updated_at` is refreshed exactly when
    /// some field was supplied and the row exists. With no fields supplied the
    /// call is a pure read. Returns the row as stored afterwards, or `None`
    /// when no row matches.
    pub fn update_todo(
        &mut self,
        id: i64,
        title: Option<&str>,
        completed: Option<bool>,
        now: i64,
    ) -> (r: Result<Option<Todo>, AppError>)
        requires
            old(self)@.wf(),
        ensures
            final(self)@.wf(),
            final(self)@.sessions == old(self)@.sessions,
            final(self)@.tokens == old(self)@.tokens,
            final(self)@.next_token_id == old(self)@.next_token_id,
            final(self)@.next_todo_id == old(self)@.next_todo_id,
            title is None && completed is None ==> final(self)@.todos == old(self)@.todos && (
            r matches Ok(o) && o == find_first(old(self)@.todos, |t: Todo| t.id == id)),
            (title is Some || completed is Some) && !old(self)@.has_todo(id as int) ==> final(self)@.todos == old(self)@.todos && (r matches Ok(o) && o is None),
            (title is Some || completed is Some) && old(self)@.has_todo(id as int) ==> ({
                &&& update_applied(
                    old(self)@.todos,
                    final(self)@.todos,
                    id as int,
                    match title {
                        Some(x) => Some(x@),
                        None => None,
                    },
                    completed,
                    now as int,
                )
                &&& (r matches Ok(o) && o matches Some(t) && t == final(self)@.todos[todo_index(
                    old(self)@.todos,
                    id as int,
                )])
            }),
    {
        if title.is_none() && completed.is_none() {
            return self.get_todo(id);
        }
        let n = self.todos.len();
        let mut i: usize = 0;
        while i < n
            invariant
                i <= n,
                n == self.todos.len(),
                self@ == old(self)@,
                old(self)@.wf(),
                title is Some || completed is Some,
                forall|k: int| 0 <= k < i ==> self.todos@[k].id != id,
            decreases n - i,
        {
            if self.todos[i].id == id {
                proof {
                    lemma_todo_index_at(self@.todos, id as int, i as int);
                    assert(self@.todos[i as int].id == id);
                }
                let mut t = self.todos.remove(i);
                if let Some(x) = title {
                    t.title = String::from_str(x);
                }
                if let Some(c) = completed {
                    t.completed = c;
                }
                t.updated_at = now;
                let ret = t.clone();
                self.todos.insert(i, t);
                proof {
                    let pre_todos = old(self)@.todos;
                    let ts = self@.todos;
                    assert(ts == pre_todos.remove(i as int).insert(i as int, ret));
                    assert forall|k: int| 0 <= k < pre_todos.len() && k != i as int implies ts[k]
                        == pre_todos[k] by {
                        if k < i as int {
                            assert(pre_todos.remove(i as int)[k] == pre_todos[k]);
                        } else {
                            assert(pre_todos.remove(i as int)[k - 1] == pre_todos[k]);
                        }
                    }
                    assert(ts[i as int] == ret);
                    assert forall|a: int, b: int| 0 <= a < b < ts.len() implies ts[a].id
                        < ts[b].id by {
                        assert(ts[a].id == pre_todos[a].id);
                        assert(ts[b].id == pre_todos[b].id);
                    }
                    assert forall|k: int| 0 <= k < ts.len() implies 0 < (#[trigger] ts[k]).id
                        < self@.next_todo_id && (#[trigger] ts[k]).position >= 0 by {
                        assert(ts[k].id == pre_todos[k].id && ts[k].position
                            == pre_todos[k].position);
                    }
                    lemma_sessions_wf_same(old(self)@, self@);
                    lemma_tokens_wf_same(old(self)@, self@);
                }
                return Ok(Some(ret));
            }
            i += 1;
        }
        proof {
            lemma_todo_index_at(self@.todos, id as int, n as int);
        }
        Ok(None)
    }

    /// Applies a reorder request: the task named at index `i` of `ids` gets
    /// position `i` (the last mention winning when an id repeats) and a fresh
    /// `updated_at`; ids not present in the table are ignored; rows not named
    /// keep their position. The table order itself never changes.
    pub fn reorder_todos(&mut self, ids: &Vec<i64>, now: i64) -> (r: Result<(), AppError>)
        requires
            old(self)@.wf(),
            ids@.len() <= i64::MAX,
        ensures
            r is Ok,
            final(self)@.wf(),
            reorder_applied(old(self)@.todos, final(self)@.todos, ids@, now as int),
            final(self)@.sessions == old(self)@.sessions,
            final(self)@.tokens == old(self)@.tokens,
            final(self)@.next_token_id == old(self)@.next_token_id,
            final(self)@.next_todo_id == old(self)@.next_todo_id,
    {
        let n = self.todos.len();
        let mut out: Vec<Todo> = Vec::new();
        let mut i: usize = 0;
        while i < n
            invariant
                i <= n,
                n == self.todos.len(),
                self@ == old(self)@,
                ids@.len() <= i64::MAX,
                out@.len() == i,
                forall|k: int|
                    0 <= k < i ==> row_reordered(
                        #[trigger] self.todos@[k],
                        #[trigger] out@[k],
                        ids@,
                        now as int,
                    ),
            decreases n - i,
        {
            let mut t = self.todos[i].clone();
            let ghost orig = self.todos@[i as int];
            match last_index_in(ids, t.id) {
                Some(li) => {
                    proof {
                        lemma_last_index_of(ids@, orig.id);
                    }
                    t.position = li as i64;
                    t.updated_at = now;
                },
                None => {},
            }
            let ghost old_out = out@;
            out.push(t);
            proof {
                assert forall|k: int| 0 <= k < i + 1 implies row_reordered(
                    #[trigger] self.todos@[k],
                    #[trigger] out@[k],
                    ids@,
                    now as int,
                ) by {
                    if k < i as int {
                        assert(out@[k] == old_out[k]);
                        assert(row_reordered(self.todos@[k], old_out[k], ids@, now as int));
                    } else {
                        assert(out@[k] == t);
                    }
                }
            }
            i += 1;
        }
        let ghost old_todos = self.todos@;
        let ghost new_todos = out@;
        proof {
            assert forall|k: int| 0 <= k < old_todos.len() implies row_reordered(
                #[trigger] old_todos[k],
                #[trigger] new_todos[k],
                ids@,
                now as int,
            ) by {
                assert(old_todos[k] == self.todos@[k] && new_todos[k] == out@[k]);
            }
            assert forall|a: int, b: int| 0 <= a < b < new_todos.len() implies new_todos[a].id
                < new_todos[b].id by {
                assert(row_reordered(old_todos[a], new_todos[a], ids@, now as int));
                assert(row_reordered(old_todos[b], new_todos[b], ids@, now as int));
                assert(old_todos[a] == old(self)@.todos[a]);
                assert(old_todos[b] == old(self)@.todos[b]);
            }
            assert forall|k: int| 0 <= k < new_todos.len() implies 0 < (
            #[trigger] new_todos[k]).id < old(self)@.next_todo_id && (#[trigger] new_todos[k]).position
                >= 0 by {
                assert(row_reordered(old_todos[k], new_todos[k], ids@, now as int));
                assert(old_todos[k] == old(self)@.todos[k]);
                if last_index_of(ids@, old_todos[k].id) >= 0 {
                    lemma_last_index_of(ids@, old_todos[k].id);
                }
            }
        }
        self.todos = out;
        proof {
            assert(self@.todos == new_todos);
            assert forall|a: int, b: int| 0 <= a < b < self@.todos.len() implies self@.todos[a].id
                < self@.todos[b].id by {
                assert(self@.todos[a] == new_todos[a]);
                assert(self@.todos[b] == new_todos[b]);
            }
            assert forall|k: int| 0 <= k < self@.todos.len() implies 0 < (
            #[trigger] self@.todos[k]).id < self@.next_todo_id && (#[trigger] self@.todos[k]).position
                >= 0 by {
                assert(self@.todos[k] == new_todos[k]);
            }
            assert forall|k: int| 0 <= k < old_todos.len() implies row_reordered(
                #[trigger] old_todos[k],
                #[trigger] self@.todos[k],
                ids@,
                now as int,
            ) by {
                assert(self@.todos[k] == new_todos[k]);
            }
            lemma_sessions_wf_same(old(self)@, self@);
            lemma_tokens_wf_same(old(self)@, self@);
        }
        Ok(())
    }

    /// Deletes a task row by id, reporting whether a row existed; remaining
    /// rows are not renumbered.
    pub fn delete_todo(&mut self, id: i64) -> (r: Result<bool, AppError>)
        requires
            old(self)@.wf(),
        ensures
            final(self)@.wf(),
            r matches Ok(b) && b == old(self)@.has_todo(id as int),
            final(self)@.todos == old(self)@.todos.filter(|t: Todo| t.id != id),
            final(self)@.sessions == old(self)@.sessions,
            final(self)@.tokens == old(self)@.tokens,
            final(self)@.next_token_id == old(self)@.next_token_id,
            final(self)@.next_todo_id == old(self)@.next_todo_id,
    {
        let n = self.todos.len();
        let mut kept: Vec<Todo> = Vec::new();
        let mut found = false;
        let mut i: usize = 0;
        proof {
            assert(self@.todos.take(0).filter(|t: Todo| t.id != id) =~= Seq::<Todo>::empty());
        }
        while i < n
            invariant
                i <= n,
                n == self.todos.len(),
                self@ == old(self)@,
                kept@ =~= self.todos@.take(i as int).filter(|t: Todo| t.id != id),
                found <==> exists|k: int| 0 <= k < i && self.todos@[k].id == id,
            decreases n - i,
        {
            let ghost pre = self.todos@.take(i as int);
            proof {
                reveal(Seq::filter);
                assert(self.todos@.take(i + 1).drop_last() =~= pre);
                assert(self.todos@.take(i + 1).last() == self.todos@[i as int]);
            }
            if self.todos[i].id == id {
                found = true;
            } else {
                kept.push(self.todos[i].clone());
            }
            i += 1;
        }
        proof {
            assert(self.todos@.take(n as int) =~= self.todos@);
        }
        let ghost old_todos = self.todos@;
        self.todos = kept;
        proof {
            let p = |t: Todo| t.id != id;
            lemma_filter_pairwise(old_todos, p, |a: Todo, b: Todo| a.id < b.id);
            lemma_filter_members(old_todos, p);
            assert(self@.todos == old_todos.filter(p));
            assert forall|a: int, b: int| 0 <= a < b < self@.todos.len() implies self@.todos[a].id
                < self@.todos[b].id by {
                assert(self@.todos[a] == old_todos.filter(p)[a]);
                assert(self@.todos[b] == old_todos.filter(p)[b]);
            }
            assert forall|k: int| 0 <= k < self@.todos.len() implies 0 < (
            #[trigger] self@.todos[k]).id < self@.next_todo_id && (#[trigger] self@.todos[k]).position
                >= 0 by {
                assert(old_todos.contains(old_todos.filter(p)[k]));
                let j = choose|j: int|
                    0 <= j < old_todos.len() && old_todos[j] == old_todos.filter(p)[k];
                assert(0 < old_todos[j].id < old(self)@.next_todo_id);
                assert(old_todos[j].position >= 0);
            }
            lemma_sessions_wf_same(old(self)@, self@);
            lemma_tokens_wf_same(old(self)@, self@);
        }
        Ok(found)
    }

    /// All task rows, ascending by position (insertion order breaking ties).
    pub fn list_todos(&self) -> (r: Result<Vec<Todo>, AppError>)
        requires
            self@.wf(),
        ensures
            r matches Ok(v) && v@.to_multiset() == self@.todos.to_multiset() && sorted_todos(v@),
    {
        Ok(sort_todos(&self.todos))
    }

    /// The open (not completed) task rows, in the same listing order.
    pub fn list_open_todos(&self) -> (r: Result<Vec<Todo>, AppError>)
        requires
            self@.wf(),
        ensures
            r matches Ok(v) && v@.to_multiset() == self@.todos.filter(
                |t: Todo| !t.completed,
            ).to_multiset() && sorted_todos(v@),
    {
        let n = self.todos.len();
        let mut open: Vec<Todo> = Vec::new();
        let mut i: usize = 0;
        proof {
            assert(self@.todos.take(0).filter(|t: Todo| !t.completed) =~= Seq::<Todo>::empty());
        }
        while i < n
            invariant
                i <= n,
                n == self.todos.len(),
                open@ =~= self.todos@.take(i as int).filter(|t: Todo| !t.completed),
            decreases n - i,
        {
            let ghost pre = self.todos@.take(i as int);
            proof {
                reveal(Seq::filter);
                assert(self.todos@.take(i + 1).drop_last() =~= pre);
                assert(self.todos@.take(i + 1).last() == self.todos@[i as int]);
            }
            if !self.todos[i].completed {
                open.push(self.todos[i].clone());
            }
            i += 1;
        }
        proof {
            assert(self.todos@.take(n as int) =~= self.todos@);
        }
        Ok(sort_todos(&open))
    }
}

/// In a sorted listing, a row with the strictly smaller (position, id) key
/// stands strictly earlier.
pub proof fn lemma_sorted_position(listing: Seq<Todo>, x: int, y: int)
    requires
        sorted_todos(listing),
        0 <= x < listing.len(),
        0 <= y < listing.len(),
        listing[x].position < listing[y].position || (listing[x].position == listing[y].position
            && listing[x].id < listing[y].id),
    ensures
        x < y,
{
    if y < x {
        assert(todo_le(listing[y], listing[x]));
    }
}

/// Every row of a listing is a row of the table it is a permutation of.
pub proof fn lemma_listing_member(table: Seq<Todo>, listing: Seq<Todo>, x: int)
    requires
        listing.to_multiset() == table.to_multiset(),
        0 <= x < listing.len(),
    ensures
        exists|k: int| 0 <= k < table.len() && #[trigger] table[k] == listing[x],
{
    broadcast use vstd::seq_lib::group_to_multiset_ensures;

    assert(listing.contains(listing[x]));
    assert(listing.to_multiset().count(listing[x]) > 0);
    assert(table.to_multiset().count(listing[x]) > 0);
    assert(table.contains(listing[x]));
    let k = choose|k: int| 0 <= k < table.len() && table[k] == listing[x];
    assert(table[k] == listing[x]);
}

/// Reordering distinct, present ids and then listing yields those tasks in
/// exactly the order of `ids`: every row of the listing carrying `ids[a]`
/// stands strictly before every row carrying `ids[b]` when `a < b`, and such
/// rows exist.
pub proof fn lemma_reorder_then_list_orders_ids(
    pre: Seq<Todo>,
    post: Seq<Todo>,
    ids: Seq<i64>,
    listing: Seq<Todo>,
    now: int,
    a: int,
    b: int,
)
    requires
        forall|i: int, j: int| 0 <= i < j < pre.len() ==> pre[i].id != pre[j].id,
        reorder_applied(pre, post, ids, now),
        listing.to_multiset() == post.to_multiset(),
        sorted_todos(listing),
        forall|i: int, j: int| 0 <= i < j < ids.len() ==> ids[i] != ids[j],
        0 <= a < b < ids.len(),
        todo_index(pre, ids[a] as int) >= 0,
        todo_index(pre, ids[b] as int) >= 0,
    ensures
        exists|x: int| 0 <= x < listing.len() && (#[trigger] listing[x]).id == ids[a],
        forall|x: int, y: int|
            0 <= x < listing.len() && 0 <= y < listing.len() && (#[trigger] listing[x]).id
                == ids[a] && (#[trigger] listing[y]).id == ids[b] ==> x < y,
{
    broadcast use vstd::seq_lib::group_to_multiset_ensures;

    lemma_todo_index(pre, ids[a] as int);
    lemma_todo_index(pre, ids[b] as int);
    let ia = todo_index(pre, ids[a] as int);
    let ib = todo_index(pre, ids[b] as int);
    lemma_last_index_at(ids, ids[a], a);
    lemma_last_index_at(ids, ids[b], b);
    assert(row_reordered(pre[ia], post[ia], ids, now));
    assert(row_reordered(pre[ib], post[ib], ids, now));
    assert(post[ia].position == a && post[ia].id == ids[a]);
    assert(post[ib].position == b && post[ib].id == ids[b]);
    assert(post.contains(post[ia]));
    assert(post.to_multiset().count(post[ia]) > 0);
    assert(listing.to_multiset().count(post[ia]) > 0);
    assert(listing.contains(post[ia]));
    let xa = choose|x: int| 0 <= x < listing.len() && listing[x] == post[ia];
    assert(listing[xa].id == ids[a]);
    assert forall|x: int, y: int|
        0 <= x < listing.len() && 0 <= y < listing.len() && (#[trigger] listing[x]).id == ids[a]
            && (#[trigger] listing[y]).id == ids[b] implies x < y by {
        lemma_listing_member(post, listing, x);
        let kx = choose|k: int| 0 <= k < post.len() && #[trigger] post[k] == listing[x];
        assert(post[kx].id == pre[kx].id);
        if kx != ia {
            assert(pre[kx].id != pre[ia].id);
        }
        assert(listing[x] == post[ia]);
        lemma_listing_member(post, listing, y);
        let ky = choose|k: int| 0 <= k < post.len() && #[trigger] post[k] == listing[y];
        assert(post[ky].id == pre[ky].id);
        if ky != ib {
            assert(pre[ky].id != pre[ib].id);
        }
        assert(listing[y] == post[ib]);
        lemma_sorted_position(listing, x, y);
    }
}

/// Tasks not named in a reorder keep their relative order between the old
/// listing and the new one.
pub proof fn lemma_reorder_keeps_untouched_order(
    pre: Seq<Todo>,
    post: Seq<Todo>,
    ids: Seq<i64>,
    now: int,
    listing_pre: Seq<Todo>,
    listing_post: Seq<Todo>,
    xid: i64,
    yid: i64,
)
    requires
        forall|i: int, j: int| 0 <= i < j < pre.len() ==> pre[i].id != pre[j].id,
        reorder_applied(pre, post, ids, now),
        listing_pre.to_multiset() == pre.to_multiset(),
        sorted_todos(listing_pre),
        listing_post.to_multiset() == post.to_multiset(),
        sorted_todos(listing_post),
        last_index_of(ids, xid) < 0,
        last_index_of(ids, yid) < 0,
        xid != yid,
    ensures
        forall|x1: int, y1: int, x2: int, y2: int|
            0 <= x1 < listing_pre.len() && 0 <= y1 < listing_pre.len() && 0 <= x2
                < listing_post.len() && 0 <= y2 < listing_post.len() && (
            #[trigger] listing_pre[x1]).id == xid && (#[trigger] listing_pre[y1]).id == yid && (
            #[trigger] listing_post[x2]).id == xid && (#[trigger] listing_post[y2]).id == yid ==> (
            x1 < y1 <==> x2 < y2),
{
    assert forall|x1: int, y1: int, x2: int, y2: int|
        0 <= x1 < listing_pre.len() && 0 <= y1 < listing_pre.len() && 0 <= x2 < listing_post.len()
            && 0 <= y2 < listing_post.len() && (#[trigger] listing_pre[x1]).id == xid && (
        #[trigger] listing_pre[y1]).id == yid && (#[trigger] listing_post[x2]).id == xid && (
        #[trigger] listing_post[y2]).id == yid implies (x1 < y1 <==> x2 < y2) by {
        lemma_listing_member(pre, listing_pre, x1);
        let kx = choose|k: int| 0 <= k < pre.len() && #[trigger] pre[k] == listing_pre[x1];
        lemma_listing_member(pre, listing_pre, y1);
        let ky = choose|k: int| 0 <= k < pre.len() && #[trigger] pre[k] == listing_pre[y1];
        lemma_listing_member(post, listing_post, x2);
        let kx2 = choose|k: int| 0 <= k < post.len() && #[trigger] post[k] == listing_post[x2];
        lemma_listing_member(post, listing_post, y2);
        let ky2 = choose|k: int| 0 <= k < post.len() && #[trigger] post[k] == listing_post[y2];
        assert(row_reordered(pre[kx2], post[kx2], ids, now));
        assert(row_reordered(pre[ky2], post[ky2], ids, now));
        assert(post[kx2].id == pre[kx2].id);
        assert(post[ky2].id == pre[ky2].id);
        if kx2 != kx {
            assert(pre[kx2].id != pre[kx].id);
        }
        if ky2 != ky {
            assert(pre[ky2].id != pre[ky].id);
        }
        assert(post[kx2] =~= pre[kx]);
        assert(post[ky2] =~= pre[ky]);
        let tx = pre[kx];
        let ty = pre[ky];
        assert(listing_pre[x1] == tx && listing_post[x2] == tx);
        assert(listing_pre[y1] == ty && listing_post[y2] == ty);
        if tx.position < ty.position || (tx.position == ty.position && tx.id < ty.id) {
            lemma_sorted_position(listing_pre, x1, y1);
            lemma_sorted_position(listing_post, x2, y2);
        } else {
            assert(ty.position < tx.position || (ty.position == tx.position && ty.id < tx.id));
            lemma_sorted_position(listing_pre, y1, x1);
            lemma_sorted_position(listing_post, y2, x2);
        }
    }
}

/// Index of the last occurrence of `x` in `ids`, scanning from the end.
fn last_index_in(ids: &Vec<i64>, x: i64) -> (r: Option<usize>)
    ensures
        match r {
            Some(li) => li as int == last_index_of(ids@, x),
            None => last_index_of(ids@, x) == -1,
        },
{
    let mut i: usize = ids.len();
    while i > 0
        invariant
            i <= ids.len(),
            forall|k: int| i <= k < ids@.len() ==> ids@[k] != x,
        decreases i,
    {
        i -= 1;
        if ids[i] == x {
            proof {
                lemma_last_index_at(ids@, x, i as int);
            }
            return Some(i);
        }
    }
    proof {
        lemma_last_index_at(ids@, x, -1);
    }
    None
}

} // verus!
