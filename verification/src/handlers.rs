use vstd::prelude::*;

use crate::auth::{all_token_chars, generate_session_id, generate_token, password_matches, verify_password};
use crate::error::AppError;
use crate::models::{ApiToken, CreateApiToken, CreateTodo, LoginRequest, ReorderTodos, Session, Todo, UpdateTodo};
use crate::store::{
    find_first, lemma_find_first, max_position, reorder_applied, sorted_todos, sorted_tokens,
    todo_index, update_applied, Store,
};
use crate::text::{all_ws, is_blank, push_char};

verus! {

/// Sessions last seven days from login; the lifetime is fixed, not sliding.
pub const SESSION_LIFETIME_SECONDS: i64 = 604800;

/// Checks the presented password against the in-memory hash. On success a
/// fresh high-entropy session id is drawn and a session row lasting seven
/// days from `now` is stored; the row is returned for the boundary to build
/// the cookie from. A wrong password is rejected without touching the store;
/// an id collision surfaces as a retryable storage error.
pub fn login(store: &mut Store, req: &LoginRequest, password_hash: &str, now: i64) -> (r: Result<
    Session,
    AppError,
>)
    requires
        old(store)@.wf(),
        now <= i64::MAX - SESSION_LIFETIME_SECONDS,
    ensures
        final(store)@.wf(),
        final(store)@.tokens == old(store)@.tokens,
        final(store)@.todos == old(store)@.todos,
        final(store)@.next_token_id == old(store)@.next_token_id,
        final(store)@.next_todo_id == old(store)@.next_todo_id,
        !password_matches(req.password@, password_hash@) ==> (r matches Err(e)
            && e is Unauthorized) && final(store)@.sessions == old(store)@.sessions,
        password_matches(req.password@, password_hash@) ==> (match r {
            Ok(s) => s.created_at == now && s.expires_at == now + SESSION_LIFETIME_SECONDS && s.id@.len() == 64
                && all_token_chars(s.id@) && final(store)@.sessions == old(store)@.sessions.push(s),
            Err(e) => e is Database && final(store)@.sessions == old(store)@.sessions,
        }),
{
    if !verify_password(req.password.as_str(), password_hash) {
        return Err(AppError::Unauthorized);
    }
    let session_id = generate_session_id();
    let expires_at = now + SESSION_LIFETIME_SECONDS;
    let session = Session { id: session_id, created_at: now, expires_at };
    let ret = session.clone();
    match store.create_session(&session) {
        Ok(()) => Ok(ret),
        Err(e) => Err(e),
    }
}

/// Deletes the session row named by the request's cookie, if one was sent;
/// logging out without a cookie still succeeds.
pub fn logout(store: &mut Store, session_id: Option<&String>) -> (r: Result<(), AppError>)
    requires
        old(store)@.wf(),
    ensures
        r is Ok,
        final(store)@.wf(),
        final(store)@.tokens == old(store)@.tokens,
        final(store)@.todos == old(store)@.todos,
        final(store)@.next_token_id == old(store)@.next_token_id,
        final(store)@.next_todo_id == old(store)@.next_todo_id,
        match session_id {
            Some(sid) => final(store)@.sessions == old(store)@.sessions.filter(
                |s: Session| s.id@ != sid@,
            ),
            None => final(store)@.sessions == old(store)@.sessions,
        },
{
    match session_id {
        Some(sid) => store.delete_session(sid.as_str()),
        None => Ok(()),
    }
}

/// The stored API tokens, newest first.
pub fn list_tokens(store: &Store) -> (r: Result<Vec<ApiToken>, AppError>)
    requires
        store@.wf(),
    ensures
        r matches Ok(v) && v@.to_multiset() == store@.tokens.to_multiset() && sorted_tokens(v@),
{
    store.list_api_tokens()
}

/// Mints a fresh opaque bearer value and stores it under the requested label.
/// A value collision surfaces as a retryable storage error.
pub fn create_token(store: &mut Store, req: &CreateApiToken, now: i64) -> (r: Result<
    ApiToken,
    AppError,
>)
    requires
        old(store)@.wf(),
        old(store)@.next_token_id < i64::MAX,
    ensures
        final(store)@.wf(),
        final(store)@.sessions == old(store)@.sessions,
        final(store)@.todos == old(store)@.todos,
        final(store)@.next_todo_id == old(store)@.next_todo_id,
        match r {
            Ok(t) => t.id as int == old(store)@.next_token_id && t.created_at == now
                && t.token@.len() == 64 && all_token_chars(t.token@) && (match (req.name, t.name) {
                (Some(given), Some(stored)) => stored@ == given@,
                (None, None) => true,
                _ => false,
            }) && final(store)@.tokens == old(store)@.tokens.push(t) && final(store)@.next_token_id
                == old(store)@.next_token_id + 1,
            Err(e) => e is Database && final(store)@.tokens == old(store)@.tokens && final(store)@.next_token_id == old(store)@.next_token_id,
        },
{
    let token_value = generate_token();
    let name_ref: Option<&str> = match &req.name {
        Some(n) => Some(n.as_str()),
        None => None,
    };
    store.create_api_token(token_value.as_str(), name_ref, now)
}

/// Revokes a token by id; a missing id is reported as not found.
pub fn revoke_token(store: &mut Store, id: i64) -> (r: Result<(), AppError>)
    requires
        old(store)@.wf(),
    ensures
        final(store)@.wf(),
        final(store)@.sessions == old(store)@.sessions,
        final(store)@.todos == old(store)@.todos,
        final(store)@.next_token_id == old(store)@.next_token_id,
        final(store)@.next_todo_id == old(store)@.next_todo_id,
        final(store)@.tokens == old(store)@.tokens.filter(|t: ApiToken| t.id != id),
        old(store)@.has_token_id(id as int) ==> r is Ok,
        !old(store)@.has_token_id(id as int) ==> (r matches Err(e) && e is NotFound),
{
    match store.delete_api_token(id) {
        Ok(true) => Ok(()),
        Ok(false) => Err(AppError::NotFound),
        Err(e) => Err(e),
    }
}

/// The whole task list in display order.
pub fn list_all_todos(store: &Store) -> (r: Result<Vec<Todo>, AppError>)
    requires
        store@.wf(),
    ensures
        r matches Ok(v) && v@.to_multiset() == store@.todos.to_multiset() && sorted_todos(v@),
{
    store.list_todos()
}

/// Creates a task from the request body after rejecting an all-whitespace
/// title; the new task lands after every current one.
pub fn create_new_todo(store: &mut Store, req: &CreateTodo, now: i64) -> (r: Result<
    Todo,
    AppError,
>)
    requires
        old(store)@.wf(),
        old(store)@.next_todo_id < i64::MAX,
        max_position(old(store)@.todos) < i64::MAX,
    ensures
        final(store)@.wf(),
        final(store)@.sessions == old(store)@.sessions,
        final(store)@.tokens == old(store)@.tokens,
        final(store)@.next_token_id == old(store)@.next_token_id,
        all_ws(req.title@) ==> (r matches Err(e) && e matches AppError::BadRequest(m) && m@
            == "Title cannot be empty"@) && final(store)@.todos == old(store)@.todos && final(store)@.next_todo_id == old(store)@.next_todo_id,
        !all_ws(req.title@) ==> (r matches Ok(t) && t.id as int == old(store)@.next_todo_id
            && t.title@ == req.title@ && !t.completed && t.position as int == max_position(
            old(store)@.todos,
        ) + 1 && t.created_at == now && t.updated_at == now && final(store)@.todos == old(store)@.todos.push(t) && final(store)@.next_todo_id == old(store)@.next_todo_id + 1 && (
        forall|i: int|
            0 <= i < old(store)@.todos.len() ==> (#[trigger] old(store)@.todos[i]).position
                < t.position)),
{
    if is_blank(req.title.as_str()) {
        return Err(AppError::BadRequest("Title cannot be empty"));
    }
    store.create_todo(req.title.as_str(), now)
}

/// Fetches one task; a missing id is reported as not found.
pub fn get_single_todo(store: &Store, id: i64) -> (r: Result<Todo, AppError>)
    requires
        store@.wf(),
    ensures
        store@.has_todo(id as int) ==> (r matches Ok(t) && Some(t) == find_first(
            store@.todos,
            |t: Todo| t.id == id,
        )),
        !store@.has_todo(id as int) ==> (r matches Err(e) && e is NotFound),
{
    match store.get_todo(id) {
        Ok(Some(t)) => Ok(t),
        Ok(None) => Err(AppError::NotFound),
        Err(e) => Err(e),
    }
}

/// Applies a partial update from the request body: an all-whitespace new
/// title is rejected first, a missing id reported as not found, and
/// otherwise the row is patched and returned.
pub fn update_existing_todo(store: &mut Store, id: i64, req: &UpdateTodo, now: i64) -> (r: Result<
    Todo,
    AppError,
>)
    requires
        old(store)@.wf(),
    ensures
        final(store)@.wf(),
        final(store)@.sessions == old(store)@.sessions,
        final(store)@.tokens == old(store)@.tokens,
        final(store)@.next_token_id == old(store)@.next_token_id,
        final(store)@.next_todo_id == old(store)@.next_todo_id,
        (req.title matches Some(t) && all_ws(t@)) ==> (r matches Err(e)
            && e matches AppError::BadRequest(m) && m@ == "Title cannot be empty"@) && final(store)@.todos == old(store)@.todos,
        !(req.title matches Some(t) && all_ws(t@)) && !old(store)@.has_todo(id as int) ==> (
        r matches Err(e) && e is NotFound) && final(store)@.todos == old(store)@.todos,
        req.title is None && req.completed is None && old(store)@.has_todo(id as int) ==> final(store)@.todos == old(store)@.todos && (r matches Ok(t) && Some(t) == find_first(
            old(store)@.todos,
            |t: Todo| t.id == id,
        )),
        !(req.title matches Some(t) && all_ws(t@)) && (req.title is Some || req.completed is Some)
            && old(store)@.has_todo(id as int) ==> ({
            &&& update_applied(
                old(store)@.todos,
                final(store)@.todos,
                id as int,
                match req.title {
                    Some(x) => Some(x@),
                    None => None,
                },
                req.completed,
                now as int,
            )
            &&& (r matches Ok(t) && t == final(store)@.todos[todo_index(
                old(store)@.todos,
                id as int,
            )])
        }),
{
    if let Some(title) = &req.title {
        if is_blank(title.as_str()) {
            return Err(AppError::BadRequest("Title cannot be empty"));
        }
    }
    let title_ref: Option<&str> = match &req.title {
        Some(t) => Some(t.as_str()),
        None => None,
    };
    proof {
        lemma_find_first(store@.todos, |t: Todo| t.id == id);
        match find_first(store@.todos, |t: Todo| t.id == id) {
            Some(x) => {
                let k = choose|k: int| 0 <= k < store@.todos.len() && store@.todos[k] == x;
                assert(store@.todos[k].id == id);
            },
            None => {},
        }
    }
    match store.update_todo(id, title_ref, req.completed, now) {
        Ok(Some(t)) => Ok(t),
        Ok(None) => Err(AppError::NotFound),
        Err(e) => Err(e),
    }
}

/// Deletes one task; a missing id is reported as not found. Remaining rows
/// keep their positions.
pub fn delete_existing_todo(store: &mut Store, id: i64) -> (r: Result<(), AppError>)
    requires
        old(store)@.wf(),
    ensures
        final(store)@.wf(),
        final(store)@.sessions == old(store)@.sessions,
        final(store)@.tokens == old(store)@.tokens,
        final(store)@.next_token_id == old(store)@.next_token_id,
        final(store)@.next_todo_id == old(store)@.next_todo_id,
        final(store)@.todos == old(store)@.todos.filter(|t: Todo| t.id != id),
        old(store)@.has_todo(id as int) ==> r is Ok,
        !old(store)@.has_todo(id as int) ==> (r matches Err(e) && e is NotFound),
{
    match store.delete_todo(id) {
        Ok(true) => Ok(()),
        Ok(false) => Err(AppError::NotFound),
        Err(e) => Err(e),
    }
}

/// Applies the requested order and returns the fresh listing.
pub fn reorder(store: &mut Store, req: &ReorderTodos, now: i64) -> (r: Result<Vec<Todo>, AppError>)
    requires
        old(store)@.wf(),
        req.ids@.len() <= i64::MAX,
    ensures
        final(store)@.wf(),
        final(store)@.sessions == old(store)@.sessions,
        final(store)@.tokens == old(store)@.tokens,
        final(store)@.next_token_id == old(store)@.next_token_id,
        final(store)@.next_todo_id == old(store)@.next_todo_id,
        reorder_applied(old(store)@.todos, final(store)@.todos, req.ids@, now as int),
        r matches Ok(v) && v@.to_multiset() == final(store)@.todos.to_multiset() && sorted_todos(
            v@,
        ),
{
    match store.reorder_todos(&req.ids, now) {
        Ok(()) => {},
        Err(e) => {
            return Err(e);
        },
    }
    store.list_todos()
}

/// The titles of a task listing, each followed by a newline.
pub open spec fn joined_titles(ts: Seq<Todo>) -> Seq<char>
    decreases ts.len(),
{
    if ts.len() == 0 {
        Seq::<char>::empty()
    } else {
        ts[0].title@ + seq!['\n'] + joined_titles(ts.skip(1))
    }
}

/// The plain-text export: the open tasks' titles in display order, one per
/// line; completed tasks do not appear.
pub fn plain_text_todos(store: &Store) -> (r: Result<String, AppError>)
    requires
        store@.wf(),
    ensures
        r matches Ok(text) && exists|v: Seq<Todo>|
            (#[trigger] sorted_todos(v)) && v.to_multiset() == store@.todos.filter(
                |t: Todo| !t.completed,
            ).to_multiset() && text@ == joined_titles(v),
{
    let todos = match store.list_open_todos() {
        Ok(v) => v,
        Err(e) => {
            return Err(e);
        },
    };
    let mut text = String::new();
    let mut i: usize = 0;
    proof {
        assert(todos@.skip(0) =~= todos@);
    }
    while i < todos.len()
        invariant
            i <= todos.len(),
            joined_titles(todos@) =~= text@ + joined_titles(todos@.skip(i as int)),
        decreases todos.len() - i,
    {
        proof {
            assert(todos@.skip(i as int)[0] == todos@[i as int]);
            assert(todos@.skip(i as int).skip(1) =~= todos@.skip(i + 1));
        }
        text.append(todos[i].title.as_str());
        push_char(&mut text, '\n');
        i += 1;
    }
    proof {
        assert(todos@.skip(todos@.len() as int) =~= Seq::<Todo>::empty());
        assert(text@ =~= joined_titles(todos@));
        assert(sorted_todos(todos@) && todos@.to_multiset() == store@.todos.filter(
            |t: Todo| !t.completed,
        ).to_multiset() && text@ == joined_titles(todos@));
    }
    Ok(text)
}

} // verus!
