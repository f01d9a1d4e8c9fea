use donezo::auth::{generate_session_id, generate_token, hash_password, verify_password};
use donezo::error::AppError;
use donezo::handlers::{
    create_new_todo, create_token, delete_existing_todo, get_single_todo, list_all_todos,
    list_tokens, login, logout, plain_text_todos, reorder, revoke_token, update_existing_todo,
};
use donezo::models::{
    CreateApiToken, CreateTodo, LoginRequest, ReorderTodos, Session, Todo, UpdateTodo,
};
use donezo::store::Store;

fn titles(todos: &[Todo]) -> Vec<String> {
    todos.iter().map(|t| t.title.clone()).collect()
}

#[test]
fn test_hash_verify_roundtrip() {
    let hash = hash_password("testpassword");
    assert!(verify_password("testpassword", &hash));
    assert!(!verify_password("wrongpassword", &hash));
    assert!(!verify_password("", &hash));
    // a fresh salt is drawn per call, so the blobs differ even for one input
    let hash2 = hash_password("testpassword");
    assert_ne!(hash, hash2);
    assert!(verify_password("testpassword", &hash2));
}

#[test]
fn test_verify_malformed_hash_is_false() {
    assert!(!verify_password("testpassword", ""));
    assert!(!verify_password("testpassword", "not a phc string"));
}

#[test]
fn test_generate_token_shape() {
    let t = generate_token();
    assert_eq!(t.chars().count(), 64);
    assert!(t.chars().all(|c| c.is_ascii_alphanumeric()));
    let s = generate_session_id();
    assert_eq!(s.chars().count(), 64);
    assert!(s.chars().all(|c| c.is_ascii_alphanumeric()));
    assert_ne!(t, s);
}

#[test]
fn test_validate_session_expiry() {
    let mut store = Store::new();
    let session = Session { id: "abc".to_string(), created_at: 100, expires_at: 200 };
    store.create_session(&session).unwrap();
    // valid strictly before expiry
    let got = store.validate_session("abc", 150).unwrap();
    assert_eq!(got.id, "abc");
    assert_eq!(got.expires_at, 200);
    // expires_at <= now is treated as absent
    assert!(store.validate_session("abc", 200).is_none());
    assert!(store.validate_session("abc", 250).is_none());
    // unknown id is absent
    assert!(store.validate_session("nope", 150).is_none());
    // the raw read still sees the expired row; the sweep, not the read, deletes
    assert!(store.get_session("abc").unwrap().is_some());
}

#[test]
fn test_duplicate_session_id_is_storage_error() {
    let mut store = Store::new();
    let session = Session { id: "abc".to_string(), created_at: 1, expires_at: 2 };
    store.create_session(&session).unwrap();
    let again = Session { id: "abc".to_string(), created_at: 5, expires_at: 9 };
    match store.create_session(&again) {
        Err(AppError::Database(_)) => {}
        other => panic!("expected a storage error, got {:?}", other),
    }
}

#[test]
fn test_cleanup_expired_sessions() {
    let mut store = Store::new();
    store
        .create_session(&Session { id: "old".to_string(), created_at: 0, expires_at: 10 })
        .unwrap();
    store
        .create_session(&Session { id: "new".to_string(), created_at: 0, expires_at: 100 })
        .unwrap();
    store.cleanup_expired_sessions(50).unwrap();
    assert!(store.get_session("old").unwrap().is_none());
    assert!(store.get_session("new").unwrap().is_some());
}

#[test]
fn test_login_wrong_password() {
    let mut store = Store::new();
    let hash = hash_password("testpassword");
    let wrong = login(
        &mut store,
        &LoginRequest { password: "wrongpassword".to_string() },
        &hash,
        1000,
    );
    match wrong {
        Err(AppError::Unauthorized) => {}
        other => panic!("expected unauthorized, got {:?}", other),
    }
}

#[test]
fn test_login_success() {
    let mut store = Store::new();
    let hash = hash_password("testpassword");
    let session = login(
        &mut store,
        &LoginRequest { password: "testpassword".to_string() },
        &hash,
        1000,
    )
    .unwrap();
    assert_eq!(session.created_at, 1000);
    assert_eq!(session.expires_at, 1000 + 7 * 24 * 60 * 60);
    assert_eq!(session.id.chars().count(), 64);
    assert!(store.validate_session(&session.id, 1000).is_some());
}

#[test]
fn test_logout() {
    let mut store = Store::new();
    let hash = hash_password("testpassword");
    let session = login(
        &mut store,
        &LoginRequest { password: "testpassword".to_string() },
        &hash,
        1000,
    )
    .unwrap();
    assert!(store.validate_session(&session.id, 1000).is_some());
    logout(&mut store, Some(&session.id)).unwrap();
    assert!(store.validate_session(&session.id, 1000).is_none());
    // logging out without a cookie still succeeds
    logout(&mut store, None).unwrap();
}

#[test]
fn test_todo_crud() {
    let mut store = Store::new();
    let created = create_new_todo(
        &mut store,
        &CreateTodo { title: "Buy groceries".to_string() },
        10,
    )
    .unwrap();
    assert_eq!(created.title, "Buy groceries");
    assert!(!created.completed);
    assert_eq!(created.position, 1);
    let fetched = get_single_todo(&store, created.id).unwrap();
    assert_eq!(fetched.title, "Buy groceries");
    let upd = UpdateTodo { title: Some("Buy groceries today".to_string()), completed: None };
    let updated = update_existing_todo(&mut store, created.id, &upd, 11).unwrap();
    assert_eq!(updated.title, "Buy groceries today");
    let done = UpdateTodo { title: None, completed: Some(true) };
    let finished = update_existing_todo(&mut store, created.id, &done, 12).unwrap();
    assert!(finished.completed);
    assert_eq!(finished.title, "Buy groceries today");
    delete_existing_todo(&mut store, created.id).unwrap();
    match get_single_todo(&store, created.id) {
        Err(AppError::NotFound) => {}
        other => panic!("expected not found, got {:?}", other),
    }
    assert_eq!(list_all_todos(&store).unwrap().len(), 0);
}

#[test]
fn test_create_todo_appends_after_all() {
    let mut store = Store::new();
    let a = store.create_todo("a", 10).unwrap();
    let b = store.create_todo("b", 11).unwrap();
    let c = store.create_todo("c", 12).unwrap();
    assert_eq!(a.position, 1);
    assert_eq!(b.position, 2);
    assert_eq!(c.position, 3);
    assert!(!a.completed);
    // after a reorder the rule still appends after the current maximum
    store.reorder_todos(&vec![c.id, b.id, a.id], 20).unwrap();
    let d = store.create_todo("d", 21).unwrap();
    let listing = store.list_todos().unwrap();
    for t in &listing {
        if t.id != d.id {
            assert!(t.position < d.position);
        }
    }
    assert_eq!(listing.last().unwrap().id, d.id);
}

#[test]
fn test_reorder_reversed_listing() {
    let mut store = Store::new();
    let a = store.create_todo("a", 1).unwrap();
    let b = store.create_todo("b", 2).unwrap();
    let c = store.create_todo("c", 3).unwrap();
    let listing = reorder(
        &mut store,
        &ReorderTodos { ids: vec![c.id, b.id, a.id] },
        9,
    )
    .unwrap();
    assert_eq!(titles(&listing), vec!["c", "b", "a"]);
    assert_eq!(listing[0].position, 0);
    assert_eq!(listing[1].position, 1);
    assert_eq!(listing[2].position, 2);
    // every reordered row got the fresh timestamp
    assert!(listing.iter().all(|t| t.updated_at == 9));
}

#[test]
fn test_reorder_omitted_ids_keep_relative_order() {
    let mut store = Store::new();
    let a = store.create_todo("a", 1).unwrap();
    let b = store.create_todo("b", 2).unwrap();
    let c = store.create_todo("c", 3).unwrap();
    let d = store.create_todo("d", 4).unwrap();
    // only d and a are repositioned; b and c keep positions 2 and 3
    let listing = reorder(&mut store, &ReorderTodos { ids: vec![d.id, a.id] }, 9).unwrap();
    assert_eq!(titles(&listing), vec!["d", "a", "b", "c"]);
    let bt = listing.iter().find(|t| t.id == b.id).unwrap();
    let ct = listing.iter().find(|t| t.id == c.id).unwrap();
    assert_eq!(bt.position, 2);
    assert_eq!(ct.position, 3);
    assert_eq!(bt.updated_at, 2);
    assert_eq!(ct.updated_at, 3);
}

#[test]
fn test_reorder_unknown_id_is_ignored() {
    let mut store = Store::new();
    let a = store.create_todo("a", 1).unwrap();
    let listing = reorder(&mut store, &ReorderTodos { ids: vec![9999, a.id] }, 5).unwrap();
    assert_eq!(listing.len(), 1);
    assert_eq!(listing[0].id, a.id);
    assert_eq!(listing[0].position, 1);
}

#[test]
fn test_update_without_fields_is_a_noop() {
    let mut store = Store::new();
    let a = store.create_todo("a", 1).unwrap();
    let got = store.update_todo(a.id, None, None, 99).unwrap().unwrap();
    assert_eq!(got.title, "a");
    assert!(!got.completed);
    assert_eq!(got.updated_at, 1);
    let fetched = store.get_todo(a.id).unwrap().unwrap();
    assert_eq!(fetched.updated_at, 1);
}

#[test]
fn test_update_completed_keeps_title_and_advances_timestamp() {
    let mut store = Store::new();
    let a = store.create_todo("a", 1).unwrap();
    let got = store.update_todo(a.id, None, Some(true), 42).unwrap().unwrap();
    assert_eq!(got.title, "a");
    assert!(got.completed);
    assert_eq!(got.updated_at, 42);
    assert_eq!(got.position, a.position);
    assert_eq!(got.created_at, a.created_at);
}

#[test]
fn test_update_title_keeps_completion() {
    let mut store = Store::new();
    let a = store.create_todo("Buy groceries", 1).unwrap();
    store.update_todo(a.id, None, Some(true), 2).unwrap();
    let got = store
        .update_todo(a.id, Some("Buy groceries today"), None, 3)
        .unwrap()
        .unwrap();
    assert_eq!(got.title, "Buy groceries today");
    assert!(got.completed);
    assert_eq!(got.updated_at, 3);
}

#[test]
fn test_todo_not_found() {
    let mut store = Store::new();
    match get_single_todo(&store, 9999) {
        Err(AppError::NotFound) => {}
        other => panic!("expected not found, got {:?}", other),
    }
    let req = UpdateTodo { title: Some("Test".to_string()), completed: None };
    match update_existing_todo(&mut store, 9999, &req, 1) {
        Err(AppError::NotFound) => {}
        other => panic!("expected not found, got {:?}", other),
    }
    match delete_existing_todo(&mut store, 9999) {
        Err(AppError::NotFound) => {}
        other => panic!("expected not found, got {:?}", other),
    }
}

#[test]
fn test_todo_empty_title_rejected() {
    let mut store = Store::new();
    let req = CreateTodo { title: "   ".to_string() };
    match create_new_todo(&mut store, &req, 1) {
        Err(AppError::BadRequest(m)) => assert_eq!(m, "Title cannot be empty"),
        other => panic!("expected bad request, got {:?}", other),
    }
    let a = store.create_todo("a", 1).unwrap();
    let upd = UpdateTodo { title: Some("  \t ".to_string()), completed: None };
    match update_existing_todo(&mut store, a.id, &upd, 2) {
        Err(AppError::BadRequest(m)) => assert_eq!(m, "Title cannot be empty"),
        other => panic!("expected bad request, got {:?}", other),
    }
}

#[test]
fn test_delete_does_not_renumber() {
    let mut store = Store::new();
    let a = store.create_todo("a", 1).unwrap();
    let b = store.create_todo("b", 2).unwrap();
    let c = store.create_todo("c", 3).unwrap();
    delete_existing_todo(&mut store, b.id).unwrap();
    let listing = list_all_todos(&store).unwrap();
    assert_eq!(titles(&listing), vec!["a", "c"]);
    assert_eq!(listing[0].position, a.position);
    assert_eq!(listing[1].position, c.position);
}

#[test]
fn test_plain_text_todos() {
    let mut store = Store::new();
    let _a = store.create_todo("Buy groceries", 1).unwrap();
    let b = store.create_todo("Fix bike", 2).unwrap();
    let _c = store.create_todo("Call mom", 3).unwrap();
    store.update_todo(b.id, None, Some(true), 4).unwrap();
    let open = store.list_open_todos().unwrap();
    assert_eq!(titles(&open), vec!["Buy groceries", "Call mom"]);
    let text = plain_text_todos(&store).unwrap();
    assert_eq!(text, "Buy groceries\nCall mom\n");
    assert!(!text.contains("Fix bike"));
}

#[test]
fn test_api_tokens() {
    let mut store = Store::new();
    let req = CreateApiToken { name: Some("Test Token".to_string()) };
    let token = create_token(&mut store, &req, 100).unwrap();
    assert_eq!(token.token.chars().count(), 64);
    assert_eq!(token.name.as_deref(), Some("Test Token"));
    assert_eq!(token.created_at, 100);
    let listed = list_tokens(&store).unwrap();
    assert_eq!(listed.len(), 1);
    assert_eq!(listed[0].id, token.id);
    assert!(store.get_api_token_by_value(&token.token).unwrap().is_some());
    revoke_token(&mut store, token.id).unwrap();
    assert!(store.get_api_token_by_value(&token.token).unwrap().is_none());
    match revoke_token(&mut store, token.id) {
        Err(AppError::NotFound) => {}
        other => panic!("expected not found, got {:?}", other),
    }
}

#[test]
fn test_list_tokens_newest_first() {
    let mut store = Store::new();
    let t1 = store.create_api_token("tok-one", None, 100).unwrap();
    let t2 = store.create_api_token("tok-two", None, 300).unwrap();
    let t3 = store.create_api_token("tok-three", None, 200).unwrap();
    let t4 = store.create_api_token("tok-four", None, 200).unwrap();
    let listed = store.list_api_tokens().unwrap();
    let ids: Vec<i64> = listed.iter().map(|t| t.id).collect();
    // newest first; equal timestamps fall back to insertion order
    assert_eq!(ids, vec![t2.id, t3.id, t4.id, t1.id]);
}

#[test]
fn test_duplicate_token_value_is_storage_error() {
    let mut store = Store::new();
    store.create_api_token("same-value", None, 1).unwrap();
    match store.create_api_token("same-value", Some("other"), 2) {
        Err(AppError::Database(_)) => {}
        other => panic!("expected a storage error, got {:?}", other),
    }
}

#[test]
fn test_error_statuses_and_messages() {
    assert_eq!(AppError::Database("boom".to_string()).status_code(), 500);
    assert_eq!(AppError::Unauthorized.status_code(), 401);
    assert_eq!(AppError::NotFound.status_code(), 404);
    assert_eq!(AppError::BadRequest("nope").status_code(), 400);
    assert_eq!(AppError::Database("boom".to_string()).message(), "boom");
    assert_eq!(AppError::Unauthorized.message(), "Unauthorized");
    assert_eq!(AppError::NotFound.message(), "Not found");
    assert_eq!(AppError::BadRequest("nope").message(), "nope");
}
