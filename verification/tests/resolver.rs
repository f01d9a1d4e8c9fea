use donezo::auth::hash_password;
use donezo::error::AppError;
use donezo::handlers::{create_new_todo, create_token, login, plain_text_todos, reorder, revoke_token};
use donezo::middleware::{
    check_bearer_token, check_session, parse_cookies, Auth, AuthError, MaybeAuth, SessionAuth,
};
use donezo::models::{CreateApiToken, CreateTodo, LoginRequest, ReorderTodos, Session};
use donezo::store::Store;
use donezo::text::{is_blank, replace_all, str_eq, trim};
use donezo::web::{index, inject_base_path, login_page, static_file, StaticAsset};

fn store_with_session(id: &str, expires_at: i64) -> Store {
    let mut store = Store::new();
    store
        .create_session(&Session { id: id.to_string(), created_at: 0, expires_at })
        .unwrap();
    store
}

#[test]
fn test_parse_cookies_pairs() {
    let pairs = parse_cookies("a=1; session=abc; b==x");
    let view: Vec<(String, String)> = pairs;
    assert_eq!(
        view,
        vec![
            ("a".to_string(), "1".to_string()),
            ("session".to_string(), "abc".to_string()),
            ("b".to_string(), "=x".to_string()),
        ]
    );
}

#[test]
fn test_parse_cookies_skips_segments_without_equals() {
    let pairs = parse_cookies("junk; session=abc;; other");
    assert_eq!(pairs, vec![("session".to_string(), "abc".to_string())]);
}

#[test]
fn test_parse_cookies_trims_segments_only_at_the_edges() {
    // the segment is trimmed, but the name and value keep inner spaces
    let pairs = parse_cookies("  session = abc ");
    assert_eq!(pairs, vec![("session ".to_string(), " abc".to_string())]);
}

#[test]
fn test_check_session_tries_each_session_cookie() {
    let store = store_with_session("good", 100);
    let headers = vec!["session=stale; session=good".to_string()];
    assert!(check_session(&store, &headers, 50));
    let headers2 = vec!["session=stale".to_string(), "session=good".to_string()];
    assert!(check_session(&store, &headers2, 50));
    let headers3 = vec!["session=stale".to_string()];
    assert!(!check_session(&store, &headers3, 50));
    // an expired session does not grant
    assert!(!check_session(&store, &headers, 100));
}

#[test]
fn test_check_bearer_requires_exact_prefix() {
    let mut store = Store::new();
    let token = store.create_api_token("secretvalue", None, 1).unwrap();
    let good = format!("Bearer {}", token.token);
    assert!(check_bearer_token(&store, Some(&good)).unwrap());
    let lowercase = format!("bearer {}", token.token);
    assert!(!check_bearer_token(&store, Some(&lowercase)).unwrap());
    let padded = format!("Bearer  {}", token.token);
    assert!(!check_bearer_token(&store, Some(&padded)).unwrap());
    assert!(!check_bearer_token(&store, Some(&"Bearer".to_string())).unwrap());
    assert!(!check_bearer_token(&store, Some(&token.token)).unwrap());
    assert!(!check_bearer_token(&store, None).unwrap());
}

#[test]
fn test_authorize_accepts_either_credential() {
    let mut store = store_with_session("sess", 100);
    let token = store.create_api_token("bearer-value", None, 1).unwrap();
    let cookie = vec!["session=sess".to_string()];
    let bearer = format!("Bearer {}", token.token);
    assert!(Auth::authorize(&store, &cookie, None, 50).is_ok());
    assert!(Auth::authorize(&store, &Vec::new(), Some(&bearer), 50).is_ok());
    match Auth::authorize(&store, &Vec::new(), None, 50) {
        Err(AuthError::Unauthorized) => {}
        other => panic!("expected unauthorized, got {:?}", other),
    }
}

#[test]
fn test_session_auth_rejects_bearer() {
    let mut store = Store::new();
    let token = store.create_api_token("bearer-value", None, 1).unwrap();
    let _bearer = format!("Bearer {}", token.token);
    match SessionAuth::authorize(&store, &Vec::new(), 50) {
        Err(AuthError::Unauthorized) => {}
        other => panic!("expected unauthorized, got {:?}", other),
    }
    let store2 = store_with_session("sess", 100);
    assert!(SessionAuth::authorize(&store2, &vec!["session=sess".to_string()], 50).is_ok());
}

#[test]
fn test_maybe_auth_never_fails() {
    let store = store_with_session("sess", 100);
    let MaybeAuth(yes) = MaybeAuth::probe(&store, &vec!["session=sess".to_string()], 50);
    assert!(yes);
    let MaybeAuth(no) = MaybeAuth::probe(&store, &Vec::new(), 50);
    assert!(!no);
}

#[test]
fn test_auth_error_statuses() {
    assert_eq!(AuthError::Unauthorized.status_code(), 401);
    assert_eq!(AuthError::Internal("x".to_string()).status_code(), 500);
    assert_eq!(AuthError::Unauthorized.message(), "Unauthorized");
    assert_eq!(AuthError::Internal("boom".to_string()).message(), "boom");
    match AuthError::from(AppError::Database("boom".to_string())) {
        AuthError::Internal(m) => assert_eq!(m, "boom"),
        other => panic!("expected internal, got {:?}", other),
    }
    match AuthError::from(AppError::Unauthorized) {
        AuthError::Unauthorized => {}
        other => panic!("expected unauthorized, got {:?}", other),
    }
}

#[test]
fn test_end_to_end_flow() {
    let mut store = Store::new();
    let hash = hash_password("testpassword");
    let now: i64 = 1_000_000;

    // wrong password is rejected with the unauthorized status
    let wrong = login(&mut store, &LoginRequest { password: "wrongpassword".into() }, &hash, now);
    assert_eq!(wrong.unwrap_err().status_code(), 401);

    // correct password yields a session whose cookie then grants access
    let session = login(&mut store, &LoginRequest { password: "testpassword".into() }, &hash, now)
        .unwrap();
    let cookie = vec![format!("session={}", session.id)];
    assert!(Auth::authorize(&store, &cookie, None, now).is_ok());
    assert_eq!(donezo::handlers::list_all_todos(&store).unwrap().len(), 0);

    // the first task gets position 1 and starts open
    let todo = create_new_todo(&mut store, &CreateTodo { title: "Buy milk".into() }, now).unwrap();
    assert_eq!(todo.position, 1);
    assert!(!todo.completed);

    // an empty reorder changes nothing; reordering both in reverse flips the listing
    reorder(&mut store, &ReorderTodos { ids: vec![] }, now).unwrap();
    let second = create_new_todo(&mut store, &CreateTodo { title: "Walk dog".into() }, now)
        .unwrap();
    let listing = reorder(&mut store, &ReorderTodos { ids: vec![second.id, todo.id] }, now)
        .unwrap();
    assert_eq!(listing[0].title, "Walk dog");
    assert_eq!(listing[1].title, "Buy milk");

    // completing a task removes its title from the plain-text export
    store.update_todo(todo.id, None, Some(true), now).unwrap();
    let text = plain_text_todos(&store).unwrap();
    assert_eq!(text, "Walk dog\n");

    // a bearer token grants until it is revoked
    let token = create_token(&mut store, &CreateApiToken { name: None }, now).unwrap();
    let bearer = format!("Bearer {}", token.token);
    assert!(Auth::authorize(&store, &Vec::new(), Some(&bearer), now).is_ok());
    revoke_token(&mut store, token.id).unwrap();
    match Auth::authorize(&store, &Vec::new(), Some(&bearer), now) {
        Err(AuthError::Unauthorized) => {}
        other => panic!("expected unauthorized, got {:?}", other),
    }
}

#[test]
fn test_api_token_authentication() {
    let mut store = Store::new();
    let hash = hash_password("testpassword");
    let now: i64 = 500;
    login(&mut store, &LoginRequest { password: "testpassword".into() }, &hash, now).unwrap();
    let token = create_token(&mut store, &CreateApiToken { name: Some("API Token".into()) }, now)
        .unwrap();
    assert_eq!(token.token.chars().count(), 64);
    // the bearer value alone authorizes task access
    let bearer = format!("Bearer {}", token.token);
    assert!(Auth::authorize(&store, &Vec::new(), Some(&bearer), now).is_ok());
    let todo = create_new_todo(&mut store, &CreateTodo { title: "API created todo".into() }, now)
        .unwrap();
    assert_eq!(todo.title, "API created todo");
    let text = plain_text_todos(&store).unwrap();
    assert_eq!(text, "API created todo\n");
    // but it cannot mint further tokens
    match SessionAuth::authorize(&store, &Vec::new(), now) {
        Err(AuthError::Unauthorized) => {}
        other => panic!("expected unauthorized, got {:?}", other),
    }
}

#[test]
fn test_text_utilities() {
    assert!(is_blank(""));
    assert!(is_blank("   \t\n"));
    assert!(!is_blank(" a "));
    assert_eq!(trim("  a b  "), "a b");
    assert_eq!(trim("   "), "");
    assert_eq!(trim("ab"), "ab");
    assert!(str_eq("abc", "abc"));
    assert!(!str_eq("abc", "abd"));
    assert!(!str_eq("abc", "ab"));
    // leftmost, non-overlapping replacement
    assert_eq!(replace_all("aaa", "aa", "b"), "ba");
    assert_eq!(replace_all("abcabc", "b", "xy"), "axycaxyc");
    assert_eq!(replace_all("abc", "zz", "y"), "abc");
}

#[test]
fn test_static_assets() {
    assert_eq!(static_file("app.js"), Some(StaticAsset::AppJs));
    assert_eq!(
        static_file("app.js").unwrap().content_type(),
        "application/javascript"
    );
    assert_eq!(static_file("output.css"), Some(StaticAsset::OutputCss));
    assert_eq!(static_file("output.css").unwrap().content_type(), "text/css");
    assert_eq!(static_file("unknown.txt"), None);
}

#[test]
fn test_page_redirects() {
    assert_eq!(index(false, ""), Some("/login".to_string()));
    assert_eq!(index(false, "/app"), Some("/app/login".to_string()));
    assert_eq!(index(true, ""), None);
    assert_eq!(login_page(true, ""), Some("/".to_string()));
    assert_eq!(login_page(true, "/app"), Some("/app".to_string()));
    assert_eq!(login_page(false, ""), None);
}

#[test]
fn test_inject_base_path() {
    let html = "<html><head></head><body>\
<link href=\"/static/output.css\">\
<script src=\"/static/app.js\"></script></body></html>";
    let out = inject_base_path(html, "/app");
    let expected = "<html><head>\n    <script>window.BASE_PATH = \"/app\";</script></head><body>\
<link href=\"/app/static/output.css\">\
<script src=\"/app/static/app.js\"></script></body></html>";
    assert_eq!(out, expected);
    let plain = inject_base_path(html, "");
    let expected_plain = "<html><head>\n    <script>window.BASE_PATH = \"\";</script></head><body>\
<link href=\"/static/output.css\">\
<script src=\"/static/app.js\"></script></body></html>";
    assert_eq!(plain, expected_plain);
}
