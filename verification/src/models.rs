use vstd::prelude::*;

verus! {

/// A task row. `position` defines the display order; positions need not be
/// contiguous, only their relative order matters for listing.
#[verifier::ext_equal]
#[derive(Debug)]
pub struct Todo {
    pub id: i64,
    pub title: String,
    pub completed: bool,
    pub position: i64,
    pub created_at: i64,
    pub updated_at: i64,
}

impl Clone for Todo {
    fn clone(&self) -> (res: Self)
        ensures
            res == *self,
    {
        Todo {
            id: self.id,
            title: self.title.clone(),
            completed: self.completed,
            position: self.position,
            created_at: self.created_at,
            updated_at: self.updated_at,
        }
    }
}

/// Request body for creating a task.
#[derive(Debug)]
pub struct CreateTodo {
    pub title: String,
}

/// Request body for a partial task update: absent fields are left unchanged.
#[derive(Debug)]
pub struct UpdateTodo {
    pub title: Option<String>,
    pub completed: Option<bool>,
}

/// Request body for a full reorder: the id at index `i` is assigned position `i`.
#[derive(Debug)]
pub struct ReorderTodos {
    pub ids: Vec<i64>,
}

/// A server-side session record keyed by an opaque id delivered via cookie.
#[derive(Debug)]
pub struct Session {
    pub id: String,
    pub created_at: i64,
    pub expires_at: i64,
}

impl Session {
    /// A session always expires strictly after it was created.
    pub open spec fn wf(&self) -> bool {
        self.expires_at > self.created_at
    }
}

impl Clone for Session {
    fn clone(&self) -> (res: Self)
        ensures
            res == *self,
    {
        Session { id: self.id.clone(), created_at: self.created_at, expires_at: self.expires_at }
    }
}

/// A long-lived opaque bearer credential; valid until explicitly revoked.
#[derive(Debug)]
pub struct ApiToken {
    pub id: i64,
    pub token: String,
    pub name: Option<String>,
    pub created_at: i64,
}

impl Clone for ApiToken {
    fn clone(&self) -> (res: Self)
        ensures
            res == *self,
    {
        ApiToken {
            id: self.id,
            token: self.token.clone(),
            name: match &self.name {
                Some(n) => Some(n.clone()),
                None => None,
            },
            created_at: self.created_at,
        }
    }
}

/// Request body for creating an API token.
#[derive(Debug)]
pub struct CreateApiToken {
    pub name: Option<String>,
}

/// Request body for the login endpoint.
#[derive(Debug)]
pub struct LoginRequest {
    pub password: String,
}

} // verus!
