use vstd::prelude::*;

verus! {

/// The error taxonomy of the core. The HTTP boundary maps each variant to a
/// status code and a uniform `{error: message}` body; `Database` messages are
/// passed through verbatim.
#[derive(Debug)]
pub enum AppError {
    Database(String),
    Unauthorized,
    NotFound,
    BadRequest(&'static str),
}

impl AppError {
    /// The HTTP status this error maps to at the boundary.
    pub open spec fn status_spec(&self) -> int {
        match self {
            AppError::Database(_) => 500,
            AppError::Unauthorized => 401,
            AppError::NotFound => 404,
            AppError::BadRequest(_) => 400,
        }
    }

    /// The message placed in the `{error: message}` body.
    pub open spec fn message_spec(&self) -> Seq<char> {
        match self {
            AppError::Database(m) => m@,
            AppError::Unauthorized => "Unauthorized"@,
            AppError::NotFound => "Not found"@,
            AppError::BadRequest(m) => m@,
        }
    }

    pub fn status_code(&self) -> (r: u16)
        ensures
            r as int == self.status_spec(),
    {
        match self {
            AppError::Database(_) => 500,
            AppError::Unauthorized => 401,
            AppError::NotFound => 404,
            AppError::BadRequest(_) => 400,
        }
    }

    pub fn message(&self) -> (r: String)
        ensures
            r@ == self.message_spec(),
    {
        match self {
            AppError::Database(m) => m.clone(),
            AppError::Unauthorized => String::from_str("Unauthorized"),
            AppError::NotFound => String::from_str("Not found"),
            AppError::BadRequest(m) => String::from_str(m),
        }
    }
}

impl Clone for AppError {
    fn clone(&self) -> (res: Self)
        ensures
            res == *self,
    {
        match self {
            AppError::Database(m) => AppError::Database(m.clone()),
            AppError::Unauthorized => AppError::Unauthorized,
            AppError::NotFound => AppError::NotFound,
            AppError::BadRequest(m) => AppError::BadRequest(m),
        }
    }
}

} // verus!
