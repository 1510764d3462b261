//! The errors of the service and how each is answered.

use vstd::prelude::*;
use vstd::string::*;

verus! {

/// What can go wrong while a request is served. The variants for failures of
/// the database, the connection pool, JSON and time carry the message of the
/// failure.
#[derive(Debug)]
pub enum AppError {
    Db(String),
    Pool(String),
    Serde(String),
    TimeParse(String),
    BadRequest(String),
    NotFound(String),
    Conflict(String),
    Internal(String),
}

pub type AppResult<T> = Result<T, AppError>;

impl AppError {
    /// The HTTP status that answers the error.
    pub open spec fn status_code(self) -> u16 {
        match self {
            AppError::Db(_) => 500,
            AppError::Pool(_) => 500,
            AppError::Serde(_) => 400,
            AppError::TimeParse(_) => 400,
            AppError::BadRequest(_) => 400,
            AppError::NotFound(_) => 404,
            AppError::Conflict(_) => 409,
            AppError::Internal(_) => 500,
        }
    }

    /// The error in words, as it is logged.
    pub open spec fn described(self) -> Seq<char> {
        match self {
            AppError::Db(m) => "database error: "@ + m@,
            AppError::Pool(m) => "r2d2 error: "@ + m@,
            AppError::Serde(m) => "serde error: "@ + m@,
            AppError::TimeParse(m) => "time parse error: "@ + m@,
            AppError::BadRequest(m) => "bad request: "@ + m@,
            AppError::NotFound(m) => "not found: "@ + m@,
            AppError::Conflict(m) => "conflict: "@ + m@,
            AppError::Internal(m) => "internal error: "@ + m@,
        }
    }

    /// The message that answers the error.
    pub open spec fn answer(self) -> Seq<char> {
        match self {
            AppError::Db(m) => "database error: "@ + m@,
            AppError::Pool(m) => "connection pool error: "@ + m@,
            AppError::Serde(m) => "invalid json: "@ + m@,
            AppError::TimeParse(_) => "invalid time format: "@ + self.described(),
            AppError::BadRequest(m) => m@,
            AppError::NotFound(m) => m@,
            AppError::Conflict(m) => m@,
            AppError::Internal(m) => m@,
        }
    }

    pub fn status(&self) -> (r: u16)
        ensures
            r == self.status_code(),
    {
        match self {
            AppError::Db(_) => 500,
            AppError::Pool(_) => 500,
            AppError::Serde(_) => 400,
            AppError::TimeParse(_) => 400,
            AppError::BadRequest(_) => 400,
            AppError::NotFound(_) => 404,
            AppError::Conflict(_) => 409,
            AppError::Internal(_) => 500,
        }
    }

    pub fn describe(&self) -> (r: String)
        ensures
            r@ == self.described(),
    {
        match self {
            AppError::Db(m) => "database error: ".to_owned().concat(m.as_str()),
            AppError::Pool(m) => "r2d2 error: ".to_owned().concat(m.as_str()),
            AppError::Serde(m) => "serde error: ".to_owned().concat(m.as_str()),
            AppError::TimeParse(m) => "time parse error: ".to_owned().concat(m.as_str()),
            AppError::BadRequest(m) => "bad request: ".to_owned().concat(m.as_str()),
            AppError::NotFound(m) => "not found: ".to_owned().concat(m.as_str()),
            AppError::Conflict(m) => "conflict: ".to_owned().concat(m.as_str()),
            AppError::Internal(m) => "internal error: ".to_owned().concat(m.as_str()),
        }
    }

    pub fn message(&self) -> (r: String)
        ensures
            r@ == self.answer(),
    {
        match self {
            AppError::Db(m) => "database error: ".to_owned().concat(m.as_str()),
            AppError::Pool(m) => "connection pool error: ".to_owned().concat(m.as_str()),
            AppError::Serde(m) => "invalid json: ".to_owned().concat(m.as_str()),
            AppError::TimeParse(_) => "invalid time format: ".to_owned().concat(
                self.describe().as_str(),
            ),
            AppError::BadRequest(m) => m.clone(),
            AppError::NotFound(m) => m.clone(),
            AppError::Conflict(m) => m.clone(),
            AppError::Internal(m) => m.clone(),
        }
    }
}

} // verus!
