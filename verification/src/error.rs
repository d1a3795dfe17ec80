//! The error type of the request handlers and the HTTP answer each error gets.

use vstd::prelude::*;
use crate::db::StoreError;

verus! {

/// Why a request failed.
#[derive(Debug)]
pub enum AppError {
    NotFound,
    BadRequest(String),
    Database(StoreError),
    Template(String),
    Internal(String),
}

/// The status code and body text that answer an error. Only a bad request
/// shows its own message; storage, template and internal errors all answer
/// with the same generic text, so that no detail leaks to the client.
pub open spec fn error_answer(e: AppError) -> (u16, Seq<char>) {
    match e {
        AppError::NotFound => (404, "Not found"@),
        AppError::BadRequest(m) => (400, m@),
        AppError::Database(_) => (500, "Internal error"@),
        AppError::Template(_) => (500, "Internal error"@),
        AppError::Internal(_) => (500, "Internal error"@),
    }
}

impl AppError {
    /// The status code and body text of the response to this error.
    pub fn status_and_message(&self) -> (res: (u16, String))
        ensures
            res.0 == error_answer(*self).0,
            res.1@ == error_answer(*self).1,
    {
        match self {
            AppError::NotFound => (404, "Not found".to_owned()),
            AppError::BadRequest(m) => (400, m.clone()),
            AppError::Database(_) => (500, "Internal error".to_owned()),
            AppError::Template(_) => (500, "Internal error".to_owned()),
            AppError::Internal(_) => (500, "Internal error".to_owned()),
        }
    }
}

} // verus!
