//! Error values: the schema changes the updater refuses, and the errors
//! an HTTP front end reports to clients.

use vstd::prelude::*;

verus! {

/// A schema change that cannot be applied online: anything but toggling
/// properties of an existing attribute requires a full rebuild.
#[derive(Debug, Copy, Clone, PartialEq, Eq, Structural)]
pub enum UnsupportedOperation {
    CannotUpdateSchemaIdentifier,
    CannotReorderSchemaAttribute,
    CannotIntroduceNewSchemaAttribute,
    CannotRemoveSchemaAttribute,
}

pub type SResult<T> = Result<T, ResponseError>;

/// An error reported to an HTTP client, with the message to show.
#[derive(Debug, Clone, PartialEq, Eq)]
pub enum ResponseError {
    Internal(String),
    BadRequest(String),
    InvalidToken(String),
    NotFound(String),
    IndexNotFound(String),
    DocumentNotFound(String),
    MissingHeader(String),
    BadParameter(String, String),
    CreateIndex(String),
    Maintenance,
}

impl ResponseError {
    pub fn internal(message: String) -> (r: ResponseError)
        ensures
            r == ResponseError::Internal(message),
    {
        ResponseError::Internal(message)
    }

    pub fn bad_request(message: String) -> (r: ResponseError)
        ensures
            r == ResponseError::BadRequest(message),
    {
        ResponseError::BadRequest(message)
    }

    pub fn invalid_token(message: String) -> (r: ResponseError)
        ensures
            r == ResponseError::InvalidToken(message),
    {
        ResponseError::InvalidToken(message)
    }

    pub fn not_found(message: String) -> (r: ResponseError)
        ensures
            r == ResponseError::NotFound(message),
    {
        ResponseError::NotFound(message)
    }

    pub fn index_not_found(message: String) -> (r: ResponseError)
        ensures
            r == ResponseError::IndexNotFound(message),
    {
        ResponseError::IndexNotFound(message)
    }

    pub fn document_not_found(message: String) -> (r: ResponseError)
        ensures
            r == ResponseError::DocumentNotFound(message),
    {
        ResponseError::DocumentNotFound(message)
    }

    pub fn missing_header(message: String) -> (r: ResponseError)
        ensures
            r == ResponseError::MissingHeader(message),
    {
        ResponseError::MissingHeader(message)
    }

    pub fn bad_parameter(name: String, message: String) -> (r: ResponseError)
        ensures
            r == ResponseError::BadParameter(name, message),
    {
        ResponseError::BadParameter(name, message)
    }

    pub fn create_index(message: String) -> (r: ResponseError)
        ensures
            r == ResponseError::CreateIndex(message),
    {
        ResponseError::CreateIndex(message)
    }
}

} // verus!
