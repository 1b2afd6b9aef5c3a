//! The API error taxonomy: every failure a request can end in, the S3 error
//! code each one renders as, and the HTTP status that carries it.

use vstd::prelude::*;

verus! {

/// Errors shared by every part of the API surface.
#[derive(Debug)]
pub enum CommonError {
    /// Quorum failures, storage faults, unexpected merge outcomes.
    InternalError(String),
    /// A malformed request.
    BadRequest(String),
}

/// Errors of the API.
#[derive(Debug)]
pub enum Error {
    /// An error from the common taxonomy.
    CommonError(CommonError),
    /// The credential scope could not be parsed.
    AuthorizationHeaderMalformed(String),
    /// The object requested does not exist.
    NoSuchKey,
    /// The multipart upload requested does not exist.
    NoSuchUpload,
    /// A precondition given in a conditional header did not hold.
    PreconditionFailed,
    /// Parts given to complete a multipart upload do not match the parts
    /// uploaded.
    InvalidPart,
    /// Parts given to complete a multipart upload were not in ascending
    /// order.
    InvalidPartOrder,
    /// A proposed upload is smaller than the minimum allowed object size.
    EntityTooSmall,
    /// The request held an invalid UTF-8 sequence in its path or parameters.
    InvalidUtf8Str(String),
    /// A byte string that was required to be UTF-8 was not.
    InvalidUtf8String(String),
    /// The client sent invalid XML.
    InvalidXml(String),
    /// A header value could not be read.
    InvalidHeader(String),
    /// A range header did not fit the object; carries the object's length.
    InvalidRange(u64),
    /// An action this server does not support.
    NotImplemented(String),
}

impl Error {
    /// A bad request with the given message.
    pub fn bad_request(msg: String) -> (r: Error)
        ensures
            r == Error::CommonError(CommonError::BadRequest(msg)),
    {
        Error::CommonError(CommonError::BadRequest(msg))
    }

    /// An internal error with the given message.
    pub fn internal_error(msg: String) -> (r: Error)
        ensures
            r == Error::CommonError(CommonError::InternalError(msg)),
    {
        Error::CommonError(CommonError::InternalError(msg))
    }

    /// The S3 error code of this error.
    pub open spec fn spec_aws_code(&self) -> Seq<char> {
        match self {
            Error::CommonError(CommonError::InternalError(_)) => "InternalError"@,
            Error::CommonError(CommonError::BadRequest(_)) => "InvalidRequest"@,
            Error::NoSuchKey => "NoSuchKey"@,
            Error::NoSuchUpload => "NoSuchUpload"@,
            Error::PreconditionFailed => "PreconditionFailed"@,
            Error::InvalidPart => "InvalidPart"@,
            Error::InvalidPartOrder => "InvalidPartOrder"@,
            Error::EntityTooSmall => "EntityTooSmall"@,
            Error::AuthorizationHeaderMalformed(_) => "AuthorizationHeaderMalformed"@,
            Error::NotImplemented(_) => "NotImplemented"@,
            Error::InvalidXml(_) => "MalformedXML"@,
            Error::InvalidRange(_) => "InvalidRange"@,
            Error::InvalidUtf8Str(_) => "InvalidRequest"@,
            Error::InvalidUtf8String(_) => "InvalidRequest"@,
            Error::InvalidHeader(_) => "InvalidRequest"@,
        }
    }

    pub fn aws_code(&self) -> (r: &'static str)
        ensures
            r@ == self.spec_aws_code(),
    {
        match self {
            Error::CommonError(CommonError::InternalError(_)) => "InternalError",
            Error::CommonError(CommonError::BadRequest(_)) => "InvalidRequest",
            Error::NoSuchKey => "NoSuchKey",
            Error::NoSuchUpload => "NoSuchUpload",
            Error::PreconditionFailed => "PreconditionFailed",
            Error::InvalidPart => "InvalidPart",
            Error::InvalidPartOrder => "InvalidPartOrder",
            Error::EntityTooSmall => "EntityTooSmall",
            Error::AuthorizationHeaderMalformed(_) => "AuthorizationHeaderMalformed",
            Error::NotImplemented(_) => "NotImplemented",
            Error::InvalidXml(_) => "MalformedXML",
            Error::InvalidRange(_) => "InvalidRange",
            Error::InvalidUtf8Str(_) => "InvalidRequest",
            Error::InvalidUtf8String(_) => "InvalidRequest",
            Error::InvalidHeader(_) => "InvalidRequest",
        }
    }

    /// The HTTP status code that best carries this error to the client.
    pub open spec fn spec_http_status_code(&self) -> u16 {
        match self {
            Error::CommonError(CommonError::InternalError(_)) => 500,
            Error::CommonError(CommonError::BadRequest(_)) => 400,
            Error::NoSuchKey => 404,
            Error::NoSuchUpload => 404,
            Error::PreconditionFailed => 412,
            Error::InvalidRange(_) => 416,
            Error::NotImplemented(_) => 501,
            Error::AuthorizationHeaderMalformed(_) => 400,
            Error::InvalidPart => 400,
            Error::InvalidPartOrder => 400,
            Error::EntityTooSmall => 400,
            Error::InvalidXml(_) => 400,
            Error::InvalidUtf8Str(_) => 400,
            Error::InvalidUtf8String(_) => 400,
            Error::InvalidHeader(_) => 400,
        }
    }

    pub fn http_status_code(&self) -> (r: u16)
        ensures
            r == self.spec_http_status_code(),
    {
        match self {
            Error::CommonError(CommonError::InternalError(_)) => 500,
            Error::CommonError(CommonError::BadRequest(_)) => 400,
            Error::NoSuchKey => 404,
            Error::NoSuchUpload => 404,
            Error::PreconditionFailed => 412,
            Error::InvalidRange(_) => 416,
            Error::NotImplemented(_) => 501,
            Error::AuthorizationHeaderMalformed(_) => 400,
            Error::InvalidPart => 400,
            Error::InvalidPartOrder => 400,
            Error::EntityTooSmall => 400,
            Error::InvalidXml(_) => 400,
            Error::InvalidUtf8Str(_) => 400,
            Error::InvalidUtf8String(_) => 400,
            Error::InvalidHeader(_) => 400,
        }
    }
}

} // verus!
