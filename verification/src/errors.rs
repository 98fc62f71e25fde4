//! The error taxonomy: transport and parse failures that close the
//! connection, and extraction failures that become client-error
//! responses.

use vstd::prelude::*;
use vstd::string::*;

verus! {

/// A failure while deriving a typed argument from the request.
#[derive(Debug)]
pub enum ExtractionError {
    /// The body could not be decoded; carries the decoder's words.
    Json(String),
    /// The query string could not be decoded; carries the decoder's words.
    Query(String),
    /// A path parameter could not be parsed; carries the parser's words.
    Path(String),
    /// A path parameter expected by the handler was not captured.
    MissingPathField,
    /// The number of captured path parameters does not fit the handler.
    InvalidLength,
    /// No shared state is registered under the requested key.
    DataNotFound,
}

impl ExtractionError {
    /// The status code this failure is reported with: a client error.
    pub fn status_code(&self) -> (r: u16)
        ensures
            r == 400,
    {
        400
    }
}

/// A failure while serving a connection.
#[derive(Debug)]
pub enum ServerError {
    /// The peer closed the connection before a full request arrived.
    ConnectionClosed,
    /// The bytes read so far do not yet hold a full request head.
    PartialParsed,
    /// The request line or a header line is malformed.
    ParseError,
    /// The request carries bytes that are not plain ASCII text where
    /// such text is required.
    InvalidEncoding,
    /// A header value to be written is not legal header text.
    InvalidHeaderValue,
    /// The request line carries no path.
    UriEmpty,
    /// The request line carries no method.
    MethodEmpty,
    /// The request line carries no version.
    VersionEmpty,
    /// The middleware stack could not produce a ready service.
    ServiceConstructionFailed,
    /// An argument could not be extracted from the request.
    ExtractionError(ExtractionError),
}

impl ServerError {
    /// The status code this failure is reported with: extraction
    /// failures are the client's, everything else is the server's.
    pub fn status_code(&self) -> (r: u16)
        ensures
            r == self.spec_status_code(),
    {
        match self {
            ServerError::ExtractionError(e) => e.status_code(),
            _ => 500,
        }
    }

    /// The status code, as a specification.
    pub open spec fn spec_status_code(&self) -> u16 {
        match self {
            ServerError::ExtractionError(_) => 400,
            _ => 500,
        }
    }

    /// A short description, used as the body of an error response.
    pub fn message(&self) -> (r: String)
        ensures
            r@ == self.spec_message(),
    {
        match self {
            ServerError::ConnectionClosed => "Connection was closed".to_owned(),
            ServerError::PartialParsed => "Partially parsed the request".to_owned(),
            ServerError::ParseError => "Malformed request".to_owned(),
            ServerError::InvalidEncoding => "Invalid encoding for request".to_owned(),
            ServerError::InvalidHeaderValue => "Invalid header value".to_owned(),
            ServerError::UriEmpty => "Uri Empty".to_owned(),
            ServerError::MethodEmpty => "Method not Provided".to_owned(),
            ServerError::VersionEmpty => "Version is not provided".to_owned(),
            ServerError::ServiceConstructionFailed => "Failed to construct the service".to_owned(),
            ServerError::ExtractionError(_) => "Failed to extract an argument".to_owned(),
        }
    }

    /// The description, as a specification.
    pub open spec fn spec_message(&self) -> Seq<char> {
        match self {
            ServerError::ConnectionClosed => "Connection was closed"@,
            ServerError::PartialParsed => "Partially parsed the request"@,
            ServerError::ParseError => "Malformed request"@,
            ServerError::InvalidEncoding => "Invalid encoding for request"@,
            ServerError::InvalidHeaderValue => "Invalid header value"@,
            ServerError::UriEmpty => "Uri Empty"@,
            ServerError::MethodEmpty => "Method not Provided"@,
            ServerError::VersionEmpty => "Version is not provided"@,
            ServerError::ServiceConstructionFailed => "Failed to construct the service"@,
            ServerError::ExtractionError(_) => "Failed to extract an argument"@,
        }
    }
}

/// An application-level failure, already mapped to the status code and
/// text it is reported with.
#[derive(Debug)]
pub struct Error {
    /// The status code of the error response.
    pub status: u16,
    /// The text sent as the response body.
    pub message: String,
}

impl Error {
    /// Wraps a status code and a message.
    pub fn new(status: u16, message: String) -> (r: Error)
        requires
            100 <= status < 1000,
        ensures
            r.status == status,
            r.message@ == message@,
    {
        Error { status, message }
    }

    /// The status code of the error response.
    pub fn status_code(&self) -> (r: u16)
        ensures
            r == self.status,
    {
        self.status
    }
}

} // verus!
