use vstd::prelude::*;
use vstd::string::*;

verus! {

/// Why an input could not be had.
#[derive(Debug, Clone, PartialEq, Eq)]
pub enum InputError {
    /// The input type is supported but the resource was not found.
    NotFound,
    /// The input did not match.
    NoMatch,
    /// The input type is not supported.
    UnsupportedType,
    /// The resource could not be fetched.
    NetworkFailed,
    /// The resource could not be parsed.
    ParseError(String),
    /// The resource is invalid.
    Invalid,
    /// Some other failure, described.
    Other(String),
    /// An unknown failure.
    Unknown,
}

impl InputError {
    pub open spec fn spec_status_code(&self) -> u16 {
        match self {
            InputError::NotFound => 404,
            InputError::NoMatch | InputError::UnsupportedType | InputError::Invalid => 400,
            _ => 500,
        }
    }

    /// The HTTP status that reports this error.
    pub fn status_code(&self) -> (r: u16)
        ensures
            r == self.spec_status_code(),
    {
        match self {
            InputError::NotFound => 404,
            InputError::NoMatch | InputError::UnsupportedType | InputError::Invalid => 400,
            _ => 500,
        }
    }
}

/// Why a database request failed.
#[derive(Debug, Clone, PartialEq, Eq)]
pub enum DatabaseError {
    /// An unknown or internal failure, described.
    Internal(String),
    /// A resource with that value already exists.
    Conflict { resource: String, field: String, value: String },
    /// The resource does not exist.
    NotFound { resource: String, identifier: String },
}

/// An error as the server reports it.
#[derive(Debug, Clone, PartialEq, Eq)]
pub enum ServerError {
    NotFound { resource: String, identifier: String },
    Conflict { resource: String, field: String, value: String },
    Unknown(String),
    InvalidCredentials,
    SuperuserExists,
    RoomNotActive,
    UserNotInRoom,
    StreamKeyNotOwn,
    StreamKeyNotFound,
    InputNotFound,
    InputNoMatch,
    UnsupportedInputType,
    InputNetworkFailed,
    InputParseError(String),
    InputInvalid,
}

impl ServerError {
    pub open spec fn spec_status_code(&self) -> u16 {
        match self {
            ServerError::SuperuserExists => 409,
            ServerError::InvalidCredentials => 400,
            ServerError::Conflict { .. } => 409,
            ServerError::NotFound { .. } => 404,
            ServerError::RoomNotActive => 400,
            ServerError::UserNotInRoom => 403,
            ServerError::StreamKeyNotFound => 404,
            ServerError::StreamKeyNotOwn => 403,
            ServerError::InputNotFound => 404,
            ServerError::InputNoMatch => 400,
            ServerError::UnsupportedInputType => 400,
            ServerError::InputInvalid => 400,
            _ => 500,
        }
    }

    /// The HTTP status that reports this error.
    pub fn as_status_code(&self) -> (r: u16)
        ensures
            r == self.spec_status_code(),
    {
        match self {
            ServerError::SuperuserExists => 409,
            ServerError::InvalidCredentials => 400,
            ServerError::Conflict { .. } => 409,
            ServerError::NotFound { .. } => 404,
            ServerError::RoomNotActive => 400,
            ServerError::UserNotInRoom => 403,
            ServerError::StreamKeyNotFound => 404,
            ServerError::StreamKeyNotOwn => 403,
            ServerError::InputNotFound => 404,
            ServerError::InputNoMatch => 400,
            ServerError::UnsupportedInputType => 400,
            ServerError::InputInvalid => 400,
            _ => 500,
        }
    }
}

impl ServerError {
    /// Whether `r` is how the server reports input error `e`.
    pub open spec fn reports_input_error(r: ServerError, e: InputError) -> bool {
        match e {
            InputError::Invalid => r == ServerError::InputInvalid,
            InputError::NetworkFailed => r == ServerError::InputNetworkFailed,
            InputError::NoMatch => r == ServerError::InputNoMatch,
            InputError::NotFound => r == ServerError::InputNotFound,
            InputError::UnsupportedType => r == ServerError::UnsupportedInputType,
            InputError::ParseError(m) => r == ServerError::InputParseError(m),
            InputError::Other(m) => r == ServerError::Unknown(m),
            InputError::Unknown => r is Unknown && r->Unknown_0@ == "An unknown error occurred"@,
        }
    }

    /// How the server reports an input error.
    pub fn from_input_error(value: InputError) -> (r: Self)
        ensures
            Self::reports_input_error(r, value),
    {
        match value {
            InputError::Invalid => ServerError::InputInvalid,
            InputError::NetworkFailed => ServerError::InputNetworkFailed,
            InputError::NoMatch => ServerError::InputNoMatch,
            InputError::NotFound => ServerError::InputNotFound,
            InputError::UnsupportedType => ServerError::UnsupportedInputType,
            InputError::ParseError(m) => ServerError::InputParseError(m),
            InputError::Other(m) => ServerError::Unknown(m),
            InputError::Unknown => ServerError::Unknown(String::from_str("An unknown error occurred")),
        }
    }

    /// How the server reports a database error.
    pub fn from_database_error(value: DatabaseError) -> (r: Self)
        ensures
            r == (match value {
                DatabaseError::NotFound { resource, identifier } => ServerError::NotFound { resource, identifier },
                DatabaseError::Conflict { resource, field, value } => ServerError::Conflict { resource, field, value },
                DatabaseError::Internal(m) => ServerError::Unknown(m),
            }),
    {
        match value {
            DatabaseError::NotFound { resource, identifier } => ServerError::NotFound { resource, identifier },
            DatabaseError::Conflict { resource, field, value } => ServerError::Conflict { resource, field, value },
            DatabaseError::Internal(m) => ServerError::Unknown(m),
        }
    }
}

} // verus!
