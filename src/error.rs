use vstd::prelude::*;

verus! {

/// Failures of the storage engine.
#[derive(Debug, Clone, Copy, PartialEq, Eq, Structural)]
pub enum StoreError {
    /// No paste has this id.
    NotFound,
    /// The id is already taken.
    Conflict,
    /// The metadata store or a record in it failed.
    Store,
}

/// Errors reported to HTTP callers.
#[derive(Debug)]
pub enum ApiError {
    BadRequest(String),
    NotFound,
    Forbidden,
    Unknown(String),
}

pub open spec fn api_message(e: ApiError) -> Seq<char> {
    match e {
        ApiError::BadRequest(m) => m@,
        ApiError::NotFound => "Paste Not Found"@,
        ApiError::Forbidden => "Forbidden: Bad Key"@,
        ApiError::Unknown(m) => m@,
    }
}

pub open spec fn api_status(e: ApiError) -> u16 {
    match e {
        ApiError::BadRequest(_) => 400,
        ApiError::NotFound => 404,
        ApiError::Forbidden => 403,
        ApiError::Unknown(_) => 500,
    }
}

impl ApiError {
    /// The text shown to the caller.
    pub fn message(&self) -> (r: String)
        ensures
            r@ == api_message(*self),
    {
        match self {
            ApiError::BadRequest(m) => m.clone(),
            ApiError::NotFound => "Paste Not Found".to_owned(),
            ApiError::Forbidden => "Forbidden: Bad Key".to_owned(),
            ApiError::Unknown(m) => m.clone(),
        }
    }

    /// The HTTP status code of this error.
    pub fn status_code(&self) -> (r: u16)
        ensures
            r == api_status(*self),
    {
        match self {
            ApiError::BadRequest(_) => 400,
            ApiError::NotFound => 404,
            ApiError::Forbidden => 403,
            ApiError::Unknown(_) => 500,
        }
    }

    /// The error a handler reports for a storage failure.
    pub fn from_store(e: StoreError) -> (r: ApiError)
        ensures
            e == StoreError::NotFound ==> r == ApiError::NotFound,
            e == StoreError::Conflict ==> (r matches ApiError::BadRequest(m) && m@ == "Paste already exists"@),
            e == StoreError::Store ==> (r matches ApiError::Unknown(m) && m@ == "Internal Server Error"@),
    {
        match e {
            StoreError::NotFound => ApiError::NotFound,
            StoreError::Conflict => ApiError::BadRequest("Paste already exists".to_owned()),
            StoreError::Store => ApiError::Unknown("Internal Server Error".to_owned()),
        }
    }
}

} // verus!
