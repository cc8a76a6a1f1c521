use vstd::prelude::*;

verus! {

/// An error as the storage backend reports it, for opening an object or for
/// one chunk of its byte stream.
#[derive(Clone, Debug, PartialEq, Eq)]
pub enum GetError {
    /// The object does not exist.
    NoSuchKey(String),
    /// The storage service or the transport failed.
    S3Error(String),
    /// An error of a local store; a remote stream never yields it.
    LocalError(String),
}

impl GetError {
    pub open spec fn is_remote(&self) -> bool {
        !(self is LocalError)
    }

    /// Whether the error can come from a remote backend.
    pub fn remote(&self) -> (r: bool)
        ensures
            r == self.is_remote(),
    {
        !matches!(self, GetError::LocalError(_))
    }
}

/// The error kinds that the proxy hands to its callers.
#[derive(Clone, Debug, PartialEq, Eq)]
pub enum AdmissionControlledS3StorageError {
    /// The object does not exist; carries the backend's message.
    NotFound(String),
    /// A transient or permanent failure of the storage service.
    BackendError(String),
}

/// A coarse classification of an error, for callers that only branch on it.
#[derive(Clone, Copy, Debug, PartialEq, Eq)]
pub enum ErrorCodes {
    NotFound,
    Internal,
}

/// The proxy error that a remote backend error becomes.
pub open spec fn translated(e: GetError) -> AdmissionControlledS3StorageError
    recommends
        e.is_remote(),
{
    match e {
        GetError::NoSuchKey(m) => AdmissionControlledS3StorageError::NotFound(m),
        GetError::S3Error(m) => AdmissionControlledS3StorageError::BackendError(m),
        GetError::LocalError(m) => AdmissionControlledS3StorageError::BackendError(m),
    }
}

/// Maps a backend error to the proxy's kind, keeping its message. A local
/// store's error is not expected at this layer and is excluded.
pub fn translate(e: GetError) -> (r: AdmissionControlledS3StorageError)
    requires
        e.is_remote(),
    ensures
        r == translated(e),
{
    match e {
        GetError::NoSuchKey(m) => AdmissionControlledS3StorageError::NotFound(m),
        GetError::S3Error(m) => AdmissionControlledS3StorageError::BackendError(m),
        GetError::LocalError(m) => AdmissionControlledS3StorageError::BackendError(m),
    }
}

impl AdmissionControlledS3StorageError {
    pub open spec fn spec_code(&self) -> ErrorCodes {
        match self {
            AdmissionControlledS3StorageError::NotFound(_) => ErrorCodes::NotFound,
            AdmissionControlledS3StorageError::BackendError(_) => ErrorCodes::Internal,
        }
    }

    /// The classification of the error: a missing object, or an internal failure.
    pub fn code(&self) -> (r: ErrorCodes)
        ensures
            r == self.spec_code(),
    {
        match self {
            AdmissionControlledS3StorageError::NotFound(_) => ErrorCodes::NotFound,
            AdmissionControlledS3StorageError::BackendError(_) => ErrorCodes::Internal,
        }
    }

    /// The backend's message that the error carries.
    pub fn message(&self) -> (r: String)
        ensures
            r@ == self.spec_message(),
    {
        match self {
            AdmissionControlledS3StorageError::NotFound(m) => m.clone(),
            AdmissionControlledS3StorageError::BackendError(m) => m.clone(),
        }
    }

    pub open spec fn spec_message(&self) -> Seq<char> {
        match self {
            AdmissionControlledS3StorageError::NotFound(m) => m@,
            AdmissionControlledS3StorageError::BackendError(m) => m@,
        }
    }
}

} // verus!
