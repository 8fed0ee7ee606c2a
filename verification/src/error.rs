use vstd::prelude::*;

verus! {

/// The broker's error taxonomy.
#[derive(Debug, Clone, PartialEq, Eq)]
pub enum OzesError {
    /// A read or write did not finish within its time limit.
    TimeOut,
    /// The peer closed the connection or the socket broke.
    WithouConnection,
    /// The peer answered with an `error` command.
    ErrorResponse,
    /// An operating-system error outside this taxonomy.
    UnknownError(String),
    /// An incoming frame was larger than the read buffer.
    ToLongMessage,
    /// The listener address is already taken.
    AddrInUse,
    /// The listener may not bind its address.
    PermissionDenied,
    /// A declared frame length disagrees with the computed one.
    InvalidLen(usize),
}

/// Whether two errors are of the same kind, whatever they carry.
pub open spec fn spec_same_kind(a: OzesError, b: OzesError) -> bool {
    match (a, b) {
        (OzesError::TimeOut, OzesError::TimeOut) => true,
        (OzesError::WithouConnection, OzesError::WithouConnection) => true,
        (OzesError::ErrorResponse, OzesError::ErrorResponse) => true,
        (OzesError::UnknownError(_), OzesError::UnknownError(_)) => true,
        (OzesError::ToLongMessage, OzesError::ToLongMessage) => true,
        (OzesError::AddrInUse, OzesError::AddrInUse) => true,
        (OzesError::PermissionDenied, OzesError::PermissionDenied) => true,
        (OzesError::InvalidLen(_), OzesError::InvalidLen(_)) => true,
        _ => false,
    }
}

impl OzesError {
    /// Whether `self` and `error` are of the same kind, whatever they carry.
    pub fn is_error(&self, error: OzesError) -> (r: bool)
        ensures
            r == spec_same_kind(*self, error),
    {
        match (self, &error) {
            (OzesError::TimeOut, OzesError::TimeOut) => true,
            (OzesError::WithouConnection, OzesError::WithouConnection) => true,
            (OzesError::ErrorResponse, OzesError::ErrorResponse) => true,
            (OzesError::UnknownError(_), OzesError::UnknownError(_)) => true,
            (OzesError::ToLongMessage, OzesError::ToLongMessage) => true,
            (OzesError::AddrInUse, OzesError::AddrInUse) => true,
            (OzesError::PermissionDenied, OzesError::PermissionDenied) => true,
            (OzesError::InvalidLen(_), OzesError::InvalidLen(_)) => true,
            _ => false,
        }
    }
}

} // verus!
