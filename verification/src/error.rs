use vstd::prelude::*;

verus! {

/// What went wrong, without the details.
#[derive(Clone, Copy, Debug, PartialEq, Eq, Structural)]
pub enum ErrorKind {
    /// The underlying storage failed.
    Io,
    /// A byte could not be parsed as the value it stands for.
    Parse,
    /// A magic number does not match.
    MagicMismatch,
    /// A checksum does not match.
    ChecksumMismatch,
    /// A length or an offset points outside of the data.
    OutOfRange,
    /// A device has no room left.
    NoSpace,
    /// The engine was closed.
    Closed,
    /// A background task could not be joined.
    Join,
    /// Some blocks could not be recovered.
    Recover,
    /// A device cannot do what it was asked for.
    Unsupported,
    /// Any other failure.
    External,
}

/// An error, with the details that belong to its kind.
#[derive(Debug)]
#[allow(inconsistent_fields)]
pub enum Error {
    /// The underlying storage failed with the given code.
    Io { code: i32 },
    /// `value` does not stand for anything.
    Parse { value: u8 },
    /// The magic number read is `get`, the one wanted is `expected`.
    MagicMismatch { expected: u32, get: u32 },
    /// The checksum read is `get`, the one wanted is `expected`.
    ChecksumMismatch { expected: u64, get: u64 },
    /// The range `start..end` does not lie within `0..len`.
    OutOfRange { len: usize, start: usize, end: usize },
    /// `required` bytes are needed, `allocated` out of `capacity` bytes are taken.
    NoSpace { capacity: usize, allocated: usize, required: usize },
    /// The engine was closed.
    Closed,
    /// A background task could not be joined.
    Join,
    /// Some blocks could not be recovered, one reason for each of them.
    Recover { reasons: Vec<Error> },
    /// A device cannot do what it was asked for.
    Unsupported,
    /// Any other failure.
    External { code: i32 },
}

impl Error {
    /// The kind of the error.
    pub open spec fn spec_kind(self) -> ErrorKind {
        match self {
            Error::Io { .. } => ErrorKind::Io,
            Error::Parse { .. } => ErrorKind::Parse,
            Error::MagicMismatch { .. } => ErrorKind::MagicMismatch,
            Error::ChecksumMismatch { .. } => ErrorKind::ChecksumMismatch,
            Error::OutOfRange { .. } => ErrorKind::OutOfRange,
            Error::NoSpace { .. } => ErrorKind::NoSpace,
            Error::Closed => ErrorKind::Closed,
            Error::Join => ErrorKind::Join,
            Error::Recover { .. } => ErrorKind::Recover,
            Error::Unsupported => ErrorKind::Unsupported,
            Error::External { .. } => ErrorKind::External,
        }
    }

    /// Get the kind of the error.
    pub fn kind(&self) -> (kind: ErrorKind)
        ensures
            kind == self.spec_kind(),
    {
        match self {
            Error::Io { .. } => ErrorKind::Io,
            Error::Parse { .. } => ErrorKind::Parse,
            Error::MagicMismatch { .. } => ErrorKind::MagicMismatch,
            Error::ChecksumMismatch { .. } => ErrorKind::ChecksumMismatch,
            Error::OutOfRange { .. } => ErrorKind::OutOfRange,
            Error::NoSpace { .. } => ErrorKind::NoSpace,
            Error::Closed => ErrorKind::Closed,
            Error::Join => ErrorKind::Join,
            Error::Recover { .. } => ErrorKind::Recover,
            Error::Unsupported => ErrorKind::Unsupported,
            Error::External { .. } => ErrorKind::External,
        }
    }
}

/// Errors are of the same kind exactly if they are the same but for their details.
pub proof fn kinds_tell_errors_apart(e: Error)
    ensures
        e is Io <==> e.spec_kind() == ErrorKind::Io,
        e is Parse <==> e.spec_kind() == ErrorKind::Parse,
        e is MagicMismatch <==> e.spec_kind() == ErrorKind::MagicMismatch,
        e is ChecksumMismatch <==> e.spec_kind() == ErrorKind::ChecksumMismatch,
        e is OutOfRange <==> e.spec_kind() == ErrorKind::OutOfRange,
        e is NoSpace <==> e.spec_kind() == ErrorKind::NoSpace,
        e is Closed <==> e.spec_kind() == ErrorKind::Closed,
        e is Join <==> e.spec_kind() == ErrorKind::Join,
        e is Recover <==> e.spec_kind() == ErrorKind::Recover,
        e is Unsupported <==> e.spec_kind() == ErrorKind::Unsupported,
        e is External <==> e.spec_kind() == ErrorKind::External,
{
}

} // verus!
