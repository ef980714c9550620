//! Request and response records and the error taxonomy of the transport.

use vstd::prelude::*;

verus! {

/// The correlation key of one in-flight exchange: the request kind together
/// with the per-request id.  At most one live waiter exists per key.
#[derive(Clone, Copy, PartialEq, Eq, Structural, Debug)]
pub struct CorrelationKey {
    /// Request-type identifier, opaque to the transport.
    pub req: u32,
    /// Correlation id drawn from the shared generator.
    pub id: u64,
}

/// A decoded inbound response.  `res == 0` denotes success; any other value
/// is a remote-reported failure left to the caller to interpret.  The
/// payload, when present, is the raw bytes of one MessagePack value; the
/// transport never looks inside it.
#[derive(Clone, PartialEq, Debug)]
pub struct ResponsePacket {
    pub req: u32,
    pub id: u64,
    pub res: i32,
    pub data: Option<Vec<u8>>,
}

impl ResponsePacket {
    /// The correlation key this response addresses.
    pub open spec fn spec_key(self) -> CorrelationKey {
        CorrelationKey { req: self.req, id: self.id }
    }

    /// Executable form of [`Self::spec_key`].
    pub fn key(&self) -> (k: CorrelationKey)
        ensures
            k == self.spec_key(),
    {
        CorrelationKey { req: self.req, id: self.id }
    }
}

/// Why a datagram failed to decode as a response.  The receiver treats every
/// decode failure as "drop silently and continue".
#[derive(Clone, Copy, PartialEq, Eq, Structural, Debug)]
pub enum DecodeError {
    /// The buffer ended before the value it announced.
    Truncated,
    /// A field or key had a MessagePack type the envelope does not allow.
    UnexpectedType,
    /// An integer field held a value outside its record type's range.
    OutOfRange,
    /// One of `req`, `id` or `res` was absent.
    MissingField,
    /// The same envelope key appeared twice.
    DuplicateField,
    /// Well-formed envelope followed by extra bytes; a datagram carries
    /// exactly one message.
    TrailingBytes,
}

/// The failures a request can surface to its caller.
#[derive(Clone, Copy, PartialEq, Eq, Structural, Debug)]
pub enum DeviceError {
    /// The socket failed to send; aborts the operation at once, never retried.
    Io,
    /// All retry attempts elapsed without a matching response.
    Timeout,
    /// The waiter's channel broke for a reason other than fulfillment.
    InternalError,
}

} // verus!
