use vstd::prelude::*;

verus! {

#[verifier::external_type_specification]
#[verifier::external_body]
pub struct ExUtf8Error(std::str::Utf8Error);

#[verifier::external_type_specification]
#[verifier::external_body]
pub struct ExFromUtf8Error(std::string::FromUtf8Error);

#[verifier::external_type_specification]
#[verifier::external_body]
pub struct ExIoError(std::io::Error);

/// A read that asked for more bytes than the buffer had left.
#[derive(Debug, Clone, Copy, PartialEq, Eq, Structural)]
pub struct TryGetError {
    /// The number of bytes necessary to get the value.
    pub requested: usize,
    /// The number of bytes available in the buffer.
    pub available: usize,
}

/// Why bytes could not be decoded.
#[derive(Debug)]
pub enum RukBytesError {
    TryGet(TryGetError),
    Utf8(std::str::Utf8Error),
    FromUtf8(std::string::FromUtf8Error),
    InvalidData(String),
}

/// The mathematical value of a decoding error.
pub enum BytesFault {
    Short { requested: nat, available: nat },
    Utf8,
    FromUtf8,
    Invalid(Seq<char>),
}

impl View for RukBytesError {
    type V = BytesFault;

    open spec fn view(&self) -> BytesFault {
        match self {
            RukBytesError::TryGet(e) => BytesFault::Short {
                requested: e.requested as nat,
                available: e.available as nat,
            },
            RukBytesError::Utf8(_) => BytesFault::Utf8,
            RukBytesError::FromUtf8(_) => BytesFault::FromUtf8,
            RukBytesError::InvalidData(s) => BytesFault::Invalid(s@),
        }
    }
}

impl RukBytesError {
    /// An `InvalidData` error carrying `msg`.
    pub fn invalid_data(msg: &str) -> (e: RukBytesError)
        ensures
            e@ == BytesFault::Invalid(msg@),
    {
        broadcast use vstd::string::to_string_from_display_ensures_for_str;

        RukBytesError::InvalidData(msg.to_string())
    }
}

/// Errors of the connection logic.
#[derive(Debug)]
pub enum PeerError {
    RukBytes(RukBytesError),
    InvalidAddress,
    FailedToBind(std::io::Error),
    AlreadyListening,
    AlreadyConnecting,
    InvalidPacket(String),
    FailedToSend(std::io::Error),
}

/// The mathematical value of a connection error.
pub enum PeerFault {
    RukBytes(BytesFault),
    InvalidAddress,
    FailedToBind,
    AlreadyListening,
    AlreadyConnecting,
    InvalidPacket(Seq<char>),
    FailedToSend,
}

impl View for PeerError {
    type V = PeerFault;

    open spec fn view(&self) -> PeerFault {
        match self {
            PeerError::RukBytes(e) => PeerFault::RukBytes(e@),
            PeerError::InvalidAddress => PeerFault::InvalidAddress,
            PeerError::FailedToBind(_) => PeerFault::FailedToBind,
            PeerError::AlreadyListening => PeerFault::AlreadyListening,
            PeerError::AlreadyConnecting => PeerFault::AlreadyConnecting,
            PeerError::InvalidPacket(s) => PeerFault::InvalidPacket(s@),
            PeerError::FailedToSend(_) => PeerFault::FailedToSend,
        }
    }
}

impl PeerError {
    /// An `InvalidPacket` error carrying `msg`.
    pub fn invalid_packet(msg: &str) -> (e: PeerError)
        ensures
            e@ == PeerFault::InvalidPacket(msg@),
    {
        broadcast use vstd::string::to_string_from_display_ensures_for_str;

        PeerError::InvalidPacket(msg.to_string())
    }
}

/// Errors of the reliability layer.
#[derive(Debug)]
pub enum LayerError {
    RukBytes(RukBytesError),
    BufferOverflow(BufferOverflowError),
    FailedToSend(std::io::Error),
}

/// An index fell beyond the end of a window.
#[derive(Debug, Clone, Copy, PartialEq, Eq, Structural)]
pub struct BufferOverflowError;

impl From<TryGetError> for RukBytesError {
    fn from(e: TryGetError) -> (r: Self) {
        RukBytesError::TryGet(e)
    }
}

impl vstd::std_specs::convert::FromSpecImpl<TryGetError> for RukBytesError {
    open spec fn obeys_from_spec() -> bool {
        true
    }

    open spec fn from_spec(e: TryGetError) -> Self {
        RukBytesError::TryGet(e)
    }
}

impl From<std::str::Utf8Error> for RukBytesError {
    fn from(e: std::str::Utf8Error) -> (r: Self) {
        RukBytesError::Utf8(e)
    }
}

impl vstd::std_specs::convert::FromSpecImpl<std::str::Utf8Error> for RukBytesError {
    open spec fn obeys_from_spec() -> bool {
        true
    }

    open spec fn from_spec(e: std::str::Utf8Error) -> Self {
        RukBytesError::Utf8(e)
    }
}

impl From<std::string::FromUtf8Error> for RukBytesError {
    fn from(e: std::string::FromUtf8Error) -> (r: Self) {
        RukBytesError::FromUtf8(e)
    }
}

impl vstd::std_specs::convert::FromSpecImpl<std::string::FromUtf8Error> for RukBytesError {
    open spec fn obeys_from_spec() -> bool {
        true
    }

    open spec fn from_spec(e: std::string::FromUtf8Error) -> Self {
        RukBytesError::FromUtf8(e)
    }
}

impl From<TryGetError> for PeerError {
    fn from(e: TryGetError) -> (r: Self) {
        PeerError::RukBytes(RukBytesError::TryGet(e))
    }
}

impl vstd::std_specs::convert::FromSpecImpl<TryGetError> for PeerError {
    open spec fn obeys_from_spec() -> bool {
        true
    }

    open spec fn from_spec(e: TryGetError) -> Self {
        PeerError::RukBytes(RukBytesError::TryGet(e))
    }
}

impl From<RukBytesError> for PeerError {
    fn from(e: RukBytesError) -> (r: Self) {
        PeerError::RukBytes(e)
    }
}

impl vstd::std_specs::convert::FromSpecImpl<RukBytesError> for PeerError {
    open spec fn obeys_from_spec() -> bool {
        true
    }

    open spec fn from_spec(e: RukBytesError) -> Self {
        PeerError::RukBytes(e)
    }
}

impl From<std::io::Error> for PeerError {
    fn from(e: std::io::Error) -> (r: Self) {
        PeerError::FailedToSend(e)
    }
}

impl vstd::std_specs::convert::FromSpecImpl<std::io::Error> for PeerError {
    open spec fn obeys_from_spec() -> bool {
        true
    }

    open spec fn from_spec(e: std::io::Error) -> Self {
        PeerError::FailedToSend(e)
    }
}

impl From<RukBytesError> for LayerError {
    fn from(e: RukBytesError) -> (r: Self) {
        LayerError::RukBytes(e)
    }
}

impl vstd::std_specs::convert::FromSpecImpl<RukBytesError> for LayerError {
    open spec fn obeys_from_spec() -> bool {
        true
    }

    open spec fn from_spec(e: RukBytesError) -> Self {
        LayerError::RukBytes(e)
    }
}

impl From<BufferOverflowError> for LayerError {
    fn from(e: BufferOverflowError) -> (r: Self) {
        LayerError::BufferOverflow(e)
    }
}

impl vstd::std_specs::convert::FromSpecImpl<BufferOverflowError> for LayerError {
    open spec fn obeys_from_spec() -> bool {
        true
    }

    open spec fn from_spec(e: BufferOverflowError) -> Self {
        LayerError::BufferOverflow(e)
    }
}

impl From<std::io::Error> for LayerError {
    fn from(e: std::io::Error) -> (r: Self) {
        LayerError::FailedToSend(e)
    }
}

impl vstd::std_specs::convert::FromSpecImpl<std::io::Error> for LayerError {
    open spec fn obeys_from_spec() -> bool {
        true
    }

    open spec fn from_spec(e: std::io::Error) -> Self {
        LayerError::FailedToSend(e)
    }
}

} // verus!
