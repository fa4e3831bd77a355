use vstd::prelude::*;

verus! {

/// Identifiers of the messages exchanged before a connection exists.
#[derive(Debug, Clone, Copy, PartialEq, Eq, Structural)]
pub enum OfflineMessageIDs {
    UnconnectedPing,
    UnconnectedPong,
    OpenConnectionRequest1,
    OpenConnectionReply1,
    OpenConnectionRequest2,
    OpenConnectionReply2,
    AlreadyConnected,
    NoFreeIncomingConnections,
    ConnectionBanned,
    IncompatibleProtocolVersion,
    IpRecentlyConnected,
}

impl OfflineMessageIDs {
    /// The byte that identifies the message on the wire.
    pub open spec fn code(self) -> u8 {
        match self {
            OfflineMessageIDs::UnconnectedPing => 0x01,
            OfflineMessageIDs::UnconnectedPong => 0x1c,
            OfflineMessageIDs::OpenConnectionRequest1 => 0x05,
            OfflineMessageIDs::OpenConnectionReply1 => 0x06,
            OfflineMessageIDs::OpenConnectionRequest2 => 0x07,
            OfflineMessageIDs::OpenConnectionReply2 => 0x08,
            OfflineMessageIDs::AlreadyConnected => 0x12,
            OfflineMessageIDs::NoFreeIncomingConnections => 0x14,
            OfflineMessageIDs::ConnectionBanned => 0x17,
            OfflineMessageIDs::IncompatibleProtocolVersion => 0x19,
            OfflineMessageIDs::IpRecentlyConnected => 0x1a,
        }
    }

    /// The identifier whose code is `id`, if there is one.
    pub open spec fn from_code(id: u8) -> Option<OfflineMessageIDs> {
        if id == 0x01 {
            Some(OfflineMessageIDs::UnconnectedPing)
        } else if id == 0x1c {
            Some(OfflineMessageIDs::UnconnectedPong)
        } else if id == 0x05 {
            Some(OfflineMessageIDs::OpenConnectionRequest1)
        } else if id == 0x06 {
            Some(OfflineMessageIDs::OpenConnectionReply1)
        } else if id == 0x07 {
            Some(OfflineMessageIDs::OpenConnectionRequest2)
        } else if id == 0x08 {
            Some(OfflineMessageIDs::OpenConnectionReply2)
        } else if id == 0x12 {
            Some(OfflineMessageIDs::AlreadyConnected)
        } else if id == 0x14 {
            Some(OfflineMessageIDs::NoFreeIncomingConnections)
        } else if id == 0x17 {
            Some(OfflineMessageIDs::ConnectionBanned)
        } else if id == 0x19 {
            Some(OfflineMessageIDs::IncompatibleProtocolVersion)
        } else if id == 0x1a {
            Some(OfflineMessageIDs::IpRecentlyConnected)
        } else {
            None
        }
    }

    pub fn from_u8(id: u8) -> (r: Option<Self>)
        ensures
            r == Self::from_code(id),
    {
        match id {
            0x01 => Some(Self::UnconnectedPing),
            0x1c => Some(Self::UnconnectedPong),
            0x05 => Some(Self::OpenConnectionRequest1),
            0x06 => Some(Self::OpenConnectionReply1),
            0x07 => Some(Self::OpenConnectionRequest2),
            0x08 => Some(Self::OpenConnectionReply2),
            0x12 => Some(Self::AlreadyConnected),
            0x14 => Some(Self::NoFreeIncomingConnections),
            0x17 => Some(Self::ConnectionBanned),
            0x19 => Some(Self::IncompatibleProtocolVersion),
            0x1a => Some(Self::IpRecentlyConnected),
            _ => None,
        }
    }

    pub fn to_u8(&self) -> (v: u8)
        ensures
            v == self.code(),
    {
        match self {
            Self::UnconnectedPing => 0x01,
            Self::UnconnectedPong => 0x1c,
            Self::OpenConnectionRequest1 => 0x05,
            Self::OpenConnectionReply1 => 0x06,
            Self::OpenConnectionRequest2 => 0x07,
            Self::OpenConnectionReply2 => 0x08,
            Self::AlreadyConnected => 0x12,
            Self::NoFreeIncomingConnections => 0x14,
            Self::ConnectionBanned => 0x17,
            Self::IncompatibleProtocolVersion => 0x19,
            Self::IpRecentlyConnected => 0x1a,
        }
    }
}

/// Identifiers of the messages exchanged inside a connection.
#[derive(Debug, Clone, Copy, PartialEq, Eq, Structural)]
pub enum OnlineMessageIDs {
    ConnectedPing,
    ConnectedPong,
    ConnectionRequest,
    ConnectionRequestAccepted,
    NewIncomingConnection,
    DisconnectionNotification,
}

impl OnlineMessageIDs {
    /// The byte that identifies the message on the wire.
    pub open spec fn code(self) -> u8 {
        match self {
            OnlineMessageIDs::ConnectedPing => 0x00,
            OnlineMessageIDs::ConnectedPong => 0x03,
            OnlineMessageIDs::ConnectionRequest => 0x09,
            OnlineMessageIDs::ConnectionRequestAccepted => 0x10,
            OnlineMessageIDs::NewIncomingConnection => 0x13,
            OnlineMessageIDs::DisconnectionNotification => 0x15,
        }
    }

    /// The identifier whose code is `id`, if there is one.
    pub open spec fn from_code(id: u8) -> Option<OnlineMessageIDs> {
        if id == 0x00 {
            Some(OnlineMessageIDs::ConnectedPing)
        } else if id == 0x03 {
            Some(OnlineMessageIDs::ConnectedPong)
        } else if id == 0x09 {
            Some(OnlineMessageIDs::ConnectionRequest)
        } else if id == 0x10 {
            Some(OnlineMessageIDs::ConnectionRequestAccepted)
        } else if id == 0x13 {
            Some(OnlineMessageIDs::NewIncomingConnection)
        } else if id == 0x15 {
            Some(OnlineMessageIDs::DisconnectionNotification)
        } else {
            None
        }
    }

    pub fn from_u8(id: u8) -> (r: Option<Self>)
        ensures
            r == Self::from_code(id),
    {
        match id {
            0x00 => Some(Self::ConnectedPing),
            0x03 => Some(Self::ConnectedPong),
            0x09 => Some(Self::ConnectionRequest),
            0x10 => Some(Self::ConnectionRequestAccepted),
            0x13 => Some(Self::NewIncomingConnection),
            0x15 => Some(Self::DisconnectionNotification),
            _ => None,
        }
    }

    pub fn to_u8(&self) -> (v: u8)
        ensures
            v == self.code(),
    {
        match self {
            Self::ConnectedPing => 0x00,
            Self::ConnectedPong => 0x03,
            Self::ConnectionRequest => 0x09,
            Self::ConnectionRequestAccepted => 0x10,
            Self::NewIncomingConnection => 0x13,
            Self::DisconnectionNotification => 0x15,
        }
    }
}

/// Decoding the code of an offline identifier gives it back, and a decoded
/// code is the code of what it decodes to: the codes are a bijection.
pub proof fn lemma_offline_id_roundtrip(m: OfflineMessageIDs, id: u8)
    ensures
        OfflineMessageIDs::from_code(m.code()) == Some(m),
        OfflineMessageIDs::from_code(id) matches Some(x) ==> x.code() == id,
{
}

/// Decoding the code of an online identifier gives it back, and a decoded
/// code is the code of what it decodes to: the codes are a bijection.
pub proof fn lemma_online_id_roundtrip(m: OnlineMessageIDs, id: u8)
    ensures
        OnlineMessageIDs::from_code(m.code()) == Some(m),
        OnlineMessageIDs::from_code(id) matches Some(x) ==> x.code() == id,
{
}

} // verus!
