//! What the peer hands to the application: who a message came from and
//! what it says.
use vstd::prelude::*;

use crate::proto::address::{AddressModel, SocketAddress};

verus! {

/// A message for the application from the peer at `addr`, whose identity
/// is `guid`.
#[derive(Debug)]
pub struct RukMessage {
    pub addr: SocketAddress,
    pub guid: u64,
    pub context: RukMessageContext,
}

/// What a message for the application says.
#[derive(Debug)]
pub enum RukMessageContext {
    UnconnectedPing,
    UnconnectedPong { ping: u64, ping_res: String },
    IncompatibleProtocolVersion { remote_proto_version: u8 },
    ConnectionAttemptFailed,
    AlreadyConnected,
    NoFreeIncomingConnections,
    ConnectionBanned,
    IpRecentlyConnected,
    ConnectionRequestAccepted,
    NewIncomingConnection,
    App { data: Vec<u8> },
}

/// The mathematical value of what a message says.
pub enum ContextModel {
    UnconnectedPing,
    UnconnectedPong { ping: u64, ping_res: Seq<char> },
    IncompatibleProtocolVersion { remote_proto_version: u8 },
    ConnectionAttemptFailed,
    AlreadyConnected,
    NoFreeIncomingConnections,
    ConnectionBanned,
    IpRecentlyConnected,
    ConnectionRequestAccepted,
    NewIncomingConnection,
    App { data: Seq<u8> },
}

/// The mathematical value of a message.
pub struct MessageModel {
    pub addr: AddressModel,
    pub guid: u64,
    pub context: ContextModel,
}

impl View for RukMessageContext {
    type V = ContextModel;

    open spec fn view(&self) -> ContextModel {
        match self {
            RukMessageContext::UnconnectedPing => ContextModel::UnconnectedPing,
            RukMessageContext::UnconnectedPong { ping, ping_res } => ContextModel::UnconnectedPong {
                ping: *ping,
                ping_res: ping_res@,
            },
            RukMessageContext::IncompatibleProtocolVersion { remote_proto_version } => {
                ContextModel::IncompatibleProtocolVersion { remote_proto_version: *remote_proto_version }
            },
            RukMessageContext::ConnectionAttemptFailed => ContextModel::ConnectionAttemptFailed,
            RukMessageContext::AlreadyConnected => ContextModel::AlreadyConnected,
            RukMessageContext::NoFreeIncomingConnections => ContextModel::NoFreeIncomingConnections,
            RukMessageContext::ConnectionBanned => ContextModel::ConnectionBanned,
            RukMessageContext::IpRecentlyConnected => ContextModel::IpRecentlyConnected,
            RukMessageContext::ConnectionRequestAccepted => ContextModel::ConnectionRequestAccepted,
            RukMessageContext::NewIncomingConnection => ContextModel::NewIncomingConnection,
            RukMessageContext::App { data } => ContextModel::App { data: data@ },
        }
    }
}

impl View for RukMessage {
    type V = MessageModel;

    open spec fn view(&self) -> MessageModel {
        MessageModel { addr: self.addr@, guid: self.guid, context: self.context@ }
    }
}

} // verus!
