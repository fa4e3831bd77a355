//! Verified core of a RakNet-compatible reliable UDP protocol: the wire codec,
//! the reliability layer (windows, retransmission, ordering, splitting),
//! the congestion controllers' integer rules and the connection decisions.
use vstd::prelude::*;

pub mod conn;
pub mod error;
pub mod messages;
pub mod peer;
pub mod proto;
pub mod reliability;

pub use messages::{RukMessage, RukMessageContext};
pub use reliability::fragment::{Priority, Reliability};

verus! {

} // verus!
