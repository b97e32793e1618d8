//! The verified core of a peer-to-peer bus on which nodes publish values and
//! subscribe to the values of other nodes.
//!
//! A [`GooBus`] is one node. It holds what the node knows of its peers, of the
//! values that it publishes and of those that it observes, and says for each
//! thing that happens what is to be sent to whom. Connections, the encoding of
//! values and the callbacks that tell of their changes are left to the program
//! around it.

pub mod address;
pub mod bus;
pub mod effects;
pub mod frame;
pub mod laws;
pub mod message;
pub mod model;
mod names;
pub mod peer;
pub mod roster;
pub mod state;
pub mod target;

pub use address::SocketAddress;
pub use bus::{GooBus, Introduction, Reaction, Subscribed};
pub use frame::{PayloadTooLong, ReadProgress};
pub use message::{Filter, Message, PeerInfo};
pub use roster::refresh_peer_names;
pub use state::{GooBusState, Outgoing};
pub use target::connection_address;
