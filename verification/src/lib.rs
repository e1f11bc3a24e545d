//! Message semantics on top of an unreliable datagram transport.
//!
//! An application message is split into fragments that each fit one
//! datagram, every fragment travels as a checksummed datagram, and the
//! receiving side rebuilds the message from fragments that may arrive out of
//! order or more than once.
//!
//! The crate holds the protocol logic only: it never touches an endpoint.
//! Callers hand it the datagrams they received and transmit the datagrams it
//! returns.

pub mod connection;
pub mod consts;
pub mod fragment;
pub mod fragment_combiner;
pub mod misc;
pub mod socket;
pub mod trusted;
pub mod udp_message;

pub use connection::{InData, InEvent, OutData, OutEvent, Polled, Step};
pub use fragment::{Fragment, FragmentView};
pub use fragment_combiner::{CombinerView, FragmentCombiner, FragmentGenerator};
pub use misc::{AsBytes, StrippedBoxedSlice};
pub use socket::{Inbound, MessageType, Outgoing, PeerAddr, Remote, RemoteID, RemoteStatus};
pub use socket::{RemoteView, Socket, SocketError, SocketView};
pub use udp_message::{UdpMessage, UdpMessageError};
