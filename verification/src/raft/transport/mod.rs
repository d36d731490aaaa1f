//! Node-to-node transport: the Raft core never touches the network. It hands
//! out requests as effects and takes replies (or these errors) back.

use vstd::prelude::*;
use vstd::string::*;

use super::types::NodeId;
use crate::text::{decimal, push_decimal};

pub mod frames;
pub mod heads;
pub mod http;
pub mod sim;
pub mod watch;

verus! {

#[derive(Debug, Clone, Copy, PartialEq, Eq, Structural)]
pub enum TransportError {
    /// The destination is not a known cluster member (misconfiguration;
    /// crashed-but-configured peers time out instead).
    Unreachable(NodeId),
    /// No reply within the transport's timeout: the request or reply was
    /// lost, delayed too long, or the peer is down. Indistinguishable by
    /// design, exactly as on a real network.
    Timeout,
}

impl TransportError {
    /// What the error says to a reader.
    pub open spec fn text(self) -> Seq<char> {
        match self {
            TransportError::Unreachable(id) => "node "@ + decimal(id as nat)
                + " is not a cluster member"@,
            TransportError::Timeout => "rpc timed out"@,
        }
    }

    /// The error as one line of text.
    pub fn message(&self) -> (text: String)
        ensures
            text@ == self.text(),
    {
        match self {
            TransportError::Unreachable(id) => {
                let mut text = String::from_str("node ");
                push_decimal(&mut text, *id as u128);
                text.append(" is not a cluster member");
                text
            },
            TransportError::Timeout => String::from_str("rpc timed out"),
        }
    }
}

} // verus!
