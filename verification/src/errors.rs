//! What can go wrong in the mesh.

use vstd::prelude::*;
use vstd::string::*;
use crate::packet::NodeId;
use crate::text::{hexadecimal, push_hexadecimal};

verus! {

/// What went wrong.
#[derive(Clone, Copy, PartialEq, Eq, Structural, Debug)]
pub enum CryonetError {
    /// There is no link to this node.
    NoSuchLink(NodeId),
    /// There is no route to this node.
    Unreachable(NodeId),
    /// No more packets will come.
    ChannelClosed,
    /// Something else.
    Unknown,
}

impl CryonetError {
    /// The error as text.
    pub open spec fn text(self) -> Seq<char> {
        match self {
            CryonetError::NoSuchLink(node) => "No link to node "@ + hexadecimal(node as int),
            CryonetError::Unreachable(node) => "Route to node "@ + hexadecimal(node as int)
                + " is unreachable"@,
            CryonetError::ChannelClosed => "Channel closed"@,
            CryonetError::Unknown => "Unknown error"@,
        }
    }

    /// The error as text.
    pub fn message(&self) -> (text: String)
        ensures
            text@ == self.text(),
    {
        match self {
            CryonetError::NoSuchLink(node) => {
                let mut text = "No link to node ".to_owned();
                push_hexadecimal(&mut text, *node as u64);
                text
            },
            CryonetError::Unreachable(node) => {
                let mut text = "Route to node ".to_owned();
                push_hexadecimal(&mut text, *node as u64);
                text.append(" is unreachable");
                text
            },
            CryonetError::ChannelClosed => "Channel closed".to_owned(),
            CryonetError::Unknown => "Unknown error".to_owned(),
        }
    }
}

} // verus!
