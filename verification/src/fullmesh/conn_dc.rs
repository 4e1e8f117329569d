//! A connection over a data channel, which is sealed by itself.

use vstd::prelude::*;
use crate::errors::CryonetError;
use super::frame::{add_to_total, total_after};

verus! {

/// What has happened on a data channel.
pub enum DataChannelEvent {
    Open,
    Message(Vec<u8>),
    Close,
}

/// The receiving end of a connection.
#[derive(Clone, Copy, Debug)]
pub struct DataChannelReceiver {
    pub received: u64,
}

/// The sending end of a connection.
#[derive(Clone, Copy, Debug)]
pub struct DataChannelSender {
    pub sent: u64,
}

impl DataChannelReceiver {
    /// The receiving end.
    pub fn new() -> (receiver: DataChannelReceiver)
        ensures
            receiver.received == 0,
    {
        DataChannelReceiver { received: 0 }
    }

    /// Takes what has happened; without anything, the channel is gone. Gives the data of a message,
    /// and nothing where there is more to wait for.
    pub fn recv(&mut self, event: Option<DataChannelEvent>) -> (result: Result<
        Option<Vec<u8>>,
        CryonetError,
    >)
        ensures
            result == match event {
                None | Some(DataChannelEvent::Close) => Err(CryonetError::ChannelClosed),
                Some(DataChannelEvent::Open) => Ok(None),
                Some(DataChannelEvent::Message(data)) => Ok(Some(data)),
            },
            final(self).received == match event {
                Some(DataChannelEvent::Message(data)) => total_after(
                    old(self).received,
                    data@.len() as int,
                ),
                _ => old(self).received,
            },
    {
        match event {
            None => Err(CryonetError::ChannelClosed),
            Some(DataChannelEvent::Close) => Err(CryonetError::ChannelClosed),
            Some(DataChannelEvent::Open) => Ok(None),
            Some(DataChannelEvent::Message(data)) => {
                self.received = add_to_total(self.received, data.len());
                Ok(Some(data))
            },
        }
    }
}

impl DataChannelSender {
    /// The sending end.
    pub fn new() -> (sender: DataChannelSender)
        ensures
            sender.sent == 0,
    {
        DataChannelSender { sent: 0 }
    }

    /// Some data has been sent.
    pub fn sent(&mut self, data: &[u8]) -> (len: usize)
        ensures
            len == data@.len(),
            final(self).sent == total_after(old(self).sent, data@.len() as int),
    {
        self.sent = add_to_total(self.sent, data.len());
        data.len()
    }
}

} // verus!
