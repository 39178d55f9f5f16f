//! Satellites with a mailbox each, and the ground station that writes to
//! them.

use vstd::prelude::*;

verus! {

/// What a ground station sends to a satellite.
pub type Message = String;

/// A satellite.
#[derive(Debug)]
pub struct CubeSat {
    pub id: u64,
    pub mailbox: Mailbox,
}

/// The messages that wait for a satellite, the latest last.
#[derive(Debug)]
pub struct Mailbox {
    pub messages: Vec<Message>,
}

/// A ground station.
#[derive(Debug, Clone, Copy)]
pub struct GroundStation {
    pub age: u64,
}

impl GroundStation {
    /// Puts `message` into the mailbox of `to`, behind those that wait
    /// there.
    pub fn send(&self, to: &mut CubeSat, message: Message)
        ensures
            final(to).id == old(to).id,
            final(to).mailbox.messages@ == old(to).mailbox.messages@.push(message),
    {
        to.mailbox.messages.push(message);
    }
}

impl CubeSat {
    /// Takes the latest message out of the mailbox, if one waits there.
    pub fn recv(&mut self) -> (message: Option<Message>)
        ensures
            final(self).id == old(self).id,
            match message {
                Some(m) => {
                    &&& old(self).mailbox.messages@.len() > 0
                    &&& m == old(self).mailbox.messages@.last()
                    &&& final(self).mailbox.messages@ == old(self).mailbox.messages@.drop_last()
                },
                None => {
                    &&& old(self).mailbox.messages@.len() == 0
                    &&& final(self).mailbox.messages@ == old(self).mailbox.messages@
                },
            },
    {
        self.mailbox.messages.pop()
    }
}

} // verus!
