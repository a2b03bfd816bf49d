//! A queue from many senders to one receiver, emptied in one go.

use vstd::prelude::*;
use crate::mng::{ChannelType, Manager, SubscribeError};

verus! {

/// Receiver slot. A slot that stores specific messages.
pub struct Receiver<T> {
    nodes: Vec<T>,
}

impl<T> View for Receiver<T> {
    type V = Seq<T>;

    closed spec fn view(&self) -> Seq<T> {
        self.nodes@
    }
}

/// Counterpart to [`Receiver`]. To create one see [`Receiver::sender`].
pub struct Sender {}

impl<T> Receiver<T> {
    /// Create a new receiver object, declared with the manager as a channel
    /// that is fetched from.
    pub fn new(name: &'static str, manager: &mut Manager) -> (r: Result<Self, SubscribeError>)
        requires
            old(manager).wf(),
        ensures
            final(manager).wf(),
            old(manager)@.declared(name@) ==> (r matches Err(SubscribeError::DuplicateChannelName)
                && final(manager)@ == old(manager)@),
            !old(manager)@.declared(name@) ==> (r matches Ok(receiver) && receiver@.len() == 0
                && final(manager)@ == old(manager)@.with_channel(name@, ChannelType::Feed)),
    {
        match manager.ensure_new(name, ChannelType::Feed) {
            Err(e) => Err(SubscribeError::DuplicateChannelName),
            Ok(()) => Ok(Receiver { nodes: Vec::new() }),
        }
    }

    /// Get a sender to this receiver, for the handler whose subscription is
    /// under way.
    pub fn sender(&self, manager: &Manager) -> (r: Sender)
        requires
            manager.wf(),
            manager@.active.len() > 0,
    {
        Sender {  }
    }

    /// Extract the received messages by replacing the queue with another.
    ///
    /// Received messages are in the order they were pushed by
    /// [`Sender::push`].
    pub fn exchange(&mut self, vector: Vec<T>) -> (r: Vec<T>)
        ensures
            r@ == old(self)@,
            final(self)@ == vector@,
    {
        let mut other = vector;
        std::mem::swap(&mut self.nodes, &mut other);
        other
    }
}

impl Sender {
    /// Push data to the queue of a receiver.
    pub fn push<T>(&mut self, receiver: &mut Receiver<T>, item: T)
        ensures
            final(receiver)@ == old(receiver)@.push(item),
    {
        receiver.nodes.push(item);
    }
}

} // verus!
