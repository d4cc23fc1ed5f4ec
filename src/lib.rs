//! One node of a small message-passing cluster: the envelope, the node
//! kinds (echo, unique ids, broadcast) and the dispatch of input events.
use vstd::prelude::*;

pub mod message;
pub mod node;

use crate::message::{Init, Message};

verus! {

/// A kind of node: built from the handshake, then driven one input message
/// or one idle tick at a time. Each step hands back the messages to send.
pub trait Node<Payload>: Sized {
    /// The node's well-formedness, which every step keeps.
    spec fn inv(&self) -> bool;

    /// The node's next message id.
    spec fn counter(&self) -> usize;

    /// Whether the message-id counter has room for one more step.
    spec fn room(&self) -> bool;

    /// How handling `m` relates the state before, the state after and the
    /// messages sent.
    spec fn handled(pre: Self, m: Message<Payload>, post: Self, out: Seq<Message<Payload>>) -> bool;

    /// How an idle tick relates the state before, the state after and the
    /// messages sent.
    spec fn swept(pre: Self, post: Self, out: Seq<Message<Payload>>) -> bool;

    fn from_init(init: &Init) -> (r: Self)
        ensures
            r.inv(),
            r.counter() == 0,
    ;

    fn has_room(&self) -> (r: bool)
        requires
            self.inv(),
        ensures
            r == self.room(),
    ;

    fn process(&mut self, message: Message<Payload>) -> (out: Vec<Message<Payload>>)
        requires
            old(self).inv(),
            old(self).room(),
        ensures
            final(self).inv(),
            Self::handled(*old(self), message, *final(self), out@),
    ;

    fn on_timeout(&mut self) -> (out: Vec<Message<Payload>>)
        requires
            old(self).inv(),
            old(self).room(),
        ensures
            final(self).inv(),
            Self::swept(*old(self), *final(self), out@),
    ;

    fn id(&mut self) -> (r: &mut usize)
        requires
            old(self).inv(),
        ensures
            *r == old(self).counter(),
            final(self).counter() == *final(r),
            final(self).inv(),
    ;
}

} // verus!
