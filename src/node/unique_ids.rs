//! A node that answers each request with an id unique in the cluster: its
//! own node id, a dash, and its message counter.
use vstd::prelude::*;

use crate::message::{Init, Message};
use crate::Node;

verus! {

/// The unique-id node's payload.
#[derive(Debug)]
pub enum UniqueIdPayload {
    Generate,
    GenerateOk { id: String },
}

/// The unique-id node: its id and its message-id counter.
pub struct UniqueIdNode {
    node_id: String,
    id: usize,
}

/// The decimal digit `d`, for `d < 10`.
pub open spec fn digit(d: nat) -> char {
    if d == 0 {
        '0'
    } else if d == 1 {
        '1'
    } else if d == 2 {
        '2'
    } else if d == 3 {
        '3'
    } else if d == 4 {
        '4'
    } else if d == 5 {
        '5'
    } else if d == 6 {
        '6'
    } else if d == 7 {
        '7'
    } else if d == 8 {
        '8'
    } else {
        '9'
    }
}

/// The decimal digits of `n`, without leading zeros.
pub open spec fn decimal(n: nat) -> Seq<char>
    decreases n,
{
    if n < 10 {
        seq![digit(n)]
    } else {
        decimal(n / 10).push(digit(n % 10))
    }
}

/// Relies on `format!` with `{}` on a `String` and a `usize`: the text as it
/// is, then a dash, then the number's decimal digits.
#[verifier::external_body]
fn dashed(node_id: &String, n: usize) -> (r: String)
    ensures
        r@ == node_id@ + seq!['-'] + decimal(n as nat),
{
    format!("{}-{}", node_id, n)
}

impl UniqueIdNode {
    /// This node's id.
    pub closed spec fn me(&self) -> Seq<char> {
        self.node_id@
    }

    /// The next message id.
    pub closed spec fn next_id(&self) -> usize {
        self.id
    }
}

impl Node<UniqueIdPayload> for UniqueIdNode {
    open spec fn inv(&self) -> bool {
        true
    }

    open spec fn counter(&self) -> usize {
        self.next_id()
    }

    open spec fn room(&self) -> bool {
        self.next_id() < usize::MAX
    }

    /// Every message is answered once with the next message id; the answer
    /// carries this node's id, a dash, and the counter after that id was
    /// taken.
    open spec fn handled(
        pre: Self,
        m: Message<UniqueIdPayload>,
        post: Self,
        out: Seq<Message<UniqueIdPayload>>,
    ) -> bool {
        &&& post.me() == pre.me()
        &&& post.next_id() == pre.next_id() + 1
        &&& out.len() == 1
        &&& out[0].src == m.dst
        &&& out[0].dst == m.src
        &&& out[0].body.id == Some(pre.next_id())
        &&& out[0].body.in_reply_to == m.body.id
        &&& out[0].body.payload matches UniqueIdPayload::GenerateOk { id } && id@ == pre.me()
            + seq!['-'] + decimal(pre.next_id() as nat + 1)
    }

    open spec fn swept(pre: Self, post: Self, out: Seq<Message<UniqueIdPayload>>) -> bool {
        post == pre && out.len() == 0
    }

    fn from_init(init: &Init) -> (r: Self)
        ensures
            r.me() == init.node_id@,
    {
        UniqueIdNode { node_id: init.node_id.clone(), id: 0 }
    }

    fn has_room(&self) -> (r: bool) {
        self.id < usize::MAX
    }

    fn process(&mut self, message: Message<UniqueIdPayload>) -> (out: Vec<Message<UniqueIdPayload>>) {
        let mut reply = message.into_reply(Some(&mut self.id));
        reply.body.payload = UniqueIdPayload::GenerateOk { id: dashed(&self.node_id, self.id) };
        let mut out = Vec::new();
        out.push(reply);
        out
    }

    fn on_timeout(&mut self) -> (out: Vec<Message<UniqueIdPayload>>) {
        Vec::new()
    }

    fn id(&mut self) -> (r: &mut usize) {
        &mut self.id
    }
}

} // verus!
