//! The node kinds, and the decisions of the event loop that drives a node:
//! the handshake, and what each input event or idle tick does.
use vstd::prelude::*;

pub mod broadcast;
pub mod combined;
pub mod echo;
pub mod laws;
pub mod unique_ids;

use crate::message::{InitPayload, Message};
use crate::Node;

pub use combined::Node as CombinedNode;

verus! {

/// An input event: a message read from the input, or the end of the input.
#[derive(Debug)]
pub enum Event<Payload> {
    Message(Message<Payload>),
    Eof,
}

/// The handshake: the first message must be an init request. The node is
/// built from it, and the acknowledgement answers the request with the
/// node's first message id. Any other first message gives `None`.
pub fn start<P, N: Node<P>>(init_message: Message<InitPayload>) -> (r: Option<(N, Message<InitPayload>)>)
    ensures
        r is Some <==> init_message.body.payload is Init,
        r matches Some((node, ack)) ==> {
            &&& node.inv()
            &&& node.counter() == 1
            &&& ack.src == init_message.dst
            &&& ack.dst == init_message.src
            &&& ack.body.id == Some(0usize)
            &&& ack.body.in_reply_to == init_message.body.id
            &&& ack.body.payload is InitOk
        },
{
    let mut node = match &init_message.body.payload {
        InitPayload::Init(init) => N::from_init(init),
        InitPayload::InitOk => {
            return None;
        },
    };
    let mut ack = init_message.into_reply(Some(node.id()));
    ack.body.payload = InitPayload::InitOk;
    Some((node, ack))
}

/// One turn of the event loop. `event` is what the wait brought: an input
/// event, or `None` when the wait ran out. A message is handled; an idle
/// tick runs a sweep; the end of the input runs a last sweep. The result
/// holds the messages to send and whether to keep waiting. A node whose
/// message-id counter has no room left stops.
pub fn dispatch<P, N: Node<P>>(node: &mut N, event: Option<Event<P>>) -> (r: (Vec<Message<P>>, bool))
    requires
        old(node).inv(),
    ensures
        final(node).inv(),
        !old(node).room() ==> *final(node) == *old(node) && r.0@.len() == 0 && !r.1,
        old(node).room() ==> match event {
            Some(Event::Message(m)) => N::handled(*old(node), m, *final(node), r.0@) && r.1,
            Some(Event::Eof) => N::swept(*old(node), *final(node), r.0@) && !r.1,
            None => N::swept(*old(node), *final(node), r.0@) && r.1,
        },
{
    if !node.has_room() {
        return (Vec::new(), false);
    }
    match event {
        Some(Event::Message(m)) => (node.process(m), true),
        Some(Event::Eof) => (node.on_timeout(), false),
        None => (node.on_timeout(), true),
    }
}

/// `out` is what handling `messages` one after another sends, in order:
/// each message meets the state the one before it left, from `pre` to
/// `post`, and its answers follow those of every earlier message.
pub open spec fn replayed<P, N: Node<P>>(
    pre: N,
    messages: Seq<Message<P>>,
    post: N,
    out: Seq<Message<P>>,
) -> bool
    decreases messages.len(),
{
    if messages.len() == 0 {
        post == pre && out.len() == 0
    } else {
        exists|s: N, after: Seq<Message<P>>|
            #[trigger] N::handled(s, messages.last(), post, after) && after.len() <= out.len()
                && out.skip(out.len() - after.len()) == after && replayed(
                pre,
                messages.drop_last(),
                s,
                out.take(out.len() - after.len()),
            )
    }
}

/// One more message handled extends a replay.
proof fn lemma_replayed_step<P, N: Node<P>>(
    pre: N,
    messages: Seq<Message<P>>,
    mid: N,
    first: Seq<Message<P>>,
    post: N,
    last: Seq<Message<P>>,
)
    requires
        messages.len() > 0,
        replayed(pre, messages.drop_last(), mid, first),
        N::handled(mid, messages.last(), post, last),
    ensures
        replayed(pre, messages, post, first + last),
{
    let out = first + last;
    assert(out.take(out.len() - last.len()) =~= first);
    assert(out.skip(out.len() - last.len()) =~= last);
}

/// For two messages handled one after the other, the first is handled to
/// completion against the starting state, the second against the state the
/// first left, and every answer to the first comes before any to the second.
pub proof fn first_in_first_answered<P, N: Node<P>>(
    pre: N,
    m1: Message<P>,
    m2: Message<P>,
    post: N,
    out: Seq<Message<P>>,
)
    requires
        replayed(pre, seq![m1, m2], post, out),
    ensures
        exists|mid: N, out1: Seq<Message<P>>, out2: Seq<Message<P>>|
            #[trigger] N::handled(pre, m1, mid, out1) && #[trigger] N::handled(mid, m2, post, out2)
                && out == out1 + out2,
{
    let ms = seq![m1, m2];
    assert(ms.drop_last() =~= seq![m1]);
    assert(seq![m1].drop_last() =~= Seq::<Message<P>>::empty());
    let (mid, out2) = choose|s: N, after: Seq<Message<P>>|
        #[trigger] N::handled(s, ms.last(), post, after) && after.len() <= out.len() && out.skip(
            out.len() - after.len(),
        ) == after && replayed(pre, ms.drop_last(), s, out.take(out.len() - after.len()));
    let first = out.take(out.len() - out2.len());
    let (s0, out1) = choose|s: N, after: Seq<Message<P>>|
        #[trigger] N::handled(s, seq![m1].last(), mid, after) && after.len() <= first.len()
            && first.skip(first.len() - after.len()) == after && replayed(
            pre,
            seq![m1].drop_last(),
            s,
            first.take(first.len() - after.len()),
        );
    assert(s0 == pre);
    assert(first =~= out1);
    assert(out =~= out1 + out2);
}

/// Handle `messages` strictly in the order given, each to completion before
/// the next, and send the answers in that order. It stops early only where
/// the message-id counter runs out of room, and says how many it handled.
pub fn handle_in_order<P, N: Node<P>>(node: &mut N, messages: Vec<Message<P>>) -> (r: (
    Vec<Message<P>>,
    usize,
))
    requires
        old(node).inv(),
    ensures
        final(node).inv(),
        r.1 <= messages@.len(),
        r.1 < messages@.len() ==> !final(node).room(),
        replayed(*old(node), messages@.take(r.1 as int), *final(node), r.0@),
{
    let ghost pre = *node;
    let ghost all = messages@;
    let total = messages.len();
    let mut rest = messages;
    let mut out: Vec<Message<P>> = Vec::new();
    let mut done: usize = 0;
    assert(all.take(0) =~= Seq::<Message<P>>::empty());
    while rest.len() > 0
        invariant
            node.inv(),
            all == messages@,
            total == all.len(),
            pre == *old(node),
            done <= all.len(),
            rest@ == all.skip(done as int),
            replayed(pre, all.take(done as int), *node, out@),
        decreases rest@.len(),
    {
        if !node.has_room() {
            return (out, done);
        }
        let ghost mid = *node;
        let ghost first = out@;
        assert(rest@.len() == all.len() - done);
        let m = rest.remove(0);
        assert(m == all[done as int]);
        let mut answers = node.process(m);
        let ghost last = answers@;
        out.append(&mut answers);
        assert(all.take(done as int + 1).drop_last() == all.take(done as int));
        assert(all.take(done as int + 1).last() == m);
        proof {
            lemma_replayed_step(pre, all.take(done as int + 1), mid, first, *node, last);
        }
        done = done + 1;
        assert(rest@ =~= all.skip(done as int));
    }
    assert(all.take(done as int) =~= all);
    (out, done)
}

} // verus!
