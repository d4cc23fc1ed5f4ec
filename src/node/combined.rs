//! A node that serves every workload at once: the handshake, echo, unique
//! ids by striding, and broadcast by flooding each new value to its
//! neighbours.
use vstd::prelude::*;
use vstd::string::StrSliceExecFns;

use crate::message::{Body, Message};
use crate::node::broadcast::{assigned, names, Adjacency};

verus! {

/// The payload of the all-in-one node.
#[derive(Debug)]
pub enum Type {
    Init { node_id: String, node_ids: Vec<String> },
    InitOk,
    Echo { echo: String },
    EchoOk { echo: String },
    Generate,
    GenerateOk { id: usize },
    Broadcast { message: usize },
    BroadcastOk,
    Read,
    ReadOk { messages: Vec<usize> },
    Topology { topology: Vec<Adjacency> },
    TopologyOk,
}

/// Why a step was refused.
#[derive(Debug, PartialEq, Eq, Structural)]
pub enum StepError {
    /// The node id is not a letter followed by a decimal number that fits a `usize`.
    BadNodeId,
    /// The next unique id would not fit a `usize`.
    IdsExhausted,
}

/// The all-in-one node's state.
pub struct Node {
    id: Option<String>,
    seq: usize,
    step: usize,
    messages: Vec<usize>,
    neighbors: Vec<String>,
}

/// `c` is a decimal digit.
pub open spec fn is_digit(c: char) -> bool {
    '0' <= c && c <= '9'
}

/// The number that the decimal digits `s` spell.
pub open spec fn digits_value(s: Seq<char>) -> int
    decreases s.len(),
{
    if s.len() == 0 {
        0
    } else {
        digits_value(s.drop_last()) * 10 + (s.last() as int - '0' as int)
    }
}

/// The number in a node id: what follows its first character, when that is
/// one or more decimal digits whose value fits a `usize`.
pub open spec fn node_number(s: Seq<char>) -> Option<usize> {
    let digits = s.skip(1);
    if s.len() >= 2 && (forall|i: int| 0 <= i < digits.len() ==> is_digit(#[trigger] digits[i]))
        && digits_value(digits) <= usize::MAX {
        Some(digits_value(digits) as usize)
    } else {
        None
    }
}

/// A longer run of digits spells at least as much.
proof fn lemma_digits_grow(s: Seq<char>, j: int)
    requires
        0 <= j <= s.len(),
        forall|i: int| 0 <= i < s.len() ==> is_digit(#[trigger] s[i]),
    ensures
        digits_value(s.take(j)) <= digits_value(s),
        digits_value(s) >= 0,
    decreases s.len(),
{
    if s.len() > 0 {
        let init = s.drop_last();
        assert forall|i: int| 0 <= i < init.len() implies is_digit(#[trigger] init[i]) by {
            assert(init[i] == s[i]);
        }
        if j < s.len() {
            lemma_digits_grow(init, j);
            assert(init.take(j) == s.take(j));
        } else {
            assert(s.take(j) == s);
            lemma_digits_grow(init, 0);
        }
    }
}

/// The number in the node id `s`, as `node_number` says.
fn parse_node_number(s: &String) -> (r: Option<usize>)
    ensures
        r == node_number(s@),
{
    let len = s.as_str().unicode_len();
    if len < 2 {
        return None;
    }
    let ghost digits = s@.skip(1);
    let mut acc: usize = 0;
    let mut i: usize = 1;
    while i < len
        invariant
            len == s@.len(),
            1 <= i <= len,
            digits == s@.skip(1),
            forall|k: int| 0 <= k < i - 1 ==> is_digit(#[trigger] digits[k]),
            acc == digits_value(digits.take(i - 1)),
        decreases len - i,
    {
        let c = s.as_str().get_char(i);
        assert(c == digits[i - 1]);
        if !('0' <= c && c <= '9') {
            return None;
        }
        let d = (c as u32 - '0' as u32) as usize;
        assert(digits.take(i as int).drop_last() == digits.take(i - 1));
        let next = match acc.checked_mul(10) {
            Some(t) => t.checked_add(d),
            None => None,
        };
        match next {
            Some(n) => {
                acc = n;
            },
            None => {
                proof {
                    let ds = digits.take(i as int);
                    assert forall|k: int| 0 <= k < ds.len() implies is_digit(#[trigger] ds[k]) by {
                        assert(ds[k] == digits[k]);
                    }
                    if forall|k: int| 0 <= k < digits.len() ==> is_digit(#[trigger] digits[k]) {
                        lemma_digits_grow(digits, i as int);
                        lemma_digits_grow(digits.take(i - 1), 0);
                    }
                }
                return None;
            },
        }
        i = i + 1;
    }
    assert(digits.take(i - 1) == digits);
    Some(acc)
}

/// `r` answers `m`: sender and recipient swapped, and both the reply's id
/// and the id it answers are the request's id.
pub open spec fn answers(r: Message<Type>, m: Message<Type>) -> bool {
    &&& r.src == m.dst
    &&& r.dst == m.src
    &&& r.body.id == m.body.id
    &&& r.body.in_reply_to == m.body.id
}

/// The messages of a step that succeeded; none for one that failed.
pub open spec fn sent(r: Result<Vec<Message<Type>>, StepError>) -> Seq<Message<Type>> {
    match r {
        Ok(v) => v@,
        Err(_) => seq![],
    }
}

/// Whether `v` is in `vals`.
fn holds(vals: &Vec<usize>, v: usize) -> (r: bool)
    ensures
        r == vals@.contains(v),
{
    let mut i: usize = 0;
    while i < vals.len()
        invariant
            i <= vals@.len(),
            forall|j: int| 0 <= j < i ==> vals@[j] != v,
        decreases vals@.len() - i,
    {
        if vals[i] == v {
            return true;
        }
        i = i + 1;
    }
    false
}

/// Whether `name` is in `list`.
fn lists(list: &Vec<String>, name: &String) -> (r: bool)
    ensures
        r == names(list@).contains(name@),
{
    let mut i: usize = 0;
    while i < list.len()
        invariant
            i <= list@.len(),
            forall|j: int| 0 <= j < i ==> list@[j]@ != name@,
        decreases list@.len() - i,
    {
        if list[i] == *name {
            assert(names(list@)[i as int] == name@);
            return true;
        }
        i = i + 1;
    }
    false
}

impl Node {
    /// This node's id, once the handshake has set it.
    pub closed spec fn me(&self) -> Option<Seq<char>> {
        match self.id {
            Some(s) => Some(s@),
            None => None,
        }
    }

    /// The last unique id handed out, or the node's number before any.
    pub closed spec fn seq(&self) -> usize {
        self.seq
    }

    /// How far apart the unique ids of one node are: the cluster's size.
    pub closed spec fn stride(&self) -> usize {
        self.step
    }

    /// The values learned, each once, in the order learned.
    pub closed spec fn values(&self) -> Seq<usize> {
        self.messages@
    }

    /// The neighbours, each once, in the order assigned.
    pub closed spec fn neighbor_list(&self) -> Seq<Seq<char>> {
        names(self.neighbors@)
    }

    /// Values and neighbours are held once each, and neighbours come only
    /// after the handshake.
    pub open spec fn wf(&self) -> bool {
        &&& self.values().no_duplicates()
        &&& self.neighbor_list().no_duplicates()
        &&& self.neighbor_list().len() > 0 ==> self.me() is Some
    }

    /// A node before the handshake: no id, no values, no neighbours.
    pub fn new() -> (r: Self)
        ensures
            r.wf(),
            r.me() is None,
            r.seq() == 0,
            r.stride() == 0,
            r.values() == Seq::<usize>::empty(),
            r.neighbor_list() == Seq::<Seq<char>>::empty(),
    {
        let r = Node { id: None, seq: 0, step: 0, messages: Vec::new(), neighbors: Vec::new() };
        assert(r.neighbor_list() =~= Seq::<Seq<char>>::empty());
        r
    }

    /// Handle one message and return the messages to send.
    /// - init: the node takes its id, the number in that id as the start of
    ///   its unique ids, and the cluster's size as their stride; an id
    ///   without such a number is refused.
    /// - echo: answered with the same text.
    /// - generate: the next unique id, one stride on; refused when it would
    ///   not fit a `usize`.
    /// - broadcast: the value is learned and acknowledged; a value new to
    ///   this node is then passed on to every neighbour.
    /// - read: answered with every value learned, in order.
    /// - topology: once the node has its id, the neighbours assigned to it
    ///   are merged in; acknowledged.
    /// - the acknowledgements: nothing is sent and nothing changes.
    pub fn step(&mut self, message: Message<Type>) -> (r: Result<Vec<Message<Type>>, StepError>)
        requires
            old(self).wf(),
        ensures
            final(self).wf(),
            r is Err ==> *final(self) == *old(self),
            match message.body.payload {
                Type::Init { node_id, node_ids } => match node_number(node_id@) {
                    None => r == Err::<Vec<Message<Type>>, StepError>(StepError::BadNodeId),
                    Some(n) => {
                        &&& r is Ok
                        &&& final(self).me() == Some(node_id@)
                        &&& final(self).seq() == n
                        &&& final(self).stride() == node_ids@.len()
                        &&& final(self).values() == old(self).values()
                        &&& final(self).neighbor_list() == old(self).neighbor_list()
                        &&& sent(r).len() == 1
                        &&& answers(sent(r)[0], message)
                        &&& sent(r)[0].body.payload is InitOk
                    },
                },
                Type::Echo { echo } => {
                    &&& r is Ok
                    &&& *final(self) == *old(self)
                    &&& sent(r).len() == 1
                    &&& answers(sent(r)[0], message)
                    &&& sent(r)[0].body.payload == (Type::EchoOk { echo })
                },
                Type::Generate => if old(self).seq() + old(self).stride() > usize::MAX {
                    r == Err::<Vec<Message<Type>>, StepError>(StepError::IdsExhausted)
                } else {
                    &&& r is Ok
                    &&& final(self).seq() == old(self).seq() + old(self).stride()
                    &&& final(self).me() == old(self).me()
                    &&& final(self).stride() == old(self).stride()
                    &&& final(self).values() == old(self).values()
                    &&& final(self).neighbor_list() == old(self).neighbor_list()
                    &&& sent(r).len() == 1
                    &&& answers(sent(r)[0], message)
                    &&& sent(r)[0].body.payload == (Type::GenerateOk { id: final(self).seq() })
                },
                Type::Broadcast { message: v } => {
                    let fresh = !old(self).values().contains(v);
                    let nbrs = old(self).neighbor_list();
                    &&& r is Ok
                    &&& final(self).values() == if fresh {
                        old(self).values().push(v)
                    } else {
                        old(self).values()
                    }
                    &&& final(self).me() == old(self).me()
                    &&& final(self).seq() == old(self).seq()
                    &&& final(self).stride() == old(self).stride()
                    &&& final(self).neighbor_list() == nbrs
                    &&& sent(r).len() == if fresh {
                        1 + nbrs.len()
                    } else {
                        1
                    }
                    &&& answers(sent(r)[0], message)
                    &&& sent(r)[0].body.payload is BroadcastOk
                    &&& fresh ==> forall|i: int|
                        0 <= i < nbrs.len() ==> {
                            &&& Some((#[trigger] sent(r)[i + 1]).src@) == old(self).me()
                            &&& sent(r)[i + 1].dst@ == nbrs[i]
                            &&& sent(r)[i + 1].body.id == message.body.id
                            &&& sent(r)[i + 1].body.in_reply_to is None
                            &&& sent(r)[i + 1].body.payload == (Type::Broadcast { message: v })
                        }
                },
                Type::Read => {
                    &&& r is Ok
                    &&& *final(self) == *old(self)
                    &&& sent(r).len() == 1
                    &&& answers(sent(r)[0], message)
                    &&& sent(r)[0].body.payload matches Type::ReadOk { messages }
                        && messages@ == old(self).values()
                },
                Type::Topology { topology } => {
                    &&& r is Ok
                    &&& final(self).neighbor_list().to_set() == match old(self).me() {
                        Some(me) => old(self).neighbor_list().to_set().union(assigned(topology@, me)),
                        None => old(self).neighbor_list().to_set(),
                    }
                    &&& final(self).me() == old(self).me()
                    &&& final(self).seq() == old(self).seq()
                    &&& final(self).stride() == old(self).stride()
                    &&& final(self).values() == old(self).values()
                    &&& sent(r).len() == 1
                    &&& answers(sent(r)[0], message)
                    &&& sent(r)[0].body.payload is TopologyOk
                },
                _ => r is Ok && sent(r).len() == 0 && *final(self) == *old(self),
            },
    {
        let src = message.dst;
        let dst = message.src;
        let msg_id = message.body.id;
        let mut out: Vec<Message<Type>> = Vec::new();
        match message.body.payload {
            Type::Init { node_id, node_ids } => {
                let n = match parse_node_number(&node_id) {
                    Some(n) => n,
                    None => {
                        return Err(StepError::BadNodeId);
                    },
                };
                self.seq = n;
                self.id = Some(node_id);
                self.step = node_ids.len();
                out.push(Message {
                    src,
                    dst,
                    body: Body { id: msg_id, in_reply_to: msg_id, payload: Type::InitOk },
                });
            },
            Type::Echo { echo } => {
                out.push(Message {
                    src,
                    dst,
                    body: Body { id: msg_id, in_reply_to: msg_id, payload: Type::EchoOk { echo } },
                });
            },
            Type::Generate => {
                let next = match self.seq.checked_add(self.step) {
                    Some(n) => n,
                    None => {
                        return Err(StepError::IdsExhausted);
                    },
                };
                self.seq = next;
                out.push(Message {
                    src,
                    dst,
                    body: Body { id: msg_id, in_reply_to: msg_id, payload: Type::GenerateOk { id: next } },
                });
            },
            Type::Broadcast { message: v } => {
                let fresh = !holds(&self.messages, v);
                if fresh {
                    self.messages.push(v);
                    proof {
                        crate::node::broadcast::lemma_push_contains(old(self).messages@, v);
                        assert forall|a: int, b: int|
                            0 <= a < self.messages@.len() && 0 <= b < self.messages@.len() && a
                                != b implies self.messages@[a] != self.messages@[b] by {
                            if a < old(self).messages@.len() && b < old(self).messages@.len() {
                            } else if a < old(self).messages@.len() {
                                assert(old(self).messages@.contains(self.messages@[a]));
                            } else {
                                assert(old(self).messages@.contains(self.messages@[b]));
                            }
                        }
                    }
                }
                out.push(Message {
                    src,
                    dst,
                    body: Body { id: msg_id, in_reply_to: msg_id, payload: Type::BroadcastOk },
                });
                if fresh {
                    if let Some(me) = &self.id {
                        let mut i: usize = 0;
                        while i < self.neighbors.len()
                            invariant
                                i <= self.neighbors@.len(),
                                out@.len() == 1 + i,
                                self.id == Some(*me),
                                forall|k: int|
                                    0 <= k < i ==> {
                                        &&& (#[trigger] out@[k + 1]).src@ == me@
                                        &&& out@[k + 1].dst@ == self.neighbors@[k]@
                                        &&& out@[k + 1].body.id == msg_id
                                        &&& out@[k + 1].body.in_reply_to is None
                                        &&& out@[k + 1].body.payload == (Type::Broadcast {
                                            message: v,
                                        })
                                    },
                                answers(out@[0], message),
                                out@[0].body.payload is BroadcastOk,
                            decreases self.neighbors@.len() - i,
                        {
                            let ghost before = out@;
                            out.push(Message {
                                src: me.clone(),
                                dst: self.neighbors[i].clone(),
                                body: Body {
                                    id: msg_id,
                                    in_reply_to: None,
                                    payload: Type::Broadcast { message: v },
                                },
                            });
                            assert forall|k: int| 0 <= k < i + 1 implies {
                                &&& (#[trigger] out@[k + 1]).src@ == me@
                                &&& out@[k + 1].dst@ == self.neighbors@[k]@
                                &&& out@[k + 1].body.id == msg_id
                                &&& out@[k + 1].body.in_reply_to is None
                                &&& out@[k + 1].body.payload == (Type::Broadcast { message: v })
                            } by {
                                if k < i {
                                    assert(out@[k + 1] == before[k + 1]);
                                }
                            }
                            i = i + 1;
                        }
                    }
                }
            },
            Type::Read => {
                let mut messages: Vec<usize> = Vec::new();
                let mut i: usize = 0;
                while i < self.messages.len()
                    invariant
                        i <= self.messages@.len(),
                        messages@ == self.messages@.take(i as int),
                    decreases self.messages@.len() - i,
                {
                    messages.push(self.messages[i]);
                    assert(self.messages@.take(i as int + 1) == self.messages@.take(i as int).push(
                        self.messages@[i as int],
                    ));
                    i = i + 1;
                }
                assert(self.messages@.take(i as int) == self.messages@);
                out.push(Message {
                    src,
                    dst,
                    body: Body { id: msg_id, in_reply_to: msg_id, payload: Type::ReadOk { messages } },
                });
            },
            Type::Topology { topology } => {
                match &self.id {
                    Some(me) => {
                        let me = me.clone();
                        self.merge_topology(&me, &topology);
                    },
                    None => {},
                }
                out.push(Message {
                    src,
                    dst,
                    body: Body { id: msg_id, in_reply_to: msg_id, payload: Type::TopologyOk },
                });
            },
            _ => {},
        }
        Ok(out)
    }

    /// Merge the neighbours that `topology` assigns to `me`.
    fn merge_topology(&mut self, me: &String, topology: &Vec<Adjacency>)
        requires
            old(self).wf(),
            old(self).me() == Some(me@),
        ensures
            final(self).wf(),
            final(self).neighbor_list().to_set() == old(self).neighbor_list().to_set().union(
                assigned(topology@, me@),
            ),
            final(self).me() == old(self).me(),
            final(self).seq() == old(self).seq(),
            final(self).stride() == old(self).stride(),
            final(self).values() == old(self).values(),
    {
        let ghost pre = *self;
        let mut i: usize = 0;
        while i < topology.len()
            invariant
                i <= topology@.len(),
                self.wf(),
                self.neighbor_list().to_set() == pre.neighbor_list().to_set().union(
                    assigned(topology@.take(i as int), me@),
                ),
                self.me() == pre.me(),
                self.me() == Some(me@),
                self.seq() == pre.seq(),
                self.stride() == pre.stride(),
                self.values() == pre.values(),
            decreases topology@.len() - i,
        {
            let ghost before = self.neighbor_list().to_set();
            let entry = &topology[i];
            if entry.node == *me {
                let mut j: usize = 0;
                while j < entry.neighbors.len()
                    invariant
                        i < topology@.len(),
                        entry == topology@[i as int],
                        j <= entry.neighbors@.len(),
                        self.wf(),
                        self.neighbor_list().to_set() == before.union(
                            names(entry.neighbors@.take(j as int)).to_set(),
                        ),
                        self.me() == pre.me(),
                        self.me() == Some(me@),
                        self.seq() == pre.seq(),
                        self.stride() == pre.stride(),
                        self.values() == pre.values(),
                    decreases entry.neighbors@.len() - j,
                {
                    let n = &entry.neighbors[j];
                    let ghost list_before = self.neighbor_list();
                    let listed = lists(&self.neighbors, n);
                    if !listed {
                        let c = n.clone();
                        self.neighbors.push(c);
                        assert(self.neighbor_list() =~= list_before.push(n@));
                        proof {
                            crate::node::broadcast::lemma_push_contains(list_before, n@);
                            assert forall|a: int, b: int|
                                0 <= a < self.neighbor_list().len() && 0 <= b
                                    < self.neighbor_list().len() && a != b implies self.neighbor_list()[a]
                                != self.neighbor_list()[b] by {
                                if a < list_before.len() && b < list_before.len() {
                                } else if a < list_before.len() {
                                    assert(list_before.contains(self.neighbor_list()[a]));
                                } else {
                                    assert(list_before.contains(self.neighbor_list()[b]));
                                }
                            }
                        }
                    }
                    assert(names(entry.neighbors@.take(j as int + 1)) == names(
                        entry.neighbors@.take(j as int),
                    ).push(n@));
                    proof {
                        crate::node::broadcast::lemma_push_contains(
                            names(entry.neighbors@.take(j as int)),
                            n@,
                        );
                        crate::node::broadcast::lemma_push_contains(list_before, n@);
                        assert forall|x: Seq<char>|
                            self.neighbor_list().contains(x) <==> (list_before.contains(x) || x
                                == n@) by {
                            if self.neighbor_list() == list_before {
                                if x == n@ {
                                    assert(list_before.contains(n@));
                                }
                            }
                        }
                    }
                    assert forall|x: Seq<char>|
                        self.neighbor_list().to_set().contains(x) <==> before.union(
                            names(entry.neighbors@.take(j as int + 1)).to_set(),
                        ).contains(x) by {
                        assert(list_before.to_set().contains(x) == list_before.contains(x));
                        assert(list_before.to_set().contains(x) <==> (before.contains(x) || names(
                            entry.neighbors@.take(j as int),
                        ).contains(x)));
                    }
                    assert(self.neighbor_list().to_set() =~= before.union(
                        names(entry.neighbors@.take(j as int + 1)).to_set(),
                    ));
                    j = j + 1;
                }
                assert(entry.neighbors@.take(j as int) == entry.neighbors@);
                assert forall|x: Seq<char>|
                    assigned(topology@.take(i as int + 1), me@).contains(x) <==> (assigned(
                        topology@.take(i as int),
                        me@,
                    ).contains(x) || names(entry.neighbors@).contains(x)) by {
                    if assigned(topology@.take(i as int + 1), me@).contains(x) {
                        let k = choose|k: int|
                            0 <= k < i + 1 && (#[trigger] topology@.take(i as int + 1)[k]).node@
                                == me@ && names(topology@.take(i as int + 1)[k].neighbors@).contains(
                                x,
                            );
                        if k < i {
                            assert(topology@.take(i as int)[k] == topology@[k]);
                        }
                    }
                    if assigned(topology@.take(i as int), me@).contains(x) {
                        let k = choose|k: int|
                            0 <= k < i && (#[trigger] topology@.take(i as int)[k]).node@ == me@
                                && names(topology@.take(i as int)[k].neighbors@).contains(x);
                        assert(topology@.take(i as int + 1)[k] == topology@[k]);
                    }
                    if names(entry.neighbors@).contains(x) {
                        assert(topology@.take(i as int + 1)[i as int] == entry);
                    }
                }
            } else {
                assert forall|x: Seq<char>|
                    assigned(topology@.take(i as int + 1), me@).contains(x) <==> assigned(
                        topology@.take(i as int),
                        me@,
                    ).contains(x) by {
                    if assigned(topology@.take(i as int + 1), me@).contains(x) {
                        let k = choose|k: int|
                            0 <= k < i + 1 && (#[trigger] topology@.take(i as int + 1)[k]).node@
                                == me@ && names(topology@.take(i as int + 1)[k].neighbors@).contains(
                                x,
                            );
                        assert(topology@.take(i as int)[k] == topology@[k]);
                    }
                    if assigned(topology@.take(i as int), me@).contains(x) {
                        let k = choose|k: int|
                            0 <= k < i && (#[trigger] topology@.take(i as int)[k]).node@ == me@
                                && names(topology@.take(i as int)[k].neighbors@).contains(x);
                        assert(topology@.take(i as int + 1)[k] == topology@[k]);
                    }
                }
            }
            assert(self.neighbor_list().to_set() =~= pre.neighbor_list().to_set().union(
                assigned(topology@.take(i as int + 1), me@),
            ));
            i = i + 1;
        }
        assert(topology@.take(i as int) == topology@);
    }
}

} // verus!
