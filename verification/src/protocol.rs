//! The protocol envelope: an addressed message whose body carries a tagged
//! payload and the correlation ids, plus the reply-construction helper that
//! keeps src/dst inversion and id issuance in one place.

use vstd::prelude::*;

verus! {

/// The tagged payload of a message body. The runtime only ever inspects the
/// `Init`/`InitOk` variants during the handshake; the rest belong to the
/// application-level state machines built on the runtime.
///
/// Design note: the wire-level payload is application-defined and open, but
/// a verified codec must know the fields it decodes, so this crate closes
/// the set over the handshake variants and the two sample applications. A
/// new application extends this enum and the codec's tag and member tables
/// alongside it.
#[derive(Clone, Debug, PartialEq, Eq)]
pub enum Payload {
    Init { node_id: Vec<u8>, node_ids: Vec<Vec<u8>> },
    InitOk,
    Echo { echo: Vec<u8> },
    EchoOk { echo: Vec<u8> },
    Generate,
    GenerateOk { guid: Vec<u8> },
}

/// A message body: the payload, this message's own id (absent when no reply
/// is expected) and the id of the message it answers.
#[derive(Clone, Debug, PartialEq, Eq)]
pub struct Body {
    pub payload: Payload,
    pub id: Option<usize>,
    pub to: Option<usize>,
}

/// The wire envelope: source node, destination node, body.
#[derive(Clone, Debug, PartialEq, Eq)]
pub struct Message {
    pub src: Vec<u8>,
    pub dst: Vec<u8>,
    pub body: Body,
}

/// The handshake contents: this node's identity and the full cluster
/// membership.
#[derive(Clone, Debug, PartialEq, Eq)]
pub struct Init {
    pub node_id: Vec<u8>,
    pub node_ids: Vec<Vec<u8>>,
}

/// One unit of work delivered to a state machine: a network message, a
/// self-injected stimulus, or the end-of-input marker.
#[derive(Clone, Debug)]
pub enum Event<I> {
    Message(Message),
    Injected(I),
    EOF,
}

/// Mathematical model of a payload.
pub enum PayloadV {
    Init { node_id: Seq<u8>, node_ids: Seq<Seq<u8>> },
    InitOk,
    Echo { echo: Seq<u8> },
    EchoOk { echo: Seq<u8> },
    Generate,
    GenerateOk { guid: Seq<u8> },
}

/// Mathematical model of a body.
pub struct BodyV {
    pub payload: PayloadV,
    pub id: Option<int>,
    pub to: Option<int>,
}

/// Mathematical model of a message.
pub struct MessageV {
    pub src: Seq<u8>,
    pub dst: Seq<u8>,
    pub body: BodyV,
}

/// Mathematical model of the handshake contents.
pub struct InitV {
    pub node_id: Seq<u8>,
    pub node_ids: Seq<Seq<u8>>,
}

impl View for Payload {
    type V = PayloadV;

    open spec fn view(&self) -> PayloadV {
        match self {
            Payload::Init { node_id, node_ids } => PayloadV::Init {
                node_id: node_id@,
                node_ids: node_ids.deep_view(),
            },
            Payload::InitOk => PayloadV::InitOk,
            Payload::Echo { echo } => PayloadV::Echo { echo: echo@ },
            Payload::EchoOk { echo } => PayloadV::EchoOk { echo: echo@ },
            Payload::Generate => PayloadV::Generate,
            Payload::GenerateOk { guid } => PayloadV::GenerateOk { guid: guid@ },
        }
    }
}

impl View for Body {
    type V = BodyV;

    open spec fn view(&self) -> BodyV {
        BodyV {
            payload: self.payload@,
            id: match self.id {
                Some(n) => Some(n as int),
                None => None,
            },
            to: match self.to {
                Some(n) => Some(n as int),
                None => None,
            },
        }
    }
}

impl View for Message {
    type V = MessageV;

    open spec fn view(&self) -> MessageV {
        MessageV { src: self.src@, dst: self.dst@, body: self.body@ }
    }
}

impl View for Init {
    type V = InitV;

    open spec fn view(&self) -> InitV {
        InitV { node_id: self.node_id@, node_ids: self.node_ids.deep_view() }
    }
}

/// What a reply carrying payload `p` is: src and dst swapped,
/// `in_reply_to` set to the original message's id, and the given id
/// stamped.
pub open spec fn spec_reply_with(m: MessageV, id: Option<int>, p: PayloadV) -> MessageV {
    MessageV { src: m.dst, dst: m.src, body: BodyV { payload: p, id, to: m.body.id } }
}

/// What a reply is when the payload is kept: src and dst swapped,
/// `in_reply_to` set to the original message's id, and the given id
/// stamped.
pub open spec fn spec_reply(m: MessageV, id: Option<int>) -> MessageV {
    spec_reply_with(m, id, m.body.payload)
}

impl Message {
    /// Turns a message into its reply, stamping the current value of the id
    /// counter and advancing the counter by one.
    pub fn into_reply(self, id: &mut usize) -> (r: Message)
        requires
            *old(id) < usize::MAX,
        ensures
            r@ == spec_reply(self@, Some(*old(id) as int)),
            *final(id) == *old(id) + 1,
    {
        let mid = *id;
        *id = *id + 1;
        Message {
            src: self.dst,
            dst: self.src,
            body: Body { payload: self.body.payload, id: Some(mid), to: self.body.id },
        }
    }

    /// Builds the reply that answers this message with the given payload,
    /// stamping the current value of the id counter and advancing the
    /// counter by one. This is the one place reply semantics live: state
    /// machines answer through it (or through `into_reply`) so that the
    /// addressing inversion and the id monotonicity stay consistent.
    pub fn reply(self, id: &mut usize, payload: Payload) -> (r: Message)
        requires
            *old(id) < usize::MAX,
        ensures
            r@ == spec_reply_with(self@, Some(*old(id) as int), payload@),
            *final(id) == *old(id) + 1,
    {
        let mid = *id;
        *id = *id + 1;
        Message {
            src: self.dst,
            dst: self.src,
            body: Body { payload, id: Some(mid), to: self.body.id },
        }
    }

    /// Turns a message into its reply without stamping an id, for replies
    /// that expect no answer of their own.
    pub fn into_reply_unnumbered(self) -> (r: Message)
        ensures
            r@ == spec_reply(self@, None),
    {
        Message {
            src: self.dst,
            dst: self.src,
            body: Body { payload: self.body.payload, id: None, to: self.body.id },
        }
    }
}

/// Law: a reply inverts the addressing and correlates to the original
/// message's id, whatever id is stamped on it and whatever payload it
/// carries.
pub proof fn lemma_reply_correlation(m: MessageV, id: Option<int>, p: PayloadV)
    ensures
        spec_reply_with(m, id, p).src == m.dst,
        spec_reply_with(m, id, p).dst == m.src,
        spec_reply_with(m, id, p).body.to == m.body.id,
        spec_reply_with(m, id, p).body.payload == p,
        spec_reply(m, id) == spec_reply_with(m, id, m.body.payload),
{
}

/// The replies produced by answering `msgs` one after the other with a
/// counter that starts at `c`: each reply stamps the counter's current
/// value, and the counter advances by one per reply.
pub open spec fn spec_replies_from(msgs: Seq<MessageV>, c: int) -> Seq<MessageV>
    decreases msgs.len(),
{
    if msgs.len() == 0 {
        Seq::empty()
    } else {
        seq![spec_reply(msgs[0], Some(c))] + spec_replies_from(msgs.skip(1), c + 1)
    }
}

/// Law: the ids stamped on a run of replies are consecutive. In particular,
/// after the handshake reserves id 0, a counter starting at 1 stamps the
/// n-th application-level send with id n: monotonic, gap-free, starting
/// at 1.
pub proof fn lemma_reply_ids_gap_free(msgs: Seq<MessageV>, c: int)
    ensures
        spec_replies_from(msgs, c).len() == msgs.len(),
        forall|j: int|
            0 <= j < msgs.len() ==> (#[trigger] spec_replies_from(msgs, c)[j]).body.id == Some(
                c + j,
            ),
    decreases msgs.len(),
{
    if msgs.len() > 0 {
        lemma_reply_ids_gap_free(msgs.skip(1), c + 1);
        assert forall|j: int| 0 <= j < msgs.len() implies (#[trigger] spec_replies_from(
            msgs,
            c,
        )[j]).body.id == Some(c + j) by {
            if j > 0 {
                assert(spec_replies_from(msgs, c)[j] == spec_replies_from(msgs.skip(1), c + 1)[j
                    - 1]);
            }
        }
    }
}

} // verus!
