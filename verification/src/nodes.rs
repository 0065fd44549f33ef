//! Two example state machines on top of the runtime: an echo node and a
//! unique-id node. They are small consumers of the runtime's contract, and
//! their steps are pinned byte-for-byte to the wire encoding.

use vstd::prelude::*;

use crate::codec::{dec_digits, spec_enc_msg};
use crate::codec::push_bytes;
use crate::encode::push_num;
use crate::protocol::{Body, BodyV, Event, Init, InitV, Message, MessageV, Payload, PayloadV};
use crate::runtime::{EventV, Node, RunError};

verus! {

/// Answers every echo request with an echo reply carrying the same text.
/// `id` is the next message id to stamp.
pub struct EchoNode {
    pub id: usize,
}

/// Mathematical model of an echo node.
pub struct EchoNodeV {
    pub id: int,
}

impl View for EchoNode {
    type V = EchoNodeV;

    open spec fn view(&self) -> EchoNodeV {
        EchoNodeV { id: self.id as int }
    }
}

/// What the self-contained echo step does with one message: it answers
/// `init` and `echo` itself (stamping and advancing the id), ignores echo
/// replies, and fails on anything else.
pub open spec fn spec_sync_step(pre: EchoNodeV, m: MessageV) -> Option<(EchoNodeV, Seq<u8>)> {
    match m.body.payload {
        PayloadV::Init { .. } => if pre.id < usize::MAX as int {
            Some(
                (
                    EchoNodeV { id: pre.id + 1 },
                    spec_enc_msg(
                        MessageV {
                            src: m.dst,
                            dst: m.src,
                            body: BodyV {
                                payload: PayloadV::InitOk,
                                id: Some(pre.id),
                                to: m.body.id,
                            },
                        },
                    ) + seq![10u8],
                ),
            )
        } else {
            None
        },
        PayloadV::InitOk => None,
        PayloadV::Echo { echo } => if pre.id < usize::MAX as int {
            Some(
                (
                    EchoNodeV { id: pre.id + 1 },
                    spec_enc_msg(
                        MessageV {
                            src: m.dst,
                            dst: m.src,
                            body: BodyV {
                                payload: PayloadV::EchoOk { echo },
                                id: Some(pre.id),
                                to: m.body.id,
                            },
                        },
                    ) + seq![10u8],
                ),
            )
        } else {
            None
        },
        PayloadV::EchoOk { .. } => Some((pre, Seq::empty())),
        _ => None,
    }
}

impl EchoNode {
    /// The self-contained variant's step: reads one message and answers it
    /// directly, handling the handshake itself rather than leaving it to
    /// the runtime.
    pub fn step(&mut self, input: Message, output: &mut Vec<u8>) -> (r: Result<(), RunError>)
        ensures
            match r {
                Ok(()) => spec_sync_step(old(self)@, input@) matches Some((n2, outd))
                    && final(self)@ == n2 && final(output)@ == old(output)@ + outd,
                Err(_) => spec_sync_step(old(self)@, input@) is None && final(output)@ == old(
                    output,
                )@ && *final(self) == *old(self),
            },
    {
        let mid = self.id;
        let Message { src, dst, body } = input;
        let Body { payload, id, to: _ } = body;
        match payload {
            Payload::Init { node_id: _, node_ids: _ } => {
                if mid == usize::MAX {
                    return Err(RunError::Step);
                }
                let reply = Message {
                    src: dst,
                    dst: src,
                    body: Body { payload: Payload::InitOk, id: Some(mid), to: id },
                };
                reply.send(output);
                self.id = mid + 1;
                Ok(())
            },
            Payload::InitOk => Err(RunError::Step),
            Payload::Echo { echo } => {
                if mid == usize::MAX {
                    return Err(RunError::Step);
                }
                let reply = Message {
                    src: dst,
                    dst: src,
                    body: Body { payload: Payload::EchoOk { echo }, id: Some(mid), to: id },
                };
                reply.send(output);
                self.id = mid + 1;
                Ok(())
            },
            Payload::EchoOk { echo: _ } => Ok(()),
            _ => Err(RunError::Step),
        }
    }
}

impl Node<(), ()> for EchoNode {
    /// An echo node starts with id 1: id 0 is the runtime's `init_ok`.
    open spec fn spec_init(state: (), init: InitV) -> Option<(EchoNodeV, Seq<()>)> {
        Some((EchoNodeV { id: 1 }, Seq::empty()))
    }

    open spec fn spec_step(pre: EchoNodeV, event: EventV<()>) -> Option<
        (EchoNodeV, Seq<u8>, Seq<()>),
    > {
        match event {
            EventV::Message(m) => match m.body.payload {
                PayloadV::Echo { echo } => if pre.id < usize::MAX as int {
                    Some(
                        (
                            EchoNodeV { id: pre.id + 1 },
                            spec_enc_msg(
                                MessageV {
                                    src: m.dst,
                                    dst: m.src,
                                    body: BodyV {
                                        payload: PayloadV::EchoOk { echo },
                                        id: Some(pre.id),
                                        to: m.body.id,
                                    },
                                },
                            ) + seq![10u8],
                            Seq::empty(),
                        ),
                    )
                } else {
                    None
                },
                PayloadV::EchoOk { .. } => Some((pre, Seq::empty(), Seq::empty())),
                _ => None,
            },
            EventV::Injected(_) => None,
            EventV::EOF => Some((pre, Seq::empty(), Seq::empty())),
        }
    }

    proof fn step_emits_whole_records(pre: EchoNodeV, event: EventV<()>) {
        match event {
            EventV::Message(m) => match m.body.payload {
                PayloadV::Echo { echo } => {
                    if pre.id < usize::MAX as int {
                        let outd = <EchoNode as Node<(), ()>>::spec_step(
                            pre,
                            event,
                        ).unwrap().1;
                        assert(outd.last() == 10);
                    }
                },
                _ => {},
            },
            _ => {},
        }
    }

    fn from_init(state: (), init: Init, inject: &mut Vec<()>) -> (r: Result<EchoNode, RunError>) {
        proof {
            assert(old(inject)@ + Seq::<()>::empty() =~= old(inject)@);
        }
        Ok(EchoNode { id: 1 })
    }

    fn step(&mut self, input: Event<()>, output: &mut Vec<u8>, inject: &mut Vec<()>) -> (r: Result<
        (),
        RunError,
    >) {
        proof {
            assert(old(inject)@ + Seq::<()>::empty() =~= old(inject)@);
            assert(old(output)@ + Seq::<u8>::empty() =~= old(output)@);
        }
        match input {
            Event::Message(m) => {
                let Message { src, dst, body } = m;
                let Body { payload, id, to: _ } = body;
                match payload {
                    Payload::Echo { echo } => {
                        let mid = self.id;
                        if mid == usize::MAX {
                            return Err(RunError::Step);
                        }
                        self.id = mid + 1;
                        let reply = Message {
                            src: dst,
                            dst: src,
                            body: Body {
                                payload: Payload::EchoOk { echo },
                                id: Some(mid),
                                to: id,
                            },
                        };
                        reply.send(output);
                        Ok(())
                    },
                    Payload::EchoOk { echo: _ } => Ok(()),
                    _ => Err(RunError::Step),
                }
            },
            Event::Injected(_) => Err(RunError::Step),
            Event::EOF => Ok(()),
        }
    }
}

/// Hands out cluster-wide unique ids: the node's own id joined with a
/// per-node counter that never repeats.
pub struct UniqueNode {
    pub node: Vec<u8>,
    pub id: usize,
}

/// Mathematical model of a unique-id node.
pub struct UniqueNodeV {
    pub node: Seq<u8>,
    pub id: int,
}

impl View for UniqueNode {
    type V = UniqueNodeV;

    open spec fn view(&self) -> UniqueNodeV {
        UniqueNodeV { node: self.node@, id: self.id as int }
    }
}

/// The id a unique-id node mints when it answers with the counter at `k`:
/// its node id, a dash, and the decimal digits of the counter after the
/// advance, `k + 1`. Distinct nodes or distinct counters give distinct ids.
pub open spec fn spec_guid(pre: UniqueNodeV) -> Seq<u8> {
    pre.node + seq![45u8] + dec_digits(pre.id + 1)
}

impl Node<(), ()> for UniqueNode {
    /// A unique-id node remembers its own node id and starts counting
    /// at 1: id 0 is the runtime's `init_ok`.
    open spec fn spec_init(state: (), init: InitV) -> Option<(UniqueNodeV, Seq<()>)> {
        Some((UniqueNodeV { node: init.node_id, id: 1 }, Seq::empty()))
    }

    open spec fn spec_step(pre: UniqueNodeV, event: EventV<()>) -> Option<
        (UniqueNodeV, Seq<u8>, Seq<()>),
    > {
        match event {
            EventV::Message(m) => match m.body.payload {
                PayloadV::Generate => if pre.id < usize::MAX as int {
                    Some(
                        (
                            UniqueNodeV { node: pre.node, id: pre.id + 1 },
                            spec_enc_msg(
                                MessageV {
                                    src: m.dst,
                                    dst: m.src,
                                    body: BodyV {
                                        payload: PayloadV::GenerateOk { guid: spec_guid(pre) },
                                        id: Some(pre.id),
                                        to: m.body.id,
                                    },
                                },
                            ) + seq![10u8],
                            Seq::empty(),
                        ),
                    )
                } else {
                    None
                },
                PayloadV::GenerateOk { .. } => Some((pre, Seq::empty(), Seq::empty())),
                _ => None,
            },
            EventV::Injected(_) => None,
            EventV::EOF => Some((pre, Seq::empty(), Seq::empty())),
        }
    }

    proof fn step_emits_whole_records(pre: UniqueNodeV, event: EventV<()>) {
        match event {
            EventV::Message(m) => match m.body.payload {
                PayloadV::Generate => {
                    if pre.id < usize::MAX as int {
                        let outd = <UniqueNode as Node<(), ()>>::spec_step(
                            pre,
                            event,
                        ).unwrap().1;
                        assert(outd.last() == 10);
                    }
                },
                _ => {},
            },
            _ => {},
        }
    }

    fn from_init(state: (), init: Init, inject: &mut Vec<()>) -> (r: Result<
        UniqueNode,
        RunError,
    >) {
        proof {
            assert(old(inject)@ + Seq::<()>::empty() =~= old(inject)@);
        }
        let Init { node_id, node_ids: _ } = init;
        Ok(UniqueNode { node: node_id, id: 1 })
    }

    fn step(&mut self, input: Event<()>, output: &mut Vec<u8>, inject: &mut Vec<()>) -> (r: Result<
        (),
        RunError,
    >) {
        proof {
            assert(old(inject)@ + Seq::<()>::empty() =~= old(inject)@);
            assert(old(output)@ + Seq::<u8>::empty() =~= old(output)@);
        }
        match input {
            Event::Message(m) => {
                let Message { src, dst, body } = m;
                let Body { payload, id, to: _ } = body;
                match payload {
                    Payload::Generate => {
                        let mid = self.id;
                        if mid == usize::MAX {
                            return Err(RunError::Step);
                        }
                        let mut guid: Vec<u8> = Vec::new();
                        push_bytes(&mut guid, self.node.as_slice());
                        guid.push(45);
                        push_num(mid + 1, &mut guid);
                        proof {
                            assert(guid@ =~= spec_guid(old(self)@));
                        }
                        self.id = mid + 1;
                        let reply = Message {
                            src: dst,
                            dst: src,
                            body: Body {
                                payload: Payload::GenerateOk { guid },
                                id: Some(mid),
                                to: id,
                            },
                        };
                        reply.send(output);
                        Ok(())
                    },
                    Payload::GenerateOk { guid: _ } => Ok(()),
                    _ => Err(RunError::Step),
                }
            },
            Event::Injected(_) => Err(RunError::Step),
            Event::EOF => Ok(()),
        }
    }
}

} // verus!
