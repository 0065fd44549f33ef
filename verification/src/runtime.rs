//! The node runtime: the init handshake, the event queue that serializes
//! every stimulus reaching the state machine, and the main loop that drives
//! a pluggable state machine over the decoded input.

use vstd::prelude::*;

use crate::codec::{spec_decode, spec_enc_msg, valid_message};
use crate::decode::decode;
use crate::protocol::{Body, BodyV, Event, Init, InitV, Message, MessageV, Payload, PayloadV};
use crate::roundtrip::{lemma_decode_encode, lemma_decode_valid};

verus! {

/// Why a node process stops: a malformed input line, a protocol violation
/// (a handshake message out of turn), a failed state-machine construction,
/// a failed step, or an input/output failure at the process edge (raised
/// only by the unverified shell around the library).
#[derive(Clone, Copy, Debug, PartialEq, Eq, Structural)]
pub enum RunError {
    Decode,
    Protocol,
    Init,
    Step,
    Io,
}

/// Mathematical model of an event: the payload-carrying message is taken
/// by its view, an injected stimulus as itself.
pub enum EventV<I> {
    Message(MessageV),
    Injected(I),
    EOF,
}

impl<I> View for Event<I> {
    type V = EventV<I>;

    open spec fn view(&self) -> EventV<I> {
        match self {
            Event::Message(m) => EventV::Message(m@),
            Event::Injected(x) => EventV::Injected(*x),
            Event::EOF => EventV::EOF,
        }
    }
}

/// The output is whole newline-terminated records: empty, or ending at a
/// record boundary, with no trailing partial line.
pub open spec fn whole_records(s: Seq<u8>) -> bool {
    s.len() == 0 || s.last() == 10
}

/// A pluggable state machine. Each implementation gives a spec-level model
/// of its construction and of its step, and the executable operations are
/// bound to the model, so the runtime's behaviour over any node is pinned
/// by the node's own two spec functions.
///
/// `from_init` may push initial self-injected events; `step` receives one
/// event, appends whole wire records to `output`, and pushes self-injected
/// events for later delivery into `inject`.
pub trait Node<S, I>: Sized + View {
    /// What construction does: the model of the node built from the
    /// handshake, and the events it injects at construction time; `None`
    /// when construction fails.
    spec fn spec_init(state: S, init: InitV) -> Option<(Self::V, Seq<I>)>;

    /// What one step does: the next state's model, the bytes it emits, and
    /// the events it injects; `None` when the step fails fatally.
    spec fn spec_step(pre: Self::V, event: EventV<I>) -> Option<(Self::V, Seq<u8>, Seq<I>)>;

    /// Builds the node from the handshake contents.
    fn from_init(state: S, init: Init, inject: &mut Vec<I>) -> (r: Result<Self, RunError>)
        ensures
            match r {
                Ok(n) => Self::spec_init(state, init@) matches Some((n2, inj)) && n2 == n@
                    && final(inject)@ == old(inject)@ + inj,
                Err(_) => Self::spec_init(state, init@) is None && final(inject)@ == old(inject)@,
            },
    ;

    /// Law every state machine owes the runtime: a step emits whole
    /// newline-terminated records only, since the harness consumes output
    /// line by line and a partial line would corrupt framing.
    proof fn step_emits_whole_records(pre: Self::V, event: EventV<I>)
        ensures
            Self::spec_step(pre, event) matches Some((n2, outd, injd)) ==> whole_records(outd),
    ;

    /// Processes exactly one event.
    fn step(&mut self, input: Event<I>, output: &mut Vec<u8>, inject: &mut Vec<I>) -> (r: Result<
        (),
        RunError,
    >)
        ensures
            match r {
                Ok(()) => Self::spec_step(old(self)@, input@) matches Some((n2, outd, injd))
                    && final(self)@ == n2 && final(output)@ == old(output)@ + outd
                    && final(inject)@ == old(inject)@ + injd,
                Err(_) => Self::spec_step(old(self)@, input@) is None
                    && final(output)@ == old(output)@ && final(inject)@ == old(inject)@
                    && *final(self) == *old(self),
            },
    ;
}

// ---------------------------------------------------------------------------
// The handshake
// ---------------------------------------------------------------------------

/// The reply the handshake owes: addressing inverted, `init_ok` payload,
/// correlated to the init message's id, and carrying the reserved id 0.
pub open spec fn spec_init_reply(m: MessageV) -> MessageV {
    MessageV {
        src: m.dst,
        dst: m.src,
        body: BodyV { payload: PayloadV::InitOk, id: Some(0), to: m.body.id },
    }
}

/// Reads the first input line: it must decode and carry an `init` payload.
/// Returns the handshake contents and the ready `init_ok` reply.
pub fn handle_init_line(line: &[u8]) -> (r: Result<(Init, Message), RunError>)
    ensures
        match r {
            Ok((init, reply)) => spec_decode(line@) matches Some(m)
                && m.body.payload matches PayloadV::Init { node_id, node_ids }
                && init@ == (InitV { node_id, node_ids }) && reply@ == spec_init_reply(m),
            Err(e) => {
                &&& (spec_decode(line@) is None ==> e == RunError::Decode)
                &&& (spec_decode(line@) matches Some(m) ==> !(m.body.payload is Init) && e
                    == RunError::Protocol)
            },
        },
        r is Ok <==> (spec_decode(line@) matches Some(m) && m.body.payload is Init),
{
    let m = match decode(line) {
        Ok(m) => m,
        Err(_) => {
            return Err(RunError::Decode);
        },
    };
    let Message { src, dst, body } = m;
    let Body { payload, id, to: _ } = body;
    match payload {
        Payload::Init { node_id, node_ids } => {
            let init = Init { node_id, node_ids };
            let reply = Message {
                src: dst,
                dst: src,
                body: Body { payload: Payload::InitOk, id: Some(0), to: id },
            };
            Ok((init, reply))
        },
        _ => Err(RunError::Protocol),
    }
}

/// Law: the handshake reply to any decoded init message is itself a
/// syntactically valid line — it decodes back to exactly the reply — and
/// it answers the init message's id while carrying the reserved id 0.
pub proof fn lemma_init_reply_well_formed(line: Seq<u8>)
    requires
        spec_decode(line) is Some,
    ensures
        spec_decode(spec_enc_msg(spec_init_reply(spec_decode(line).unwrap()))) == Some(
            spec_init_reply(spec_decode(line).unwrap()),
        ),
        spec_init_reply(spec_decode(line).unwrap()).body.id == Some(0int),
        spec_init_reply(spec_decode(line).unwrap()).body.to == spec_decode(
            line,
        ).unwrap().body.id,
{
    let m = spec_decode(line).unwrap();
    lemma_decode_valid(line);
    assert(valid_message(spec_init_reply(m)));
    lemma_decode_encode(spec_init_reply(m));
}

/// Decodes one post-handshake line, refuses a handshake payload out of
/// turn, and steps the state machine on the message: every per-line
/// protocol decision of a deployed loop, so the shell around the library
/// only moves bytes.
pub fn dispatch_line<S, I, N: Node<S, I>>(
    node: &mut N,
    line: &[u8],
    out: &mut Vec<u8>,
    inject: &mut Vec<I>,
) -> (r: Result<(), RunError>)
    ensures
        match r {
            Ok(()) => spec_decode(line@) matches Some(mv) && !(mv.body.payload is Init) && !(
            mv.body.payload is InitOk) && (N::spec_step(old(node)@, EventV::Message(mv)) matches Some(
                (n2, outd, injd),
            ) && final(node)@ == n2 && final(out)@ == old(out)@ + outd && final(inject)@ == old(
                inject,
            )@ + injd),
            Err(e) => {
                &&& *final(node) == *old(node)
                &&& final(out)@ == old(out)@
                &&& final(inject)@ == old(inject)@
                &&& (spec_decode(line@) is None ==> e == RunError::Decode)
                &&& (spec_decode(line@) matches Some(mv) ==> (if mv.body.payload is Init
                    || mv.body.payload is InitOk {
                    e == RunError::Protocol
                } else {
                    e == RunError::Step && N::spec_step(old(node)@, EventV::Message(mv)) is None
                }))
            },
        },
{
    let m = match decode(line) {
        Ok(m) => m,
        Err(_) => {
            return Err(RunError::Decode);
        },
    };
    let is_handshake_payload = match &m.body.payload {
        Payload::Init { .. } => true,
        Payload::InitOk => true,
        _ => false,
    };
    if is_handshake_payload {
        return Err(RunError::Protocol);
    }
    match node.step(Event::Message(m), out, inject) {
        Ok(()) => Ok(()),
        Err(_) => Err(RunError::Step),
    }
}

// ---------------------------------------------------------------------------
// The event queue
// ---------------------------------------------------------------------------

/// The single serialization point for everything that reaches the state
/// machine: events are delivered in arrival order, by one consumer. The
/// ghost `log` holds every event ever pushed; what has not yet been
/// delivered is the log's tail.
pub struct EventQueue<T> {
    items: Vec<T>,
    log: Ghost<Seq<T>>,
}

impl<T> EventQueue<T> {
    /// Every event ever pushed, in arrival order.
    pub closed spec fn arrived(&self) -> Seq<T> {
        self.log@
    }

    /// How many events have been delivered so far.
    pub open spec fn delivered(&self) -> int {
        self.arrived().len() - self.pending().len()
    }

    /// The events that arrived and were not yet delivered.
    pub closed spec fn pending(&self) -> Seq<T> {
        self.items@
    }

    /// Deliveries never outrun arrivals, and what is pending is exactly
    /// the arrival log's tail.
    pub open spec fn wf(&self) -> bool {
        &&& self.pending().len() <= self.arrived().len()
        &&& self.arrived().skip(self.delivered()) == self.pending()
    }

    /// An empty queue.
    pub fn new() -> (q: Self)
        ensures
            q.wf(),
            q.arrived() == Seq::<T>::empty(),
            q.pending() == Seq::<T>::empty(),
    {
        let q = EventQueue { items: Vec::new(), log: Ghost(Seq::empty()) };
        proof {
            assert(q.arrived().skip(0) =~= q.pending());
        }
        q
    }

    /// Appends one event at the tail: its delivery comes after everything
    /// already pending, in particular strictly after whatever step is
    /// running when it is pushed.
    pub fn push_back(&mut self, x: T)
        requires
            old(self).wf(),
        ensures
            final(self).wf(),
            final(self).arrived() == old(self).arrived() + seq![x],
            final(self).pending() == old(self).pending() + seq![x],
            final(self).delivered() == old(self).delivered(),
    {
        self.items.push(x);
        proof {
            self.log@ = self.log@ + seq![x];
        }
        proof {
            assert(final(self).arrived().skip(final(self).delivered()) =~= final(self).pending());
        }
    }

    /// Takes the oldest pending event: delivery order is arrival order.
    pub fn pop_front(&mut self) -> (r: Option<T>)
        requires
            old(self).wf(),
        ensures
            final(self).wf(),
            final(self).arrived() == old(self).arrived(),
            match r {
                Some(x) => old(self).pending().len() > 0
                    && x == old(self).arrived()[old(self).delivered()]
                    && final(self).pending() == old(self).pending().skip(1)
                    && final(self).delivered() == old(self).delivered() + 1,
                None => old(self).pending().len() == 0 && *final(self) == *old(self),
            },
    {
        if self.items.len() == 0 {
            return None;
        }
        let x = self.items.remove(0);
        proof {
            assert(old(self).arrived().skip(old(self).delivered())[0] == old(self).pending()[0]);
            assert(final(self).arrived().skip(final(self).delivered()) =~= final(self).pending());
        }
        Some(x)
    }
}

// ---------------------------------------------------------------------------
// The main loop
// ---------------------------------------------------------------------------

/// The decoded init message, when the first line is a well-formed init.
pub open spec fn spec_handshake(ls: Seq<Seq<u8>>) -> Option<MessageV> {
    if ls.len() > 0 {
        match spec_decode(ls[0]) {
            Some(m) => if m.body.payload is Init {
                Some(m)
            } else {
                None
            },
            None => None,
        }
    } else {
        None
    }
}

/// The whole first output record: the encoded `init_ok` reply and its
/// newline.
pub open spec fn spec_init_line(m: MessageV) -> Seq<u8> {
    spec_enc_msg(spec_init_reply(m)) + seq![10u8]
}

/// The handshake contents an init message carries.
pub open spec fn init_of(m: MessageV) -> InitV {
    match m.body.payload {
        PayloadV::Init { node_id, node_ids } => InitV { node_id, node_ids },
        _ => InitV { node_id: Seq::empty(), node_ids: Seq::empty() },
    }
}

/// What the loop after the handshake does, for a run in which the state
/// machine injects nothing: each further line is decoded and stepped in
/// order, a handshake payload out of turn is a protocol violation, and the
/// end of input is delivered as one final event. The result pairs how the
/// run ends with every byte it emits. `None` stands for a run that injects
/// an event, whose interleaving this function does not model.
pub open spec fn spec_run<S, I, N: Node<S, I>>(node: N::V, ls: Seq<Seq<u8>>, i: int) -> Option<
    (Result<(), RunError>, Seq<u8>),
>
    decreases ls.len() - i,
{
    if 0 <= i < ls.len() {
        match spec_decode(ls[i]) {
            None => Some((Err(RunError::Decode), Seq::empty())),
            Some(mv) => {
                if mv.body.payload is Init || mv.body.payload is InitOk {
                    Some((Err(RunError::Protocol), Seq::empty()))
                } else {
                    match N::spec_step(node, EventV::Message(mv)) {
                        None => Some((Err(RunError::Step), Seq::empty())),
                        Some((n2, outd, injd)) => {
                            if injd.len() > 0 {
                                None
                            } else {
                                match spec_run::<S, I, N>(n2, ls, i + 1) {
                                    None => None,
                                    Some((res, rest)) => Some((res, outd + rest)),
                                }
                            }
                        },
                    }
                }
            },
        }
    } else {
        match N::spec_step(node, EventV::EOF) {
            None => Some((Err(RunError::Step), Seq::empty())),
            Some((n2, outd, injd)) => {
                if injd.len() > 0 {
                    None
                } else {
                    Some((Ok(()), outd))
                }
            },
        }
    }
}

/// Law: a run's whole output is newline-terminated records — in
/// particular, a stream that ends leaves no trailing partial line,
/// whatever the state machine.
pub proof fn lemma_run_whole_records<S, I, N: Node<S, I>>(node: N::V, ls: Seq<Seq<u8>>, i: int)
    ensures
        spec_run::<S, I, N>(node, ls, i) matches Some((res, outd)) ==> whole_records(outd),
    decreases ls.len() - i,
{
    if 0 <= i < ls.len() {
        match spec_decode(ls[i]) {
            None => {},
            Some(mv) => {
                if !(mv.body.payload is Init) && !(mv.body.payload is InitOk) {
                    N::step_emits_whole_records(node, EventV::Message(mv));
                    match N::spec_step(node, EventV::Message(mv)) {
                        None => {},
                        Some((n2, outd, injd)) => {
                            if injd.len() == 0 {
                                lemma_run_whole_records::<S, I, N>(n2, ls, i + 1);
                                match spec_run::<S, I, N>(n2, ls, i + 1) {
                                    None => {},
                                    Some((_, rest)) => {
                                        if rest.len() > 0 {
                                            assert((outd + rest).last() == rest.last());
                                        } else {
                                            assert(outd + rest =~= outd);
                                        }
                                    },
                                }
                            }
                        },
                    }
                }
            },
        }
    } else {
        N::step_emits_whole_records(node, EventV::EOF);
    }
}

/// Law: a handshake payload out of turn is fatal, whatever the state
/// machine. A run over lines that hold an `init` or `init_ok` after the
/// handshake cannot end cleanly: if it terminates at all, it terminates in
/// an error — the violation stops it there unless an earlier line already
/// stopped it.
#[verifier::rlimit(100)]
#[verifier::spinoff_prover]
pub proof fn lemma_out_of_turn_handshake_is_fatal<S, I, N: Node<S, I>>(
    node: N::V,
    ls: Seq<Seq<u8>>,
    i: int,
    k: int,
)
    requires
        0 <= i <= k < ls.len(),
        spec_decode(ls[k]) is Some,
        spec_decode(ls[k]).unwrap().body.payload is Init || spec_decode(
            ls[k],
        ).unwrap().body.payload is InitOk,
    ensures
        spec_run::<S, I, N>(node, ls, i) matches Some((res, outd)) ==> res is Err,
    decreases k - i,
{
    if i < k {
        match spec_decode(ls[i]) {
            None => {},
            Some(mv) => {
                if !(mv.body.payload is Init) && !(mv.body.payload is InitOk) {
                    match N::spec_step(node, EventV::Message(mv)) {
                        None => {},
                        Some((n2, outd, injd)) => {
                            if injd.len() == 0 {
                                lemma_out_of_turn_handshake_is_fatal::<S, I, N>(n2, ls, i + 1, k);
                            }
                        },
                    }
                }
            },
        }
    } else {
        assert(spec_run::<S, I, N>(node, ls, i) == Some(
            (Err::<(), RunError>(RunError::Protocol), Seq::<u8>::empty()),
        ));
    }
}

/// Moves a batch of freshly injected events to the queue's tail, keeping
/// their order.
fn enqueue_all<I>(inj: Vec<I>, q: &mut EventQueue<I>)
    requires
        old(q).wf(),
    ensures
        final(q).wf(),
        final(q).pending() == old(q).pending() + inj@,
        final(q).arrived() == old(q).arrived() + inj@,
{
    let ghost orig = inj@;
    let mut inj = inj;
    let n = inj.len();
    let mut k: usize = 0;
    while k < n
        invariant
            k <= n,
            n == orig.len(),
            inj@ == orig.skip(k as int),
            q.wf(),
            q.pending() == old(q).pending() + orig.take(k as int),
            q.arrived() == old(q).arrived() + orig.take(k as int),
        decreases n - k,
    {
        let y = inj.remove(0);
        proof {
            assert(orig.skip(k as int)[0] == orig[k as int]);
        }
        q.push_back(y);
        proof {
            assert(orig.skip(k as int).skip(1) =~= orig.skip(k as int + 1));
            assert(old(q).pending() + orig.take(k as int) + seq![orig[k as int]] =~= old(q).pending() + orig.take(k as int + 1));
            assert(old(q).arrived() + orig.take(k as int) + seq![orig[k as int]] =~= old(q).arrived() + orig.take(k as int + 1));
        }
        k += 1;
    }
    proof {
        assert(orig.take(n as int) =~= orig);
    }
}

/// Delivers every pending injected event, oldest first, stepping the state
/// machine on each; events injected meanwhile join the tail and are
/// delivered too. Only appends to the output. A state machine that keeps
/// injecting without bound is treated as a failing step once the delivery
/// budget — far beyond any real run — is spent.
fn drain_queue<S, I, N: Node<S, I>>(node: &mut N, q: &mut EventQueue<I>, out: &mut Vec<u8>) -> (r:
    Result<(), RunError>)
    requires
        old(q).wf(),
    ensures
        final(q).wf(),
        final(out)@.len() >= old(out)@.len(),
        final(out)@.subrange(0, old(out)@.len() as int) == old(out)@,
        old(q).pending() == Seq::<I>::empty() ==> *final(q) == *old(q) && *final(node) == *old(node)
            && final(out)@ == old(out)@ && r == Ok::<(), RunError>(()),
{
    let mut budget: usize = usize::MAX;
    loop
        invariant
            q.wf(),
            out@.len() >= old(out)@.len(),
            out@.subrange(0, old(out)@.len() as int) == old(out)@,
            old(q).pending() == Seq::<I>::empty() ==> *q == *old(q) && *node == *old(node) && out@
                == old(out)@,
        decreases budget,
    {
        let x = match q.pop_front() {
            Some(x) => x,
            None => {
                return Ok(());
            },
        };
        if budget == 0 {
            return Err(RunError::Step);
        }
        budget = budget - 1;
        let mut inj: Vec<I> = Vec::new();
        let ghost pre_out = out@;
        match node.step(Event::Injected(x), out, &mut inj) {
            Ok(()) => {},
            Err(_) => {
                return Err(RunError::Step);
            },
        }
        proof {
            assert(out@.subrange(0, pre_out.len() as int) =~= pre_out);
            lemma_prefix_chain(out@, pre_out, old(out)@);
        }
        enqueue_all(inj, q);
    }
}

/// Recomposition: a sequence is its prefix followed by its tail.
proof fn lemma_split(s: Seq<u8>, n: int)
    requires
        0 <= n <= s.len(),
    ensures
        s == s.subrange(0, n) + s.skip(n),
{
    assert(s =~= s.subrange(0, n) + s.skip(n));
}

/// Prefix facts carry over an append: what begins with `mid`, itself
/// beginning with `base`, begins with `base`.
proof fn lemma_prefix_chain(cur: Seq<u8>, mid: Seq<u8>, base: Seq<u8>)
    requires
        base.len() <= mid.len() <= cur.len(),
        cur.subrange(0, mid.len() as int) == mid,
        mid.subrange(0, base.len() as int) == base,
    ensures
        cur.subrange(0, base.len() as int) == base,
{
    assert(cur.subrange(0, base.len() as int) =~= base);
}

/// What begins with `head + line` begins with `head`, and `line` follows.
proof fn lemma_init_prefix(cur: Seq<u8>, head: Seq<u8>, line: Seq<u8>)
    requires
        head.len() + line.len() <= cur.len(),
        cur.subrange(0, head.len() + line.len() as int) == head + line,
    ensures
        cur.subrange(0, head.len() as int) == head,
        cur.subrange(head.len() as int, head.len() + line.len() as int) == line,
{
    let hl = head + line;
    assert forall|d: int| 0 <= d < hl.len() implies cur[d] == hl[d] by {
        assert(cur.subrange(0, head.len() + line.len() as int)[d] == cur[d]);
    }
    assert(cur.subrange(0, head.len() as int) =~= head);
    assert(cur.subrange(head.len() as int, head.len() + line.len() as int) =~= line);
}

/// Runs a node over a whole input: the first line must be the handshake,
/// whose `init_ok` answer is the first output record; every further line
/// is decoded and stepped in arrival order, with pending injected events
/// delivered between lines and after the end of input; any failure stops
/// the run. For a run without injected events the result and every output
/// byte are pinned by `spec_run`.
#[verifier::rlimit(100)]
#[verifier::spinoff_prover]
#[verifier::loop_isolation(false)]
pub fn main_loop<S, I, N: Node<S, I>>(init_state: S, lines: &Vec<Vec<u8>>, out: &mut Vec<u8>) -> (r:
    Result<(), RunError>)
    ensures
        (lines.deep_view().len() == 0 ==> r == Err::<(), RunError>(RunError::Protocol) && final(out)@ == old(out)@),
        (lines.deep_view().len() > 0 && spec_decode(lines.deep_view()[0]) is None ==> r == Err::<
            (),
            RunError,
        >(RunError::Decode) && final(out)@ == old(out)@),
        (lines.deep_view().len() > 0 ==> (spec_decode(lines.deep_view()[0]) matches Some(m) ==> (
        !(m.body.payload is Init) ==> r == Err::<(), RunError>(RunError::Protocol) && final(out)@
            == old(out)@))),
        (spec_handshake(lines.deep_view()) matches Some(m) ==> (N::spec_init(
            init_state,
            init_of(m),
        ) is None ==> r == Err::<(), RunError>(RunError::Init) && final(out)@ == old(out)@)),
        (spec_handshake(lines.deep_view()) matches Some(m) ==> (N::spec_init(
            init_state,
            init_of(m),
        ) is Some ==> final(out)@.len() >= old(out)@.len() + spec_init_line(m).len()
            && final(out)@.subrange(0, old(out)@.len() as int) == old(out)@
            && final(out)@.subrange(
            old(out)@.len() as int,
            old(out)@.len() + spec_init_line(m).len() as int,
        ) == spec_init_line(m))),
        (spec_handshake(lines.deep_view()) matches Some(m) ==> (N::spec_init(
            init_state,
            init_of(m),
        ) matches Some((n0, inj0)) ==> (inj0 == Seq::<I>::empty() ==> (spec_run::<S, I, N>(
            n0,
            lines.deep_view(),
            1,
        ) matches Some((res, outd)) ==> r == res && final(out)@ == old(out)@ + spec_init_line(m)
            + outd)))),
{
    let ghost ls = lines.deep_view();
    let ghost gstate = init_state;
    if lines.len() == 0 {
        return Err(RunError::Protocol);
    }
    proof {
        assert(ls[0] == lines@[0]@);
    }
    let first = &lines[0];
    let (init, reply) = match handle_init_line(first.as_slice()) {
        Ok(p) => p,
        Err(e) => {
            return Err(e);
        },
    };
    let ghost m0 = spec_decode(ls[0]).unwrap();
    proof {
        assert(init@ == init_of(m0));
        assert(spec_handshake(ls) == Some(m0));
    }
    let mut inject: Vec<I> = Vec::new();
    let mut node: N = match N::from_init(init_state, init, &mut inject) {
        Ok(n) => n,
        Err(_) => {
            return Err(RunError::Init);
        },
    };
    reply.send(out);
    let ghost base = old(out)@ + spec_init_line(m0);
    proof {
        assert(out@ =~= base);
    }
    let mut q: EventQueue<I> = EventQueue::new();
    proof {
        if N::spec_init(gstate, init_of(m0)).unwrap().1 == Seq::<I>::empty() {
            assert(inject@ =~= Seq::<I>::empty());
        }
        assert(q.pending() + inject@ =~= inject@);
    }
    enqueue_all(inject, &mut q);
    let ghost gr = spec_run::<S, I, N>(
        N::spec_init(gstate, init_of(m0)).unwrap().0,
        ls,
        1,
    );
    proof {
        if N::spec_init(gstate, init_of(m0)).unwrap().1 == Seq::<I>::empty() && gr is Some {
            assert(q.pending() =~= Seq::<I>::empty());
            assert(out@.skip(base.len() as int) =~= Seq::<u8>::empty());
            assert(Seq::<u8>::empty() + gr.unwrap().1 =~= gr.unwrap().1);
        }
    }
    let mut i: usize = 1;
    while i < lines.len()
        invariant
            1 <= i <= lines@.len(),
            ls == lines.deep_view(),
            ls.len() == lines@.len(),
            q.wf(),
            spec_handshake(ls) == Some(m0),
            base == old(out)@ + spec_init_line(m0),
            out@.len() >= base.len(),
            out@.subrange(0, base.len() as int) == base,
            N::spec_init(gstate, init_of(m0)) matches Some((n00, inj00)),
            gr == spec_run::<S, I, N>(N::spec_init(gstate, init_of(m0)).unwrap().0, ls, 1),
            (N::spec_init(gstate, init_of(m0)).unwrap().1 == Seq::<I>::empty() && gr is Some)
                ==> (q.pending() == Seq::<I>::empty() && (spec_run::<S, I, N>(
                node@,
                ls,
                i as int,
            ) matches Some((res2, outd2)) && gr.unwrap().0 == res2 && gr.unwrap().1 == out@.skip(
                base.len() as int,
            ) + outd2)),
        decreases lines@.len() - i,
    {
        let ghost hyp = N::spec_init(gstate, init_of(m0)).unwrap().1 == Seq::<I>::empty()
            && gr is Some;
        let ghost pre_drain = out@;
        match drain_queue::<S, I, N>(&mut node, &mut q, out) {
            Ok(()) => {},
            Err(e) => {
                proof {
                    lemma_prefix_chain(out@, pre_drain, base);
                    lemma_init_prefix(out@, old(out)@, spec_init_line(m0));
                }
                return Err(e);
            },
        }
        proof {
            lemma_prefix_chain(out@, pre_drain, base);
        }
        proof {
            assert(ls[i as int] == lines@[i as int]@);
        }
        let line = &lines[i];
        let m = match decode(line.as_slice()) {
            Ok(m) => m,
            Err(_) => {
                proof {
                    lemma_init_prefix(out@, old(out)@, spec_init_line(m0));
                    if hyp {
                        lemma_split(out@, base.len() as int);
                        assert(gr.unwrap().1 =~= out@.skip(base.len() as int));
                    }
                }
                return Err(RunError::Decode);
            },
        };
        let is_handshake_payload = match &m.body.payload {
            Payload::Init { .. } => true,
            Payload::InitOk => true,
            _ => false,
        };
        if is_handshake_payload {
            proof {
                lemma_init_prefix(out@, old(out)@, spec_init_line(m0));
                if hyp {
                    lemma_split(out@, base.len() as int);
                    assert(gr.unwrap().1 =~= out@.skip(base.len() as int));
                }
            }
            return Err(RunError::Protocol);
        }
        let mut inj: Vec<I> = Vec::new();
        let ghost pre_step = out@;
        match node.step(Event::Message(m), out, &mut inj) {
            Ok(()) => {},
            Err(_) => {
                proof {
                    assert(out@.subrange(0, pre_step.len() as int) =~= pre_step);
                    lemma_prefix_chain(out@, pre_step, base);
                    lemma_init_prefix(out@, old(out)@, spec_init_line(m0));
                    if hyp {
                        lemma_split(out@, base.len() as int);
                        assert(gr.unwrap().1 =~= out@.skip(base.len() as int));
                    }
                }
                return Err(RunError::Step);
            },
        }
        proof {
            assert(out@.subrange(0, pre_step.len() as int) =~= pre_step);
            lemma_prefix_chain(out@, pre_step, base);
            if hyp {
                assert(out@.skip(base.len() as int) =~= pre_step.skip(base.len() as int)
                    + out@.skip(pre_step.len() as int));
            }
        }
        enqueue_all(inj, &mut q);
        proof {
            if hyp {
                assert(q.pending() =~= Seq::<I>::empty());
            }
        }
        i += 1;
    }
    let ghost hyp = N::spec_init(gstate, init_of(m0)).unwrap().1 == Seq::<I>::empty()
        && gr is Some;
    let ghost pre_out2 = out@;
    match drain_queue::<S, I, N>(&mut node, &mut q, out) {
        Ok(()) => {},
        Err(e) => {
            proof {
                lemma_prefix_chain(out@, pre_out2, base);
                lemma_init_prefix(out@, old(out)@, spec_init_line(m0));
            }
            return Err(e);
        },
    }
    proof {
        lemma_prefix_chain(out@, pre_out2, base);
    }
    let mut inj: Vec<I> = Vec::new();
    let ghost pre_eof = out@;
    match node.step(Event::EOF, out, &mut inj) {
        Ok(()) => {},
        Err(_) => {
            proof {
                assert(out@.subrange(0, pre_eof.len() as int) =~= pre_eof);
                lemma_prefix_chain(out@, pre_eof, base);
                lemma_init_prefix(out@, old(out)@, spec_init_line(m0));
                if hyp {
                    lemma_split(out@, base.len() as int);
                    assert(gr.unwrap().1 =~= out@.skip(base.len() as int));
                }
            }
            return Err(RunError::Step);
        },
    }
    proof {
        assert(out@.subrange(0, pre_eof.len() as int) =~= pre_eof);
        lemma_prefix_chain(out@, pre_eof, base);
        if hyp {
            assert(out@.skip(base.len() as int) =~= pre_eof.skip(base.len() as int)
                + out@.skip(pre_eof.len() as int));
        }
    }
    enqueue_all(inj, &mut q);
    let ghost pre_out3 = out@;
    match drain_queue::<S, I, N>(&mut node, &mut q, out) {
        Ok(()) => {},
        Err(e) => {
            proof {
                lemma_prefix_chain(out@, pre_out3, base);
                lemma_init_prefix(out@, old(out)@, spec_init_line(m0));
            }
            return Err(e);
        },
    }
    proof {
        lemma_prefix_chain(out@, pre_out3, base);
        lemma_init_prefix(out@, old(out)@, spec_init_line(m0));
        if hyp {
            lemma_split(out@, base.len() as int);
            assert(gr.unwrap().1 =~= out@.skip(base.len() as int));
        }
    }
    Ok(())
}

/// Law: the queue never reorders. Whatever stands `d` places into the
/// pending tail is exactly arrival number `delivered + d`, so an event
/// pushed while `k` events were already delivered — for instance one a
/// state machine injects while handling delivery `k` — has arrival index
/// at least `k` and is observed only by a later delivery, never inside the
/// step that pushed it.
pub proof fn lemma_queue_fifo<T>(q: EventQueue<T>, d: int)
    requires
        q.wf(),
        0 <= d < q.pending().len(),
    ensures
        q.pending()[d] == q.arrived()[q.delivered() + d],
        q.delivered() + d >= q.delivered(),
{
    assert(q.arrived().skip(q.delivered())[d] == q.arrived()[q.delivered() + d]);
}

} // verus!
