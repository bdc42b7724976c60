//! The client: request building, the receive loop's decisions, and session
//! state.
//!
//! The client owns the transport state, the session token, and the request
//! id counter.  It builds each outgoing request as encoded bytes, and it
//! decides, one observed event at a time, how an awaited response advances:
//! bytes feed the accumulator and complete fragments are applied to the
//! pending request; a deadline that elapsed is a `Timeout` with all buffered
//! bytes kept; an EOF or read failure closes the connection for good.  The
//! caller performs the socket work between events.
use vstd::prelude::*;

use crate::NreplError;
use crate::codec::GValue;
use crate::codec::GPairs;
use crate::codec::Message;
use crate::codec::SpecParsed;
use crate::codec::Value;
use crate::codec::dv_message;
use crate::codec::encode_message;
use crate::codec::enc_message;
use crate::codec::push_bytes;
use crate::codec::sdec_message;
use crate::correlate::GPending;
use crate::correlate::Pending;
use crate::correlate::apply_fragment;
use crate::correlate::fresh_pending;
use crate::correlate::dv_pending;
use crate::correlate::gapply;
use crate::correlate::k_id;
use crate::correlate::k_new_session;
use crate::correlate::msg_get;
use crate::correlate::msg_text;
use crate::correlate::wf_pending;
use crate::transport::Transport;

verus! {

broadcast use vstd::std_specs::vec::group_vec_axioms;

/// The `op` key.
pub open spec fn k_op() -> Seq<u8> {
    seq![111u8, 112u8]
}

/// The `session` key.
pub open spec fn k_session() -> Seq<u8> {
    seq![115u8, 101u8, 115u8, 115u8, 105u8, 111u8, 110u8]
}

/// The `code` key.
pub open spec fn k_code() -> Seq<u8> {
    seq![99u8, 111u8, 100u8, 101u8]
}

/// The `interrupt-id` key.
pub open spec fn k_interrupt_id() -> Seq<u8> {
    seq![105u8, 110u8, 116u8, 101u8, 114u8, 114u8, 117u8, 112u8, 116u8, 45u8, 105u8, 100u8]
}

/// The `eval` operation name.
pub open spec fn op_eval() -> Seq<u8> {
    seq![101u8, 118u8, 97u8, 108u8]
}

/// The `interrupt` operation name.
pub open spec fn op_interrupt() -> Seq<u8> {
    seq![105u8, 110u8, 116u8, 101u8, 114u8, 114u8, 117u8, 112u8, 116u8]
}

/// The `describe` operation name.
pub open spec fn op_describe() -> Seq<u8> {
    seq![100u8, 101u8, 115u8, 99u8, 114u8, 105u8, 98u8, 101u8]
}

/// The `clone` operation name.
pub open spec fn op_clone() -> Seq<u8> {
    seq![99u8, 108u8, 111u8, 110u8, 101u8]
}

/// Model of the held session token.
pub open spec fn dv_session(s: Option<Vec<u8>>) -> Option<Seq<u8>> {
    match s {
        Some(v) => Some(v@),
        None => None,
    }
}

/// The `session` pair of a request: present exactly while a token is held.
pub open spec fn session_pairs(session: Option<Seq<u8>>) -> GPairs {
    match session {
        Some(t) => seq![(k_session(), GValue::Text(t))],
        None => Seq::empty(),
    }
}

/// The `eval` request: `op`, `id`, the session if one is held, the code.
pub open spec fn g_eval_msg(id: int, session: Option<Seq<u8>>, code: Seq<u8>) -> GPairs {
    seq![(k_op(), GValue::Text(op_eval())), (k_id(), GValue::Int(id))] + session_pairs(session)
        + seq![(k_code(), GValue::Text(code))]
}

/// The `interrupt` request: `op`, `id`, the session if one is held, and the
/// id of the evaluation to interrupt.
pub open spec fn g_interrupt_msg(id: int, session: Option<Seq<u8>>, iid: int) -> GPairs {
    seq![(k_op(), GValue::Text(op_interrupt())), (k_id(), GValue::Int(id))] + session_pairs(
        session,
    ) + seq![(k_interrupt_id(), GValue::Int(iid))]
}

/// The `describe` request: `op` and `id` alone.
pub open spec fn g_describe_msg(id: int) -> GPairs {
    seq![(k_op(), GValue::Text(op_describe())), (k_id(), GValue::Int(id))]
}

/// The `clone` request: `op`, `id`, and the session if one is held.
pub open spec fn g_clone_msg(id: int, session: Option<Seq<u8>>) -> GPairs {
    seq![(k_op(), GValue::Text(op_clone())), (k_id(), GValue::Int(id))] + session_pairs(session)
}

/// Session propagation law: once a token is held, every request the client
/// builds that belongs to a session carries it under its `session` key.
pub proof fn lemma_session_propagation(id: int, tok: Seq<u8>, code: Seq<u8>, iid: int)
    ensures
        msg_get(g_eval_msg(id, Some(tok), code), k_session()) == Some(GValue::Text(tok)),
        msg_get(g_interrupt_msg(id, Some(tok), iid), k_session()) == Some(GValue::Text(tok)),
        msg_get(g_clone_msg(id, Some(tok)), k_session()) == Some(GValue::Text(tok)),
{
    assert(k_op().len() == 2 && k_id().len() == 2 && k_session().len() == 7);
    assert(k_op() != k_session() && k_id() != k_session());
    let e = g_eval_msg(id, Some(tok), code);
    assert(e.len() == 4 && e[0].0 == k_op() && e[1].0 == k_id());
    assert(e.skip(1) =~= seq![e[1], e[2], e[3]]);
    assert(e.skip(1).skip(1) =~= seq![e[2], e[3]]);
    assert(e[2] == (k_session(), GValue::Text(tok)));
    assert(msg_get(e, k_session()) == msg_get(e.skip(1), k_session()));
    assert(msg_get(e.skip(1), k_session()) == msg_get(seq![e[2], e[3]], k_session()));
    assert(msg_get(seq![e[2], e[3]], k_session()) == Some(GValue::Text(tok)));
    let i = g_interrupt_msg(id, Some(tok), iid);
    assert(i.len() == 4 && i[0].0 == k_op() && i[1].0 == k_id());
    assert(i.skip(1) =~= seq![i[1], i[2], i[3]]);
    assert(i.skip(1).skip(1) =~= seq![i[2], i[3]]);
    assert(i[2] == (k_session(), GValue::Text(tok)));
    assert(msg_get(i, k_session()) == msg_get(i.skip(1), k_session()));
    assert(msg_get(i.skip(1), k_session()) == msg_get(seq![i[2], i[3]], k_session()));
    assert(msg_get(seq![i[2], i[3]], k_session()) == Some(GValue::Text(tok)));
    let c = g_clone_msg(id, Some(tok));
    assert(c.len() == 3 && c[0].0 == k_op() && c[1].0 == k_id());
    assert(c.skip(1) =~= seq![c[1], c[2]]);
    assert(c.skip(1).skip(1) =~= seq![c[2]]);
    assert(c[2] == (k_session(), GValue::Text(tok)));
    assert(msg_get(c, k_session()) == msg_get(c.skip(1), k_session()));
    assert(msg_get(c.skip(1), k_session()) == msg_get(seq![c[2]], k_session()));
    assert(msg_get(seq![c[2]], k_session()) == Some(GValue::Text(tok)));
}

/// One observation the I/O driver makes on the socket while a response is
/// awaited.
pub enum NetEvent {
    /// Bytes arrived.
    Bytes(Vec<u8>),
    /// The caller's whole deadline elapsed with no terminal response.
    TimedOut,
    /// The peer closed the stream: a read returned zero bytes.
    Eof,
    /// Some other read failure.
    ReadFailed,
}

/// What the client decided after one observation.
#[derive(PartialEq, Eq, Structural, Clone, Copy, Debug)]
pub enum Step {
    /// Nothing terminal yet: keep reading within the remaining deadline.
    Continue,
    /// The awaited request reached its terminal status.
    Terminal,
    /// The awaited exchange failed with this error.
    Fail(NreplError),
}

/// How buffered bytes advance a pending request: each complete leading
/// message is taken off the accumulator and applied, until the pending
/// request is terminal, the bytes left are a truncated message, or the bytes
/// are malformed.
pub enum DrainOut {
    Waiting(GPending, Seq<u8>),
    Finished(GPending, Seq<u8>),
    Broken,
}

/// The drain relation itself.
pub open spec fn gdrain(acc: Seq<u8>, p: GPending) -> DrainOut
    decreases acc.len(),
{
    match sdec_message(acc) {
        SpecParsed::More => DrainOut::Waiting(p, acc),
        SpecParsed::Bad => DrainOut::Broken,
        SpecParsed::Found(gm, n) => if 1 <= n <= acc.len() {
            let p2 = gapply(p, gm);
            if p2.done {
                DrainOut::Finished(p2, acc.skip(n))
            } else {
                gdrain(acc.skip(n), p2)
            }
        } else {
            DrainOut::Broken
        },
    }
}

/// One protocol connection: transport state, session token, id counter, and
/// the configured deadlines, in milliseconds, that the I/O driver applies to
/// socket reads and writes.
pub struct Client {
    pub transport: Transport,
    pub session: Option<Vec<u8>>,
    pub next_id: u64,
    pub last_eval_id: Option<u64>,
    pub read_timeout_ms: u64,
    pub write_timeout_ms: u64,
}

fn kb_op() -> (r: Vec<u8>)
    ensures
        r@ == k_op(),
{
    let a: [u8; 2] = [111u8, 112u8];
    let v = vstd::slice::slice_to_vec(a.as_slice());
    proof {
        assert(v@ =~= k_op());
    }
    v
}

fn kb_id() -> (r: Vec<u8>)
    ensures
        r@ == k_id(),
{
    let a: [u8; 2] = [105u8, 100u8];
    let v = vstd::slice::slice_to_vec(a.as_slice());
    proof {
        assert(v@ =~= k_id());
    }
    v
}

fn kb_session() -> (r: Vec<u8>)
    ensures
        r@ == k_session(),
{
    let a: [u8; 7] = [115u8, 101u8, 115u8, 115u8, 105u8, 111u8, 110u8];
    let v = vstd::slice::slice_to_vec(a.as_slice());
    proof {
        assert(v@ =~= k_session());
    }
    v
}

fn kb_code() -> (r: Vec<u8>)
    ensures
        r@ == k_code(),
{
    let a: [u8; 4] = [99u8, 111u8, 100u8, 101u8];
    let v = vstd::slice::slice_to_vec(a.as_slice());
    proof {
        assert(v@ =~= k_code());
    }
    v
}

fn kb_interrupt_id() -> (r: Vec<u8>)
    ensures
        r@ == k_interrupt_id(),
{
    let a: [u8; 12] = [
        105u8,
        110u8,
        116u8,
        101u8,
        114u8,
        114u8,
        117u8,
        112u8,
        116u8,
        45u8,
        105u8,
        100u8,
    ];
    let v = vstd::slice::slice_to_vec(a.as_slice());
    proof {
        assert(v@ =~= k_interrupt_id());
    }
    v
}

fn vb_eval() -> (r: Vec<u8>)
    ensures
        r@ == op_eval(),
{
    let a: [u8; 4] = [101u8, 118u8, 97u8, 108u8];
    let v = vstd::slice::slice_to_vec(a.as_slice());
    proof {
        assert(v@ =~= op_eval());
    }
    v
}

fn vb_interrupt() -> (r: Vec<u8>)
    ensures
        r@ == op_interrupt(),
{
    let a: [u8; 9] = [105u8, 110u8, 116u8, 101u8, 114u8, 114u8, 117u8, 112u8, 116u8];
    let v = vstd::slice::slice_to_vec(a.as_slice());
    proof {
        assert(v@ =~= op_interrupt());
    }
    v
}

fn vb_describe() -> (r: Vec<u8>)
    ensures
        r@ == op_describe(),
{
    let a: [u8; 8] = [100u8, 101u8, 115u8, 99u8, 114u8, 105u8, 98u8, 101u8];
    let v = vstd::slice::slice_to_vec(a.as_slice());
    proof {
        assert(v@ =~= op_describe());
    }
    v
}

fn vb_clone() -> (r: Vec<u8>)
    ensures
        r@ == op_clone(),
{
    let a: [u8; 5] = [99u8, 108u8, 111u8, 110u8, 101u8];
    let v = vstd::slice::slice_to_vec(a.as_slice());
    proof {
        assert(v@ =~= op_clone());
    }
    v
}

/// Copies a byte string.
fn copy_bytes(src: &[u8]) -> (r: Vec<u8>)
    ensures
        r@ == src@,
{
    let mut v: Vec<u8> = Vec::new();
    push_bytes(src, &mut v);
    v
}

/// A fresh `Pending` awaiting responses to request `id`.
fn new_pending(id: u64) -> (p: Pending)
    ensures
        dv_pending(p) == fresh_pending(id as int),
        wf_pending(p),
        p.id == id,
{
    let p = Pending {
        id,
        output: Vec::new(),
        value: None,
        has_error: false,
        error: Vec::new(),
        done: false,
        terminal: None,
    };
    proof {
        assert(dv_pending(p) =~= fresh_pending(id as int));
    }
    p
}

impl Client {
    /// A fresh, connected client over an open stream: no session, no
    /// buffered bytes, ids starting at one, both deadlines at ten seconds.
    pub fn new() -> (c: Client)
        ensures
            c.transport.acc@ == Seq::<u8>::empty(),
            !c.transport.closed,
            c.session is None,
            c.next_id == 1,
            c.last_eval_id is None,
            c.read_timeout_ms == 10000,
            c.write_timeout_ms == 10000,
    {
        Client {
            transport: Transport::new(),
            session: None,
            next_id: 1,
            last_eval_id: None,
            read_timeout_ms: 10000,
            write_timeout_ms: 10000,
        }
    }

    /// Whether the connection is still usable: false from the first observed
    /// EOF or fatal failure on.
    pub fn is_connected(&self) -> (r: bool)
        ensures
            r == !self.transport.closed,
    {
        self.transport.is_connected()
    }

    /// Sets the read and write deadlines, in milliseconds, that the I/O
    /// driver applies to the socket.
    pub fn set_timeouts(&mut self, read_ms: u64, write_ms: u64)
        ensures
            final(self).read_timeout_ms == read_ms,
            final(self).write_timeout_ms == write_ms,
            final(self).transport == old(self).transport,
            final(self).session == old(self).session,
            final(self).next_id == old(self).next_id,
            final(self).last_eval_id == old(self).last_eval_id,
    {
        self.read_timeout_ms = read_ms;
        self.write_timeout_ms = write_ms;
    }

    /// Builds the next `eval` request: a fresh `id`, the held session token
    /// if there is one, and the code to evaluate.  Returns the encoded bytes
    /// to send and the pending state that will accumulate the response
    /// fragments.  On a closed connection nothing is built, nothing changes,
    /// and no I/O is to be attempted.
    pub fn begin_eval(&mut self, code: &[u8]) -> (r: Result<(Vec<u8>, Pending), NreplError>)
        requires
            old(self).next_id < 0x7fffffffffffffff,
        ensures
            old(self).transport.closed ==> (r matches Err(e) && e == NreplError::ConnectionClosed
                && *final(self) == *old(self)),
            !old(self).transport.closed ==> ({
                &&& r matches Ok(bp) && bp.0@ == enc_message(
                    g_eval_msg(
                        old(self).next_id as int,
                        dv_session(old(self).session),
                        code@,
                    ),
                ) && dv_pending(bp.1) == fresh_pending(old(self).next_id as int) && wf_pending(
                    bp.1,
                )
                &&& final(self).next_id == old(self).next_id + 1
                &&& final(self).last_eval_id == Some(old(self).next_id)
                &&& final(self).session == old(self).session
                &&& final(self).transport == old(self).transport
                &&& final(self).read_timeout_ms == old(self).read_timeout_ms
                &&& final(self).write_timeout_ms == old(self).write_timeout_ms
            }),
    {
        if self.transport.closed {
            return Err(NreplError::ConnectionClosed);
        }
        let id = self.next_id;
        self.next_id = id + 1;
        self.last_eval_id = Some(id);
        let mut pairs: Vec<(Vec<u8>, Value)> = Vec::new();
        pairs.push((kb_op(), Value::Text(vb_eval())));
        pairs.push((kb_id(), Value::Int(id as i64)));
        match &self.session {
            Some(tok) => {
                pairs.push((kb_session(), Value::Text(copy_bytes(tok.as_slice()))));
            },
            None => {},
        }
        pairs.push((kb_code(), Value::Text(copy_bytes(code))));
        let msg = Message { pairs };
        proof {
            crate::codec::lemma_dv_pairs_all(msg.pairs@);
            assert(dv_message(msg) =~= g_eval_msg(
                id as int,
                dv_session(self.session),
                code@,
            ));
        }
        let bytes = encode_message(&msg);
        Ok((bytes, new_pending(id)))
    }

    /// Builds an `interrupt` request against the last evaluation's `id`,
    /// under a fresh `id` of its own.  The abandoned pending state is not
    /// touched: interrupting is best-effort.
    pub fn begin_interrupt(&mut self) -> (r: Result<(Vec<u8>, Pending), NreplError>)
        requires
            old(self).next_id < 0x7fffffffffffffff,
            old(self).last_eval_id is Some,
            old(self).last_eval_id matches Some(x) && x <= 0x7fffffffffffffff,
        ensures
            old(self).transport.closed ==> (r matches Err(e) && e == NreplError::ConnectionClosed
                && *final(self) == *old(self)),
            !old(self).transport.closed ==> ({
                &&& r matches Ok(bp) && bp.0@ == enc_message(
                    g_interrupt_msg(
                        old(self).next_id as int,
                        dv_session(old(self).session),
                        old(self).last_eval_id.unwrap() as int,
                    ),
                ) && dv_pending(bp.1) == fresh_pending(old(self).next_id as int) && wf_pending(
                    bp.1,
                )
                &&& final(self).next_id == old(self).next_id + 1
                &&& final(self).last_eval_id == old(self).last_eval_id
                &&& final(self).session == old(self).session
                &&& final(self).transport == old(self).transport
                &&& final(self).read_timeout_ms == old(self).read_timeout_ms
                &&& final(self).write_timeout_ms == old(self).write_timeout_ms
            }),
    {
        if self.transport.closed {
            return Err(NreplError::ConnectionClosed);
        }
        let id = self.next_id;
        self.next_id = id + 1;
        let last = match self.last_eval_id {
            Some(x) => x,
            None => vstd::pervasive::unreached(),
        };
        let mut pairs: Vec<(Vec<u8>, Value)> = Vec::new();
        pairs.push((kb_op(), Value::Text(vb_interrupt())));
        pairs.push((kb_id(), Value::Int(id as i64)));
        match &self.session {
            Some(tok) => {
                pairs.push((kb_session(), Value::Text(copy_bytes(tok.as_slice()))));
            },
            None => {},
        }
        pairs.push((kb_interrupt_id(), Value::Int(last as i64)));
        let msg = Message { pairs };
        proof {
            crate::codec::lemma_dv_pairs_all(msg.pairs@);
            assert(dv_message(msg) =~= g_interrupt_msg(
                id as int,
                dv_session(self.session),
                last as int,
            ));
        }
        let bytes = encode_message(&msg);
        Ok((bytes, new_pending(id)))
    }

    /// Builds a `describe` request: capability discovery under a fresh `id`,
    /// with no session attached.
    pub fn begin_describe(&mut self) -> (r: Result<(Vec<u8>, Pending), NreplError>)
        requires
            old(self).next_id < 0x7fffffffffffffff,
        ensures
            old(self).transport.closed ==> (r matches Err(e) && e == NreplError::ConnectionClosed
                && *final(self) == *old(self)),
            !old(self).transport.closed ==> ({
                &&& r matches Ok(bp) && bp.0@ == enc_message(
                    g_describe_msg(old(self).next_id as int),
                ) && dv_pending(bp.1) == fresh_pending(old(self).next_id as int) && wf_pending(
                    bp.1,
                )
                &&& final(self).next_id == old(self).next_id + 1
                &&& final(self).last_eval_id == old(self).last_eval_id
                &&& final(self).session == old(self).session
                &&& final(self).transport == old(self).transport
                &&& final(self).read_timeout_ms == old(self).read_timeout_ms
                &&& final(self).write_timeout_ms == old(self).write_timeout_ms
            }),
    {
        if self.transport.closed {
            return Err(NreplError::ConnectionClosed);
        }
        let id = self.next_id;
        self.next_id = id + 1;
        let mut pairs: Vec<(Vec<u8>, Value)> = Vec::new();
        pairs.push((kb_op(), Value::Text(vb_describe())));
        pairs.push((kb_id(), Value::Int(id as i64)));
        let msg = Message { pairs };
        proof {
            crate::codec::lemma_dv_pairs_all(msg.pairs@);
            assert(dv_message(msg) =~= g_describe_msg(id as int));
        }
        let bytes = encode_message(&msg);
        Ok((bytes, new_pending(id)))
    }

    /// Builds a `clone` request: a new session derived from the held one, or
    /// from the connection's implicit session when none is held yet.
    pub fn begin_clone(&mut self) -> (r: Result<(Vec<u8>, Pending), NreplError>)
        requires
            old(self).next_id < 0x7fffffffffffffff,
        ensures
            old(self).transport.closed ==> (r matches Err(e) && e == NreplError::ConnectionClosed
                && *final(self) == *old(self)),
            !old(self).transport.closed ==> ({
                &&& r matches Ok(bp) && bp.0@ == enc_message(
                    g_clone_msg(old(self).next_id as int, dv_session(old(self).session)),
                ) && dv_pending(bp.1) == fresh_pending(old(self).next_id as int) && wf_pending(
                    bp.1,
                )
                &&& final(self).next_id == old(self).next_id + 1
                &&& final(self).last_eval_id == old(self).last_eval_id
                &&& final(self).session == old(self).session
                &&& final(self).transport == old(self).transport
                &&& final(self).read_timeout_ms == old(self).read_timeout_ms
                &&& final(self).write_timeout_ms == old(self).write_timeout_ms
            }),
    {
        if self.transport.closed {
            return Err(NreplError::ConnectionClosed);
        }
        let id = self.next_id;
        self.next_id = id + 1;
        let mut pairs: Vec<(Vec<u8>, Value)> = Vec::new();
        pairs.push((kb_op(), Value::Text(vb_clone())));
        pairs.push((kb_id(), Value::Int(id as i64)));
        match &self.session {
            Some(tok) => {
                pairs.push((kb_session(), Value::Text(copy_bytes(tok.as_slice()))));
            },
            None => {},
        }
        let msg = Message { pairs };
        proof {
            crate::codec::lemma_dv_pairs_all(msg.pairs@);
            assert(dv_message(msg) =~= g_clone_msg(id as int, dv_session(self.session)));
        }
        let bytes = encode_message(&msg);
        Ok((bytes, new_pending(id)))
    }

    /// Advances an awaited response by one observed event.
    ///
    /// On a closed connection every event fails with `ConnectionClosed` at
    /// once, with no I/O and no state change.  A deadline that elapsed is a
    /// `Timeout` that changes nothing: the accumulator keeps every buffered
    /// byte, and the pending request is simply no longer awaited.  An EOF or
    /// read failure closes the connection for good.  Arrived bytes are fed
    /// to the accumulator and every complete message in it is applied to the
    /// pending request, exactly as the drain relation `gdrain` says, until
    /// it is terminal or the bytes run out; malformed bytes are a fatal
    /// protocol error.
    #[verifier::loop_isolation(false)]
    pub fn pump(&mut self, p: &mut Pending, ev: NetEvent) -> (r: Step)
        requires
            !old(p).done,
            wf_pending(*old(p)),
        ensures
            final(self).session == old(self).session,
            final(self).next_id == old(self).next_id,
            final(self).last_eval_id == old(self).last_eval_id,
            final(self).read_timeout_ms == old(self).read_timeout_ms,
            final(self).write_timeout_ms == old(self).write_timeout_ms,
            final(p).id == old(p).id,
            wf_pending(*final(p)),
            old(self).transport.closed ==> r == Step::Fail(NreplError::ConnectionClosed) && *final(self) == *old(self) && *final(p) == *old(p),
            !old(self).transport.closed ==> (match ev {
                NetEvent::TimedOut => r == Step::Fail(NreplError::Timeout) && *final(self) == *old(self) && *final(p) == *old(p),
                NetEvent::Eof => r == Step::Fail(NreplError::ConnectionClosed) && final(self).transport.closed && final(self).transport.acc@ == old(self).transport.acc@
                    && *final(p) == *old(p),
                NetEvent::ReadFailed => r == Step::Fail(NreplError::IoError) && final(self).transport.closed && final(self).transport.acc@ == old(self).transport.acc@
                    && *final(p) == *old(p),
                NetEvent::Bytes(b) => (match gdrain(
                    old(self).transport.acc@ + b@,
                    dv_pending(*old(p)),
                ) {
                    DrainOut::Waiting(p2, acc2) => {
                        &&& r == Step::Continue
                        &&& dv_pending(*final(p)) == p2
                        &&& !final(p).done
                        &&& final(self).transport.acc@ == acc2
                        &&& !final(self).transport.closed
                    },
                    DrainOut::Finished(p2, acc2) => {
                        &&& r == Step::Terminal
                        &&& dv_pending(*final(p)) == p2
                        &&& final(p).done
                        &&& final(self).transport.acc@ == acc2
                        &&& !final(self).transport.closed
                    },
                    DrainOut::Broken => r == Step::Fail(NreplError::ProtocolError) && final(self).transport.closed,
                }),
            }),
    {
        if self.transport.closed {
            return Step::Fail(NreplError::ConnectionClosed);
        }
        match ev {
            NetEvent::TimedOut => Step::Fail(NreplError::Timeout),
            NetEvent::Eof => {
                self.transport.mark_closed();
                Step::Fail(NreplError::ConnectionClosed)
            },
            NetEvent::ReadFailed => {
                self.transport.mark_closed();
                Step::Fail(NreplError::IoError)
            },
            NetEvent::Bytes(b) => {
                self.transport.feed(b.as_slice());
                loop
                    invariant
                        !p.done,
                        wf_pending(*p),
                        p.id == old(p).id,
                        !self.transport.closed,
                        self.session == old(self).session,
                        self.next_id == old(self).next_id,
                        self.last_eval_id == old(self).last_eval_id,
                        self.read_timeout_ms == old(self).read_timeout_ms,
                        self.write_timeout_ms == old(self).write_timeout_ms,
                        gdrain(self.transport.acc@, dv_pending(*p)) == gdrain(
                            old(self).transport.acc@ + b@,
                            dv_pending(*old(p)),
                        ),
                    decreases self.transport.acc@.len(),
                {
                    match self.transport.try_next_message() {
                        Ok(None) => {
                            return Step::Continue;
                        },
                        Err(e) => {
                            return Step::Fail(e);
                        },
                        Ok(Some(m)) => {
                            apply_fragment(p, m);
                            if p.done {
                                return Step::Terminal;
                            }
                        },
                    }
                }
            },
        }
    }

    /// Reads the terminal response of a `clone` exchange: extracts the
    /// `new-session` token, stores it as the active session, and returns it.
    /// A terminal response without a textual `new-session` is a protocol
    /// error, fatal to the connection, and the held session stays as it was.
    pub fn finish_clone(&mut self, p: &Pending) -> (r: Result<Vec<u8>, NreplError>)
        requires
            p.done,
            p.terminal is Some,
        ensures
            final(self).next_id == old(self).next_id,
            final(self).last_eval_id == old(self).last_eval_id,
            final(self).read_timeout_ms == old(self).read_timeout_ms,
            final(self).write_timeout_ms == old(self).write_timeout_ms,
            final(self).transport.acc@ == old(self).transport.acc@,
            p.terminal matches Some(t) ==> (match msg_text(dv_message(t), k_new_session()) {
                Some(tok) => {
                    &&& r matches Ok(v) && v@ == tok
                    &&& dv_session(final(self).session) == Some(tok)
                    &&& final(self).transport == old(self).transport
                },
                None => {
                    &&& r matches Err(e) && e == NreplError::ProtocolError
                    &&& final(self).session == old(self).session
                    &&& final(self).transport.closed
                },
            }),
    {
        let t = match &p.terminal {
            Some(t) => t,
            None => vstd::pervasive::unreached(),
        };
        let key_new_session: [u8; 11] = [
            110u8,
            101u8,
            119u8,
            45u8,
            115u8,
            101u8,
            115u8,
            115u8,
            105u8,
            111u8,
            110u8,
        ];
        proof {
            assert(key_new_session@ =~= k_new_session());
        }
        match crate::correlate::msg_find_idx(t, key_new_session.as_slice()) {
            Some(j) => {
                match &t.pairs[j].1 {
                    Value::Text(tok) => {
                        let ret = copy_bytes(tok.as_slice());
                        self.session = Some(copy_bytes(tok.as_slice()));
                        Ok(ret)
                    },
                    _ => {
                        self.transport.mark_closed();
                        Err(NreplError::ProtocolError)
                    },
                }
            },
            None => {
                self.transport.mark_closed();
                Err(NreplError::ProtocolError)
            },
        }
    }

    /// Hands the caller the full terminal response of a `describe`
    /// exchange; callers inspect its `ops` field for the peer's supported
    /// operations.
    pub fn finish_describe(&self, p: Pending) -> (r: Message)
        requires
            p.done,
            p.terminal is Some,
        ensures
            p.terminal matches Some(t) ==> r == t,
    {
        match p.terminal {
            Some(t) => t,
            None => vstd::pervasive::unreached(),
        }
    }

    /// Records that a send failed fatally: a partial write leaves the peer
    /// with a truncated message, so the connection is closed for good.
    pub fn note_send_failed(&mut self)
        ensures
            final(self).transport.closed,
            final(self).transport.acc@ == old(self).transport.acc@,
            final(self).session == old(self).session,
            final(self).next_id == old(self).next_id,
            final(self).last_eval_id == old(self).last_eval_id,
            final(self).read_timeout_ms == old(self).read_timeout_ms,
            final(self).write_timeout_ms == old(self).write_timeout_ms,
    {
        self.transport.mark_closed();
    }
}

} // verus!
