//! The read-side transport state.
//!
//! The transport owns the byte accumulator that sits between the socket and
//! the codec.  Bytes read from the stream are fed in; complete messages are
//! taken out; bytes of a not-yet-complete message stay put, so a timed-out
//! read never loses or corrupts partially received input.  A closed flag
//! records an observed EOF or fatal failure, permanently.
use vstd::prelude::*;

use crate::codec::Message;
use crate::codec::Parsed;
use crate::codec::SpecParsed;
use crate::codec::decode_message;
use crate::codec::dv_message;
use crate::codec::lemma_sdec_message_bounds;
use crate::codec::sdec_message;
use crate::NreplError;

verus! {

broadcast use vstd::std_specs::vec::group_vec_axioms;

/// Incremental framing law.  Deliver one encoded message, followed by
/// whatever later bytes, cut into arbitrary chunks: after any number of
/// whole chunks short of the full encoding the accumulator holds a
/// truncated message and only asks for more bytes — nothing is lost,
/// nothing is misread — and once the chunks cover the encoding, decoding
/// yields exactly the original message, consuming exactly its encoding.
pub proof fn lemma_incremental_framing(m: crate::codec::GPairs, chunks: Seq<Seq<u8>>, rest: Seq<
    u8,
>)
    requires
        crate::codec::wf_gpairs(m, 0),
        chunks.flatten() == crate::codec::enc_message(m) + rest,
    ensures
        sdec_message(chunks.flatten()) == SpecParsed::Found(
            m,
            crate::codec::enc_message(m).len() as int,
        ),
        forall|k: int|
            0 <= k <= chunks.len() && (#[trigger] chunks.take(k).flatten()).len()
                < crate::codec::enc_message(m).len() ==> sdec_message(chunks.take(k).flatten())
                is More,
{
    crate::codec::lemma_codec_round_trip(m, rest);
    assert forall|k: int|
        0 <= k <= chunks.len() && (#[trigger] chunks.take(k).flatten()).len()
            < crate::codec::enc_message(m).len() implies sdec_message(chunks.take(k).flatten())
        is More by {
        let head = chunks.take(k);
        let tail = chunks.skip(k);
        assert(head + tail =~= chunks);
        vstd::seq_lib::lemma_flatten_concat(head, tail);
        assert(head.flatten() + tail.flatten() == chunks.flatten());
        let hl = head.flatten().len() as int;
        assert(head.flatten() =~= chunks.flatten().take(hl));
        assert(chunks.flatten().take(hl) =~= crate::codec::enc_message(m).take(hl));
        crate::codec::lemma_prefix_message(m, hl);
    }
}

/// Accumulator durability law.  When the accumulator holds only part of an
/// encoded message as a read times out, taking the next message is merely a
/// request for more bytes — and `try_next_message` then leaves the
/// accumulator byte for byte as it was — so a later call that delivers the
/// remaining bytes still decodes the full original message.  A timeout never
/// truncates or discards buffered partial input.
pub proof fn lemma_accumulator_durability(m: crate::codec::GPairs, j: int, rest: Seq<u8>)
    requires
        crate::codec::wf_gpairs(m, 0),
        0 <= j < crate::codec::enc_message(m).len(),
    ensures
        sdec_message(crate::codec::enc_message(m).take(j)) is More,
        sdec_message(
            crate::codec::enc_message(m).take(j) + (crate::codec::enc_message(m).skip(j) + rest),
        ) == SpecParsed::Found(m, crate::codec::enc_message(m).len() as int),
{
    crate::codec::lemma_prefix_message(m, j);
    assert(crate::codec::enc_message(m).take(j) + (crate::codec::enc_message(m).skip(j) + rest)
        =~= crate::codec::enc_message(m) + rest);
    crate::codec::lemma_codec_round_trip(m, rest);
}

/// The connection-local read state: buffered bytes not yet forming a
/// complete message, and whether the stream was seen to fail or close.
pub struct Transport {
    pub acc: Vec<u8>,
    pub closed: bool,
}

/// Removes the first `n` bytes of `v`.
fn drop_prefix(v: &mut Vec<u8>, n: usize)
    requires
        n <= old(v)@.len(),
    ensures
        final(v)@ == old(v)@.skip(n as int),
{
    let mut nv: Vec<u8> = Vec::new();
    let mut x: usize = n;
    while x < v.len()
        invariant
            n <= x <= v@.len(),
            v@ == old(v)@,
            nv@ == v@.subrange(n as int, x as int),
        decreases v@.len() - x,
    {
        nv.push(v[x]);
        assert(nv@ =~= v@.subrange(n as int, x as int + 1));
        x = x + 1;
    }
    assert(nv@ =~= old(v)@.skip(n as int));
    *v = nv;
}

impl Transport {
    /// A fresh transport: empty accumulator, stream not yet seen to fail.
    pub fn new() -> (t: Transport)
        ensures
            t.acc@ == Seq::<u8>::empty(),
            !t.closed,
    {
        Transport { acc: Vec::new(), closed: false }
    }

    /// Whether the stream is still usable: a local cache of errors already
    /// observed, not a probe of the peer.
    pub fn is_connected(&self) -> (r: bool)
        ensures
            r == !self.closed,
    {
        !self.closed
    }

    /// Appends bytes read from the stream to the accumulator.
    pub fn feed(&mut self, chunk: &[u8])
        ensures
            final(self).acc@ == old(self).acc@ + chunk@,
            final(self).closed == old(self).closed,
    {
        let mut x: usize = 0;
        while x < chunk.len()
            invariant
                x <= chunk@.len(),
                self.acc@ == old(self).acc@ + chunk@.take(x as int),
                self.closed == old(self).closed,
            decreases chunk@.len() - x,
        {
            self.acc.push(chunk[x]);
            assert(self.acc@ =~= old(self).acc@ + chunk@.take(x as int + 1));
            x = x + 1;
        }
        assert(chunk@.take(chunk@.len() as int) =~= chunk@);
    }

    /// Records that the peer closed the stream or that an I/O operation
    /// failed fatally.  The accumulator is kept as it is.
    pub fn mark_closed(&mut self)
        ensures
            final(self).acc@ == old(self).acc@,
            final(self).closed,
    {
        self.closed = true;
    }

    /// Takes the next complete message out of the accumulator, if one is
    /// there.  A complete leading message is decoded and its bytes removed; a
    /// truncated one is left untouched, byte for byte, for the next attempt;
    /// malformed bytes are a fatal protocol error that closes the connection,
    /// since no reliable framing point remains.
    pub fn try_next_message(&mut self) -> (r: Result<Option<Message>, NreplError>)
        ensures
            (match sdec_message(old(self).acc@) {
                SpecParsed::Found(gm, n) => {
                    &&& r matches Ok(Some(m)) && dv_message(m) == gm
                    &&& final(self).acc@ == old(self).acc@.skip(n)
                    &&& final(self).closed == old(self).closed
                    &&& 1 <= n <= old(self).acc@.len()
                },
                SpecParsed::More => {
                    &&& r matches Ok(o) && o is None
                    &&& final(self).acc@ == old(self).acc@
                    &&& final(self).closed == old(self).closed
                },
                SpecParsed::Bad => {
                    &&& r matches Err(e) && e == NreplError::ProtocolError
                    &&& final(self).acc@ == old(self).acc@
                    &&& final(self).closed
                },
            }),
    {
        proof {
            lemma_sdec_message_bounds(self.acc@);
        }
        match decode_message(self.acc.as_slice()) {
            Parsed::More => Ok(None),
            Parsed::Bad => {
                self.closed = true;
                Err(NreplError::ProtocolError)
            },
            Parsed::Found(m, n) => {
                drop_prefix(&mut self.acc, n);
                Ok(Some(m))
            },
        }
    }
}

} // verus!
