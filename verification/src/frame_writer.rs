//! The transmit side of the HDLC-style framing layer.
//!
//! A frame is written in three phases into a bounded output buffer:
//! `start` emits the opening flag and the address/control bytes, `append`
//! escapes and emits payload bytes while accumulating the running CRC, and
//! `finish` appends the complemented CRC (low byte first, each byte
//! escaped) and the closing flag. Running out of buffer space is a
//! terminal error for the in-progress frame.

use vstd::prelude::*;

use crate::crc::{crc16_byte, crc16_byte_step, crc16_spec, lemma_crc16_address_seed,
    lemma_crc16_spec_push};
use crate::Error;
use vstd::pervasive::VecAdditionalExecFns;

verus! {

/// The frame delimiter flag byte.
pub const FLAG: u8 = 0x7E;

/// The escape byte; the byte following it is stored XORed with `0x20`.
pub const ESCAPE: u8 = 0x7D;

/// Whether `b` must be escaped on the wire.
pub open spec fn needs_escape(b: u8) -> bool {
    b == FLAG || b == ESCAPE
}

/// The on-wire form of one payload byte.
pub open spec fn escape1(b: u8) -> Seq<u8> {
    if needs_escape(b) {
        seq![ESCAPE, b ^ 0x20]
    } else {
        seq![b]
    }
}

/// The on-wire form of a byte sequence, with every reserved byte escaped.
pub open spec fn escaped(s: Seq<u8>) -> Seq<u8>
    decreases s.len(),
{
    if s.len() == 0 {
        Seq::empty()
    } else {
        escaped(s.drop_last()) + escape1(s.last())
    }
}

/// Escaping one more byte appends its on-wire form.
pub proof fn lemma_escaped_push(s: Seq<u8>, b: u8)
    ensures
        escaped(s.push(b)) == escaped(s) + escape1(b),
{
    assert(s.push(b).drop_last() =~= s);
}

/// Escaping distributes over concatenation.
pub proof fn lemma_escaped_append(a: Seq<u8>, b: Seq<u8>)
    ensures
        escaped(a + b) == escaped(a) + escaped(b),
    decreases b.len(),
{
    if b.len() == 0 {
        assert(a + b =~= a);
        assert(escaped(a) + escaped(b) =~= escaped(a));
    } else {
        lemma_escaped_append(a, b.drop_last());
        assert((a + b).drop_last() =~= a + b.drop_last());
        assert((a + b).last() == b.last());
        let x = escaped(b.drop_last());
        let y = escape1(b.last());
        assert((escaped(a) + x) + y =~= escaped(a) + (x + y));
    }
}

/// The checksum accumulated by a frame over `payload`: it covers the
/// address byte (via the seed) and the control byte.
pub open spec fn frame_crc(payload: Seq<u8>) -> u16 {
    crc16_spec(0x00FF, seq![0x03u8] + payload)
}

/// The two frame-check-sequence bytes appended to a frame, low byte first.
pub open spec fn frame_fcs_bytes(payload: Seq<u8>) -> Seq<u8> {
    seq![!frame_crc(payload) as u8, (!frame_crc(payload) >> 8) as u8]
}

/// The de-escaped bytes a receiver accumulates for a frame carrying
/// `payload`: control byte, payload, then the frame check sequence.
pub open spec fn frame_stored(payload: Seq<u8>) -> Seq<u8> {
    seq![0x03u8] + payload + frame_fcs_bytes(payload)
}

/// The complete on-wire encoding of one frame.
pub open spec fn encode_frame(payload: Seq<u8>) -> Seq<u8> {
    seq![FLAG, 0xFFu8] + escaped(frame_stored(payload)) + seq![FLAG]
}

/// Which phase the writer is in: between frames, inside a frame, or after
/// the in-progress frame failed for want of buffer space.
#[derive(Debug, Clone, Copy, PartialEq, Eq, Structural)]
pub enum WriterPhase {
    Idle,
    Open,
    Failed,
}

/// The abstract state of a [`FrameWriter`].
pub struct WriterModel {
    /// All bytes emitted so far.
    pub out: Seq<u8>,
    /// The fixed capacity of the output buffer.
    pub cap: nat,
    /// The current phase.
    pub phase: WriterPhase,
    /// Bytes emitted before the in-progress frame began.
    pub base: Seq<u8>,
    /// Payload bytes appended to the in-progress frame so far.
    pub payload: Seq<u8>,
}

/// Writes byte-stuffed frames into a caller-supplied buffer.
pub struct FrameWriter {
    buf: Vec<u8>,
    pos: usize,
    crc: u16,
    phase: WriterPhase,
    base: Ghost<Seq<u8>>,
    payload: Ghost<Seq<u8>>,
}

impl View for FrameWriter {
    type V = WriterModel;

    closed spec fn view(&self) -> WriterModel {
        WriterModel {
            out: self.buf@.take(self.pos as int),
            cap: self.buf@.len(),
            phase: self.phase,
            base: self.base@,
            payload: self.payload@,
        }
    }
}

impl FrameWriter {
    /// The writer's internal consistency: what has been written matches
    /// the phase, and the CRC register tracks the frame payload.
    pub closed spec fn wf(&self) -> bool {
        &&& self.pos <= self.buf@.len()
        &&& match self.phase {
            WriterPhase::Idle => {
                &&& self.base@ == self.buf@.take(self.pos as int)
                &&& self.payload@ == Seq::<u8>::empty()
            },
            WriterPhase::Open => {
                &&& self.buf@.take(self.pos as int) == self.base@ + seq![FLAG, 0xFFu8, 0x03u8]
                    + escaped(self.payload@)
                &&& self.crc == frame_crc(self.payload@)
            },
            WriterPhase::Failed => true,
        }
    }

    /// A new writer over `buf`; the buffer's length is the total capacity.
    pub fn new(buf: Vec<u8>) -> (r: FrameWriter)
        ensures
            r.wf(),
            r@.out == Seq::<u8>::empty(),
            r@.cap == buf@.len(),
            r@.phase is Idle,
    {
        let r = FrameWriter {
            buf,
            pos: 0,
            crc: 0,
            phase: WriterPhase::Idle,
            base: Ghost(Seq::empty()),
            payload: Ghost(Seq::empty()),
        };
        proof {
            assert(r.buf@.take(0) =~= Seq::<u8>::empty());
        }
        r
    }

    /// Emit one raw byte, if there is room.
    fn push_byte(&mut self, b: u8) -> (r: Result<(), Error>)
        requires
            old(self).pos <= old(self).buf@.len(),
        ensures
            final(self).buf@.len() == old(self).buf@.len(),
            final(self).crc == old(self).crc,
            final(self).phase == old(self).phase,
            final(self).base == old(self).base,
            final(self).payload == old(self).payload,
            final(self).pos >= old(self).pos,
            final(self).pos <= final(self).buf@.len(),
            r matches Ok(()) <==> old(self).pos + 1 <= old(self).buf@.len(),
            r matches Ok(()) ==> {
                &&& final(self).pos == old(self).pos + 1
                &&& final(self).buf@.take(final(self).pos as int) == old(self).buf@.take(
                    old(self).pos as int,
                ).push(b)
            },
            r matches Err(e) ==> e == Error::NoMem && *final(self) == *old(self),
    {
        if self.pos < self.buf.len() {
            let ghost old_buf = self.buf@;
            let ghost old_pos = self.pos as int;
            self.buf.set(self.pos, b);
            self.pos = self.pos + 1;
            proof {
                assert(old_buf.update(old_pos, b).take(old_pos + 1) =~= old_buf.take(old_pos).push(
                    b,
                ));
            }
            Ok(())
        } else {
            Err(Error::NoMem)
        }
    }

    /// Emit the on-wire form of one stored byte, if there is room for it.
    fn push_escaped(&mut self, b: u8) -> (r: Result<(), Error>)
        requires
            old(self).pos <= old(self).buf@.len(),
        ensures
            final(self).buf@.len() == old(self).buf@.len(),
            final(self).crc == old(self).crc,
            final(self).phase == old(self).phase,
            final(self).base == old(self).base,
            final(self).payload == old(self).payload,
            final(self).pos >= old(self).pos,
            final(self).pos <= final(self).buf@.len(),
            r matches Ok(()) <==> old(self).pos + escape1(b).len() <= old(self).buf@.len(),
            r matches Ok(()) ==> {
                &&& final(self).pos == old(self).pos + escape1(b).len()
                &&& final(self).buf@.take(final(self).pos as int) == old(self).buf@.take(
                    old(self).pos as int,
                ) + escape1(b)
            },
            r matches Err(e) ==> e == Error::NoMem,
    {
        let ghost pre = old(self).buf@.take(old(self).pos as int);
        if b == FLAG || b == ESCAPE {
            if self.buf.len() - self.pos < 2 {
                return Err(Error::NoMem);
            }
            let _ = self.push_byte(ESCAPE);
            let _ = self.push_byte(b ^ 0x20);
            proof {
                assert(pre.push(ESCAPE).push(b ^ 0x20) =~= pre + escape1(b));
            }
            Ok(())
        } else {
            let r = self.push_byte(b);
            match r {
                Ok(()) => {
                    proof {
                        assert(pre.push(b) =~= pre + escape1(b));
                    }
                    Ok(())
                },
                Err(e) => Err(e),
            }
        }
    }

    /// Begin a frame: emit the flag and the address/control bytes.
    pub fn start(&mut self) -> (r: Result<(), Error>)
        requires
            old(self).wf(),
            old(self)@.phase is Idle,
        ensures
            final(self).wf(),
            final(self)@.cap == old(self)@.cap,
            r matches Ok(()) <==> old(self)@.out.len() + 3 <= old(self)@.cap,
            r matches Ok(()) ==> {
                &&& final(self)@.phase is Open
                &&& final(self)@.base == old(self)@.out
                &&& final(self)@.payload == Seq::<u8>::empty()
                &&& final(self)@.out == old(self)@.out + seq![FLAG, 0xFFu8, 0x03u8]
            },
            r matches Err(e) ==> e == Error::NoMem && final(self)@.phase is Failed,
    {
        let ghost pre = self.buf@.take(self.pos as int);
        if self.buf.len() < 3 || self.pos > self.buf.len() - 3 {
            self.phase = WriterPhase::Failed;
            return Err(Error::NoMem);
        }
        let _ = self.push_byte(FLAG);
        let _ = self.push_byte(0xFF);
        let _ = self.push_byte(0x03);
        self.crc = crc16_byte_step(crc16_byte_step(0xFFFF, 0xFF), 0x03);
        self.phase = WriterPhase::Open;
        self.base = Ghost(pre);
        self.payload = Ghost(Seq::empty());
        proof {
            assert(pre.push(FLAG).push(0xFF).push(0x03) =~= pre + seq![FLAG, 0xFFu8, 0x03u8]);
            lemma_crc16_address_seed();
            let t: Seq<u8> = seq![0x03u8] + Seq::<u8>::empty();
            assert(t =~= seq![0x03u8]);
            assert(t.len() == 1 && t.last() == 0x03u8);
            assert(t.drop_last() =~= Seq::<u8>::empty());
            assert(crc16_spec(0x00FF, Seq::<u8>::empty()) == 0x00FF);
            assert(crc16_spec(0x00FF, t) == crc16_byte(crc16_spec(0x00FF, t.drop_last()), 0x03u8));
            assert(frame_crc(Seq::empty()) == crc16_byte(0x00FF, 0x03));
            assert(escaped(Seq::<u8>::empty()) =~= Seq::<u8>::empty());
            assert(self.buf@.take(self.pos as int) =~= self.base@ + seq![FLAG, 0xFFu8, 0x03u8]
                + escaped(self.payload@));
        }
        Ok(())
    }

    /// Escape and emit payload bytes, folding them into the running CRC.
    #[verifier::loop_isolation(false)]
    pub fn append(&mut self, data: &[u8]) -> (r: Result<(), Error>)
        requires
            old(self).wf(),
            old(self)@.phase is Open,
        ensures
            final(self).wf(),
            final(self)@.cap == old(self)@.cap,
            r matches Ok(()) <==> old(self)@.base.len() + 3 + escaped(
                old(self)@.payload + data@,
            ).len() <= old(self)@.cap,
            r matches Ok(()) ==> {
                &&& final(self)@.phase is Open
                &&& final(self)@.base == old(self)@.base
                &&& final(self)@.payload == old(self)@.payload + data@
                &&& final(self)@.out == old(self)@.base + seq![FLAG, 0xFFu8, 0x03u8] + escaped(
                    old(self)@.payload + data@,
                )
            },
            r matches Err(e) ==> e == Error::NoMem && final(self)@.phase is Failed,
    {
        let ghost base = self.base@;
        let ghost pay0 = self.payload@;
        let mut i: usize = 0;
        while i < data.len()
            invariant
                i <= data@.len(),
                self.pos <= self.buf@.len(),
                self.buf@.len() == old(self)@.cap,
                self.phase is Open,
                self.base@ == base,
                self.payload@ == pay0 + data@.take(i as int),
                self.buf@.take(self.pos as int) == base + seq![FLAG, 0xFFu8, 0x03u8] + escaped(
                    self.payload@,
                ),
                self.crc == frame_crc(self.payload@),
            decreases data@.len() - i,
        {
            let b = data[i];
            let ghost pay = self.payload@;
            match self.push_escaped(b) {
                Ok(()) => {},
                Err(_) => {
                    self.phase = WriterPhase::Failed;
                    proof {
                        lemma_escaped_push(pay, b);
                        assert(pay.push(b) =~= pay0 + data@.take(i + 1));
                        assert(pay0 + data@ =~= (pay0 + data@.take(i + 1)) + data@.skip(i + 1));
                        lemma_escaped_append(pay0 + data@.take(i + 1), data@.skip(i + 1));
                    }
                    return Err(Error::NoMem);
                },
            }
            self.crc = crc16_byte_step(self.crc, b);
            proof {
                lemma_escaped_push(pay, b);
                assert(pay.push(b) =~= pay0 + data@.take(i + 1));
                assert((seq![0x03u8] + pay).push(b) =~= seq![0x03u8] + pay.push(b));
                lemma_crc16_spec_push(0x00FF, seq![0x03u8] + pay, b);
            }
            self.payload = Ghost(pay.push(b));
            i = i + 1;
        }
        proof {
            assert(pay0 + data@.take(data@.len() as int) =~= pay0 + data@);
        }
        Ok(())
    }

    /// End the frame: emit the frame check sequence and the closing flag.
    pub fn finish(&mut self) -> (r: Result<(), Error>)
        requires
            old(self).wf(),
            old(self)@.phase is Open,
        ensures
            final(self).wf(),
            final(self)@.cap == old(self)@.cap,
            r matches Ok(()) <==> old(self)@.base.len() + encode_frame(old(self)@.payload).len()
                <= old(self)@.cap,
            r matches Ok(()) ==> {
                &&& final(self)@.phase is Idle
                &&& final(self)@.out == old(self)@.base + encode_frame(old(self)@.payload)
                &&& final(self)@.base == final(self)@.out
                &&& final(self)@.payload == Seq::<u8>::empty()
            },
            r matches Err(e) ==> e == Error::NoMem && final(self)@.phase is Failed,
    {
        let ghost base = self.base@;
        let ghost pay = self.payload@;
        let fcs = !self.crc;
        let lo = fcs as u8;
        let hi = (fcs >> 8) as u8;
        proof {
            assert(frame_fcs_bytes(pay) =~= seq![lo, hi]);
            lemma_escape_len(pay, lo, hi);
        }
        let ghost mid = base + seq![FLAG, 0xFFu8, 0x03u8] + escaped(pay);
        self.phase = WriterPhase::Failed;
        match self.push_escaped(lo) {
            Ok(()) => {},
            Err(_) => {
                return Err(Error::NoMem);
            },
        }
        match self.push_escaped(hi) {
            Ok(()) => {},
            Err(_) => {
                return Err(Error::NoMem);
            },
        }
        match self.push_byte(FLAG) {
            Ok(()) => {},
            Err(_) => {
                return Err(Error::NoMem);
            },
        }
        proof {
            assert(((mid + escape1(lo)) + escape1(hi)).push(FLAG) =~= base + encode_frame(pay)) by {
                lemma_stored_split(pay, lo, hi);
            }
        }
        self.phase = WriterPhase::Idle;
        self.base = Ghost(self.buf@.take(self.pos as int));
        self.payload = Ghost(Seq::empty());
        Ok(())
    }

    /// How many bytes have been emitted so far.
    pub fn len(&self) -> (r: usize)
        requires
            self.wf(),
        ensures
            r == self@.out.len(),
    {
        self.pos
    }

    /// Hand the buffer back; the first `len()` bytes are the emitted output.
    pub fn into_buffer(self) -> (r: (Vec<u8>, usize))
        requires
            self.wf(),
        ensures
            r.0@.len() == self@.cap,
            r.1 == self@.out.len(),
            r.0@.take(r.1 as int) == self@.out,
    {
        let FrameWriter { buf, pos, .. } = self;
        (buf, pos)
    }
}

/// The escaped form of the stored bytes splits into its three parts.
proof fn lemma_stored_split(pay: Seq<u8>, lo: u8, hi: u8)
    requires
        seq![lo, hi] == frame_fcs_bytes(pay),
    ensures
        escaped(frame_stored(pay)) == seq![0x03u8] + escaped(pay) + escape1(lo) + escape1(hi),
{
    lemma_escaped_append(seq![0x03u8] + pay, seq![lo, hi]);
    assert((seq![0x03u8] + pay) + seq![lo, hi] =~= frame_stored(pay));
    lemma_escaped_append(seq![0x03u8], pay);
    assert(escaped(Seq::<u8>::empty()) == Seq::<u8>::empty());
    assert(seq![0x03u8].drop_last() =~= Seq::<u8>::empty());
    assert(escaped(seq![0x03u8]) == escaped(seq![0x03u8].drop_last()) + escape1(0x03u8));
    assert(escaped(seq![0x03u8]) =~= seq![0x03u8]);
    assert(seq![lo, hi].drop_last() =~= seq![lo]);
    assert(seq![lo].drop_last() =~= Seq::<u8>::empty());
    assert(escaped(seq![lo]) == escaped(seq![lo].drop_last()) + escape1(lo));
    assert(escaped(seq![lo]) =~= escape1(lo));
    assert(escaped(seq![lo, hi]) == escaped(seq![lo, hi].drop_last()) + escape1(hi));
    assert(escaped(seq![lo, hi]) =~= escape1(lo) + escape1(hi));
    assert(escaped(frame_stored(pay)) =~= seq![0x03u8] + escaped(pay) + escape1(lo) + escape1(hi));
}

/// Length bookkeeping for the closing bytes of a frame.
proof fn lemma_escape_len(pay: Seq<u8>, lo: u8, hi: u8)
    requires
        seq![lo, hi] == frame_fcs_bytes(pay),
    ensures
        encode_frame(pay).len() == 3 + escaped(pay).len() + escape1(lo).len() + escape1(hi).len()
            + 1,
{
    lemma_stored_split(pay, lo, hi);
}

} // verus!
