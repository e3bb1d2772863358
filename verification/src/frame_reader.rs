//! The receive side of the HDLC-style framing layer.
//!
//! The reader consumes an arbitrary byte stream incrementally, de-escapes
//! it, delimits frames on the flag byte, validates the frame check
//! sequence, and yields the payload range of one completed frame at a
//! time. At most one completed frame is buffered: `consume` refuses to
//! advance past a completed-but-unretrieved frame, which is the sole form
//! of backpressure in the system.

use vstd::prelude::*;

use crate::crc::{crc16, crc16_byte, crc16_spec, lemma_crc16_residual, lemma_crc16_spec_append};
use crate::frame_writer::{encode_frame, escape1, escaped, frame_crc, frame_fcs_bytes,
    frame_stored, lemma_escaped_append};

verus! {

/// The reader's scanning state.
#[derive(Debug, Clone, Copy, PartialEq, Eq, Structural)]
pub enum RxState {
    /// Searching for the opening flag byte.
    Start,
    /// A flag was seen; expecting the address byte.
    Address,
    /// Accumulating de-escaped payload bytes.
    Data,
    /// A validated frame is buffered and must be retrieved.
    Complete,
}

/// The abstract state of a reader together with its destination buffer:
/// the scanning state, the pending-escape flag, and the bytes accumulated
/// for the frame in progress.
pub struct RxModel {
    pub state: RxState,
    pub escape: bool,
    pub acc: Seq<u8>,
}

/// Whether an accumulated frame is acceptable: long enough, starting with
/// the control byte, and carrying a valid frame check sequence.
pub open spec fn frame_ok(acc: Seq<u8>) -> bool {
    &&& acc.len() >= 3
    &&& acc[0] == 0x03
    &&& crc16_spec(0x00FF, acc) == 0xF0B8
}

/// One step of the reader on byte `b`, with a destination buffer of
/// capacity `cap`.
pub open spec fn rx_step(m: RxModel, cap: nat, b: u8) -> RxModel {
    match m.state {
        RxState::Start => if b == 0x7E {
            RxModel { state: RxState::Address, escape: m.escape, acc: m.acc }
        } else {
            m
        },
        RxState::Address => if b == 0xFF {
            RxModel { state: RxState::Data, escape: m.escape, acc: m.acc }
        } else if b == 0x7E {
            m
        } else {
            RxModel { state: RxState::Start, escape: m.escape, acc: m.acc }
        },
        RxState::Data => if b == 0x7E {
            if frame_ok(m.acc) {
                RxModel { state: RxState::Complete, escape: m.escape, acc: m.acc }
            } else {
                RxModel { state: RxState::Address, escape: m.escape, acc: m.acc }
            }
        } else if b == 0x7D {
            RxModel { state: RxState::Data, escape: true, acc: m.acc }
        } else {
            let b2 = if m.escape {
                b ^ 0x20
            } else {
                b
            };
            if m.acc.len() == usize::MAX as nat || m.acc.len() >= cap {
                RxModel { state: RxState::Start, escape: false, acc: Seq::empty() }
            } else {
                RxModel { state: RxState::Data, escape: false, acc: m.acc.push(b2) }
            }
        },
        RxState::Complete => m,
    }
}

/// The reader's state after feeding `input`, stopping at a completed
/// frame.
pub open spec fn rx_run(m: RxModel, cap: nat, input: Seq<u8>) -> RxModel
    decreases input.len(),
{
    if input.len() == 0 || m.state is Complete {
        m
    } else {
        rx_run(rx_step(m, cap, input.first()), cap, input.drop_first())
    }
}

/// How many bytes of `input` the reader consumes before stopping at a
/// completed frame (all of them when no frame completes early).
pub open spec fn rx_consumed(m: RxModel, cap: nat, input: Seq<u8>) -> nat
    decreases input.len(),
{
    if input.len() == 0 || m.state is Complete {
        0
    } else {
        1 + rx_consumed(rx_step(m, cap, input.first()), cap, input.drop_first())
    }
}

/// The state after the completed frame is retrieved: scanning resumes
/// from `Address` with an empty accumulator.
pub open spec fn rx_release(m: RxModel) -> RxModel {
    RxModel { state: RxState::Address, escape: m.escape, acc: Seq::empty() }
}

/// The payload range surfaced for a completed frame: the accumulated
/// bytes without the control byte and the frame check sequence.
pub open spec fn frame_payload(acc: Seq<u8>) -> Seq<u8> {
    acc.subrange(1, acc.len() - 2)
}

/// The accumulated byte sequences of all frames completed while feeding
/// `input` to a driver that retrieves each frame as soon as it completes
/// and resubmits the unconsumed remainder.
pub open spec fn rx_accs(m: RxModel, cap: nat, input: Seq<u8>) -> Seq<Seq<u8>>
    decreases input.len(),
{
    let c = rx_consumed(m, cap, input);
    let m1 = rx_run(m, cap, input);
    if m1.state is Complete && 1 <= c <= input.len() {
        seq![m1.acc] + rx_accs(rx_release(m1), cap, input.skip(c as int))
    } else {
        Seq::empty()
    }
}

/// The payloads surfaced for all frames completed while feeding `input`.
pub open spec fn rx_frames(m: RxModel, cap: nat, input: Seq<u8>) -> Seq<Seq<u8>> {
    rx_accs(m, cap, input).map_values(|a: Seq<u8>| frame_payload(a))
}

/// The driver's end state after feeding `input` and retrieving every
/// completed frame.
pub open spec fn rx_drive(m: RxModel, cap: nat, input: Seq<u8>) -> RxModel
    decreases input.len(),
{
    let c = rx_consumed(m, cap, input);
    let m1 = rx_run(m, cap, input);
    if m1.state is Complete && 1 <= c <= input.len() {
        rx_drive(rx_release(m1), cap, input.skip(c as int))
    } else {
        m1
    }
}

/// Running over a single byte takes one step.
pub proof fn lemma_rx_run1(m: RxModel, cap: nat, b: u8)
    ensures
        !(m.state is Complete) ==> rx_run(m, cap, seq![b]) == rx_step(m, cap, b) && rx_consumed(
            m,
            cap,
            seq![b],
        ) == 1,
        m.state is Complete ==> rx_run(m, cap, seq![b]) == m && rx_consumed(m, cap, seq![b]) == 0,
{
    assert(seq![b].first() == b);
    assert(seq![b].drop_first() =~= Seq::<u8>::empty());
    if !(m.state is Complete) {
        let m2 = rx_step(m, cap, b);
        assert(rx_run(m, cap, seq![b]) == rx_run(m2, cap, seq![b].drop_first()));
        assert(rx_run(m2, cap, Seq::<u8>::empty()) == m2);
        assert(rx_consumed(m, cap, seq![b]) == 1 + rx_consumed(m2, cap, seq![b].drop_first()));
        assert(rx_consumed(m2, cap, Seq::<u8>::empty()) == 0);
    }
}

/// Running over a concatenation runs over each part in turn.
pub proof fn lemma_rx_run_append(m: RxModel, cap: nat, a: Seq<u8>, b: Seq<u8>)
    ensures
        rx_run(m, cap, a + b) == rx_run(rx_run(m, cap, a), cap, b),
    decreases a.len(),
{
    if a.len() == 0 {
        assert(a + b =~= b);
    } else if m.state is Complete {
        assert(rx_run(m, cap, a) == m);
        if (a + b).len() == 0 {
        } else {
            assert(rx_run(m, cap, a + b) == m);
        }
    } else {
        let m2 = rx_step(m, cap, a.first());
        assert((a + b).first() == a.first());
        assert((a + b).drop_first() =~= a.drop_first() + b);
        lemma_rx_run_append(m2, cap, a.drop_first(), b);
    }
}

/// Consumption over a concatenation: it stops inside the first part when
/// a frame completes there, and otherwise carries on into the second.
pub proof fn lemma_rx_consumed_append(m: RxModel, cap: nat, a: Seq<u8>, b: Seq<u8>)
    ensures
        rx_consumed(m, cap, a + b) == if rx_run(m, cap, a).state is Complete {
            rx_consumed(m, cap, a)
        } else {
            a.len() + rx_consumed(rx_run(m, cap, a), cap, b)
        },
    decreases a.len(),
{
    if a.len() == 0 {
        assert(a + b =~= b);
    } else if m.state is Complete {
        assert(rx_run(m, cap, a) == m);
        assert(rx_consumed(m, cap, a + b) == 0);
    } else {
        let m2 = rx_step(m, cap, a.first());
        assert((a + b).first() == a.first());
        assert((a + b).drop_first() =~= a.drop_first() + b);
        lemma_rx_consumed_append(m2, cap, a.drop_first(), b);
    }
}

/// A run that ends on a completed frame consumed at least one byte.
pub proof fn lemma_rx_complete_consumed_pos(m: RxModel, cap: nat, input: Seq<u8>)
    requires
        !(m.state is Complete),
        rx_run(m, cap, input).state is Complete,
    ensures
        rx_consumed(m, cap, input) >= 1,
{
}

/// Consumption never exceeds the input length.
pub proof fn lemma_rx_consumed_le(m: RxModel, cap: nat, input: Seq<u8>)
    ensures
        rx_consumed(m, cap, input) <= input.len(),
    decreases input.len(),
{
    if input.len() == 0 || m.state is Complete {
    } else {
        lemma_rx_consumed_le(rx_step(m, cap, input.first()), cap, input.drop_first());
    }
}

/// A step only completes a frame whose accumulated bytes are acceptable.
proof fn lemma_rx_step_valid(m: RxModel, cap: nat, b: u8)
    requires
        m.state is Complete ==> frame_ok(m.acc),
    ensures
        rx_step(m, cap, b).state is Complete ==> frame_ok(rx_step(m, cap, b).acc),
{
}

/// A run only completes a frame whose accumulated bytes are acceptable.
pub proof fn lemma_rx_run_valid(m: RxModel, cap: nat, input: Seq<u8>)
    requires
        m.state is Complete ==> frame_ok(m.acc),
    ensures
        rx_run(m, cap, input).state is Complete ==> frame_ok(rx_run(m, cap, input).acc),
    decreases input.len(),
{
    if input.len() == 0 || m.state is Complete {
    } else {
        lemma_rx_step_valid(m, cap, input.first());
        lemma_rx_run_valid(rx_step(m, cap, input.first()), cap, input.drop_first());
    }
}

/// Every frame the reader ever surfaces starts with the control byte
/// `0x03` and carries a valid frame check sequence: an accumulated
/// sequence failing either check is never handed out.
pub proof fn lemma_rx_accs_valid(m: RxModel, cap: nat, input: Seq<u8>)
    requires
        !(m.state is Complete),
    ensures
        forall|i: int|
            0 <= i < rx_accs(m, cap, input).len() ==> frame_ok(
                #[trigger] rx_accs(m, cap, input)[i],
            ),
    decreases input.len(),
{
    let c = rx_consumed(m, cap, input);
    let m1 = rx_run(m, cap, input);
    lemma_rx_run_valid(m, cap, input);
    lemma_rx_consumed_le(m, cap, input);
    if m1.state is Complete && c >= 1 {
        lemma_rx_accs_valid(rx_release(m1), cap, input.skip(c as int));
        assert forall|i: int| 0 <= i < rx_accs(m, cap, input).len() implies frame_ok(
            #[trigger] rx_accs(m, cap, input)[i],
        ) by {
            if i == 0 {
                assert(rx_accs(m, cap, input)[0] == m1.acc);
            } else {
                assert(rx_accs(m, cap, input)[i] == rx_accs(
                    rx_release(m1),
                    cap,
                    input.skip(c as int),
                )[i - 1]);
            }
        }
    }
}

/// The driver never ends on an unretrieved frame.
pub proof fn lemma_rx_drive_not_complete(m: RxModel, cap: nat, input: Seq<u8>)
    requires
        !(m.state is Complete),
    ensures
        !(rx_drive(m, cap, input).state is Complete),
    decreases input.len(),
{
    let c = rx_consumed(m, cap, input);
    let m1 = rx_run(m, cap, input);
    lemma_rx_consumed_le(m, cap, input);
    if m1.state is Complete && c >= 1 {
        lemma_rx_drive_not_complete(rx_release(m1), cap, input.skip(c as int));
    } else {
        if m1.state is Complete {
            lemma_rx_complete_consumed_pos(m, cap, input);
        }
    }
}

/// Chunking independence: feeding `a` and then `b` (retrieving each frame
/// as it completes) surfaces exactly the frames of feeding `a + b`, and
/// leaves the driver in the same state.
pub proof fn lemma_rx_chunking(m: RxModel, cap: nat, a: Seq<u8>, b: Seq<u8>)
    requires
        !(m.state is Complete),
    ensures
        rx_accs(m, cap, a + b) == rx_accs(m, cap, a) + rx_accs(rx_drive(m, cap, a), cap, b),
        rx_drive(m, cap, a + b) == rx_drive(rx_drive(m, cap, a), cap, b),
    decreases a.len(),
{
    let ca = rx_consumed(m, cap, a);
    let ma = rx_run(m, cap, a);
    lemma_rx_run_append(m, cap, a, b);
    lemma_rx_consumed_append(m, cap, a, b);
    lemma_rx_consumed_le(m, cap, a);
    if ma.state is Complete {
        lemma_rx_complete_consumed_pos(m, cap, a);
        assert((a + b).skip(ca as int) =~= a.skip(ca as int) + b);
        lemma_rx_chunking(rx_release(ma), cap, a.skip(ca as int), b);
        assert(rx_accs(m, cap, a) == seq![ma.acc] + rx_accs(rx_release(ma), cap, a.skip(ca as int)));
        assert(rx_accs(m, cap, a + b) == seq![ma.acc] + rx_accs(
            rx_release(ma),
            cap,
            (a + b).skip(ca as int),
        ));
        assert(rx_accs(m, cap, a + b) =~= rx_accs(m, cap, a) + rx_accs(
            rx_drive(m, cap, a),
            cap,
            b,
        ));
    } else {
        assert(rx_accs(m, cap, a) =~= Seq::<Seq<u8>>::empty());
        assert(rx_drive(m, cap, a) == ma);
        let cb = rx_consumed(ma, cap, b);
        let mb = rx_run(ma, cap, b);
        lemma_rx_consumed_le(ma, cap, b);
        if mb.state is Complete {
            lemma_rx_complete_consumed_pos(ma, cap, b);
            assert((a + b).skip((a.len() + cb) as int) =~= b.skip(cb as int));
            assert(rx_accs(m, cap, a + b) == seq![mb.acc] + rx_accs(
                rx_release(mb),
                cap,
                (a + b).skip((a.len() + cb) as int),
            ));
            assert(rx_accs(ma, cap, b) == seq![mb.acc] + rx_accs(
                rx_release(mb),
                cap,
                b.skip(cb as int),
            ));
            assert(rx_accs(m, cap, a + b) =~= rx_accs(m, cap, a) + rx_accs(ma, cap, b));
        } else {
            assert(rx_accs(m, cap, a + b) =~= rx_accs(m, cap, a) + rx_accs(ma, cap, b));
        }
    }
}

/// Chunking independence for the surfaced payloads: splitting the input
/// stream at any point — and so, by induction, feeding it one byte at a
/// time — retrieves the same sequence of frame payloads as feeding it
/// all at once.
pub proof fn lemma_rx_frames_chunked(m: RxModel, cap: nat, a: Seq<u8>, b: Seq<u8>)
    requires
        !(m.state is Complete),
    ensures
        rx_frames(m, cap, a + b) == rx_frames(m, cap, a) + rx_frames(rx_drive(m, cap, a), cap, b),
{
    lemma_rx_chunking(m, cap, a, b);
    assert(rx_frames(m, cap, a + b) =~= rx_frames(m, cap, a) + rx_frames(
        rx_drive(m, cap, a),
        cap,
        b,
    ));
}

/// Feeding the escaped form of `s` while in the data state accumulates
/// exactly `s`, completing no frame on the way.
proof fn lemma_rx_feed_escaped(m: RxModel, cap: nat, s: Seq<u8>)
    requires
        m.state is Data,
        m.escape == false,
        m.acc.len() + s.len() <= cap,
        cap <= usize::MAX as nat,
    ensures
        rx_run(m, cap, escaped(s)) == (RxModel {
            state: RxState::Data,
            escape: false,
            acc: m.acc + s,
        }),
        rx_consumed(m, cap, escaped(s)) == escaped(s).len(),
    decreases s.len(),
{
    if s.len() == 0 {
        assert(m.acc + s =~= m.acc);
        assert(m == (RxModel { state: RxState::Data, escape: false, acc: m.acc }));
    } else {
        let b = s.first();
        let rest = s.drop_first();
        assert(s =~= seq![b] + rest);
        lemma_escaped_append(seq![b], rest);
        assert(seq![b].drop_last() =~= Seq::<u8>::empty());
        assert(escaped(Seq::<u8>::empty()) == Seq::<u8>::empty());
        assert(escaped(seq![b]) == escaped(seq![b].drop_last()) + escape1(b));
        assert(escaped(seq![b]) =~= escape1(b));
        let m2 = RxModel { state: RxState::Data, escape: false, acc: m.acc.push(b) };
        assert(m.acc.len() < cap);
        if b == 0x7E || b == 0x7D {
            let e = (b ^ 0x20) as u8;
            assert(e != 0x7E && e != 0x7D && (e ^ 0x20) == b) by (bit_vector)
                requires
                    b == 0x7E || b == 0x7D,
                    e == (b ^ 0x20) as u8,
            ;
            assert(escape1(b) =~= seq![0x7Du8] + seq![e]);
            let ma = rx_step(m, cap, 0x7D);
            assert(ma == (RxModel { state: RxState::Data, escape: true, acc: m.acc }));
            assert(rx_step(ma, cap, e) == m2);
            lemma_rx_run_append(m, cap, seq![0x7Du8], seq![e]);
            lemma_rx_consumed_append(m, cap, seq![0x7Du8], seq![e]);
            lemma_rx_run1(m, cap, 0x7D);
            lemma_rx_run1(ma, cap, e);
            assert(rx_run(m, cap, escape1(b)) == m2);
            assert(rx_consumed(m, cap, escape1(b)) == 2);
        } else {
            assert(escape1(b) =~= seq![b]);
            assert(rx_step(m, cap, b) == m2);
            lemma_rx_run1(m, cap, b);
            assert(rx_run(m, cap, escape1(b)) == m2);
            assert(rx_consumed(m, cap, escape1(b)) == 1);
        }
        lemma_rx_feed_escaped(m2, cap, rest);
        lemma_rx_run_append(m, cap, escape1(b), escaped(rest));
        lemma_rx_consumed_append(m, cap, escape1(b), escaped(rest));
        assert(m2.acc + rest =~= m.acc + s);
        assert(escaped(s) =~= escape1(b) + escaped(rest));
    }
}

/// Round trip: a frame encoded by the writer and fed to a fresh reader
/// surfaces exactly its payload, and leaves the reader ready for the
/// next frame. This holds for every payload, including ones containing
/// the flag and escape bytes.
pub proof fn lemma_frame_round_trip(m: RxModel, cap: nat, payload: Seq<u8>)
    requires
        m.state is Start || m.state is Address,
        m.escape == false,
        m.acc == Seq::<u8>::empty(),
        payload.len() + 3 <= cap,
        cap <= usize::MAX as nat,
    ensures
        rx_accs(m, cap, encode_frame(payload)) == seq![frame_stored(payload)],
        rx_frames(m, cap, encode_frame(payload)) == seq![payload],
        rx_drive(m, cap, encode_frame(payload)) == (RxModel {
            state: RxState::Address,
            escape: false,
            acc: Seq::<u8>::empty(),
        }),
{
    let stored = frame_stored(payload);
    let md = RxModel { state: RxState::Data, escape: false, acc: Seq::<u8>::empty() };
    let mfull = RxModel { state: RxState::Data, escape: false, acc: stored };
    let head: Seq<u8> = seq![0x7Eu8, 0xFFu8];
    let tail: Seq<u8> = seq![0x7Eu8];
    let mid = escaped(stored);
    assert(encode_frame(payload) =~= head + (mid + tail));

    // The opening flag and the address byte reach the data state.
    let m1 = rx_step(m, cap, 0x7E);
    assert(m1 == (RxModel { state: RxState::Address, escape: false, acc: Seq::<u8>::empty() }));
    assert(head =~= seq![0x7Eu8] + seq![0xFFu8]);
    lemma_rx_run_append(m, cap, seq![0x7Eu8], seq![0xFFu8]);
    lemma_rx_consumed_append(m, cap, seq![0x7Eu8], seq![0xFFu8]);
    lemma_rx_run1(m, cap, 0x7E);
    lemma_rx_run1(m1, cap, 0xFF);
    assert(rx_step(m1, cap, 0xFF) == md);
    assert(rx_run(m, cap, head) == md);
    assert(rx_consumed(m, cap, head) == 2);

    // The escaped stored bytes accumulate unchanged.
    assert(stored.len() == payload.len() + 3);
    lemma_rx_feed_escaped(md, cap, stored);
    assert(rx_run(md, cap, mid) == (RxModel {
        state: RxState::Data,
        escape: false,
        acc: Seq::<u8>::empty() + stored,
    }));
    assert(Seq::<u8>::empty() + stored =~= stored);

    // The closing flag completes the frame: the accumulated bytes pass
    // the length, control-byte and checksum checks.
    let c = frame_crc(payload);
    assert(crc16_spec(0x00FF, stored) == 0xF0B8) by {
        lemma_crc16_spec_append(0x00FF, seq![0x03u8] + payload, frame_fcs_bytes(payload));
        assert((seq![0x03u8] + payload) + frame_fcs_bytes(payload) =~= stored);
        let lo = !c as u8;
        let hi = (!c >> 8) as u8;
        assert(frame_fcs_bytes(payload) =~= seq![lo, hi]);
        assert(seq![lo, hi].drop_last() =~= seq![lo]);
        assert(seq![lo].drop_last() =~= Seq::<u8>::empty());
        assert(crc16_spec(c, Seq::<u8>::empty()) == c);
        assert(crc16_spec(c, seq![lo]) == crc16_byte(c, lo));
        assert(crc16_spec(c, seq![lo, hi]) == crc16_byte(crc16_byte(c, lo), hi));
        lemma_crc16_residual(c);
    }
    assert(stored[0] == 0x03);
    assert(frame_ok(stored));
    let mc = RxModel { state: RxState::Complete, escape: false, acc: stored };
    assert(rx_step(mfull, cap, 0x7E) == mc);
    assert(tail =~= seq![0x7Eu8]);
    lemma_rx_run1(mfull, cap, 0x7E);
    assert(rx_run(mfull, cap, tail) == mc);
    assert(rx_consumed(mfull, cap, tail) == 1);

    // Assemble the full run.
    lemma_rx_run_append(m, cap, head, mid + tail);
    lemma_rx_consumed_append(m, cap, head, mid + tail);
    lemma_rx_run_append(md, cap, mid, tail);
    lemma_rx_consumed_append(md, cap, mid, tail);
    assert(rx_run(m, cap, encode_frame(payload)) == mc);
    let n = encode_frame(payload).len();
    assert(rx_consumed(m, cap, encode_frame(payload)) == n);

    // One frame is collected, and nothing follows it.
    assert(encode_frame(payload).skip(n as int) =~= Seq::<u8>::empty());
    let rel = rx_release(mc);
    assert(rx_run(rel, cap, Seq::<u8>::empty()) == rel);
    assert(rx_consumed(rel, cap, Seq::<u8>::empty()) == 0);
    assert(rx_accs(rel, cap, Seq::<u8>::empty()) =~= Seq::<Seq<u8>>::empty());
    assert(rx_drive(rel, cap, Seq::<u8>::empty()) == rel);
    assert(rx_accs(m, cap, encode_frame(payload)) =~= seq![stored]);
    assert(rx_drive(m, cap, encode_frame(payload)) == rx_drive(
        rel,
        cap,
        encode_frame(payload).skip(n as int),
    ));
    assert(rx_drive(m, cap, encode_frame(payload)) == rx_release(mc));
    assert(rx_release(mc) == (RxModel {
        state: RxState::Address,
        escape: false,
        acc: Seq::<u8>::empty(),
    }));
    assert(frame_payload(stored) =~= payload);
    assert(rx_frames(m, cap, encode_frame(payload)) =~= seq![payload]);
}

/// Deframes a byte stream fed to it in arbitrary chunks.
pub struct FrameReader {
    state: RxState,
    escape: bool,
    len: usize,
}

impl FrameReader {
    /// The scanning state.
    pub closed spec fn spec_state(&self) -> RxState {
        self.state
    }

    /// The pending-escape flag.
    pub closed spec fn spec_escape(&self) -> bool {
        self.escape
    }

    /// How many de-escaped bytes of the frame in progress are in the
    /// destination buffer.
    pub closed spec fn spec_len(&self) -> usize {
        self.len
    }

    /// The abstract state of this reader over destination buffer `buf`.
    pub open spec fn model(&self, buf: Seq<u8>) -> RxModel {
        RxModel {
            state: self.spec_state(),
            escape: self.spec_escape(),
            acc: buf.take(self.spec_len() as int),
        }
    }

    /// The reader fits its destination buffer, and a completed frame is
    /// long enough to strip the control byte and the check sequence.
    pub open spec fn wf(&self, buf: Seq<u8>) -> bool {
        &&& self.spec_len() <= buf.len()
        &&& (self.spec_state() is Complete ==> self.spec_len() >= 3)
    }

    /// A fresh reader, searching for an opening flag.
    pub fn new() -> (r: Self)
        ensures
            r.spec_state() is Start,
            r.spec_escape() == false,
            r.spec_len() == 0,
    {
        Self { state: RxState::Start, escape: false, len: 0 }
    }

    /// If a completed frame is buffered, return the range of its payload
    /// within the destination buffer and resume scanning; otherwise
    /// return nothing.
    pub fn receive(&mut self) -> (r: Option<core::ops::Range<usize>>)
        requires
            old(self).spec_state() is Complete ==> old(self).spec_len() >= 3,
        ensures
            old(self).spec_state() is Complete ==> {
                &&& r matches Some(rg) && rg.start == 1 && rg.end == old(self).spec_len() - 2
                &&& final(self).spec_state() is Address
                &&& final(self).spec_len() == 0
                &&& final(self).spec_escape() == old(self).spec_escape()
            },
            !(old(self).spec_state() is Complete) ==> r is None && *final(self) == *old(self),
    {
        match self.state {
            RxState::Complete => {
                let len = self.len;
                self.len = 0;
                self.state = RxState::Address;
                Some(1..len - 2)
            },
            _ => None,
        }
    }

    /// Feed `data` into the reader, writing de-escaped frame bytes into
    /// `buf`. Returns how many bytes were consumed: consumption stops as
    /// soon as a frame completes, and a completed-but-unretrieved frame
    /// blocks all further consumption until `receive` is called.
    #[verifier::loop_isolation(false)]
    pub fn consume(&mut self, buf: &mut [u8], data: &[u8]) -> (r: usize)
        requires
            old(self).wf(old(buf)@),
        ensures
            final(self).wf(final(buf)@),
            final(buf)@.len() == old(buf)@.len(),
            r <= data@.len(),
            r == rx_consumed(old(self).model(old(buf)@), old(buf)@.len(), data@),
            final(self).model(final(buf)@) == rx_run(
                old(self).model(old(buf)@),
                old(buf)@.len(),
                data@,
            ),
            old(self).spec_state() is Complete ==> r == 0 && *final(self) == *old(self)
                && final(buf)@ == old(buf)@,
    {
        let ghost m0 = old(self).model(old(buf)@);
        let ghost cap = old(buf)@.len();
        let mut i: usize = 0;
        while i < data.len()
            invariant
                i <= data@.len(),
                self.len <= buf@.len(),
                buf@.len() == cap,
                self.spec_state() is Complete ==> self.spec_len() >= 3,
                rx_consumed(m0, cap, data@.take(i as int)) == i,
                self.model(buf@) == rx_run(m0, cap, data@.take(i as int)),
                i > 0 ==> !(m0.state is Complete),
                m0.state is Complete ==> *self == *old(self) && buf@ == old(buf)@,
            decreases data@.len() - i,
        {
            let b = data[i];
            let ghost mcur = self.model(buf@);
            proof {
                assert(data@.take(i as int) + seq![b] =~= data@.take(i + 1));
                lemma_rx_run_append(m0, cap, data@.take(i as int), seq![b]);
                lemma_rx_consumed_append(m0, cap, data@.take(i as int), seq![b]);
                lemma_rx_run1(mcur, cap, b);
            }
            match self.state {
                RxState::Start => {
                    if b == 0x7E {
                        self.state = RxState::Address;
                    }
                },
                RxState::Address => {
                    if b == 0xFF {
                        self.state = RxState::Data;
                    } else if b == 0x7E {
                        // stay
                    } else {
                        self.state = RxState::Start;
                    }
                },
                RxState::Data => {
                    if b == 0x7E {
                        // End of frame: accept it only if it is long
                        // enough, starts with the control byte, and its
                        // checksum leaves the expected residual.
                        let ok = self.len >= 3 && buf[0] == 0x03 && crc16(
                            0x00FF,
                            vstd::slice::slice_subrange(buf, 0, self.len),
                        ) == 0xF0B8;
                        self.state = if ok {
                            RxState::Complete
                        } else {
                            RxState::Address
                        };
                    } else if b == 0x7D {
                        self.escape = true;
                    } else {
                        let b2 = if self.escape {
                            b ^ 0x20
                        } else {
                            b
                        };
                        self.escape = false;
                        if self.len == usize::MAX || self.len >= buf.len() {
                            // The destination buffer is full: abandon the
                            // partial frame.
                            self.state = RxState::Start;
                            self.len = 0;
                        } else {
                            let ghost bufpre = buf@;
                            buf[self.len] = b2;
                            self.len = self.len + 1;
                            proof {
                                assert(bufpre.update(mcur.acc.len() as int, b2).take(
                                    self.len as int,
                                ) =~= mcur.acc.push(b2));
                            }
                        }
                    }
                },
                RxState::Complete => {
                    // Backpressure: do not consume past an unretrieved
                    // frame.
                    proof {
                        lemma_rx_consumed_append(m0, cap, data@.take(i as int), data@.skip(i as int));
                        lemma_rx_run_append(m0, cap, data@.take(i as int), data@.skip(i as int));
                        assert(data@.take(i as int) + data@.skip(i as int) =~= data@);
                    }
                    return i;
                },
            }
            proof {
                assert(buf@.take(0) =~= Seq::<u8>::empty());
            }
            i = i + 1;
        }
        proof {
            assert(data@.take(data@.len() as int) =~= data@);
        }
        data.len()
    }
}

} // verus!
