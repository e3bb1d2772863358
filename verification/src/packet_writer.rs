//! Builds one PPP control packet — Code/Identifier/Length header plus a
//! body of raw bytes or TLV-encoded options — and emits it as one frame
//! through the [`FrameWriter`](crate::frame_writer::FrameWriter).
//!
//! The body is buffered so the 2-byte length field (which counts the
//! 4-byte header and the body) can be patched in when the packet is
//! written.

use vstd::prelude::*;

use crate::frame_writer::{encode_frame, FrameWriter};
use crate::{code_val, Code, Error, ProtocolType};

verus! {

/// The largest packet body: the length field must fit in 16 bits after
/// the 4-byte header is counted.
pub const MAX_BODY: usize = 0xFFFB;

/// The bytes of a control packet as they travel inside a frame: the
/// 2-byte protocol field, the 4-byte header, then the body.
pub open spec fn packet_bytes(proto: u16, code: Code, id: u8, body: Seq<u8>) -> Seq<u8> {
    seq![
        (proto >> 8) as u8,
        proto as u8,
        code_val(code),
        id,
        (((body.len() + 4) as u16) >> 8) as u8,
        ((body.len() + 4) as u16) as u8,
    ] + body
}

/// Accumulates a packet body and emits the finished packet as one frame.
pub struct PacketWriter {
    body: Vec<u8>,
}

impl View for PacketWriter {
    type V = Seq<u8>;

    closed spec fn view(&self) -> Seq<u8> {
        self.body@
    }
}

impl PacketWriter {
    /// An empty packet body.
    pub fn new() -> (r: PacketWriter)
        ensures
            r@ == Seq::<u8>::empty(),
    {
        PacketWriter { body: Vec::new() }
    }

    /// Append raw body bytes, if the length field can still count them.
    pub fn append(&mut self, data: &[u8]) -> (r: Result<(), Error>)
        ensures
            r matches Ok(()) <==> old(self)@.len() + data@.len() <= MAX_BODY,
            r matches Ok(()) ==> final(self)@ == old(self)@ + data@,
            r matches Err(e) ==> e == Error::NoMem && *final(self) == *old(self),
    {
        if data.len() > MAX_BODY || self.body.len() > MAX_BODY - data.len() {
            return Err(Error::NoMem);
        }
        let mut i: usize = 0;
        let ghost pre = self.body@;
        while i < data.len()
            invariant
                i <= data@.len(),
                pre.len() + data@.len() <= MAX_BODY,
                self.body@ == pre + data@.take(i as int),
            decreases data@.len() - i,
        {
            self.body.push(data[i]);
            proof {
                assert(pre + data@.take(i as int).push(data@[i as int]) =~= pre + data@.take(
                    i + 1,
                ));
            }
            i = i + 1;
        }
        proof {
            assert(pre + data@.take(data@.len() as int) =~= pre + data@);
        }
        Ok(())
    }

    /// TLV-encode one option — code, length (these two header bytes
    /// included), data — and append it to the body. The option length
    /// must fit its one-byte field and the body its length field.
    pub fn append_option(&mut self, code: u8, data: &[u8]) -> (r: Result<(), Error>)
        ensures
            r matches Ok(()) <==> data@.len() <= 253 && old(self)@.len() + 2 + data@.len()
                <= MAX_BODY,
            r matches Ok(()) ==> final(self)@ == old(self)@ + seq![
                code,
                (data@.len() + 2) as u8,
            ] + data@,
            r matches Err(e) ==> e == Error::NoMem && *final(self) == *old(self),
    {
        if data.len() > 253 || self.body.len() > MAX_BODY - 2 - data.len() {
            return Err(Error::NoMem);
        }
        let ghost pre = self.body@;
        self.body.push(code);
        self.body.push((data.len() + 2) as u8);
        proof {
            assert(pre.push(code).push((data@.len() + 2) as u8) =~= pre + seq![
                code,
                (data@.len() + 2) as u8,
            ]);
        }
        let _ = self.append(data);
        Ok(())
    }

    /// Discard everything buffered so far.
    pub fn reset(&mut self)
        ensures
            final(self)@ == Seq::<u8>::empty(),
    {
        self.body.clear();
    }

    /// Emit the packet as one frame: the protocol field, the header with
    /// the computed length, and the body.
    pub fn write(&self, w: &mut FrameWriter, proto: ProtocolType, code: Code, id: u8) -> (r:
        Result<(), Error>)
        requires
            old(w).wf(),
            old(w)@.phase is Idle,
            self@.len() <= MAX_BODY,
        ensures
            final(w).wf(),
            final(w)@.cap == old(w)@.cap,
            r matches Ok(()) <==> old(w)@.out.len() + encode_frame(
                packet_bytes(proto.0, code, id, self@),
            ).len() <= old(w)@.cap,
            r matches Ok(()) ==> {
                &&& final(w)@.phase is Idle
                &&& final(w)@.out == old(w)@.out + encode_frame(
                    packet_bytes(proto.0, code, id, self@),
                )
            },
            r matches Err(e) ==> e == Error::NoMem && final(w)@.phase is Failed,
    {
        let ghost pkt = packet_bytes(proto.0, code, id, self@);
        let len: u16 = (self.body.len() + 4) as u16;
        let mut header: Vec<u8> = Vec::new();
        header.push((proto.0 >> 8) as u8);
        header.push(proto.0 as u8);
        header.push(code.to_u8());
        header.push(id);
        header.push((len >> 8) as u8);
        header.push(len as u8);
        proof {
            assert(header@ =~= pkt.take(6));
        }
        match w.start() {
            Ok(()) => {},
            Err(e) => {
                proof {
                    lemma_frame_payload_longer(old(w)@.out, pkt, Seq::<u8>::empty());
                }
                return Err(e);
            },
        }
        match w.append(header.as_slice()) {
            Ok(()) => {},
            Err(e) => {
                proof {
                    assert(Seq::<u8>::empty() + header@ =~= header@);
                    assert(header@ =~= pkt.take(6));
                    lemma_frame_payload_longer(old(w)@.out, pkt, pkt.take(6));
                }
                return Err(e);
            },
        }
        match w.append(self.body.as_slice()) {
            Ok(()) => {},
            Err(e) => {
                proof {
                    assert(Seq::<u8>::empty() + header@ =~= header@);
                    assert(header@ + self.body@ =~= pkt);
                    lemma_frame_payload_longer(old(w)@.out, pkt, pkt);
                }
                return Err(e);
            },
        }
        proof {
            assert(Seq::<u8>::empty() + header@ =~= header@);
            assert(header@ + self.body@ =~= pkt);
        }
        w.finish()
    }
}

/// A frame over a longer payload never gets shorter: used to turn "the
/// opening bytes did not fit" into "the whole frame would not have fit".
pub proof fn lemma_frame_payload_longer(out: Seq<u8>, pkt: Seq<u8>, prefix: Seq<u8>)
    requires
        prefix.is_prefix_of(pkt),
    ensures
        out.len() + 3 + crate::frame_writer::escaped(prefix).len() <= out.len() + encode_frame(
            pkt,
        ).len(),
{
    assert(pkt =~= prefix + pkt.skip(prefix.len() as int));
    crate::frame_writer::lemma_escaped_append(prefix, pkt.skip(prefix.len() as int));
    let stored = crate::frame_writer::frame_stored(pkt);
    assert(stored =~= (seq![0x03u8] + pkt) + crate::frame_writer::frame_fcs_bytes(pkt));
    crate::frame_writer::lemma_escaped_append(
        seq![0x03u8] + pkt,
        crate::frame_writer::frame_fcs_bytes(pkt),
    );
    crate::frame_writer::lemma_escaped_append(seq![0x03u8], pkt);
}

} // verus!
