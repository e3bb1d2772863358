//! The generic option-negotiation state machine shared by the PPP
//! sub-protocols (RFC 1661): issuing Configure-Request, evaluating a
//! peer's Configure-Request option by option, handling Ack/Nack/Reject,
//! and answering Echo-Request and Terminate control packets.

use vstd::prelude::*;

use crate::frame_writer::{encode_frame, FrameWriter};
use crate::packet_writer::{lemma_frame_payload_longer, packet_bytes, PacketWriter, MAX_BODY};
use crate::{code_of, Code, Error, ProtocolType};
use vstd::pervasive::VecAdditionalExecFns;

verus! {

/// The outcome of evaluating one option offered by the peer: accept it
/// as-is, ask for a different value, or reject it outright.
pub enum Verdict {
    Ack,
    Nack(Vec<u8>),
    Rej,
}

/// The mathematical form of a [`Verdict`].
pub enum VerdictModel {
    Ack,
    Nack(Seq<u8>),
    Rej,
}

impl View for Verdict {
    type V = VerdictModel;

    open spec fn view(&self) -> VerdictModel {
        match self {
            Verdict::Ack => VerdictModel::Ack,
            Verdict::Nack(d) => VerdictModel::Nack(d@),
            Verdict::Rej => VerdictModel::Rej,
        }
    }
}

/// The contract a concrete sub-protocol (LCP, IPCP, ...) implements to
/// plug into the shared negotiation engine. Each executable method is
/// pinned to a specification-level function of the protocol's state, so
/// the engine's own contract can describe the negotiation exactly.
pub trait Protocol: Sized {
    /// The 2-byte protocol field value this instance negotiates under.
    spec fn proto_id(&self) -> u16;

    /// The TLV bytes of this instance's own outgoing options.
    spec fn own_opts(&self) -> Seq<u8>;

    /// Whether `own_options` succeeds when the packet body already holds
    /// `prior` bytes.
    spec fn own_opts_fit(&self, prior: nat) -> bool;

    /// The state after `peer_options_start`.
    spec fn after_peer_start(&self) -> Self;

    /// The verdict `peer_option_received` returns for an offered option.
    spec fn peer_verdict(&self, code: u8, data: Seq<u8>) -> VerdictModel;

    /// The state after `peer_option_received`.
    spec fn after_peer_option(&self, code: u8, data: Seq<u8>) -> Self;

    /// The state after `own_option_nacked`.
    spec fn after_own_option_nacked(&self, code: u8, data: Seq<u8>, is_rej: bool) -> Self;

    /// The protocol field value for outgoing packets.
    fn protocol(&self) -> (r: ProtocolType)
        ensures
            r.0 == self.proto_id(),
    ;

    /// Append this instance's desired options to an outgoing
    /// Configure-Request body.
    fn own_options(&mut self, p: &mut PacketWriter) -> (r: Result<(), Error>)
        ensures
            *final(self) == *old(self),
            r matches Ok(()) <==> old(self).own_opts_fit(old(p)@.len()),
            r matches Ok(()) ==> final(p)@ == old(p)@ + old(self).own_opts(),
            (r matches Ok(()) && old(p)@.len() == 0) ==> final(p)@.len() <= MAX_BODY,
            r matches Err(e) ==> e == Error::NoMem,
    ;

    /// The peer answered Nack or Reject to one of our options; adjust
    /// the option set for the next attempt.
    fn own_option_nacked(&mut self, code: u8, data: &[u8], is_rej: bool)
        ensures
            *final(self) == old(self).after_own_option_nacked(code, data@, is_rej),
    ;

    /// Called once before the options of a peer Configure-Request are
    /// evaluated.
    fn peer_options_start(&mut self)
        ensures
            *final(self) == old(self).after_peer_start(),
    ;

    /// Evaluate one option offered by the peer.
    fn peer_option_received(&mut self, code: u8, data: &[u8]) -> (v: Verdict)
        ensures
            *final(self) == old(self).after_peer_option(code, data@),
            v@ == old(self).peer_verdict(code, data@),
    ;
}

/// One TLV option carved out of a packet: its code and its data bytes.
pub struct PacketOption {
    pub code: u8,
    pub data: Vec<u8>,
}

impl View for PacketOption {
    type V = (u8, Seq<u8>);

    open spec fn view(&self) -> (u8, Seq<u8>) {
        (self.code, self.data@)
    }
}

/// Parse a TLV option region: each option is a code byte, a length byte
/// counting the 2 header bytes, and `length - 2` data bytes. An option
/// length under 2, or one overrunning the region, is a hard parse error.
pub open spec fn parse_opts(s: Seq<u8>) -> Option<Seq<(u8, Seq<u8>)>>
    decreases s.len(),
{
    if s.len() == 0 {
        Some(Seq::empty())
    } else if s.len() < 2 {
        None
    } else {
        let len = s[1] as int;
        if len < 2 || s.len() < len {
            None
        } else {
            match parse_opts(s.skip(len)) {
                Some(rest) => Some(seq![(s[0], s.subrange(2, len))] + rest),
                None => None,
            }
        }
    }
}

/// Parse the option region of a control packet: everything after the
/// 2-byte protocol field and the 4-byte header.
pub open spec fn parse_packet_opts(pkt: Seq<u8>) -> Option<Seq<(u8, Seq<u8>)>> {
    if pkt.len() < 6 {
        None
    } else {
        parse_opts(pkt.skip(6))
    }
}

/// The options a parsed vector stands for.
pub open spec fn opts_view(v: Seq<PacketOption>) -> Seq<(u8, Seq<u8>)> {
    v.map_values(|o: PacketOption| o@)
}

/// Carve the options out of a control packet (2-byte protocol field and
/// 4-byte header included), or report the first malformation.
pub fn parse_options(pkt: &[u8]) -> (r: Result<Vec<PacketOption>, Error>)
    ensures
        match parse_packet_opts(pkt@) {
            Some(os) => r matches Ok(v) && opts_view(v@) == os,
            None => r matches Err(e) && e == Error::TooShort,
        },
{
    if pkt.len() < 6 {
        return Err(Error::TooShort);
    }
    let mut out: Vec<PacketOption> = Vec::new();
    let mut idx: usize = 6;
    proof {
        assert(opts_view(out@) =~= Seq::<(u8, Seq<u8>)>::empty());
    }
    while idx < pkt.len()
        invariant
            6 <= idx <= pkt@.len(),
            match parse_opts(pkt@.skip(idx as int)) {
                Some(rest) => parse_packet_opts(pkt@) == Some(opts_view(out@) + rest),
                None => parse_packet_opts(pkt@) is None,
            },
        decreases pkt@.len() - idx,
    {
        let ghost s = pkt@.skip(idx as int);
        if pkt.len() - idx < 2 {
            return Err(Error::TooShort);
        }
        let code = pkt[idx];
        let len = pkt[idx + 1] as usize;
        if pkt.len() - idx < len {
            return Err(Error::TooShort);
        }
        if len < 2 {
            return Err(Error::TooShort);
        }
        let mut data: Vec<u8> = Vec::new();
        let end: usize = idx + len;
        let mut j: usize = idx + 2;
        while j < end
            invariant
                idx + 2 <= j <= end,
                end == idx + len,
                end <= pkt@.len(),
                data@ == pkt@.subrange(idx + 2, j as int),
            decreases end - j,
        {
            data.push(pkt[j]);
            proof {
                assert(pkt@.subrange(idx + 2, j as int).push(pkt@[j as int]) =~= pkt@.subrange(
                    idx + 2,
                    j + 1,
                ));
            }
            j = j + 1;
        }
        let ghost pre = opts_view(out@);
        let ghost opt = (s[0], s.subrange(2, len as int));
        out.push(PacketOption { code, data });
        proof {
            assert(s[0] == pkt@[idx as int]);
            assert(s[1] == pkt@[idx + 1]);
            assert(s.subrange(2, len as int) =~= pkt@.subrange(idx + 2, idx + len));
            assert(s.skip(len as int) =~= pkt@.skip(idx + len));
            assert(opts_view(out@) =~= pre.push(opt));
            match parse_opts(pkt@.skip(idx + len)) {
                Some(rest2) => {
                    assert(parse_opts(s) == Some(seq![opt] + rest2));
                    assert(pre + (seq![opt] + rest2) =~= pre.push(opt) + rest2);
                },
                None => {
                    assert(parse_opts(s) is None);
                },
            }
        }
        idx = idx + len;
    }
    proof {
        assert(pkt@.skip(idx as int) =~= Seq::<u8>::empty());
        assert(parse_opts(Seq::<u8>::empty()) == Some(Seq::<(u8, Seq<u8>)>::empty()));
        assert(opts_view(out@) + Seq::<(u8, Seq<u8>)>::empty() =~= opts_view(out@));
    }
    Ok(out)
}

/// The negotiation state of one protocol instance (RFC 1661 §4.2,
/// reduced to the states this engine visits).
#[derive(Debug, Clone, Copy, PartialEq, Eq, Structural)]
pub enum State {
    Closed,
    ReqSent,
    AckReceived,
    AckSent,
    Opened,
}

/// The severity of a reply code during Configure-Request evaluation:
/// Ack < Nack < Reject. A worse verdict supersedes everything buffered
/// for a milder one.
pub open spec fn reply_rank(c: Code) -> int {
    match c {
        Code::ConfigureAck => 0,
        Code::ConfigureNack => 1,
        _ => 2,
    }
}

/// The identifier counter after one packet is originated: incremented,
/// wrapping around.
pub open spec fn next_id_spec(id: u8) -> u8 {
    if id == 255 {
        0
    } else {
        (id + 1) as u8
    }
}

/// What sending a Configure-Request does: whether it succeeds, the
/// identifier counter afterwards, the frame payload emitted on success,
/// and whether a failure left the frame writer dead.
pub struct SendOut {
    pub ok: bool,
    pub id: u8,
    pub payload: Seq<u8>,
    pub wfail: bool,
}

/// The outcome of originating a Configure-Request from protocol state
/// `p` with identifier counter `id`, into a writer holding `out_len`
/// bytes of a `cap`-byte buffer.
pub open spec fn cfg_req_send<P: Protocol>(p: P, id: u8, out_len: nat, cap: nat) -> SendOut {
    let nid = next_id_spec(id);
    let payload = packet_bytes(p.proto_id(), Code::ConfigureReq, nid, p.own_opts());
    if !p.own_opts_fit(0) {
        SendOut { ok: false, id: id, payload: Seq::empty(), wfail: false }
    } else if out_len + encode_frame(payload).len() > cap {
        SendOut { ok: false, id: nid, payload: Seq::empty(), wfail: true }
    } else {
        SendOut { ok: true, id: nid, payload: payload, wfail: false }
    }
}

/// One step of evaluating a peer's option list: the protocol state, the
/// worst reply code so far, the reply body buffered so far, and whether
/// the reply still fits its packet.
pub struct CfgEval<P> {
    pub proto: P,
    pub code: Code,
    pub body: Seq<u8>,
    pub ok: bool,
}

/// Fold over a peer's option list: each option gets a verdict; a verdict
/// strictly worse than the running worst discards the buffered reply and
/// adopts the new code; only options matching the running worst are
/// appended to the reply (for a Nack, with the suggested data).
pub open spec fn eval_peer_opts<P: Protocol>(
    p: P,
    opts: Seq<(u8, Seq<u8>)>,
    code: Code,
    body: Seq<u8>,
) -> CfgEval<P>
    decreases opts.len(),
{
    if opts.len() == 0 {
        CfgEval { proto: p, code: code, body: body, ok: true }
    } else {
        let oc = opts.first().0;
        let od = opts.first().1;
        let v = p.peer_verdict(oc, od);
        let p2 = p.after_peer_option(oc, od);
        let rc = match v {
            VerdictModel::Ack => Code::ConfigureAck,
            VerdictModel::Nack(_) => Code::ConfigureNack,
            VerdictModel::Rej => Code::ConfigureRej,
        };
        let rd = match v {
            VerdictModel::Nack(d) => d,
            _ => od,
        };
        let code2 = if reply_rank(code) < reply_rank(rc) {
            rc
        } else {
            code
        };
        let body2 = if reply_rank(code) < reply_rank(rc) {
            Seq::<u8>::empty()
        } else {
            body
        };
        if code2 == rc {
            if rd.len() <= 253 && body2.len() + 2 + rd.len() <= MAX_BODY as nat {
                eval_peer_opts(
                    p2,
                    opts.drop_first(),
                    code2,
                    body2 + seq![oc, (rd.len() + 2) as u8] + rd,
                )
            } else {
                CfgEval { proto: p2, code: code2, body: body2, ok: false }
            }
        } else {
            eval_peer_opts(p2, opts.drop_first(), code2, body2)
        }
    }
}

/// Applying a Configure-Nack or Configure-Reject: every option in the
/// packet is reported to the protocol in order.
pub open spec fn apply_nacks<P: Protocol>(p: P, opts: Seq<(u8, Seq<u8>)>, is_rej: bool) -> P
    decreases opts.len(),
{
    if opts.len() == 0 {
        p
    } else {
        apply_nacks(
            p.after_own_option_nacked(opts.first().0, opts.first().1, is_rej),
            opts.drop_first(),
            is_rej,
        )
    }
}

/// Drives RFC-1661-style option negotiation for one sub-protocol,
/// parameterized by its [`Protocol`] implementation.
pub struct StateMachine<P> {
    id: u8,
    state: State,
    proto: P,
}

impl<P> StateMachine<P> {
    /// The identifier counter.
    pub closed spec fn spec_id(&self) -> u8 {
        self.id
    }

    /// The negotiation state.
    pub closed spec fn spec_state(&self) -> State {
        self.state
    }

    /// The protocol instance.
    pub closed spec fn spec_proto(&self) -> P {
        self.proto
    }
}

impl<P: Protocol> StateMachine<P> {
    /// A machine for `proto`, closed, with the identifier counter at 1.
    pub fn new(proto: P) -> (r: Self)
        ensures
            r.spec_id() == 1,
            r.spec_state() is Closed,
            r.spec_proto() == proto,
    {
        Self { id: 1, state: State::Closed, proto }
    }

    /// The current negotiation state.
    pub fn state(&self) -> (r: State)
        ensures
            r == self.spec_state(),
    {
        self.state
    }

    /// The protocol instance, for the caller to inspect or adjust.
    pub fn proto(&mut self) -> (r: &mut P)
        ensures
            *r == old(self).spec_proto(),
            final(self).spec_proto() == *final(r),
            final(self).spec_id() == old(self).spec_id(),
            final(self).spec_state() == old(self).spec_state(),
    {
        &mut self.proto
    }

    /// Bring the link up: from `Closed`, send a Configure-Request and
    /// move to `ReqSent`; in any other state, do nothing.
    pub fn open(&mut self, w: &mut FrameWriter) -> (r: Result<(), Error>)
        requires
            old(w).wf(),
            old(w)@.phase is Idle,
        ensures
            final(w).wf(),
            final(w)@.cap == old(w)@.cap,
            final(self).spec_proto() == old(self).spec_proto(),
            !(old(self).spec_state() is Closed) ==> (r matches Ok(())) && *final(self)
                == *old(self) && *final(w) == *old(w),
            old(self).spec_state() is Closed ==> ({
                let s = cfg_req_send(
                    old(self).spec_proto(),
                    old(self).spec_id(),
                    old(w)@.out.len(),
                    old(w)@.cap,
                );
                &&& final(self).spec_id() == s.id
                &&& (r matches Ok(()) <==> s.ok)
                &&& s.ok ==> final(self).spec_state() is ReqSent && final(w)@.out == old(w)@.out
                    + encode_frame(s.payload) && final(w)@.phase is Idle
                &&& !s.ok ==> (r matches Err(e) && e == Error::NoMem) && final(self).spec_state()
                    == old(self).spec_state()
                &&& (!s.ok && !s.wfail) ==> *final(w) == *old(w)
                &&& (!s.ok && s.wfail) ==> final(w)@.phase is Failed
            }),
    {
        match self.state {
            State::Closed => {
                match self.send_configure_request(w) {
                    Ok(()) => {},
                    Err(e) => {
                        return Err(e);
                    },
                }
                self.state = State::ReqSent;
            },
            _ => {},
        }
        Ok(())
    }

    /// Tear the link down: the state becomes `Closed`. Nothing is sent.
    pub fn close(&mut self, w: &mut FrameWriter) -> (r: Result<(), Error>)
        ensures
            r matches Ok(()),
            final(self).spec_state() is Closed,
            final(self).spec_id() == old(self).spec_id(),
            final(self).spec_proto() == old(self).spec_proto(),
            *final(w) == *old(w),
    {
        self.state = State::Closed;
        Ok(())
    }

    /// Advance the identifier counter and return its new value.
    fn next_id(&mut self) -> (r: u8)
        ensures
            r == next_id_spec(old(self).spec_id()),
            final(self).spec_id() == r,
            final(self).spec_state() == old(self).spec_state(),
            final(self).spec_proto() == old(self).spec_proto(),
    {
        self.id = if self.id == 255 {
            0
        } else {
            self.id + 1
        };
        self.id
    }

    /// Originate a Configure-Request carrying the protocol's own options
    /// under a fresh identifier.
    fn send_configure_request(&mut self, w: &mut FrameWriter) -> (r: Result<(), Error>)
        requires
            old(w).wf(),
            old(w)@.phase is Idle,
        ensures
            final(w).wf(),
            final(w)@.cap == old(w)@.cap,
            final(self).spec_state() == old(self).spec_state(),
            final(self).spec_proto() == old(self).spec_proto(),
            ({
                let s = cfg_req_send(
                    old(self).spec_proto(),
                    old(self).spec_id(),
                    old(w)@.out.len(),
                    old(w)@.cap,
                );
                &&& final(self).spec_id() == s.id
                &&& (r matches Ok(()) <==> s.ok)
                &&& s.ok ==> final(w)@.out == old(w)@.out + encode_frame(s.payload) && final(w)@.phase is Idle
                &&& !s.ok ==> (r matches Err(e) && e == Error::NoMem)
                &&& (!s.ok && !s.wfail) ==> *final(w) == *old(w)
                &&& (!s.ok && s.wfail) ==> final(w)@.phase is Failed
            }),
    {
        let mut p = PacketWriter::new();
        match self.proto.own_options(&mut p) {
            Ok(()) => {},
            Err(e) => {
                return Err(e);
            },
        }
        proof {
            assert(Seq::<u8>::empty() + old(self).spec_proto().own_opts()
                =~= old(self).spec_proto().own_opts());
        }
        let id = self.next_id();
        let proto = self.proto.protocol();
        p.write(w, proto, Code::ConfigureReq, id)
    }

    /// Answer a Terminate-Request (or any packet received while closed)
    /// with a Terminate-Ack under the peer's identifier.
    fn send_terminate_ack(&mut self, id: u8, w: &mut FrameWriter) -> (r: Result<(), Error>)
        requires
            old(w).wf(),
            old(w)@.phase is Idle,
        ensures
            final(w).wf(),
            final(w)@.cap == old(w)@.cap,
            *final(self) == *old(self),
            ({
                let payload = packet_bytes(
                    old(self).spec_proto().proto_id(),
                    Code::TerminateAck,
                    id,
                    Seq::<u8>::empty(),
                );
                &&& (r matches Ok(()) <==> old(w)@.out.len() + encode_frame(payload).len() <= old(w)@.cap)
                &&& r matches Ok(()) ==> final(w)@.out == old(w)@.out + encode_frame(payload)
                    && final(w)@.phase is Idle
                &&& r matches Err(e) ==> e == Error::NoMem && final(w)@.phase is Failed
            }),
    {
        let p = PacketWriter::new();
        let proto = self.proto.protocol();
        p.write(w, proto, Code::TerminateAck, id)
    }

    /// Ask the peer to bring the link down.
    #[allow(dead_code)]
    fn send_terminate_request(&mut self, reason: &[u8], w: &mut FrameWriter) -> (r: Result<
        (),
        Error,
    >)
        requires
            old(w).wf(),
            old(w)@.phase is Idle,
        ensures
            final(w).wf(),
            final(w)@.cap == old(w)@.cap,
            final(self).spec_state() == old(self).spec_state(),
            final(self).spec_proto() == old(self).spec_proto(),
            reason@.len() > MAX_BODY ==> (r matches Err(e) && e == Error::NoMem) && final(self).spec_id() == old(self).spec_id() && *final(w) == *old(w),
            reason@.len() <= MAX_BODY ==> ({
                let nid = next_id_spec(old(self).spec_id());
                let payload = packet_bytes(
                    old(self).spec_proto().proto_id(),
                    Code::TerminateReq,
                    nid,
                    reason@,
                );
                &&& final(self).spec_id() == nid
                &&& (r matches Ok(()) <==> old(w)@.out.len() + encode_frame(payload).len() <= old(w)@.cap)
                &&& r matches Ok(()) ==> final(w)@.out == old(w)@.out + encode_frame(payload)
                    && final(w)@.phase is Idle
                &&& r matches Err(e) ==> e == Error::NoMem && final(w)@.phase is Failed
            }),
    {
        let mut p = PacketWriter::new();
        match p.append(reason) {
            Ok(()) => {},
            Err(e) => {
                return Err(e);
            },
        }
        proof {
            assert(Seq::<u8>::empty() + reason@ =~= reason@);
        }
        let id = self.next_id();
        let proto = self.proto.protocol();
        p.write(w, proto, Code::TerminateReq, id)
    }

    /// Reject a packet whose code this engine does not recognise,
    /// echoing the offending packet (without its protocol field).
    #[allow(dead_code)]
    fn send_code_reject(&mut self, pkt: &[u8], w: &mut FrameWriter) -> (r: Result<(), Error>)
        requires
            old(w).wf(),
            old(w)@.phase is Idle,
            pkt@.len() >= 2,
        ensures
            final(w).wf(),
            final(w)@.cap == old(w)@.cap,
            final(self).spec_state() == old(self).spec_state(),
            final(self).spec_proto() == old(self).spec_proto(),
            pkt@.len() - 2 > MAX_BODY ==> (r matches Err(e) && e == Error::NoMem) && final(self).spec_id() == old(self).spec_id() && *final(w) == *old(w),
            pkt@.len() - 2 <= MAX_BODY ==> ({
                let nid = next_id_spec(old(self).spec_id());
                let payload = packet_bytes(
                    old(self).spec_proto().proto_id(),
                    Code::CodeRej,
                    nid,
                    pkt@.skip(2),
                );
                &&& final(self).spec_id() == nid
                &&& (r matches Ok(()) <==> old(w)@.out.len() + encode_frame(payload).len() <= old(w)@.cap)
                &&& r matches Ok(()) ==> final(w)@.out == old(w)@.out + encode_frame(payload)
                    && final(w)@.phase is Idle
                &&& r matches Err(e) ==> e == Error::NoMem && final(w)@.phase is Failed
            }),
    {
        let mut p = PacketWriter::new();
        let body = vstd::slice::slice_subrange(pkt, 2, pkt.len());
        match p.append(body) {
            Ok(()) => {},
            Err(e) => {
                return Err(e);
            },
        }
        proof {
            assert(Seq::<u8>::empty() + pkt@.skip(2) =~= pkt@.skip(2));
        }
        let id = self.next_id();
        let proto = self.proto.protocol();
        p.write(w, proto, Code::CodeRej, id)
    }

    /// Tell a higher layer's peer that a protocol field was not
    /// recognised, echoing the offending packet.
    pub fn send_protocol_reject(&mut self, pkt: &[u8], w: &mut FrameWriter) -> (r: Result<
        (),
        Error,
    >)
        requires
            old(w).wf(),
            old(w)@.phase is Idle,
        ensures
            final(w).wf(),
            final(w)@.cap == old(w)@.cap,
            final(self).spec_state() == old(self).spec_state(),
            final(self).spec_proto() == old(self).spec_proto(),
            pkt@.len() > MAX_BODY ==> (r matches Err(e) && e == Error::NoMem) && final(self).spec_id() == old(self).spec_id() && *final(w) == *old(w),
            pkt@.len() <= MAX_BODY ==> ({
                let nid = next_id_spec(old(self).spec_id());
                let payload = packet_bytes(
                    old(self).spec_proto().proto_id(),
                    Code::ProtocolRej,
                    nid,
                    pkt@,
                );
                &&& final(self).spec_id() == nid
                &&& (r matches Ok(()) <==> old(w)@.out.len() + encode_frame(payload).len() <= old(w)@.cap)
                &&& r matches Ok(()) ==> final(w)@.out == old(w)@.out + encode_frame(payload)
                    && final(w)@.phase is Idle
                &&& r matches Err(e) ==> e == Error::NoMem && final(w)@.phase is Failed
            }),
    {
        let mut p = PacketWriter::new();
        match p.append(pkt) {
            Ok(()) => {},
            Err(e) => {
                return Err(e);
            },
        }
        proof {
            assert(Seq::<u8>::empty() + pkt@ =~= pkt@);
        }
        let id = self.next_id();
        let proto = self.proto.protocol();
        p.write(w, proto, Code::ProtocolRej, id)
    }

    /// Answer an Echo-Request: overwrite the code field with Echo-Reply
    /// and send the packet back unchanged otherwise.
    fn send_echo_response(&mut self, pkt: &mut Vec<u8>, end: usize, w: &mut FrameWriter) -> (r:
        Result<(), Error>)
        requires
            old(w).wf(),
            old(w)@.phase is Idle,
            old(pkt)@.len() >= 3,
            end <= old(pkt)@.len(),
        ensures
            final(w).wf(),
            final(w)@.cap == old(w)@.cap,
            *final(self) == *old(self),
            final(pkt)@ == old(pkt)@.update(2, 10u8),
            ({
                let payload = old(pkt)@.update(2, 10u8).take(end as int);
                &&& (r matches Ok(()) <==> old(w)@.out.len() + encode_frame(payload).len() <= old(w)@.cap)
                &&& r matches Ok(()) ==> final(w)@.out == old(w)@.out + encode_frame(payload)
                    && final(w)@.phase is Idle
                &&& r matches Err(e) ==> e == Error::NoMem && final(w)@.phase is Failed
            }),
    {
        pkt.set(2, Code::EchoReply.to_u8());
        let ghost payload = pkt@.take(end as int);
        match w.start() {
            Ok(()) => {},
            Err(e) => {
                proof {
                    lemma_frame_payload_longer(old(w)@.out, payload, Seq::<u8>::empty());
                }
                return Err(e);
            },
        }
        let body = vstd::slice::slice_subrange(pkt.as_slice(), 0, end);
        match w.append(body) {
            Ok(()) => {},
            Err(e) => {
                proof {
                    assert(Seq::<u8>::empty() + payload =~= payload);
                    lemma_frame_payload_longer(old(w)@.out, payload, payload);
                }
                return Err(e);
            },
        }
        proof {
            assert(Seq::<u8>::empty() + payload =~= payload);
        }
        w.finish()
    }

    /// Evaluate a peer's Configure-Request and send the reply: the worst
    /// verdict over its options decides the reply code, and only options
    /// matching it are echoed (with the suggested data for a Nack).
    /// Returns whether the request was accepted in full.
    #[verifier::loop_isolation(false)]
    fn received_configure_req(&mut self, pkt: &[u8], w: &mut FrameWriter) -> (r: Result<
        bool,
        Error,
    >)
        requires
            old(w).wf(),
            old(w)@.phase is Idle,
        ensures
            final(w).wf(),
            final(w)@.cap == old(w)@.cap,
            final(self).spec_id() == old(self).spec_id(),
            final(self).spec_state() == old(self).spec_state(),
            match parse_packet_opts(pkt@) {
                None => {
                    &&& r matches Err(e) && e == Error::TooShort
                    &&& final(self).spec_proto() == old(self).spec_proto()
                    &&& *final(w) == *old(w)
                },
                Some(os) => {
                    let ev = eval_peer_opts(
                        old(self).spec_proto().after_peer_start(),
                        os,
                        Code::ConfigureAck,
                        Seq::<u8>::empty(),
                    );
                    let payload = packet_bytes(ev.proto.proto_id(), ev.code, pkt@[3], ev.body);
                    &&& final(self).spec_proto() == ev.proto
                    &&& !ev.ok ==> (r matches Err(e) && e == Error::NoMem) && *final(w) == *old(w)
                    &&& ev.ok && old(w)@.out.len() + encode_frame(payload).len() <= old(w)@.cap
                        ==> (r matches Ok(b) && b == (ev.code is ConfigureAck)) && final(w)@.out
                        == old(w)@.out + encode_frame(payload) && final(w)@.phase is Idle
                    &&& ev.ok && old(w)@.out.len() + encode_frame(payload).len() > old(w)@.cap
                        ==> (r matches Err(e) && e == Error::NoMem) && final(w)@.phase is Failed
                },
            },
    {
        let opts = match parse_options(pkt) {
            Ok(v) => v,
            Err(e) => {
                return Err(e);
            },
        };
        let id = pkt[3];
        let ghost os = opts_view(opts@);
        self.proto.peer_options_start();
        let ghost p0 = self.spec_proto();
        let mut p = PacketWriter::new();
        let mut code = Code::ConfigureAck;
        let mut i: usize = 0;
        proof {
            assert(os.skip(0) =~= os);
        }
        while i < opts.len()
            invariant
                i <= opts@.len(),
                os == opts_view(opts@),
                self.spec_id() == old(self).spec_id(),
                self.spec_state() == old(self).spec_state(),
                *w == *old(w),
                p@.len() <= MAX_BODY,
                eval_peer_opts(p0, os, Code::ConfigureAck, Seq::<u8>::empty()) == eval_peer_opts(
                    self.spec_proto(),
                    os.skip(i as int),
                    code,
                    p@,
                ),
            decreases opts@.len() - i,
        {
            let o = &opts[i];
            let ghost pcur = self.spec_proto();
            let ghost scur = os.skip(i as int);
            proof {
                assert(os[i as int] == opts@[i as int]@);
                assert(scur.first() == os[i as int]);
                assert(scur.drop_first() =~= os.skip(i + 1));
            }
            let v = self.proto.peer_option_received(o.code, o.data.as_slice());
            let rc = match &v {
                Verdict::Ack => Code::ConfigureAck,
                Verdict::Nack(_) => Code::ConfigureNack,
                Verdict::Rej => Code::ConfigureRej,
            };
            if reply_rank_exec(code) < reply_rank_exec(rc) {
                code = rc;
                p.reset();
            }
            if code == rc {
                let res = match &v {
                    Verdict::Nack(d) => p.append_option(o.code, d.as_slice()),
                    _ => p.append_option(o.code, o.data.as_slice()),
                };
                match res {
                    Ok(()) => {},
                    Err(e) => {
                        return Err(e);
                    },
                }
            }
            i = i + 1;
        }
        proof {
            assert(os.skip(opts@.len() as int) =~= Seq::<(u8, Seq<u8>)>::empty());
        }
        let proto = self.proto.protocol();
        match p.write(w, proto, code, id) {
            Ok(()) => Ok(code == Code::ConfigureAck),
            Err(e) => Err(e),
        }
    }
}

/// The declared length field of a control packet: big-endian, at byte
/// offsets 4 and 5 (after the 2-byte protocol field).
pub open spec fn pkt_len(pkt: Seq<u8>) -> int {
    (pkt[4] as int) * 256 + (pkt[5] as int)
}

/// A control packet is processable when it holds the protocol field and
/// the header, and its declared length fits its physical size.
pub open spec fn pkt_good(pkt: Seq<u8>) -> bool {
    pkt.len() >= 6 && pkt_len(pkt) + 2 <= pkt.len()
}

/// Whether one more frame with `payload` fits the writer's buffer.
pub open spec fn send_fits(w: crate::frame_writer::WriterModel, payload: Seq<u8>) -> bool {
    w.out.len() + encode_frame(payload).len() <= w.cap
}

/// The writer emitted exactly one frame with `payload` and is idle again.
pub open spec fn emitted_one(
    w0: crate::frame_writer::WriterModel,
    w1: crate::frame_writer::WriterModel,
    payload: Seq<u8>,
) -> bool {
    w1.out == w0.out + encode_frame(payload) && w1.phase is Idle
}

/// The state after a fully processed Configure-Request, for states other
/// than `Closed` and `Opened`: acceptance advances the handshake,
/// anything else falls back towards `ReqSent`.
pub open spec fn cfg_req_next_state(acked: bool, st: State) -> State {
    if acked {
        match st {
            State::ReqSent => State::AckSent,
            State::AckReceived => State::Opened,
            State::AckSent => State::AckSent,
            _ => st,
        }
    } else {
        match st {
            State::AckSent => State::ReqSent,
            _ => st,
        }
    }
}

impl<P: Protocol> StateMachine<P> {
    /// Dispatch one received control packet (protocol field included) on
    /// the current state: the RFC 1661 event table, driven purely by
    /// received packets and `open`/`close`.
    pub fn handle(&mut self, pkt: &mut Vec<u8>, w: &mut FrameWriter) -> (r: Result<(), Error>)
        requires
            old(w).wf(),
            old(w)@.phase is Idle,
        ensures
            final(w).wf(),
            final(w)@.cap == old(w)@.cap,
            ({
                let pkt0 = old(pkt)@;
                let m_id = old(self).spec_id();
                let m_state = old(self).spec_state();
                let m_proto = old(self).spec_proto();
                let w0 = old(w)@;
                let code = code_of(pkt0[2]);
                let eff = pkt0.take(pkt_len(pkt0) + 2);
                &&& !pkt_good(pkt0) ==> (r matches Err(e) && e == Error::TooShort) && *final(self)
                    == *old(self) && *final(w) == *old(w) && final(pkt)@ == pkt0
                &&& pkt_good(pkt0) && code is EchoReq && m_state is Opened ==> ({
                    let pay = pkt0.update(2, 10u8).take(pkt_len(pkt0) + 2);
                    &&& final(pkt)@ == pkt0.update(2, 10u8)
                    &&& final(self).spec_id() == m_id && final(self).spec_state() == m_state
                        && final(self).spec_proto() == m_proto
                    &&& send_fits(w0, pay) ==> (r matches Ok(())) && emitted_one(w0, final(w)@, pay)
                    &&& !send_fits(w0, pay) ==> (r matches Err(e) && e == Error::NoMem) && final(w)@.phase is Failed
                })
                &&& pkt_good(pkt0) && code is EchoReq && !(m_state is Opened) ==> (r matches Ok(())) && *final(self) == *old(self) && *final(w) == *old(w) && final(pkt)@ == pkt0
                &&& pkt_good(pkt0) && !(code is EchoReq) && m_state is Closed ==> ({
                    let pay = packet_bytes(
                        m_proto.proto_id(),
                        Code::TerminateAck,
                        pkt0[3],
                        Seq::<u8>::empty(),
                    );
                    &&& *final(self) == *old(self) && final(pkt)@ == pkt0
                    &&& send_fits(w0, pay) ==> (r matches Ok(())) && emitted_one(w0, final(w)@, pay)
                    &&& !send_fits(w0, pay) ==> (r matches Err(e) && e == Error::NoMem) && final(w)@.phase is Failed
                })
                &&& pkt_good(pkt0) && code is ConfigureReq && !(m_state is Closed) ==> ({
                    &&& final(pkt)@ == pkt0
                    &&& parse_packet_opts(eff) is None ==> (r matches Err(e) && e
                        == Error::TooShort) && *final(self) == *old(self) && *final(w) == *old(w)
                    &&& match parse_packet_opts(eff) {
                        None => true,
                        Some(os) => {
                            let ev = eval_peer_opts(
                                m_proto.after_peer_start(),
                                os,
                                Code::ConfigureAck,
                                Seq::<u8>::empty(),
                            );
                            let pay1 = packet_bytes(ev.proto.proto_id(), ev.code, eff[3], ev.body);
                            let acked = ev.code is ConfigureAck;
                            &&& final(self).spec_proto() == ev.proto
                            &&& !ev.ok ==> (r matches Err(e) && e == Error::NoMem) && *final(w)
                                == *old(w) && final(self).spec_state() == m_state && final(self).spec_id() == m_id
                            &&& ev.ok && !send_fits(w0, pay1) ==> (r matches Err(e) && e
                                == Error::NoMem) && final(w)@.phase is Failed && final(self).spec_state() == m_state && final(self).spec_id() == m_id
                            &&& ev.ok && send_fits(w0, pay1) && !(m_state is Opened) ==> (r
                                matches Ok(())) && emitted_one(w0, final(w)@, pay1) && final(self).spec_id() == m_id && final(self).spec_state() == cfg_req_next_state(
                                acked,
                                m_state,
                            )
                            &&& ev.ok && send_fits(w0, pay1) && m_state is Opened ==> ({
                                let s = cfg_req_send(
                                    ev.proto,
                                    m_id,
                                    w0.out.len() + encode_frame(pay1).len(),
                                    w0.cap,
                                );
                                &&& final(self).spec_id() == s.id
                                &&& s.ok ==> (r matches Ok(())) && final(w)@.out == w0.out
                                    + encode_frame(pay1) + encode_frame(s.payload) && final(w)@.phase is Idle && final(self).spec_state() == (
                                if acked {
                                    State::AckSent
                                } else {
                                    State::ReqSent
                                })
                                &&& !s.ok ==> (r matches Err(e) && e == Error::NoMem) && final(self).spec_state() is Opened
                                &&& (!s.ok && !s.wfail) ==> emitted_one(w0, final(w)@, pay1)
                                &&& (!s.ok && s.wfail) ==> final(w)@.phase is Failed
                            })
                        },
                    }
                })
                &&& pkt_good(pkt0) && code is ConfigureAck && !(m_state is Closed) ==> ({
                    &&& final(pkt)@ == pkt0
                    &&& final(self).spec_proto() == m_proto
                    &&& m_state is ReqSent ==> (r matches Ok(())) && final(self).spec_state() is AckReceived && final(self).spec_id() == m_id && *final(w)
                        == *old(w)
                    &&& m_state is AckSent ==> (r matches Ok(())) && final(self).spec_state() is Opened && final(self).spec_id() == m_id && *final(w) == *old(w)
                    &&& (m_state is AckReceived || m_state is Opened) ==> ({
                        let s = cfg_req_send(m_proto, m_id, w0.out.len(), w0.cap);
                        &&& final(self).spec_id() == s.id
                        &&& s.ok ==> (r matches Ok(())) && emitted_one(w0, final(w)@, s.payload)
                            && final(self).spec_state() is ReqSent
                        &&& !s.ok ==> (r matches Err(e) && e == Error::NoMem) && final(self).spec_state() == m_state
                        &&& (!s.ok && !s.wfail) ==> *final(w) == *old(w)
                        &&& (!s.ok && s.wfail) ==> final(w)@.phase is Failed
                    })
                })
                &&& pkt_good(pkt0) && (code is ConfigureNack || code is ConfigureRej) && !(
                m_state is Closed) ==> ({
                    &&& final(pkt)@ == pkt0
                    &&& parse_packet_opts(eff) is None ==> (r matches Err(e) && e
                        == Error::TooShort) && *final(self) == *old(self) && *final(w) == *old(w)
                    &&& match parse_packet_opts(eff) {
                        None => true,
                        Some(os) => {
                            let p2 = apply_nacks(m_proto, os, code is ConfigureRej);
                            let s = cfg_req_send(p2, m_id, w0.out.len(), w0.cap);
                            &&& final(self).spec_proto() == p2
                            &&& final(self).spec_id() == s.id
                            &&& s.ok ==> (r matches Ok(())) && emitted_one(w0, final(w)@, s.payload)
                                && final(self).spec_state() == (if m_state is AckSent {
                                m_state
                            } else {
                                State::ReqSent
                            })
                            &&& !s.ok ==> (r matches Err(e) && e == Error::NoMem) && final(self).spec_state() == m_state
                            &&& (!s.ok && !s.wfail) ==> *final(w) == *old(w)
                            &&& (!s.ok && s.wfail) ==> final(w)@.phase is Failed
                        },
                    }
                })
                &&& pkt_good(pkt0) && !(code is EchoReq) && !(code is ConfigureReq) && !(
                code is ConfigureAck) && !(code is ConfigureNack) && !(code is ConfigureRej) && !(
                m_state is Closed) ==> (r matches Ok(())) && *final(self) == *old(self) && *final(w) == *old(w) && final(pkt)@ == pkt0
            }),
    {
        if pkt.len() < 6 {
            return Err(Error::TooShort);
        }
        let code = Code::from_u8(pkt[2]);
        let id = pkt[3];
        let plen: usize = (pkt[4] as usize) * 256 + (pkt[5] as usize);
        if plen + 2 > pkt.len() {
            return Err(Error::TooShort);
        }
        let end = plen + 2;
        match code {
            Code::EchoReq => {
                // Reply only in Opened; an Echo-Request in any other
                // state (Closed included) is ignored.
                if self.state == State::Opened {
                    match self.send_echo_response(pkt, end, w) {
                        Ok(()) => {},
                        Err(e) => {
                            return Err(e);
                        },
                    }
                }
            },
            _ => {
                if self.state == State::Closed {
                    // While closed, answer any packet but an
                    // Echo-Request with a Terminate-Ack.
                    match self.send_terminate_ack(id, w) {
                        Ok(()) => {},
                        Err(e) => {
                            return Err(e);
                        },
                    }
                } else {
                    match code {
                        Code::ConfigureReq => {
                            let acked = {
                                let sub = vstd::slice::slice_subrange(pkt.as_slice(), 0, end);
                                proof {
                                    assert(sub@ =~= old(pkt)@.take(pkt_len(old(pkt)@) + 2));
                                }
                                match self.received_configure_req(sub, w) {
                                    Ok(b) => b,
                                    Err(e) => {
                                        return Err(e);
                                    },
                                }
                            };
                            match (acked, self.state) {
                                (_, State::Closed) => {
                                    proof {
                                        assert(false);
                                    }
                                },
                                (true, State::ReqSent) => {
                                    self.state = State::AckSent;
                                },
                                (true, State::AckReceived) => {
                                    self.state = State::Opened;
                                },
                                (true, State::AckSent) => {},
                                (true, State::Opened) => {
                                    match self.send_configure_request(w) {
                                        Ok(()) => {},
                                        Err(e) => {
                                            return Err(e);
                                        },
                                    }
                                    self.state = State::AckSent;
                                },
                                (false, State::AckSent) => {
                                    self.state = State::ReqSent;
                                },
                                (false, State::Opened) => {
                                    match self.send_configure_request(w) {
                                        Ok(()) => {},
                                        Err(e) => {
                                            return Err(e);
                                        },
                                    }
                                    self.state = State::ReqSent;
                                },
                                (false, _) => {},
                            }
                        },
                        Code::ConfigureAck => {
                            match self.state {
                                State::ReqSent => {
                                    self.state = State::AckReceived;
                                },
                                State::AckSent => {
                                    self.state = State::Opened;
                                },
                                State::AckReceived | State::Opened => {
                                    // An unexpected duplicate: start the
                                    // exchange over.
                                    match self.send_configure_request(w) {
                                        Ok(()) => {},
                                        Err(e) => {
                                            return Err(e);
                                        },
                                    }
                                    self.state = State::ReqSent;
                                },
                                State::Closed => {
                                    proof {
                                        assert(false);
                                    }
                                },
                            }
                        },
                        Code::ConfigureNack | Code::ConfigureRej => {
                            let is_rej = code == Code::ConfigureRej;
                            let opts = {
                                let sub = vstd::slice::slice_subrange(pkt.as_slice(), 0, end);
                                proof {
                                    assert(sub@ =~= old(pkt)@.take(pkt_len(old(pkt)@) + 2));
                                }
                                match parse_options(sub) {
                                    Ok(v) => v,
                                    Err(e) => {
                                        return Err(e);
                                    },
                                }
                            };
                            let ghost p0 = self.spec_proto();
                            let ghost os = opts_view(opts@);
                            let mut i: usize = 0;
                            proof {
                                assert(os.skip(0) =~= os);
                            }
                            while i < opts.len()
                                invariant
                                    i <= opts@.len(),
                                    os == opts_view(opts@),
                                    self.spec_id() == old(self).spec_id(),
                                    self.spec_state() == old(self).spec_state(),
                                    *w == *old(w),
                                    *pkt == *old(pkt),
                                    apply_nacks(p0, os, is_rej) == apply_nacks(
                                        self.spec_proto(),
                                        os.skip(i as int),
                                        is_rej,
                                    ),
                                decreases opts@.len() - i,
                            {
                                let o = &opts[i];
                                proof {
                                    assert(os[i as int] == opts@[i as int]@);
                                    assert(os.skip(i as int).first() == os[i as int]);
                                    assert(os.skip(i as int).drop_first() =~= os.skip(i + 1));
                                }
                                self.proto.own_option_nacked(o.code, o.data.as_slice(), is_rej);
                                i = i + 1;
                            }
                            proof {
                                assert(os.skip(opts@.len() as int) =~= Seq::<(u8, Seq<u8>)>::empty());
                            }
                            match self.send_configure_request(w) {
                                Ok(()) => {},
                                Err(e) => {
                                    return Err(e);
                                },
                            }
                            match self.state {
                                State::AckSent => {},
                                _ => {
                                    self.state = State::ReqSent;
                                },
                            }
                        },
                        _ => {
                            // A well-formed packet in an unexpected
                            // (code, state) combination is ignored.
                        },
                    }
                }
            },
        }
        Ok(())
    }
}

/// The severity of a reply code, as an executable value.
fn reply_rank_exec(c: Code) -> (r: u8)
    ensures
        r as int == reply_rank(c),
{
    match c {
        Code::ConfigureAck => 0,
        Code::ConfigureNack => 1,
        _ => 2,
    }
}

/// Every option in the list evaluates to Ack, in the order the engine
/// asks (each verdict is taken in the protocol state left by the
/// previous option).
pub open spec fn all_ack<P: Protocol>(p: P, opts: Seq<(u8, Seq<u8>)>) -> bool
    decreases opts.len(),
{
    opts.len() == 0 || (p.peer_verdict(opts.first().0, opts.first().1) is Ack && all_ack(
        p.after_peer_option(opts.first().0, opts.first().1),
        opts.drop_first(),
    ))
}

/// The TLV encoding of an option list.
pub open spec fn tlvs_bytes(opts: Seq<(u8, Seq<u8>)>) -> Seq<u8>
    decreases opts.len(),
{
    if opts.len() == 0 {
        Seq::empty()
    } else {
        seq![opts.first().0, (opts.first().1.len() + 2) as u8] + opts.first().1 + tlvs_bytes(
            opts.drop_first(),
        )
    }
}

/// Law: a fresh state machine (identifier counter at 1) that originates
/// its first Configure-Request — as `open` does from `Closed` — emits
/// exactly one packet: code Configure-Request, identifier 2, carrying
/// the protocol's own options. Together with the ensures of `open`, the
/// machine is then in `ReqSent`.
pub proof fn law_open_emits_first_request<P: Protocol>(p: P, out_len: nat, cap: nat)
    requires
        p.own_opts_fit(0),
        out_len + encode_frame(
            packet_bytes(p.proto_id(), Code::ConfigureReq, 2, p.own_opts()),
        ).len() <= cap,
    ensures
        ({
            let s = cfg_req_send(p, 1, out_len, cap);
            &&& s.ok
            &&& s.id == 2
            &&& s.payload == packet_bytes(p.proto_id(), Code::ConfigureReq, 2, p.own_opts())
        }),
{
}

/// Law: a Configure-Request whose every option evaluates to Ack is
/// answered with Configure-Ack, echoing every offered option unchanged.
/// Together with the state table in the ensures of `handle`, a machine
/// in `ReqSent` then moves to `AckSent`.
pub proof fn law_all_ack_accepts<P: Protocol>(p: P, opts: Seq<(u8, Seq<u8>)>, body: Seq<u8>)
    requires
        all_ack(p, opts),
        forall|i: int| 0 <= i < opts.len() ==> (#[trigger] opts[i]).1.len() <= 253,
        body.len() + tlvs_bytes(opts).len() <= MAX_BODY,
    ensures
        ({
            let ev = eval_peer_opts(p, opts, Code::ConfigureAck, body);
            &&& ev.ok
            &&& ev.code is ConfigureAck
            &&& ev.body == body + tlvs_bytes(opts)
        }),
    decreases opts.len(),
{
    if opts.len() == 0 {
        assert(body + tlvs_bytes(opts) =~= body);
    } else {
        let oc = opts.first().0;
        let od = opts.first().1;
        let p2 = p.after_peer_option(oc, od);
        let body3 = body + seq![oc, (od.len() + 2) as u8] + od;
        assert(opts[0].1 == od);
        assert(tlvs_bytes(opts).len() == 2 + od.len() + tlvs_bytes(opts.drop_first()).len());
        assert(forall|i: int|
            0 <= i < opts.drop_first().len() ==> (#[trigger] opts.drop_first()[i]).1.len()
                <= 253) by {
            assert(forall|i: int|
                0 <= i < opts.drop_first().len() ==> opts.drop_first()[i] == opts[i + 1]);
        }
        law_all_ack_accepts(p2, opts.drop_first(), body3);
        assert(body3 + tlvs_bytes(opts.drop_first()) =~= body + tlvs_bytes(opts));
    }
}

/// Law: a Configure-Request carrying one option that draws a Nack and
/// one that draws a Reject is answered with Configure-Reject carrying
/// only the rejected option — the milder nacked option is dropped.
pub proof fn law_reject_supersedes_nack<P: Protocol>(
    p: P,
    o1: (u8, Seq<u8>),
    o2: (u8, Seq<u8>),
    d: Seq<u8>,
)
    requires
        p.peer_verdict(o1.0, o1.1) == VerdictModel::Nack(d),
        d.len() <= 253,
        p.after_peer_option(o1.0, o1.1).peer_verdict(o2.0, o2.1) is Rej,
        o2.1.len() <= 253,
    ensures
        ({
            let ev = eval_peer_opts(p, seq![o1, o2], Code::ConfigureAck, Seq::<u8>::empty());
            &&& ev.ok
            &&& ev.code is ConfigureRej
            &&& ev.body == seq![o2.0, (o2.1.len() + 2) as u8] + o2.1
        }),
{
    let opts = seq![o1, o2];
    assert(opts.first() == o1);
    assert(opts.drop_first() =~= seq![o2]);
    assert(seq![o2].first() == o2);
    assert(seq![o2].drop_first() =~= Seq::<(u8, Seq<u8>)>::empty());
    let p2 = p.after_peer_option(o1.0, o1.1);
    let body1 = Seq::<u8>::empty() + seq![o1.0, (d.len() + 2) as u8] + d;
    assert(eval_peer_opts(p, opts, Code::ConfigureAck, Seq::<u8>::empty()) == eval_peer_opts(
        p2,
        seq![o2],
        Code::ConfigureNack,
        body1,
    ));
    let p3 = p2.after_peer_option(o2.0, o2.1);
    let body2 = Seq::<u8>::empty() + seq![o2.0, (o2.1.len() + 2) as u8] + o2.1;
    assert(eval_peer_opts(p2, seq![o2], Code::ConfigureNack, body1) == eval_peer_opts(
        p3,
        Seq::<(u8, Seq<u8>)>::empty(),
        Code::ConfigureRej,
        body2,
    ));
    assert(body2 =~= seq![o2.0, (o2.1.len() + 2) as u8] + o2.1);
}

} // verus!

