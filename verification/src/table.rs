//! A minimal, table-driven [`Protocol`] implementation: a fixed list of
//! options to request, and a fixed verdict per peer option code. It is
//! stateless across callbacks, which makes negotiation runs easy to
//! predict and to test; a full sub-protocol (LCP, IPCP) would adjust its
//! tables in `own_option_nacked` instead.

use vstd::prelude::*;

use crate::options::{opts_view, tlvs_bytes, PacketOption, Protocol, Verdict, VerdictModel};
use crate::packet_writer::{PacketWriter, MAX_BODY};
use crate::{Error, ProtocolType};

verus! {

/// How to answer one peer option code.
pub enum Rule {
    /// Accept the option as offered.
    Accept,
    /// Ask for these bytes instead (a Nack).
    Suggest(Vec<u8>),
    /// Reject the option.
    Refuse,
}

/// One row of the verdict table.
pub struct TableRule {
    pub code: u8,
    pub rule: Rule,
}

/// The verdict the table gives for `code`: the first matching row
/// decides; an unlisted code is rejected.
pub open spec fn rule_verdict(rules: Seq<TableRule>, code: u8) -> VerdictModel
    decreases rules.len(),
{
    if rules.len() == 0 {
        VerdictModel::Rej
    } else if rules.first().code == code {
        match rules.first().rule {
            Rule::Accept => VerdictModel::Ack,
            Rule::Suggest(d) => VerdictModel::Nack(d@),
            Rule::Refuse => VerdictModel::Rej,
        }
    } else {
        rule_verdict(rules.drop_first(), code)
    }
}

/// A sub-protocol defined entirely by data: the protocol field value,
/// the options it requests, and a verdict per peer option code.
pub struct TableProtocol {
    pub id: u16,
    pub own: Vec<PacketOption>,
    pub rules: Vec<TableRule>,
}

/// Copy a byte vector.
fn copy_bytes(src: &Vec<u8>) -> (r: Vec<u8>)
    ensures
        r@ == src@,
{
    let mut r: Vec<u8> = Vec::new();
    let mut i: usize = 0;
    while i < src.len()
        invariant
            i <= src@.len(),
            r@ == src@.take(i as int),
        decreases src@.len() - i,
    {
        r.push(src[i]);
        proof {
            assert(src@.take(i as int).push(src@[i as int]) =~= src@.take(i + 1));
        }
        i = i + 1;
    }
    proof {
        assert(src@.take(src@.len() as int) =~= src@);
    }
    r
}

impl Protocol for TableProtocol {
    open spec fn proto_id(&self) -> u16 {
        self.id
    }

    open spec fn own_opts(&self) -> Seq<u8> {
        tlvs_bytes(opts_view(self.own@))
    }

    open spec fn own_opts_fit(&self, prior: nat) -> bool {
        &&& forall|i: int| 0 <= i < self.own@.len() ==> (#[trigger] self.own@[i]).data@.len() <= 253
        &&& (self.own@.len() == 0 || prior + self.own_opts().len() <= MAX_BODY)
    }

    open spec fn after_peer_start(&self) -> Self {
        *self
    }

    open spec fn peer_verdict(&self, code: u8, data: Seq<u8>) -> VerdictModel {
        rule_verdict(self.rules@, code)
    }

    open spec fn after_peer_option(&self, code: u8, data: Seq<u8>) -> Self {
        *self
    }

    open spec fn after_own_option_nacked(&self, code: u8, data: Seq<u8>, is_rej: bool) -> Self {
        *self
    }

    fn protocol(&self) -> (r: ProtocolType) {
        ProtocolType(self.id)
    }

    #[verifier::loop_isolation(false)]
    fn own_options(&mut self, p: &mut PacketWriter) -> (r: Result<(), Error>) {
        let ghost p0 = old(p)@;
        let ghost os = opts_view(self.own@);
        let mut i: usize = 0;
        proof {
            assert(os.skip(0) =~= os);
        }
        while i < self.own.len()
            invariant
                i <= self.own@.len(),
                os == opts_view(self.own@),
                *self == *old(self),
                i > 0 ==> p@.len() <= MAX_BODY,
                p@ + tlvs_bytes(os.skip(i as int)) == p0 + tlvs_bytes(os),
                forall|j: int| 0 <= j < i ==> (#[trigger] os[j]).1.len() <= 253,
            decreases self.own@.len() - i,
        {
            let o = &self.own[i];
            let ghost scur = os.skip(i as int);
            proof {
                assert(os[i as int] == self.own@[i as int]@);
                assert(scur.first() == os[i as int]);
                assert(scur.drop_first() =~= os.skip(i + 1));
            }
            match p.append_option(o.code, o.data.as_slice()) {
                Ok(()) => {},
                Err(e) => {
                    proof {
                        if o.data@.len() <= 253 {
                            // The body overran the length field: the full
                            // option bytes would overrun it too.
                            assert(tlvs_bytes(scur).len() >= 2 + o.data@.len());
                        }
                    }
                    return Err(e);
                },
            }
            proof {
                assert((p0 + tlvs_bytes(os)).len() == p@.len() + tlvs_bytes(os.skip(i + 1)).len());
                assert(p@ + tlvs_bytes(os.skip(i + 1)) =~= p0 + tlvs_bytes(os));
            }
            i = i + 1;
        }
        proof {
            assert(os.skip(self.own@.len() as int) =~= Seq::<(u8, Seq<u8>)>::empty());
            assert(tlvs_bytes(Seq::<(u8, Seq<u8>)>::empty()) == Seq::<u8>::empty());
            assert(p@ + Seq::<u8>::empty() =~= p@);
            assert(p@ == p0 + tlvs_bytes(os));
            assert forall|k: int| 0 <= k < self.own@.len() implies (
            #[trigger] self.own@[k]).data@.len() <= 253 by {
                assert(os[k] == self.own@[k]@);
            }
        }
        Ok(())
    }

    fn own_option_nacked(&mut self, code: u8, data: &[u8], is_rej: bool) {
    }

    fn peer_options_start(&mut self) {
    }

    fn peer_option_received(&mut self, code: u8, data: &[u8]) -> (v: Verdict) {
        let ghost rs = self.rules@;
        let mut i: usize = 0;
        proof {
            assert(rs.skip(0) =~= rs);
        }
        while i < self.rules.len()
            invariant
                i <= rs.len(),
                rs == self.rules@,
                rule_verdict(rs, code) == rule_verdict(rs.skip(i as int), code),
            decreases rs.len() - i,
        {
            proof {
                assert(rs.skip(i as int).first() == rs[i as int]);
                assert(rs.skip(i as int).drop_first() =~= rs.skip(i + 1));
            }
            let row = &self.rules[i];
            if row.code == code {
                return match &row.rule {
                    Rule::Accept => Verdict::Ack,
                    Rule::Suggest(d) => Verdict::Nack(copy_bytes(d)),
                    Rule::Refuse => Verdict::Rej,
                };
            }
            i = i + 1;
        }
        proof {
            assert(rs.skip(rs.len() as int) =~= Seq::<TableRule>::empty());
        }
        Verdict::Rej
    }
}

} // verus!
