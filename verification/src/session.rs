//! Matching replies to requests, and the SNMPv3 session state.

use crate::reqid::RequestId;
use crate::snmp::msg::SNMP_V3;
use crate::snmp::pdu::{SnmpPdu, SpecPdu};
use crate::snmp::v3::data::MsgData;
use crate::snmp::v3::msg::SnmpV3Message;
use crate::snmp::v3::scoped::ScopedPdu;
use crate::snmp::v3::usm::{SpecUsm, UsmParameters};
use vstd::prelude::*;

verus! {

/// Whether a PDU belongs to the request with identifier `rid`: requests
/// and responses carry it, reports always belong.
pub open spec fn pdu_matches(p: SpecPdu, rid: i64) -> bool {
    match p {
        SpecPdu::GetRequest(g) => g.request_id == rid,
        SpecPdu::GetNextRequest(g) => g.request_id == rid,
        SpecPdu::GetBulkRequest(g) => g.request_id == rid,
        SpecPdu::GetResponse(g) => g.request_id == rid,
        SpecPdu::Report(_) => true,
    }
}

/// Whether two byte strings are equal.
pub fn bytes_eq(a: &[u8], b: &[u8]) -> (r: bool)
    ensures
        r == (a@ == b@),
{
    if a.len() != b.len() {
        return false;
    }
    let mut i: usize = 0;
    while i < a.len()
        invariant
            a@.len() == b@.len(),
            i <= a@.len(),
            a@.subrange(0, i as int) == b@.subrange(0, i as int),
        decreases a@.len() - i,
    {
        if a[i] != b[i] {
            assert(a@[i as int] != b@[i as int]);
            return false;
        }
        i = i + 1;
        assert(a@.subrange(0, i as int) =~= b@.subrange(0, i as int));
    }
    assert(a@ =~= a@.subrange(0, a@.len() as int));
    assert(b@ =~= b@.subrange(0, b@.len() as int));
    true
}

/// A community-based reply is taken when it carries our community and
/// belongs to the request in flight.
pub fn accept_community_reply(
    reply_community: &[u8],
    pdu: &SnmpPdu,
    community: &[u8],
    request_id: &RequestId,
) -> (r: bool)
    ensures
        r == (reply_community@ == community@ && pdu_matches(pdu@, request_id@)),
{
    bytes_eq(reply_community, community) && pdu.check(request_id)
}

/// State of an SNMPv3 session without keys: the engine as last seen, the
/// user and the identifiers of the message and request in flight.
#[derive(Debug)]
pub struct V3Session {
    pub engine_id: Vec<u8>,
    pub engine_boots: i64,
    pub engine_time: i64,
    pub user_name: Vec<u8>,
    pub msg_id: RequestId,
    pub request_id: RequestId,
}

/// Whether a decoded SNMPv3 reply with USM parameters `usm`, message id
/// `msg_id` and PDU `pdu` is taken by the session: same user, same
/// engine unless none is known yet, and matching identifiers.
pub open spec fn v3_reply_accepted(
    s: &V3Session,
    usm: SpecUsm,
    msg_id: i64,
    pdu: SpecPdu,
) -> bool {
    &&& usm.user_name == s.user_name@
    &&& (s.engine_id@.len() == 0 || usm.engine_id == s.engine_id@)
    &&& msg_id == s.msg_id@
    &&& pdu_matches(pdu, s.request_id@)
}

impl V3Session {
    /// A session for `user_name` with the engine `engine_id`, which may be
    /// empty to learn it from the first reply.
    pub fn new(engine_id: Vec<u8>, user_name: Vec<u8>) -> (r: V3Session)
        ensures
            r.engine_id@ == engine_id@,
            r.user_name@ == user_name@,
            r.engine_boots == 0,
            r.engine_time == 0,
    {
        V3Session {
            engine_id,
            engine_boots: 0,
            engine_time: 0,
            user_name,
            msg_id: RequestId::new(),
            request_id: RequestId::new(),
        }
    }

    /// Build the message for a request PDU: a fresh message id, the
    /// reportable flag, no authentication and no privacy.
    pub fn message<'s>(&'s mut self, pdu: SnmpPdu<'s>) -> (r: SnmpV3Message<'s>)
        ensures
            r.msg_id == final(self).msg_id@,
            0 <= r.msg_id <= 0x7fff_ffff,
            !r.flag_auth && !r.flag_priv && r.flag_report,
            r.usm@ == (SpecUsm {
                engine_id: old(self).engine_id@,
                engine_boots: old(self).engine_boots,
                engine_time: old(self).engine_time,
                user_name: old(self).user_name@,
                auth_params: Seq::<u8>::empty(),
                privacy_params: Seq::<u8>::empty(),
            }),
            r.data matches MsgData::Plaintext(sp) && sp.engine_id@ == old(self).engine_id@
                && sp.pdu@ == pdu@,
            final(self).engine_id@ == old(self).engine_id@,
            final(self).user_name@ == old(self).user_name@,
            final(self).engine_boots == old(self).engine_boots,
            final(self).engine_time == old(self).engine_time,
            final(self).request_id@ == old(self).request_id@,
    {
        let msg_id = self.msg_id.get_next();
        let empty: &[u8] = &[];
        assert(empty@ =~= Seq::<u8>::empty());
        SnmpV3Message {
            msg_id,
            flag_auth: false,
            flag_priv: false,
            flag_report: true,
            usm: UsmParameters {
                engine_id: self.engine_id.as_slice(),
                engine_boots: self.engine_boots,
                engine_time: self.engine_time,
                user_name: self.user_name.as_slice(),
                auth_params: empty,
                privacy_params: empty,
            },
            data: MsgData::Plaintext(ScopedPdu { engine_id: self.engine_id.as_slice(), pdu }),
        }
    }

    /// Take a decoded reply when it belongs to the session; a taken reply
    /// updates the engine boots and time, and teaches the engine id when
    /// none was known.
    pub fn accept(&mut self, msg: &SnmpV3Message, scoped: &ScopedPdu) -> (r: bool)
        ensures
            r == v3_reply_accepted(old(self), msg.usm@, msg.msg_id, scoped.pdu@),
            final(self).user_name@ == old(self).user_name@,
            final(self).msg_id@ == old(self).msg_id@,
            final(self).request_id@ == old(self).request_id@,
            r ==> final(self).engine_boots == msg.usm.engine_boots && final(self).engine_time
                == msg.usm.engine_time && final(self).engine_id@ == (if old(self).engine_id@.len()
                == 0 {
                msg.usm.engine_id@
            } else {
                old(self).engine_id@
            }),
            !r ==> final(self).engine_boots == old(self).engine_boots && final(self).engine_time
                == old(self).engine_time && final(self).engine_id@ == old(self).engine_id@,
    {
        let ok = bytes_eq(self.user_name.as_slice(), msg.usm.user_name) && (self.engine_id.len()
            == 0 || bytes_eq(msg.usm.engine_id, self.engine_id.as_slice())) && self.msg_id.check(
            msg.msg_id,
        ) && scoped.pdu.check(&self.request_id);
        if !ok {
            return false;
        }
        self.engine_boots = msg.usm.engine_boots;
        self.engine_time = msg.usm.engine_time;
        if self.engine_id.len() == 0 {
            let mut i: usize = 0;
            while i < msg.usm.engine_id.len()
                invariant
                    i <= msg.usm.engine_id@.len(),
                    self.engine_id@ == msg.usm.engine_id@.subrange(0, i as int),
                    self.user_name == old(self).user_name,
                    self.msg_id == old(self).msg_id,
                    self.request_id == old(self).request_id,
                    self.engine_boots == msg.usm.engine_boots,
                    self.engine_time == msg.usm.engine_time,
                decreases msg.usm.engine_id@.len() - i,
            {
                self.engine_id.push(msg.usm.engine_id[i]);
                i = i + 1;
                assert(self.engine_id@ =~= msg.usm.engine_id@.subrange(0, i as int));
            }
            assert(self.engine_id@ =~= msg.usm.engine_id@);
        }
        true
    }
}

} // verus!
