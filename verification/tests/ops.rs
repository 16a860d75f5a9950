use gufo_snmp::buf::Buffer;
use gufo_snmp::error::SnmpError;
use gufo_snmp::integer::push_int;
use gufo_snmp::iter::{GetBulkIter, GetIter, GetNextIter};
use gufo_snmp::oid::SnmpOid;
use gufo_snmp::reqid::RequestId;
use gufo_snmp::session::{accept_community_reply, V3Session};
use gufo_snmp::snmp::get::SnmpGet;
use gufo_snmp::snmp::op::{OpGet, OpGetBulk, OpGetMany, OpGetNext, OpRefresh, WalkStep};
use gufo_snmp::snmp::pdu::{SnmpPdu, SnmpReport};
use gufo_snmp::snmp::v3::data::MsgData;
use gufo_snmp::snmp::v3::msg::SnmpV3Message;
use gufo_snmp::sockopt::next_buffer_size;
use gufo_snmp::value::SnmpValue;

fn tlv(tag: u8, body: &[u8]) -> Vec<u8> {
    assert!(body.len() < 128);
    let mut r = vec![tag, body.len() as u8];
    r.extend_from_slice(body);
    r
}

fn oid_bytes(oid: &SnmpOid) -> Vec<u8> {
    let mut buf = Buffer::default();
    oid.push_ber(&mut buf).unwrap();
    buf.data().to_vec()
}

/// A Response PDU with the given request id and bindings.
fn response(request_id: u8, vars: &[(Vec<u32>, Vec<u8>)]) -> Vec<u8> {
    let mut binds = Vec::new();
    for (oid, value) in vars {
        let mut var = oid_bytes(&SnmpOid::from(oid.clone()));
        var.extend_from_slice(value);
        binds.extend(tlv(0x30, &var));
    }
    let mut body = vec![2, 1, request_id, 2, 1, 0, 2, 1, 0];
    body.extend(tlv(0x30, &binds));
    tlv(0xa2, &body)
}

fn int_value(v: u8) -> Vec<u8> {
    vec![2, 1, v]
}

#[test]
fn test_op_get_request() -> Result<(), SnmpError> {
    match OpGet::request("1.3.6.1.2.1.1.5.0", 42)? {
        SnmpPdu::GetRequest(g) => {
            assert_eq!(g.request_id, 42);
            assert_eq!(g.vars, vec![SnmpOid::from(vec![1, 3, 6, 1, 2, 1, 1, 5, 0])]);
        }
        _ => panic!("wrong PDU"),
    }
    assert!(matches!(OpGet::request("1.3.bad", 1), Err(SnmpError::InvalidData)));
    Ok(())
}

#[test]
fn test_op_get_reply() -> Result<(), SnmpError> {
    let data = response(1, &[(vec![1, 3, 6, 1, 2, 1, 1, 5, 0], int_value(10))]);
    let pdu = SnmpPdu::try_from(data.as_slice())?;
    assert_eq!(OpGet::reply(&pdu)?, Some(0));
    let data = response(1, &[(vec![1, 3, 6, 1, 2, 1, 1, 5, 0], vec![0x81, 0])]);
    let pdu = SnmpPdu::try_from(data.as_slice())?;
    assert!(matches!(OpGet::reply(&pdu), Err(SnmpError::NoSuchInstance)));
    let data = response(1, &[(vec![1, 3, 6, 1, 2, 1, 1, 5, 0], vec![5, 0])]);
    let pdu = SnmpPdu::try_from(data.as_slice())?;
    assert_eq!(OpGet::reply(&pdu)?, None);
    let data = response(1, &[]);
    let pdu = SnmpPdu::try_from(data.as_slice())?;
    assert_eq!(OpGet::reply(&pdu)?, None);
    let data = response(1, &[(vec![1, 3, 1], int_value(1)), (vec![1, 3, 2], int_value(2))]);
    let pdu = SnmpPdu::try_from(data.as_slice())?;
    assert!(matches!(OpGet::reply(&pdu), Err(SnmpError::InvalidPdu)));
    let report = SnmpPdu::Report(SnmpReport(&[]));
    assert!(matches!(OpGet::reply(&report), Err(SnmpError::AuthenticationFailed)));
    Ok(())
}

#[test]
fn test_op_get_many() -> Result<(), SnmpError> {
    let oids = vec!["1.3.6.1.2.1.1.1.0".to_string(), "1.3.6.1.2.1.1.3.0".to_string()];
    match OpGetMany::request(&oids, 8)? {
        SnmpPdu::GetRequest(g) => {
            assert_eq!(g.request_id, 8);
            assert_eq!(g.vars.len(), 2);
        }
        _ => panic!("wrong PDU"),
    }
    let data = response(
        8,
        &[
            (vec![1, 3, 6, 1, 2, 1, 1, 1, 0], vec![0x80, 0]),
            (vec![1, 3, 6, 1, 2, 1, 1, 3, 0], vec![0x43, 1, 5]),
            (vec![1, 3, 6, 1, 2, 1, 1, 4, 0], vec![5, 0]),
        ],
    );
    let pdu = SnmpPdu::try_from(data.as_slice())?;
    assert_eq!(OpGetMany::reply(&pdu)?, vec![1]);
    Ok(())
}

#[test]
fn test_op_get_next_walk() -> Result<(), SnmpError> {
    let mut iter = GetIter::new("1.3.6.1.2.1.1", None)?;
    assert_eq!(iter.get_next_oid(), SnmpOid::from(vec![1, 3, 6, 1, 2, 1, 1]));
    assert_eq!(iter.get_max_repetitions(), 0);
    match OpGetNext::request(iter.get_next_oid(), 3) {
        SnmpPdu::GetNextRequest(g) => assert_eq!(g.request_id, 3),
        _ => panic!("wrong PDU"),
    }
    // In the subtree: an item, and the walk moves on.
    let data = response(3, &[(vec![1, 3, 6, 1, 2, 1, 1, 1, 0], int_value(4))]);
    let pdu = SnmpPdu::try_from(data.as_slice())?;
    assert_eq!(OpGetNext::reply(&pdu, &mut iter)?, WalkStep::Item(0));
    assert_eq!(iter.get_next_oid(), SnmpOid::from(vec![1, 3, 6, 1, 2, 1, 1, 1, 0]));
    // End of the view: the walk stops.
    let data = response(3, &[(vec![1, 3, 6, 1, 2, 1, 1, 2, 0], vec![0x82, 0])]);
    let pdu = SnmpPdu::try_from(data.as_slice())?;
    assert_eq!(OpGetNext::reply(&pdu, &mut iter)?, WalkStep::Stop);
    // Outside the subtree: the walk stops and stays where it was.
    let data = response(3, &[(vec![1, 3, 6, 1, 2, 1, 2, 1, 0], int_value(4))]);
    let pdu = SnmpPdu::try_from(data.as_slice())?;
    assert_eq!(OpGetNext::reply(&pdu, &mut iter)?, WalkStep::Stop);
    assert_eq!(iter.get_next_oid(), SnmpOid::from(vec![1, 3, 6, 1, 2, 1, 1, 2, 0]));
    Ok(())
}

#[test]
fn test_op_get_bulk_walk() -> Result<(), SnmpError> {
    let mut iter = GetIter::new("1.3.6.1.2.1.1", Some(10))?;
    assert_eq!(iter.get_max_repetitions(), 10);
    match OpGetBulk::request(iter.get_next_oid(), iter.get_max_repetitions(), 4) {
        SnmpPdu::GetBulkRequest(g) => {
            assert_eq!(g.request_id, 4);
            assert_eq!(g.non_repeaters, 0);
            assert_eq!(g.max_repetitions, 10);
        }
        _ => panic!("wrong PDU"),
    }
    let data = response(
        4,
        &[
            (vec![1, 3, 6, 1, 2, 1, 1, 1, 0], int_value(1)),
            (vec![1, 3, 6, 1, 2, 1, 1, 2, 0], vec![5, 0]),
            (vec![1, 3, 6, 1, 2, 1, 1, 3, 0], int_value(3)),
            (vec![1, 3, 6, 1, 2, 1, 2, 1, 0], int_value(4)),
            (vec![1, 3, 6, 1, 2, 1, 2, 2, 0], int_value(5)),
        ],
    );
    let pdu = SnmpPdu::try_from(data.as_slice())?;
    assert_eq!(
        OpGetBulk::reply(&pdu, &mut iter)?,
        Some(vec![Some(0), Some(2), None])
    );
    assert_eq!(iter.get_next_oid(), SnmpOid::from(vec![1, 3, 6, 1, 2, 1, 1, 3, 0]));
    let data = response(4, &[(vec![1, 3, 6, 1, 2, 1, 1, 4, 0], vec![0x82, 0])]);
    let pdu = SnmpPdu::try_from(data.as_slice())?;
    assert_eq!(OpGetBulk::reply(&pdu, &mut iter)?, None);
    Ok(())
}

#[test]
fn test_walk_iterators() -> Result<(), SnmpError> {
    let mut it = GetNextIter::new("1.3.6")?;
    assert!(it.set_next_oid(&SnmpOid::from(vec![1, 3, 6, 1])));
    assert_eq!(it.get_next_oid(), SnmpOid::from(vec![1, 3, 6, 1]));
    assert!(!it.set_next_oid(&SnmpOid::from(vec![1, 3, 7])));
    assert_eq!(it.get_next_oid(), SnmpOid::from(vec![1, 3, 6, 1]));
    let mut bulk = GetBulkIter::new("1.3.6", 20)?;
    assert_eq!(bulk.get_max_repetitions(), 20);
    assert!(bulk.set_next_oid(&SnmpOid::from(vec![1, 3, 6])));
    assert!(GetNextIter::new("x").is_err());
    Ok(())
}

#[test]
fn test_op_refresh() {
    match OpRefresh::request(11) {
        SnmpPdu::GetRequest(g) => {
            assert_eq!(g.request_id, 11);
            assert!(g.vars.is_empty());
        }
        _ => panic!("wrong PDU"),
    }
}

#[test]
fn test_oid_contains_normalize() {
    let root = SnmpOid::from(vec![1, 3, 6, 1]);
    assert!(root.contains(&root));
    assert!(root.contains(&SnmpOid::from(vec![1, 3, 6, 1, 2])));
    assert!(!root.contains(&SnmpOid::from(vec![1, 3, 6])));
    assert!(!root.contains(&SnmpOid::from(vec![1, 3, 7, 1])));
    let base = SnmpOid::from(vec![1, 3, 6, 1, 2, 1, 1, 5, 0]);
    let rel = SnmpOid::from(vec![6, 0]);
    assert_eq!(rel.normalize(&base), SnmpOid::from(vec![1, 3, 6, 1, 2, 1, 1, 6, 0]));
}

#[test]
fn test_request_id() {
    let mut r = RequestId::new();
    assert_eq!(r.current(), 0);
    assert_eq!(r.set_from_random(-1), 0x7fff_ffff);
    assert!(r.check(0x7fff_ffff));
    assert_eq!(r.set_from_random(0x1_0000_0005), 5);
    assert!(!r.check(0x1_0000_0005));
    for _ in 0..100 {
        let id = r.get_next();
        assert!((0..=0x7fff_ffff).contains(&id));
        assert_eq!(r.current(), id);
    }
}

#[test]
fn test_next_buffer_size() {
    assert_eq!(next_buffer_size(1000), Some(500));
    assert_eq!(next_buffer_size(3), Some(1));
    assert_eq!(next_buffer_size(1), None);
    assert_eq!(next_buffer_size(0), None);
}

#[test]
fn test_accept_community_reply() -> Result<(), SnmpError> {
    let mut rid = RequestId::new();
    let id = rid.set_from_random(9);
    let data = response(id as u8, &[]);
    let pdu = SnmpPdu::try_from(data.as_slice())?;
    assert!(accept_community_reply(b"public", &pdu, b"public", &rid));
    assert!(!accept_community_reply(b"privat", &pdu, b"public", &rid));
    rid.set_from_random(10);
    assert!(!accept_community_reply(b"public", &pdu, b"public", &rid));
    let report = SnmpPdu::Report(SnmpReport(&[1, 2]));
    assert!(report.check(&rid));
    Ok(())
}

#[test]
fn test_v3_session() -> Result<(), SnmpError> {
    let mut session = V3Session::new(vec![], b"admin".to_vec());
    let rid = session.request_id.set_from_random(12);
    let pdu = SnmpPdu::GetRequest(SnmpGet { request_id: rid, vars: vec![] });
    let mut buf = Buffer::default();
    let msg = session.message(pdu);
    assert!(!msg.flag_auth && !msg.flag_priv && msg.flag_report);
    msg.push_ber(&mut buf)?;
    let sent_id = session.msg_id.current();
    // The request read back stands for the reply.
    let reply = SnmpV3Message::try_from(buf.data())?;
    assert_eq!(reply.msg_id, sent_id);
    let scoped = match &reply.data {
        MsgData::Plaintext(p) => p,
        _ => panic!("wrong data"),
    };
    assert!(session.accept(&reply, scoped));
    assert!(session.engine_id.is_empty());
    // A reply from another user is refused and changes nothing.
    let mut other = V3Session::new(b"agent".to_vec(), b"bob".to_vec());
    other.msg_id.set_from_random(sent_id);
    other.request_id.set_from_random(rid);
    assert!(!other.accept(&reply, scoped));
    assert_eq!(other.engine_boots, 0);
    Ok(())
}

#[test]
fn test_session_learns_engine() -> Result<(), SnmpError> {
    let engine = b"agent-engine";
    let mut session = V3Session::new(vec![], b"admin".to_vec());
    session.request_id.set_from_random(77);
    let mid = session.msg_id.set_from_random(78);
    let msg = SnmpV3Message {
        msg_id: mid,
        flag_auth: false,
        flag_priv: false,
        flag_report: false,
        usm: gufo_snmp::snmp::v3::usm::UsmParameters {
            engine_id: engine,
            engine_boots: 3,
            engine_time: 1000,
            user_name: b"admin",
            auth_params: b"",
            privacy_params: b"",
        },
        data: MsgData::Plaintext(gufo_snmp::snmp::v3::scoped::ScopedPdu {
            engine_id: engine,
            pdu: SnmpPdu::Report(SnmpReport(&[])),
        }),
    };
    let scoped = match &msg.data {
        MsgData::Plaintext(p) => p,
        _ => panic!("wrong data"),
    };
    assert!(session.accept(&msg, scoped));
    assert_eq!(session.engine_id, engine.to_vec());
    assert_eq!(session.engine_boots, 3);
    assert_eq!(session.engine_time, 1000);
    Ok(())
}

#[test]
fn test_int_encoding() -> Result<(), SnmpError> {
    let cases: [(i64, &[u8]); 8] = [
        (0, &[2, 1, 0]),
        (127, &[2, 1, 127]),
        (128, &[2, 2, 0, 128]),
        (-1, &[2, 1, 255]),
        (-128, &[2, 1, 128]),
        (-129, &[2, 2, 255, 127]),
        (0x63ccac7d, &[2, 4, 0x63, 0xcc, 0xac, 0x7d]),
        (i64::MIN, &[2, 8, 0x80, 0, 0, 0, 0, 0, 0, 0]),
    ];
    for (v, expected) in cases {
        let mut buf = Buffer::default();
        push_int(&mut buf, v)?;
        assert_eq!(buf.data(), expected);
    }
    Ok(())
}

#[test]
fn test_length_encoding() -> Result<(), SnmpError> {
    let mut buf = Buffer::default();
    buf.push_ber_len(127)?;
    assert_eq!(buf.data(), &[127]);
    buf.reset();
    buf.push_ber_len(200)?;
    assert_eq!(buf.data(), &[0x81, 200]);
    buf.reset();
    buf.push_ber_len(0x1234)?;
    assert_eq!(buf.data(), &[0x82, 0x12, 0x34]);
    Ok(())
}

#[test]
fn test_value_decoding() -> Result<(), SnmpError> {
    let (v, n) = SnmpValue::from_ber(&[0x40, 4, 10, 0, 0, 1])?;
    assert_eq!(n, 6);
    assert!(matches!(v, SnmpValue::IpAddress(10, 0, 0, 1)));
    let (v, _) = SnmpValue::from_ber(&[0x41, 5, 0, 0xff, 0xff, 0xff, 0xff])?;
    assert!(matches!(v, SnmpValue::Counter32(0xffff_ffff)));
    let (v, _) = SnmpValue::from_ber(&[0x46, 2, 1, 0])?;
    assert!(matches!(v, SnmpValue::Counter64(256)));
    let (v, _) = SnmpValue::from_ber(&[0x43, 1, 100])?;
    assert!(matches!(v, SnmpValue::TimeTicks(100)));
    let (v, _) = SnmpValue::from_ber(&[0x80, 0])?;
    assert!(matches!(v, SnmpValue::NoSuchObject));
    Ok(())
}

#[test]
fn test_dotted_text() -> Result<(), SnmpError> {
    let oid = SnmpOid::from(vec![1, 3, 6, 1, 2, 1, 1, 5, 0]);
    assert_eq!(oid.to_dotted(), b"1.3.6.1.2.1.1.5.0".to_vec());
    let wide = SnmpOid::from(vec![4294967295, 0, 10, 99]);
    let text = String::from_utf8(wide.to_dotted()).unwrap();
    assert_eq!(text, "4294967295.0.10.99");
    assert_eq!(SnmpOid::from_dotted(&text)?, wide);
    assert_eq!(gufo_snmp::oid::format_dotted(&[10, 0, 0, 1]), b"10.0.0.1".to_vec());
    assert!(gufo_snmp::oid::format_dotted(&[]).is_empty());
    Ok(())
}
