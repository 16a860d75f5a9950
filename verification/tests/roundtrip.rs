use gufo_snmp::buf::Buffer;
use gufo_snmp::error::SnmpError;
use gufo_snmp::oid::SnmpOid;
use gufo_snmp::snmp::get::SnmpGet;
use gufo_snmp::snmp::getbulk::SnmpGetBulk;
use gufo_snmp::snmp::msg::{SnmpMessage, SnmpV1Message, SnmpV2cMessage, SnmpVersion};
use gufo_snmp::snmp::pdu::SnmpPdu;
use gufo_snmp::snmp::v3::data::MsgData;
use gufo_snmp::snmp::v3::msg::SnmpV3Message;
use gufo_snmp::snmp::v3::scoped::ScopedPdu;
use gufo_snmp::snmp::v3::usm::UsmParameters;

fn oids() -> Vec<SnmpOid> {
    vec![
        SnmpOid::from(vec![1, 3, 6, 1, 2, 1, 1, 3, 0]),
        SnmpOid::from(vec![1, 3, 6, 1, 4, 1, 9, 4294967295]),
        SnmpOid::from(vec![2, 999, 3]),
    ]
}

#[test]
fn test_get_body_roundtrip() -> Result<(), SnmpError> {
    for rid in [0i64, 1, 127, 128, 0x63ccac7d, -1, -129, i64::MIN, i64::MAX] {
        let get = SnmpGet { request_id: rid, vars: oids() };
        let mut buf = Buffer::default();
        get.push_ber(&mut buf)?;
        let back = SnmpGet::try_from(buf.data())?;
        assert_eq!(back.request_id, rid);
        assert_eq!(back.vars, oids());
    }
    Ok(())
}

#[test]
fn test_getbulk_body_roundtrip() -> Result<(), SnmpError> {
    let bulk = SnmpGetBulk {
        request_id: 77,
        non_repeaters: 0,
        max_repetitions: 25,
        vars: oids(),
    };
    let mut buf = Buffer::default();
    bulk.push_ber(&mut buf)?;
    let back = SnmpGetBulk::try_from(buf.data())?;
    assert_eq!(back.request_id, 77);
    assert_eq!(back.non_repeaters, 0);
    assert_eq!(back.max_repetitions, 25);
    assert_eq!(back.vars, oids());
    Ok(())
}

#[test]
fn test_pdu_roundtrip_followed_by_bytes() -> Result<(), SnmpError> {
    let pdu = SnmpPdu::GetNextRequest(SnmpGet { request_id: 5, vars: oids() });
    let mut buf = Buffer::default();
    buf.push(&[0xde, 0xad])?;
    pdu.push_ber(&mut buf)?;
    let data = buf.data();
    assert_eq!(&data[data.len() - 2..], &[0xde, 0xad]);
    match SnmpPdu::try_from(data)? {
        SnmpPdu::GetNextRequest(g) => {
            assert_eq!(g.request_id, 5);
            assert_eq!(g.vars, oids());
        }
        _ => panic!("wrong PDU"),
    }
    Ok(())
}

#[test]
fn test_community_message_roundtrip() -> Result<(), SnmpError> {
    for version in [SnmpVersion::V1, SnmpVersion::V2C] {
        let msg = SnmpMessage {
            version,
            community: b"private",
            pdu: SnmpPdu::GetRequest(SnmpGet { request_id: 1000, vars: oids() }),
        };
        let mut buf = Buffer::default();
        msg.push_ber(&mut buf)?;
        let back = SnmpMessage::try_from(buf.data())?;
        assert_eq!(back.version, version);
        assert_eq!(back.community, b"private");
        match back.pdu {
            SnmpPdu::GetRequest(g) => {
                assert_eq!(g.request_id, 1000);
                assert_eq!(g.vars, oids());
            }
            _ => panic!("wrong PDU"),
        }
    }
    Ok(())
}

#[test]
fn test_long_community_roundtrip() -> Result<(), SnmpError> {
    let community = vec![0x61u8; 300];
    let msg = SnmpV2cMessage {
        community: &community,
        pdu: SnmpPdu::GetBulkRequest(SnmpGetBulk {
            request_id: -5,
            non_repeaters: 1,
            max_repetitions: 10,
            vars: oids(),
        }),
    };
    let mut buf = Buffer::default();
    msg.push_ber(&mut buf)?;
    // Long form of the message length: two length bytes.
    assert_eq!(&buf.data()[..2], &[0x30, 0x82]);
    let back = SnmpV2cMessage::try_from(buf.data())?;
    assert_eq!(back.community, community.as_slice());
    match back.pdu {
        SnmpPdu::GetBulkRequest(g) => {
            assert_eq!(g.request_id, -5);
            assert_eq!(g.non_repeaters, 1);
            assert_eq!(g.max_repetitions, 10);
            assert_eq!(g.vars, oids());
        }
        _ => panic!("wrong PDU"),
    }
    Ok(())
}

#[test]
fn test_versioned_message_refuses_other_version() -> Result<(), SnmpError> {
    let msg = SnmpV1Message {
        community: b"public",
        pdu: SnmpPdu::GetRequest(SnmpGet { request_id: 3, vars: oids() }),
    };
    let mut buf = Buffer::default();
    msg.push_ber(&mut buf)?;
    assert!(SnmpV1Message::try_from(buf.data()).is_ok());
    assert!(matches!(
        SnmpV2cMessage::try_from(buf.data()),
        Err(SnmpError::InvalidVersion(0))
    ));
    Ok(())
}

#[test]
fn test_v3_message_roundtrip() -> Result<(), SnmpError> {
    let engine_id = [0x80u8, 0x00, 0x1f, 0x88, 0x04, 0x67];
    let msg = SnmpV3Message {
        msg_id: 0x1234_5678,
        flag_auth: true,
        flag_priv: false,
        flag_report: true,
        usm: UsmParameters {
            engine_id: &engine_id,
            engine_boots: 7,
            engine_time: 37320,
            user_name: b"admin",
            auth_params: &[0u8; 12],
            privacy_params: &[],
        },
        data: MsgData::Plaintext(ScopedPdu {
            engine_id: &engine_id,
            pdu: SnmpPdu::GetRequest(SnmpGet { request_id: 9, vars: oids() }),
        }),
    };
    let mut buf = Buffer::default();
    msg.push_ber(&mut buf)?;
    // The bookmark points at the authentication parameters.
    let mark = buf.get_bookmark();
    assert_eq!(&buf.data()[mark - 2..mark], &[0x04, 12]);
    assert_eq!(&buf.data()[mark..mark + 12], &[0u8; 12]);
    let back = SnmpV3Message::try_from(buf.data())?;
    assert_eq!(back.msg_id, 0x1234_5678);
    assert!(back.flag_auth);
    assert!(!back.flag_priv);
    assert!(back.flag_report);
    assert_eq!(back.usm.engine_id, engine_id);
    assert_eq!(back.usm.engine_boots, 7);
    assert_eq!(back.usm.engine_time, 37320);
    assert_eq!(back.usm.user_name, b"admin");
    assert_eq!(back.usm.auth_params, &[0u8; 12]);
    assert_eq!(back.usm.privacy_params, b"");
    match back.data {
        MsgData::Plaintext(sp) => {
            assert_eq!(sp.engine_id, engine_id);
            match sp.pdu {
                SnmpPdu::GetRequest(g) => {
                    assert_eq!(g.request_id, 9);
                    assert_eq!(g.vars, oids());
                }
                _ => panic!("wrong PDU"),
            }
        }
        MsgData::Encrypted(_) => panic!("wrong data"),
    }
    Ok(())
}

#[test]
fn test_v3_encrypted_roundtrip() -> Result<(), SnmpError> {
    let msg = SnmpV3Message {
        msg_id: 1,
        flag_auth: true,
        flag_priv: true,
        flag_report: false,
        usm: UsmParameters {
            engine_id: b"engine",
            engine_boots: 0,
            engine_time: 0,
            user_name: b"user",
            auth_params: b"",
            privacy_params: &[1, 2, 3, 4, 5, 6, 7, 8],
        },
        data: MsgData::Encrypted(&[9, 8, 7, 6, 5]),
    };
    let mut buf = Buffer::default();
    msg.push_ber(&mut buf)?;
    let back = SnmpV3Message::try_from(buf.data())?;
    assert!(back.flag_auth && back.flag_priv && !back.flag_report);
    assert_eq!(back.usm.privacy_params, &[1, 2, 3, 4, 5, 6, 7, 8]);
    match back.data {
        MsgData::Encrypted(x) => assert_eq!(x, &[9, 8, 7, 6, 5]),
        MsgData::Plaintext(_) => panic!("wrong data"),
    }
    Ok(())
}
