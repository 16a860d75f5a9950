use gufo_snmp::buf::Buffer;
use gufo_snmp::error::SnmpError;
use gufo_snmp::oid::SnmpOid;
use gufo_snmp::snmp::get::SnmpGet;
use gufo_snmp::snmp::pdu::SnmpPdu;
use gufo_snmp::snmp::v3::data::MsgData;
use gufo_snmp::snmp::v3::msg::SnmpV3Message;
use gufo_snmp::snmp::v3::scoped::ScopedPdu;
use gufo_snmp::snmp::v3::usm::UsmParameters;

#[test]
fn test_parse_snmp_get() -> Result<(), SnmpError> {
    let data = [
        0x30u8, 0x40, 0x02, 0x01, 0x03, 0x30, 0x0f, 0x02, 0x03, 0x00, 0x91, 0xc8, 0x02, 0x02,
        0x05, 0xdc, 0x04, 0x01, 0x00, 0x02, 0x01, 0x03, 0x04, 0x15, 0x30, 0x13, 0x04, 0x00,
        0x02, 0x01, 0x00, 0x02, 0x01, 0x00, 0x04, 0x05, 0x61, 0x64, 0x6d, 0x69, 0x6e, 0x04,
        0x00, 0x04, 0x00, 0x30, 0x13, 0x04, 0x00, 0x04, 0x00, 0xa0, 0x0d, 0x02, 0x03, 0x00,
        0x91, 0xc8, 0x02, 0x01, 0x00, 0x02, 0x01, 0x00, 0x30, 0x00,
    ];
    let vars: Vec<SnmpOid> = vec![];
    let msg = SnmpV3Message::try_from(data.as_ref())?;
    // Analyze global header
    assert_eq!(msg.msg_id, 37320);
    assert!(!msg.flag_auth);
    assert!(!msg.flag_priv);
    // Analyze security parameters
    assert_eq!(msg.usm.user_name, "admin".as_bytes());
    assert_eq!(msg.usm.engine_id.len(), 0);
    // Analyze PDU
    match msg.data {
        MsgData::Plaintext(scoped) => match scoped.pdu {
            SnmpPdu::GetRequest(pdu) => {
                assert_eq!(pdu.request_id, 37320);
                assert_eq!(pdu.vars, vars);
            }
            _ => return Err(SnmpError::InvalidPdu),
        },
        _ => return Err(SnmpError::InvalidPdu),
    }
    Ok(())
}

#[test]
fn msg_test_encode_snmp_get() -> Result<(), SnmpError> {
    let expected = [
        0x30u8, 0x40, 0x02, 0x01, 0x03, 0x30, 0x0f, 0x02, 0x03, 0x00, 0x91, 0xc8, 0x02, 0x02,
        0x08, 0x00, 0x04, 0x01, 0x00, 0x02, 0x01, 0x03, 0x04, 0x15, 0x30, 0x13, 0x04, 0x00,
        0x02, 0x01, 0x00, 0x02, 0x01, 0x00, 0x04, 0x05, 0x61, 0x64, 0x6d, 0x69, 0x6e, 0x04,
        0x00, 0x04, 0x00, 0x30, 0x13, 0x04, 0x00, 0x04, 0x00, 0xa0, 0x0d, 0x02, 0x03, 0x00,
        0x91, 0xc8, 0x02, 0x01, 0x00, 0x02, 0x01, 0x00, 0x30, 0x00,
    ];
    let empty: [u8; 0] = [];
    let msg = SnmpV3Message {
        msg_id: 37320,
        flag_auth: false,
        flag_priv: false,
        flag_report: false,
        usm: UsmParameters {
            engine_id: &empty,
            engine_boots: 0,
            engine_time: 0,
            user_name: "admin".as_bytes(),
            auth_params: &empty,
            privacy_params: &empty,
        },
        data: MsgData::Plaintext(ScopedPdu {
            engine_id: &empty,
            pdu: SnmpPdu::GetRequest(SnmpGet {
                request_id: 37320,
                vars: vec![],
            }),
        }),
    };
    let mut buf = Buffer::default();
    msg.push_ber(&mut buf)?;
    assert_eq!(buf.data(), &expected);
    Ok(())
}

#[test]
fn test_parse_usm_plain() -> Result<(), SnmpError> {
    let data = [
        0x30, 0x13, 0x04, 0x00, 0x02, 0x01, 0x00, 0x02, 0x01, 0x00, 0x04, 0x05, 0x61, 0x64,
        0x6d, 0x69, 0x6e, 0x04, 0x00, 0x04, 0x00,
    ];
    let empty: [u8; 0] = [];
    let usm = UsmParameters::try_from(data.as_ref())?;
    assert_eq!(usm.engine_id, empty);
    assert_eq!(usm.user_name, "admin".as_bytes());
    assert_eq!(usm.auth_params, empty);
    assert_eq!(usm.privacy_params, empty);
    Ok(())
}

#[test]
fn test_push_usm_plain() -> Result<(), SnmpError> {
    let expected = [
        0x30, 0x13, 0x04, 0x00, 0x02, 0x01, 0x00, 0x02, 0x01, 0x00, 0x04, 0x05, 0x61, 0x64,
        0x6d, 0x69, 0x6e, 0x04, 0x00, 0x04, 0x00,
    ];
    let empty: [u8; 0] = [];
    let usm = UsmParameters {
        engine_id: &empty,
        engine_boots: 0,
        engine_time: 0,
        user_name: "admin".as_bytes(),
        auth_params: &empty,
        privacy_params: &empty,
    };
    let mut buf = Buffer::default();
    usm.push_ber(&mut buf)?;
    assert_eq!(buf.data(), &expected);
    Ok(())
}
