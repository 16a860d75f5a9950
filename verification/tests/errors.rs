use gufo_snmp::buf::{Buffer, BUFFER_SIZE};
use gufo_snmp::error::SnmpError;
use gufo_snmp::oid::SnmpOid;
use gufo_snmp::snmp::get::SnmpGet;
use gufo_snmp::snmp::getresponse::SnmpGetResponse;
use gufo_snmp::snmp::msg::{SnmpMessage, SnmpV1Message};
use gufo_snmp::snmp::pdu::SnmpPdu;
use gufo_snmp::snmp::v3::msg::SnmpV3Message;

const V2C_GET: [u8; 55] = [
    0x30, 0x35, 0x02, 0x01, 0x01, 0x04, 0x06, 0x70, 0x75, 0x62, 0x6c, 0x69, 0x63, 0xa0, 0x28,
    0x02, 0x04, 0x63, 0xcc, 0xac, 0x7d, 0x02, 0x01, 0x00, 0x02, 0x01, 0x00, 0x30, 0x1a, 0x30,
    0x0b, 0x06, 0x07, 0x2b, 0x06, 0x01, 0x02, 0x01, 0x01, 0x03, 0x05, 0x00, 0x30, 0x0b, 0x06,
    0x07, 0x2b, 0x06, 0x01, 0x02, 0x01, 0x01, 0x02, 0x05, 0x00,
];

#[test]
fn test_error_trailing_data() {
    let mut data = V2C_GET.to_vec();
    data.push(0);
    assert!(matches!(
        SnmpMessage::try_from(data.as_slice()),
        Err(SnmpError::TrailingData)
    ));
}

#[test]
fn test_error_incomplete() {
    assert!(matches!(
        SnmpMessage::try_from(&V2C_GET[..54]),
        Err(SnmpError::Incomplete)
    ));
    assert!(matches!(SnmpMessage::try_from(&[0x30u8][..]), Err(SnmpError::Incomplete)));
}

#[test]
fn test_error_invalid_version() {
    assert!(matches!(
        SnmpV1Message::try_from(V2C_GET.as_ref()),
        Err(SnmpError::InvalidVersion(1))
    ));
    let mut data = V2C_GET.to_vec();
    data[4] = 5;
    assert!(matches!(
        SnmpMessage::try_from(data.as_slice()),
        Err(SnmpError::InvalidVersion(5))
    ));
}

#[test]
fn test_error_unknown_pdu() {
    let mut data = V2C_GET.to_vec();
    // SetRequest
    data[13] = 0xa3;
    assert!(matches!(
        SnmpMessage::try_from(data.as_slice()),
        Err(SnmpError::UnknownPdu)
    ));
}

#[test]
fn test_error_unexpected_tag() {
    let mut data = V2C_GET.to_vec();
    // SET instead of SEQUENCE
    data[0] = 0x31;
    assert!(matches!(
        SnmpMessage::try_from(data.as_slice()),
        Err(SnmpError::UnexpectedTag)
    ));
}

#[test]
fn test_error_unsupported_tag() {
    assert!(matches!(
        SnmpMessage::try_from(&[0x3fu8, 0x00][..]),
        Err(SnmpError::UnsupportedTag)
    ));
}

#[test]
fn test_error_invalid_length() {
    // Indefinite length
    assert!(matches!(
        SnmpMessage::try_from(&[0x30u8, 0x80, 0x00, 0x00][..]),
        Err(SnmpError::InvalidData)
    ));
    // Five length bytes
    assert!(matches!(
        SnmpMessage::try_from(&[0x30u8, 0x85, 0, 0, 0, 0, 1, 0][..]),
        Err(SnmpError::InvalidData)
    ));
}

#[test]
fn test_error_invalid_pdu_status() {
    // Request body with error-status 1
    let body = [
        0x02u8, 0x01, 0x07, 0x02, 0x01, 0x01, 0x02, 0x01, 0x00, 0x30, 0x00,
    ];
    assert!(matches!(SnmpGet::try_from(body.as_ref()), Err(SnmpError::InvalidPdu)));
    let ok = [0x02u8, 0x01, 0x07, 0x02, 0x01, 0x00, 0x02, 0x01, 0x00, 0x30, 0x00];
    let get = SnmpGet::try_from(ok.as_ref()).unwrap();
    assert_eq!(get.request_id, 7);
    assert!(get.vars.is_empty());
}

#[test]
fn test_error_not_implemented() {
    let pdu = SnmpPdu::GetResponse(SnmpGetResponse {
        request_id: 1,
        error_status: 0,
        error_index: 0,
        vars: vec![],
    });
    let mut buf = Buffer::default();
    assert!(matches!(pdu.push_ber(&mut buf), Err(SnmpError::NotImplemented)));
    assert_eq!(buf.len(), 0);
}

#[test]
fn test_error_out_of_buffer() {
    let mut buf = Buffer::default();
    buf.push(&[1, 2, 3]).unwrap();
    let big = vec![0u8; BUFFER_SIZE];
    assert!(matches!(buf.push(&big), Err(SnmpError::OutOfBuffer)));
    assert_eq!(buf.data(), &[1, 2, 3]);
    let fits = vec![0u8; BUFFER_SIZE - 3];
    assert!(buf.push(&fits).is_ok());
    assert_eq!(buf.len(), BUFFER_SIZE);
    assert!(matches!(buf.push_u8(0), Err(SnmpError::OutOfBuffer)));
}

#[test]
fn test_error_unencodable_oid() {
    let get = SnmpGet { request_id: 1, vars: vec![SnmpOid::from(vec![3, 1])] };
    let mut buf = Buffer::default();
    assert!(matches!(get.push_ber(&mut buf), Err(SnmpError::InvalidData)));
    assert_eq!(buf.len(), 0);
    let short = SnmpGet { request_id: 1, vars: vec![SnmpOid::from(vec![1])] };
    assert!(matches!(short.push_ber(&mut buf), Err(SnmpError::InvalidData)));
    let big_second = SnmpGet { request_id: 1, vars: vec![SnmpOid::from(vec![1, 40])] };
    assert!(matches!(big_second.push_ber(&mut buf), Err(SnmpError::InvalidData)));
}

#[test]
fn test_error_unknown_security_model() {
    // SNMPv3 message whose header names security model 2
    let data = [
        0x30u8, 0x27, // message
        0x02, 0x01, 0x03, // version 3
        0x30, 0x0d, // header
        0x02, 0x01, 0x01, // msg id
        0x02, 0x02, 0x08, 0x00, // max size
        0x04, 0x01, 0x04, // flags
        0x02, 0x01, 0x02, // security model 2
        0x04, 0x10, // security parameters
        0x30, 0x0e, 0x04, 0x00, 0x02, 0x01, 0x00, 0x02, 0x01, 0x00, 0x04, 0x00, 0x04, 0x00,
        0x04, 0x00, //
        0x04, 0x01, 0x00, // encrypted data
    ];
    assert!(matches!(
        SnmpV3Message::try_from(data.as_ref()),
        Err(SnmpError::UnknownSecurityModel)
    ));
    let mut fixed = data;
    fixed[19] = 0x03;
    let msg = SnmpV3Message::try_from(fixed.as_ref()).unwrap();
    assert_eq!(msg.msg_id, 1);
    assert!(msg.flag_report && !msg.flag_auth && !msg.flag_priv);
}

#[test]
fn test_error_dotted_oid() {
    assert_eq!(
        SnmpOid::from_dotted("1.3.6.1.2.1.1.5.0").unwrap(),
        SnmpOid::from(vec![1, 3, 6, 1, 2, 1, 1, 5, 0])
    );
    assert_eq!(
        SnmpOid::from_dotted("4294967295").unwrap(),
        SnmpOid::from(vec![4294967295])
    );
    for bad in ["", "1..3", "1.3.", ".1.3", "1.3.x", "4294967296", "1.-3"] {
        assert!(
            matches!(SnmpOid::from_dotted(bad), Err(SnmpError::InvalidData)),
            "{}",
            bad
        );
    }
}
