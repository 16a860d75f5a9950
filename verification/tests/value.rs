use gufo_snmp::error::SnmpError;
use gufo_snmp::value::SnmpValue;

#[test]
fn test_bool() -> Result<(), SnmpError> {
    let data = [1u8, 1, 1];
    let (value, n) = SnmpValue::from_ber(&data)?;
    assert_eq!(data.len() - n, 0);
    if let SnmpValue::Bool(x) = value {
        assert_eq!(x, true);
        Ok(())
    } else {
        Err(SnmpError::UnexpectedTag)
    }
}

#[test]
fn test_int() -> Result<(), SnmpError> {
    let data = [2u8, 1, 10];
    let (value, n) = SnmpValue::from_ber(&data)?;
    assert_eq!(data.len() - n, 0);
    if let SnmpValue::Int(v) = value {
        assert_eq!(v, 10);
        Ok(())
    } else {
        Err(SnmpError::UnexpectedTag)
    }
}

#[test]
fn test_null() -> Result<(), SnmpError> {
    let data = [5u8, 0];
    let (value, n) = SnmpValue::from_ber(&data)?;
    assert_eq!(data.len() - n, 0);
    if let SnmpValue::Null = value {
        Ok(())
    } else {
        Err(SnmpError::UnexpectedTag)
    }
}

#[test]
fn test_octet_string() -> Result<(), SnmpError> {
    let data = [4u8, 5, 0, 1, 2, 3, 4];
    let (value, n) = SnmpValue::from_ber(&data)?;
    assert_eq!(data.len() - n, 0);
    if let SnmpValue::OctetString(x) = value {
        assert_eq!(x, &data[2..]);
        Ok(())
    } else {
        Err(SnmpError::UnexpectedTag)
    }
}

#[test]
fn test_object_id() -> Result<(), SnmpError> {
    let data = [0x6u8, 0x8, 0x2b, 0x06, 0x01, 0x02, 0x01, 0x01, 0x05, 0x00];
    let expected = [1u32, 3, 6, 1, 2, 1, 1, 5, 0];
    let (value, n) = SnmpValue::from_ber(&data)?;
    assert_eq!(data.len() - n, 0);
    if let SnmpValue::Oid(x) = value {
        assert_eq!(x.0, &expected);
        Ok(())
    } else {
        Err(SnmpError::UnexpectedTag)
    }
}
