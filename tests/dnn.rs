use cova::dnn::{parse_decimal, parse_record, split_at_byte, take_lines, ProtocolError};

#[test]
fn decimal_numbers() {
    assert_eq!(parse_decimal(b"0", u64::MAX), Some(0));
    assert_eq!(parse_decimal(b"18446744073709551615", u64::MAX), Some(u64::MAX));
    assert_eq!(parse_decimal(b"18446744073709551616", u64::MAX), None);
    assert_eq!(parse_decimal(b"2147483648", 2147483647), None);
    assert_eq!(parse_decimal(b"12a", u64::MAX), None);
    assert_eq!(parse_decimal(b"", u64::MAX), None);
}

#[test]
fn fields_split_on_commas() {
    let f = split_at_byte(b"a,,bc", b',');
    assert_eq!(f, vec![b"a".to_vec(), vec![], b"bc".to_vec()]);
}

#[test]
fn record_is_read() {
    let r = parse_record(b"1000,1.5,2,3.25,4,7").unwrap();
    assert_eq!(r.timestamp, 1000);
    assert_eq!(r.class_id, 7);
    assert_eq!(r.left, b"1.5".to_vec());
    assert_eq!(r.width, b"3.25".to_vec());
}

#[test]
fn record_errors() {
    assert_eq!(parse_record(b"1000,1,2,3,4").err(), Some(ProtocolError::FieldCount));
    assert_eq!(parse_record(b"1000,1,2,3,4,").err(), Some(ProtocolError::FieldCount));
    assert_eq!(parse_record(b"x,1,2,3,4,5").err(), Some(ProtocolError::Timestamp));
    assert_eq!(parse_record(b"1,1,2,3,4,-5").err(), Some(ProtocolError::Class));
}

#[test]
fn partial_record_waits() {
    let mut buf = b"1,0,0,1,1,2\n3,0,0,1,1,4\n5,0,".to_vec();
    let lines = take_lines(&mut buf);
    assert_eq!(lines, vec![b"1,0,0,1,1,2".to_vec(), b"3,0,0,1,1,4".to_vec()]);
    assert_eq!(buf, b"5,0,".to_vec());
    let none = take_lines(&mut buf);
    assert!(none.is_empty());
    assert_eq!(buf, b"5,0,".to_vec());
    buf.extend_from_slice(b"1,1,9\n");
    assert_eq!(take_lines(&mut buf), vec![b"5,0,1,1,9".to_vec()]);
    assert!(buf.is_empty());
}

#[test]
fn numerals_may_carry_a_plus_sign() {
    assert_eq!(parse_decimal(b"+42", u64::MAX), Some(42));
    assert_eq!(parse_decimal(b"+", u64::MAX), None);
    assert_eq!(parse_decimal(b"++1", u64::MAX), None);
    let r = parse_record(b"+7,1,2,3,4,+3").unwrap();
    assert_eq!(r.timestamp, 7);
    assert_eq!(r.class_id, 3);
}
