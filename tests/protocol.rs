use sunt::agent::{answer, handle_request, needs_refresh};
use sunt::ber::{encode_response, int_bytes, oid_bytes, uint_bytes};
use sunt::oid::OID;
use sunt::store::Store;
use sunt::value::Value;

#[test]
fn integer_contents_are_shortest() {
    assert_eq!(int_bytes(0), vec![0x00]);
    assert_eq!(int_bytes(127), vec![0x7f]);
    assert_eq!(int_bytes(128), vec![0x00, 0x80]);
    assert_eq!(int_bytes(-1), vec![0xff]);
    assert_eq!(int_bytes(-129), vec![0xff, 0x7f]);
    assert_eq!(int_bytes(i64::MIN), vec![0x80, 0, 0, 0, 0, 0, 0, 0]);
    assert_eq!(uint_bytes(u64::MAX), vec![0x00, 0xff, 0xff, 0xff, 0xff, 0xff, 0xff, 0xff, 0xff]);
    assert_eq!(uint_bytes(200), vec![0x00, 0xc8]);
}

#[test]
fn oid_contents_fold_the_first_arcs() {
    assert_eq!(oid_bytes(&[1, 3, 6, 1, 4, 1, 2021]), vec![0x2b, 0x06, 0x01, 0x04, 0x01, 0x8f, 0x65]);
    assert_eq!(oid_bytes(&[0, 0]), vec![0x00]);
}

#[test]
fn response_encoding() {
    let vbs = vec![(vec![1, 3, 6], Value::Integer(5))];
    let bytes = encode_response(b"public", 1, &vbs);
    assert_eq!(
        bytes,
        vec![
            0x30, 0x21, 0x02, 0x01, 0x01, 0x04, 0x06, 0x70, 0x75, 0x62, 0x6c, 0x69, 0x63, 0xa2, 0x14,
            0x02, 0x01, 0x01, 0x02, 0x01, 0x00, 0x02, 0x01, 0x00, 0x30, 0x09, 0x30, 0x07, 0x06, 0x02,
            0x2b, 0x06, 0x02, 0x01, 0x05
        ]
    );
}

#[test]
fn end_of_mib_encoding() {
    let vbs = vec![(vec![0, 0], Value::EndOfMibView)];
    let bytes = encode_response(b"sunt", 7, &vbs);
    let tail = &bytes[bytes.len() - 9..];
    assert_eq!(tail, &[0x30, 0x07, 0x30, 0x05, 0x06, 0x01, 0x00, 0x82, 0x00]);
}

#[test]
fn long_lengths() {
    let text = "x".repeat(300);
    let vbs = vec![(vec![1, 3], Value::OctetString(text))];
    let bytes = encode_response(b"c", 1, &vbs);
    assert_eq!(&bytes[0..2], &[0x30, 0x82]);
    let n = bytes.len() - 4;
    assert_eq!(&bytes[2..4], &[(n >> 8) as u8, (n & 0xff) as u8]);
}

#[test]
fn request_is_answered_with_walk() {
    let mut st = Store::new();
    st.insert(OID::from_string("1.3.6.1.2.1.1.5.0".to_string()), Value::OctetString("alpha".to_string()));
    let mut req = snmp::pdu::Buf::default();
    snmp::pdu::build_getnext(b"public", 4242, &[1, 3, 6, 1, 2, 1, 1, 4, 0], &mut req);
    let out = handle_request(&st, &req[..], b"sunt").expect("decodes");
    assert_eq!(
        out,
        answer(&st, 4242, Some(vec![1, 3, 6, 1, 2, 1, 1, 4, 0]), b"sunt")
    );
    let resp = snmp::SnmpPdu::from_bytes(&out).expect("response decodes");
    assert_eq!(resp.req_id, 4242);
    assert_eq!(resp.message_type, snmp::SnmpMessageType::Response);
    let mut vbs = resp.varbinds;
    let (name, value) = vbs.next().expect("one varbind");
    let mut buf: snmp::ObjIdBuf = [0u32; 128];
    assert_eq!(name.read_name(&mut buf).unwrap(), &[1, 3, 6, 1, 2, 1, 1, 5, 0]);
    match value {
        snmp::Value::OctetString(b) => assert_eq!(b, b"alpha"),
        _ => panic!("not an octet string"),
    }
}

#[test]
fn garbage_is_dropped() {
    let st = Store::new();
    assert_eq!(handle_request(&st, &[0x01, 0x02, 0x03], b"sunt"), None);
    assert_eq!(handle_request(&st, &[], b"sunt"), None);
}

#[test]
fn missing_name_starts_from_one() {
    let st = Store::new();
    let r = answer(&st, 1, None, b"c");
    let expected = encode_response(b"c", 1, &vec![(vec![0, 0], Value::EndOfMibView)]);
    assert_eq!(r, expected);
}

#[test]
fn refresh_schedule() {
    assert!(needs_refresh(None, 0));
    assert!(!needs_refresh(Some(1000), 16000));
    assert!(needs_refresh(Some(1000), 16001));
    assert!(!needs_refresh(Some(5000), 1000));
}

#[test]
fn unsound_lengths_are_dropped_before_decoding() {
    let st = Store::new();
    // a long-form length of nine bytes
    let long = [0x30, 0x89, 0, 0, 0, 0, 0, 0, 0, 0, 1, 0];
    assert_eq!(handle_request(&st, &long, b"sunt"), None);
    // a long-form length whose bytes run past the end
    assert_eq!(handle_request(&st, &[0x30, 0x84, 0x00], b"sunt"), None);
    // an empty INTEGER for the version
    assert_eq!(handle_request(&st, &[0x30, 0x02, 0x02, 0x00], b"sunt"), None);
    assert!(!sunt::agent::check_message(&long));
}

#[test]
fn sound_request_passes_the_check() {
    let mut req = snmp::pdu::Buf::default();
    snmp::pdu::build_getnext(b"public", 1, &[1, 3, 6, 1], &mut req);
    assert!(sunt::agent::check_message(&req[..]));
}
