use sunt::oid::OID;
use sunt::value::{str_from_file, u32_from_file, Value, WireValue};

fn oid(s: &str) -> OID {
    OID::from_string(s.to_string())
}

#[test]
fn from_string_reads_arcs() {
    let o = oid("1.3.6.1.2.1.1.3.0");
    assert_eq!(o.as_vec(), &vec![1, 3, 6, 1, 2, 1, 1, 3, 0]);
    assert_eq!(o.str(), "1.3.6.1.2.1.1.3.0");
    assert_eq!(o.as_string(), "1.3.6.1.2.1.1.3.0");
}

#[test]
fn from_string_reads_large_arcs() {
    let o = oid("4294967295.0");
    assert_eq!(o.as_vec(), &vec![4294967295, 0]);
}

#[test]
fn from_vec_renders_dotted_form() {
    let o = OID::from_vec(&vec![1, 3, 6, 1, 4, 1, 2021, 13, 15, 1, 1]);
    assert_eq!(o.str(), "1.3.6.1.4.1.2021.13.15.1.1");
    assert_eq!(OID::from_vec(&vec![]).str(), "");
}

#[test]
fn from_parts_joins_fragments() {
    let o = OID::from_parts(&["1.3.6.1.2.1.1", "5.0"]);
    assert_eq!(o.as_vec(), &vec![1, 3, 6, 1, 2, 1, 1, 5, 0]);
}

#[test]
fn from_parts_and_instance_appends_index() {
    let o = OID::from_parts_and_instance(&["1.3.6.1.2.1.25.2.3.1", "3"], 12);
    assert_eq!(o.as_vec(), &vec![1, 3, 6, 1, 2, 1, 25, 2, 3, 1, 3, 12]);
    assert_eq!(o.str(), "1.3.6.1.2.1.25.2.3.1.3.12");
}

#[test]
fn asciify_part_gives_codes() {
    assert_eq!(OID::asciify_part("foo"), "102.111.111");
    assert_eq!(OID::asciify_part(""), "");
}

#[test]
fn order_is_numeric_per_arc() {
    assert!(oid("1.10") > oid("1.2"));
    assert!(oid("1.2") < oid("1.10"));
    assert!(!(oid("1.2") > oid("1.2.0")));
    assert!(oid("1.2") < oid("1.2.0"));
    assert!(oid("1.3.6") == oid("1.3.6"));
    assert!(oid("1.3.6") != oid("1.3.6.0"));
    assert!(oid("2") > oid("1.99.99"));
}

#[test]
fn subtree_is_arc_prefix() {
    assert!(!oid("1.10").is_subtree_of(&oid("1.1")));
    assert!(oid("1.1.5").is_subtree_of(&oid("1.1")));
    assert!(oid("1.1").is_subtree_of(&oid("1.1")));
    assert!(!oid("1.1").is_subtree_of(&oid("1.1.5")));
    assert!(oid("1.1").is_subtree_of(&OID::from_vec(&vec![])));
}

#[test]
fn octet_string_goes_on_the_wire_as_bytes() {
    let v = Value::OctetString("hi".to_string());
    assert_eq!(v.as_snmp_value(), WireValue::OctetString(vec![104, 105]));
    assert_eq!(Value::Counter32(7).as_snmp_value(), WireValue::Counter32(7));
    assert_eq!(Value::EndOfMibView.as_snmp_value(), WireValue::EndOfMibView);
    assert_eq!(Value::Integer(-3).duplicate(), Value::Integer(-3));
}

#[test]
fn u32_from_file_reads_before_the_dot() {
    assert_eq!(u32_from_file("12345.67 23456.78\n"), Some(12345));
    assert_eq!(u32_from_file("1500\n"), Some(1500));
    assert_eq!(u32_from_file("-1\n"), None);
    assert_eq!(u32_from_file(""), None);
    assert_eq!(u32_from_file("4294967296\n"), None);
    assert_eq!(u32_from_file(" 42\n"), None);
    assert_eq!(u32_from_file("42\u{3000}\n"), None);
    assert_eq!(u32_from_file("1000\r\n"), Some(1000));
}

#[test]
fn str_from_file_trims_first_line() {
    assert_eq!(str_from_file("  up \nsecond\n"), Some("up".to_string()));
    assert_eq!(str_from_file(""), None);
    assert_eq!(str_from_file("a\u{3000}\n"), Some("a".to_string()));
    assert_eq!(str_from_file("\u{2003}up\u{85}"), Some("up".to_string()));
}
