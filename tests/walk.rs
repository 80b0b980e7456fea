use sunt::mib_extend::{get_extend, ExtendOutput};
use sunt::mib_sys::{get_system, HostInfo};
use sunt::oid::OID;
use sunt::store::{Store, MAX_VARBINDS};
use sunt::value::Value;

fn oid(s: &str) -> OID {
    OID::from_string(s.to_string())
}

fn arcs(s: &str) -> Vec<u32> {
    oid(s).as_vec().clone()
}

fn store_with(keys: &[&str]) -> Store {
    let mut st = Store::new();
    for (i, k) in keys.iter().enumerate() {
        st.insert(oid(k), Value::Integer(i as i64));
    }
    st
}

#[test]
fn empty_store_walk_ends_the_mib() {
    let st = Store::new();
    let r = st.walk(&oid("1"));
    assert_eq!(r, vec![(vec![0, 0], Value::EndOfMibView)]);
}

#[test]
fn sys_name_lookup() {
    let mut st = Store::new();
    let host = HostInfo {
        sysname: "Linux".to_string(),
        nodename: "alpha".to_string(),
        release: "6.1.0".to_string(),
        version: "#1 SMP".to_string(),
        machine: "x86_64".to_string(),
    };
    get_system(&mut st, "1.3.6.1.2.1.1", Some(host), Some(42));
    // From the name itself the walk yields sysName.
    let r = st.walk(&oid("1.3.6.1.2.1.1.4.0"));
    assert_eq!(r[0], (arcs("1.3.6.1.2.1.1.5.0"), Value::OctetString("alpha".to_string())));
    // From the column, which has sysName.0 below it, the walk starts at sysName.0.
    let r = st.walk(&oid("1.3.6.1.2.1.1.5"));
    assert_eq!(r[0], (arcs("1.3.6.1.2.1.1.5.0"), Value::OctetString("alpha".to_string())));
    assert_eq!(r.len(), 2);
    assert_eq!(st.normalize_start(&oid("1.3.6.1.2.1.1.5")), arcs("1.3.6.1.2.1.1.5"));
    assert_eq!(
        st.get(&oid("1.3.6.1.2.1.1.1.0")),
        Some(&Value::OctetString("Linux alpha 6.1.0 #1 SMP x86_64".to_string()))
    );
    assert_eq!(st.get(&oid("1.3.6.1.2.1.1.3.0")), Some(&Value::Timeticks(4200)));
    assert_eq!(
        st.get(&oid("1.3.6.1.2.1.1.4.0")),
        Some(&Value::OctetString("sunt v0.0.1".to_string()))
    );
    assert_eq!(
        st.get(&oid("1.3.6.1.2.1.1.6.0")),
        Some(&Value::OctetString("the cloud, probably".to_string()))
    );
}

#[test]
fn system_probe_without_host_data() {
    let mut st = Store::new();
    get_system(&mut st, "1.3.6.1.2.1.1", None, None);
    assert_eq!(st.len(), 2);
    assert_eq!(st.get(&oid("1.3.6.1.2.1.1.5.0")), None);
}

#[test]
fn nonexistent_start_backs_off() {
    let st = store_with(&["1.3.6.1.2.1.1.1.0"]);
    let r = st.walk(&oid("1.3.6.1.2.1.1.99"));
    assert_eq!(r[0].0, arcs("1.3.6.1.2.1.1.1.0"));
    assert_eq!(st.normalize_start(&oid("1.3.6.1.2.1.1.99")), arcs("1.3.6.1.2.1.1"));
    assert_eq!(st.normalize_start(&oid("2.1")), Vec::<u32>::new());
}

#[test]
fn table_column_walk_stays_in_place() {
    let st = store_with(&[
        "1.3.6.1.2.1.1.1.0",
        "1.3.6.1.2.1.2.2.1.1.1",
        "1.3.6.1.2.1.2.2.1.2.1",
        "1.3.6.1.2.1.2.2.1.2.2",
    ]);
    let r = st.walk(&oid("1.3.6.1.2.1.2.2.1.2"));
    assert_eq!(r[0].0, arcs("1.3.6.1.2.1.2.2.1.2.1"));
    assert_eq!(r.len(), 2);
}

#[test]
fn backoff_stops_at_an_ancestor_key() {
    let st = store_with(&["1.3.6.1.2.1.1", "1.3.6.1.2.1.1.1.0", "1.3.6.1.2.1.1.5.0"]);
    assert_eq!(st.normalize_start(&oid("1.3.6.1.2.1.1.99.4")), arcs("1.3.6.1.2.1.1"));
    let r = st.walk(&oid("1.3.6.1.2.1.1.99.4"));
    assert_eq!(r[0].0, arcs("1.3.6.1.2.1.1.1.0"));
    assert_eq!(r.len(), 2);
}

#[test]
fn subtree_boundary() {
    let st = store_with(&["1.3.6.1.2.1.1.1.0", "1.3.6.1.2.1.1.5.0", "1.3.6.1.2.1.2.2.1.1.1"]);
    let r = st.walk(&oid("1.3.6.1.2.1.1.5.0"));
    assert_eq!(r.len(), 1);
    assert_eq!(r[0].0, arcs("1.3.6.1.2.1.2.2.1.1.1"));
}

#[test]
fn bulk_cap() {
    let mut st = Store::new();
    for i in 1..=250u32 {
        st.insert(
            OID::from_parts_and_instance(&["1.3.6.1.4.1.2021.13.15.1.1", "1"], i),
            Value::Integer(i as i64),
        );
    }
    assert_eq!(st.len(), 250);
    let r = st.walk(&oid("1.3.6.1.4.1.2021.13.15.1.1"));
    assert_eq!(r.len(), MAX_VARBINDS);
    assert_eq!(r.len(), 100);
    for w in r.windows(2) {
        assert!(OID::from_vec(&w[0].0) < OID::from_vec(&w[1].0));
    }
    assert_eq!(r[0].1, Value::Integer(1));
    assert_eq!(r[99].1, Value::Integer(100));
}

#[test]
fn walk_is_ascending_and_after_start() {
    let st = store_with(&["1.3.6.1.2.1.1.10.0", "1.3.6.1.2.1.1.2.0", "1.3.6.1.2.1.1.9.0", "1.3.6.1.2.1.1.1.0"]);
    let start = oid("1.3.6.1.2.1.1.2.0");
    let r = st.walk(&start);
    assert_eq!(r.len(), 2);
    assert_eq!(r[0].0, arcs("1.3.6.1.2.1.1.9.0"));
    assert_eq!(r[1].0, arcs("1.3.6.1.2.1.1.10.0"));
    for (k, _) in &r {
        assert!(OID::from_vec(k) > start);
    }
}

#[test]
fn walk_past_the_last_key_ends_the_mib() {
    let st = store_with(&["1.3.6.1.2.1.1.1.0", "1.3.6.1.2.1.1.5.0"]);
    let r = st.walk(&oid("1.3.6.1.2.1.1.5.0"));
    assert_eq!(r, vec![(vec![0, 0], Value::EndOfMibView)]);
}

#[test]
fn insert_replaces_equal_key() {
    let mut st = Store::new();
    st.insert(oid("1.3.6"), Value::Integer(1));
    st.insert(oid("1.3.6"), Value::Integer(2));
    assert_eq!(st.len(), 1);
    assert_eq!(st.get(&oid("1.3.6")), Some(&Value::Integer(2)));
    assert!(st.contains_key(&[1, 3, 6]));
    assert!(!st.contains_key(&[1, 3]));
}

#[test]
fn extend_oid_construction() {
    let mut st = Store::new();
    let outputs = vec![ExtendOutput { name: "foo".to_string(), stdout: "hi\n".to_string(), status: 0 }];
    get_extend(&mut st, &outputs, "1.3.6.1.4.1.8072.1.3.2.3.1");
    assert_eq!(st.len(), 4);
    let key = |k: u32| OID::from_vec(&vec![1, 3, 6, 1, 4, 1, 8072, 1, 3, 2, 3, 1, k, 3, 102, 111, 111]);
    assert_eq!(st.get(&key(1)), Some(&Value::OctetString("hi".to_string())));
    assert_eq!(st.get(&key(2)), Some(&Value::OctetString("hi".to_string())));
    assert_eq!(st.get(&key(3)), Some(&Value::Integer(1)));
    assert_eq!(st.get(&key(4)), Some(&Value::Integer(0)));
}

#[test]
fn extend_multiline_output() {
    let mut st = Store::new();
    let outputs = vec![ExtendOutput { name: "ab".to_string(), stdout: "one\ntwo  \n\n".to_string(), status: 3 }];
    get_extend(&mut st, &outputs, "1.3.6.1.4.1.8072.1.3.2.3.1");
    let key = |k: u32| OID::from_vec(&vec![1, 3, 6, 1, 4, 1, 8072, 1, 3, 2, 3, 1, k, 2, 97, 98]);
    assert_eq!(st.get(&key(1)), Some(&Value::OctetString("one".to_string())));
    assert_eq!(st.get(&key(2)), Some(&Value::OctetString("one\ntwo".to_string())));
    assert_eq!(st.get(&key(3)), Some(&Value::Integer(3)));
    assert_eq!(st.get(&key(4)), Some(&Value::Integer(3)));
}

#[test]
fn extend_output_loses_unicode_trailing_space() {
    let mut st = Store::new();
    let outputs = vec![ExtendOutput { name: "u".to_string(), stdout: "hi\u{3000}\u{a0}\n".to_string(), status: 0 }];
    get_extend(&mut st, &outputs, "1.3.6.1.4.1.8072.1.3.2.3.1");
    let key = |k: u32| OID::from_vec(&vec![1, 3, 6, 1, 4, 1, 8072, 1, 3, 2, 3, 1, k, 1, 117]);
    assert_eq!(st.get(&key(2)), Some(&Value::OctetString("hi".to_string())));
    assert_eq!(st.get(&key(1)), Some(&Value::OctetString("hi\u{3000}\u{a0}".to_string())));
}

#[test]
fn extend_empty_output() {
    let mut st = Store::new();
    let outputs = vec![ExtendOutput { name: "x".to_string(), stdout: String::new(), status: 1 }];
    get_extend(&mut st, &outputs, "1.3.6.1.4.1.8072.1.3.2.3.1");
    let key = |k: u32| OID::from_vec(&vec![1, 3, 6, 1, 4, 1, 8072, 1, 3, 2, 3, 1, k, 1, 120]);
    assert_eq!(st.get(&key(1)), Some(&Value::OctetString(String::new())));
    assert_eq!(st.get(&key(3)), Some(&Value::Integer(0)));
}
