use sunt::mib_extend::ExtendOutput;
use sunt::mib_sys::HostInfo;
use sunt::oid::OID;
use sunt::refresh::{dotted_ok, refresh, HostSnapshot, MibBases};
use sunt::store::Store;
use sunt::value::Value;

fn bases() -> MibBases {
    MibBases {
        system: "1.3.6.1.2.1.1".to_string(),
        disks: "1.3.6.1.4.1.2021.13.15.1.1".to_string(),
        hr_storage: "1.3.6.1.2.1.25.2.3.1".to_string(),
        dsk: "1.3.6.1.4.1.2021.9.1".to_string(),
        if_table: "1.3.6.1.2.1.2.2.1".to_string(),
        if_x_table: "1.3.6.1.2.1.31.1.1.1".to_string(),
        hr_sw_run: "1.3.6.1.2.1.25.4.2.1".to_string(),
        extend: "1.3.6.1.4.1.8072.1.3.2.3.1".to_string(),
    }
}

fn snapshot() -> HostSnapshot {
    HostSnapshot {
        host: Some(HostInfo {
            sysname: "Linux".to_string(),
            nodename: "alpha".to_string(),
            release: "6.1".to_string(),
            version: "#1".to_string(),
            machine: "x86_64".to_string(),
        }),
        uptime: Some(10),
        diskstats: "   8       0 sda 1 0 2 0 3 0 4 0 0 0 0\n".to_string(),
        mapper: vec![],
        mounts: vec![],
        netdev: "h1\nh2\n".to_string(),
        ifaces: vec![],
        procs: vec![],
        extend: vec![ExtendOutput { name: "foo".to_string(), stdout: "hi\n".to_string(), status: 0 }],
    }
}

#[test]
fn dotted_check() {
    assert!(dotted_ok("1.3.6.1"));
    assert!(!dotted_ok("1..3"));
    assert!(!dotted_ok(""));
    assert!(!dotted_ok("1.4294967296"));
    assert!(bases().check());
    assert!(snapshot().check());
}

#[test]
fn refresh_twice_leaves_the_same_store() {
    let mut once = Store::new();
    refresh(&mut once, &bases(), snapshot());
    let mut twice = Store::new();
    refresh(&mut twice, &bases(), snapshot());
    refresh(&mut twice, &bases(), snapshot());
    assert_eq!(once.len(), 5 + 11 + 4);
    assert_eq!(once.len(), twice.len());
    let from = OID::from_vec(&vec![]);
    assert_eq!(once.walk(&from), twice.walk(&from));
    assert_eq!(
        once.get(&OID::from_string("1.3.6.1.2.1.1.5.0".to_string())),
        Some(&Value::OctetString("alpha".to_string()))
    );
}
