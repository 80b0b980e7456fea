use sunt::mib_disks::{canonicalize_dm_name, get_disks, get_filesystems, mount_points, FsStat, MountInfo};
use sunt::mib_net::{classify_interface, get_interfaces, IfaceClass, IfaceHost, SysEntries};
use sunt::mib_procs::{get_processes, ProcEntry};
use sunt::oid::OID;
use sunt::store::Store;
use sunt::value::Value;

const DISKS: &str = "1.3.6.1.4.1.2021.13.15.1.1";

fn cell(base: &str, col: u32, idx: u32) -> OID {
    let mut v = OID::from_string(base.to_string()).as_vec().clone();
    v.push(col);
    v.push(idx);
    OID::from_vec(&v)
}

const DISKSTATS: &str = "   7       0 loop0 10 0 20 0 0 0 0 0 0 0 0\n   8       0 sda 100 5 2000 30 40 6 9000000000 70 0 80 90\n 253       0 dm-0 7 0 16 1 3 0 8 2 0 3 3\n";

#[test]
fn dm_names_become_vg_and_lv() {
    assert_eq!(canonicalize_dm_name("vg0-root"), "vg0/root");
    assert_eq!(canonicalize_dm_name("my--vg-lv--home"), "my-vg/lv-home");
    assert_eq!(canonicalize_dm_name("mpatha"), "mpatha");
    assert_eq!(canonicalize_dm_name("luks--x"), "luks--x");
}

#[test]
fn disks_table_rows() {
    let mut st = Store::new();
    let aliases = vec![("dm-0".to_string(), "vg0-root".to_string())];
    get_disks(&mut st, DISKS, DISKSTATS, &aliases);
    // two rows of eleven entries: the loop device is left out
    assert_eq!(st.len(), 22);
    assert_eq!(st.get(&cell(DISKS, 1, 1)), Some(&Value::Integer(1)));
    assert_eq!(st.get(&cell(DISKS, 2, 1)), Some(&Value::OctetString("sda".to_string())));
    assert_eq!(st.get(&cell(DISKS, 3, 1)), Some(&Value::Counter32(1_024_000)));
    let written: u64 = 9_000_000_000 * 512;
    assert_eq!(st.get(&cell(DISKS, 4, 1)), Some(&Value::Counter32((written & 0xFFFF_FFFF) as u32)));
    assert_eq!(st.get(&cell(DISKS, 5, 1)), Some(&Value::Counter32(100)));
    assert_eq!(st.get(&cell(DISKS, 6, 1)), Some(&Value::Counter32(40)));
    assert_eq!(st.get(&cell(DISKS, 9, 1)), Some(&Value::Integer(0)));
    assert_eq!(st.get(&cell(DISKS, 12, 1)), Some(&Value::Counter64(1_024_000)));
    assert_eq!(st.get(&cell(DISKS, 13, 1)), Some(&Value::Counter64(written)));
    assert_eq!(st.get(&cell(DISKS, 2, 2)), Some(&Value::OctetString("vg0/root".to_string())));
    assert_eq!(st.get(&cell(DISKS, 1, 3)), None);
}

#[test]
fn disks_probe_twice_is_stable() {
    let mut once = Store::new();
    get_disks(&mut once, DISKS, DISKSTATS, &vec![]);
    let mut twice = Store::new();
    get_disks(&mut twice, DISKS, DISKSTATS, &vec![]);
    get_disks(&mut twice, DISKS, DISKSTATS, &vec![]);
    assert_eq!(once.len(), twice.len());
    let from = OID::from_string("1".to_string());
    assert_eq!(once.walk(&from), twice.walk(&from));
}

fn stat(fsid: u64) -> FsStat {
    FsStat { fsid, frsize: 4096, blocks: 1000, bfree: 250, bavail: 200, files: 100, ffree: 40 }
}

#[test]
fn mounts_are_listed() {
    let m = mount_points("/dev/sda1 / ext4 rw 0 0\nproc /proc proc rw 0 0\n\n");
    assert_eq!(
        m,
        vec![
            ("/dev/sda1".to_string(), "/".to_string()),
            ("proc".to_string(), "/proc".to_string())
        ]
    );
}

#[test]
fn filesystem_tables() {
    const HR: &str = "1.3.6.1.2.1.25.2.3.1";
    const DSK: &str = "1.3.6.1.4.1.2021.9.1";
    let mounts = vec![
        MountInfo {
            device: "/dev/mapper/vg0-root".to_string(),
            resolved: "/dev/dm-0".to_string(),
            mountpoint: "/".to_string(),
            stat: Some(stat(1)),
            mapper: Some("vg0-root".to_string()),
        },
        MountInfo {
            device: "proc".to_string(),
            resolved: "proc".to_string(),
            mountpoint: "/proc".to_string(),
            stat: Some(stat(2)),
            mapper: None,
        },
        MountInfo {
            device: "/dev/sdb1".to_string(),
            resolved: "/dev/sdb1".to_string(),
            mountpoint: "/gone".to_string(),
            stat: None,
            mapper: None,
        },
        MountInfo {
            device: "/dev/mapper/vg0-root".to_string(),
            resolved: "/dev/dm-0".to_string(),
            mountpoint: "/bind".to_string(),
            stat: Some(stat(1)),
            mapper: Some("vg0-root".to_string()),
        },
        MountInfo {
            device: "/dev/sdc1".to_string(),
            resolved: "/dev/sdc1".to_string(),
            mountpoint: "/data".to_string(),
            stat: Some(FsStat { fsid: 3, frsize: 1024, blocks: 0, bfree: 0, bavail: 0, files: 0, ffree: 0 }),
            mapper: None,
        },
    ];
    let mut st = Store::new();
    get_filesystems(&mut st, HR, DSK, &mounts);
    // row 1: six hrStorage entries and ten dsk entries; row 2 (/data): six and eight
    assert_eq!(st.len(), 16 + 14);
    assert_eq!(st.get(&cell(HR, 1, 1)), Some(&Value::Integer(1)));
    assert_eq!(st.get(&cell(HR, 2, 1)), Some(&Value::Null));
    assert_eq!(st.get(&cell(HR, 3, 1)), Some(&Value::OctetString("/".to_string())));
    assert_eq!(st.get(&cell(HR, 4, 1)), Some(&Value::Integer(4096)));
    assert_eq!(st.get(&cell(HR, 5, 1)), Some(&Value::Integer(1000)));
    assert_eq!(st.get(&cell(HR, 6, 1)), Some(&Value::Integer(750)));
    assert_eq!(st.get(&cell(DSK, 2, 1)), Some(&Value::OctetString("/".to_string())));
    assert_eq!(st.get(&cell(DSK, 3, 1)), Some(&Value::OctetString("/dev/vg0/root".to_string())));
    assert_eq!(st.get(&cell(DSK, 4, 1)), Some(&Value::Integer(0)));
    assert_eq!(st.get(&cell(DSK, 5, 1)), Some(&Value::Integer(-1)));
    assert_eq!(st.get(&cell(DSK, 6, 1)), Some(&Value::Integer(4000)));
    assert_eq!(st.get(&cell(DSK, 7, 1)), Some(&Value::Integer(800)));
    assert_eq!(st.get(&cell(DSK, 8, 1)), Some(&Value::Integer(3000)));
    assert_eq!(st.get(&cell(DSK, 9, 1)), Some(&Value::Integer(75)));
    assert_eq!(st.get(&cell(DSK, 10, 1)), Some(&Value::Integer(60)));
    assert_eq!(st.get(&cell(DSK, 3, 2)), Some(&Value::OctetString("/dev/sdc1".to_string())));
    assert_eq!(st.get(&cell(DSK, 9, 2)), None);
    assert_eq!(st.get(&cell(DSK, 10, 2)), None);
}

const NETDEV: &str = "Inter-|   Receive                                                |  Transmit\n face |bytes    packets errs drop fifo frame compressed multicast|bytes    packets errs drop fifo colls carrier compressed\n    lo: 100 2 0 0 0 0 0 0 100 2 0 0 0 0 0 0\n  eth0: 5000000000 10 1 2 0 0 0 3 6000 20 4 5 0 0 0 0\nwlan0: 7 8 0 0 0 0 0 0 9 10 0 0 0 0 0 0\n";

#[test]
fn classification_order() {
    let sys = |device, bonding, bridge, master| SysEntries { device, bonding, bridge, master };
    assert_eq!(classify_interface("eth0", &sys(true, true, false, false), None), IfaceClass::Physical);
    assert_eq!(classify_interface("bond0", &sys(false, true, true, false), None), IfaceClass::Bonding);
    assert_eq!(classify_interface("br0", &sys(false, false, true, true), None), IfaceClass::Bridge);
    let config = "VLAN Dev name | VLAN ID\nName-Type: VLAN_NAME_TYPE_RAW_PLUS_VID_NO_PAD\neth0.5         | 5  | eth0\n";
    assert_eq!(classify_interface("eth0.5", &sys(false, false, false, true), Some(config)), IfaceClass::VLAN);
    assert_eq!(classify_interface("veth1", &sys(false, false, false, true), Some(config)), IfaceClass::Virtual);
    assert_eq!(classify_interface("eth0.5", &sys(false, false, false, false), Some(config)), IfaceClass::Virtual);
}

#[test]
fn interface_tables() {
    const IF: &str = "1.3.6.1.2.1.2.2.1";
    const X: &str = "1.3.6.1.2.1.31.1.1.1";
    let hosts = vec![
        IfaceHost { name: "lo".to_string(), class: IfaceClass::Virtual, mtu: Some(65536), speed: None, operstate: Some("unknown".to_string()) },
        IfaceHost { name: "eth0".to_string(), class: IfaceClass::Physical, mtu: Some(1500), speed: Some(10000), operstate: Some("up".to_string()) },
        IfaceHost { name: "wlan0".to_string(), class: IfaceClass::Physical, mtu: None, speed: None, operstate: Some("down".to_string()) },
    ];
    let mut st = Store::new();
    get_interfaces(&mut st, IF, X, NETDEV, &hosts);
    assert_eq!(st.get(&cell(IF, 1, 1)), Some(&Value::Integer(1)));
    assert_eq!(st.get(&cell(IF, 2, 1)), Some(&Value::OctetString("eth0".to_string())));
    assert_eq!(st.get(&cell(IF, 3, 1)), Some(&Value::Integer(6)));
    assert_eq!(st.get(&cell(IF, 4, 1)), Some(&Value::Integer(1500)));
    assert_eq!(st.get(&cell(IF, 5, 1)), Some(&Value::Unsigned32(u32::MAX)));
    assert_eq!(st.get(&cell(IF, 8, 1)), Some(&Value::Integer(1)));
    assert_eq!(st.get(&cell(IF, 10, 1)), Some(&Value::Counter32((5_000_000_000u64 & 0xFFFF_FFFF) as u32)));
    assert_eq!(st.get(&cell(IF, 11, 1)), Some(&Value::Counter32(10)));
    assert_eq!(st.get(&cell(IF, 12, 1)), Some(&Value::Counter32(3)));
    assert_eq!(st.get(&cell(IF, 13, 1)), Some(&Value::Counter32(2)));
    assert_eq!(st.get(&cell(IF, 14, 1)), Some(&Value::Counter32(1)));
    assert_eq!(st.get(&cell(IF, 16, 1)), Some(&Value::Counter32(6000)));
    assert_eq!(st.get(&cell(IF, 17, 1)), Some(&Value::Counter32(20)));
    assert_eq!(st.get(&cell(IF, 19, 1)), Some(&Value::Counter32(5)));
    assert_eq!(st.get(&cell(IF, 20, 1)), Some(&Value::Counter32(4)));
    assert_eq!(st.get(&cell(X, 1, 1)), Some(&Value::OctetString("eth0".to_string())));
    assert_eq!(st.get(&cell(X, 6, 1)), Some(&Value::Counter64(5_000_000_000)));
    assert_eq!(st.get(&cell(X, 15, 1)), Some(&Value::Unsigned32(10000)));
    assert_eq!(st.get(&cell(IF, 3, 2)), Some(&Value::Integer(71)));
    assert_eq!(st.get(&cell(IF, 4, 2)), None);
    assert_eq!(st.get(&cell(IF, 5, 2)), Some(&Value::Unsigned32(0)));
    assert_eq!(st.get(&cell(IF, 8, 2)), Some(&Value::Integer(2)));
    assert_eq!(st.get(&cell(IF, 1, 3)), None);
}

#[test]
fn process_table() {
    const RUN: &str = "1.3.6.1.2.1.25.4.2.1";
    let entries = vec![
        ProcEntry { name: "1".to_string(), exe: Some("/usr/lib/systemd/systemd".to_string()) },
        ProcEntry { name: "self".to_string(), exe: Some("/usr/bin/cat".to_string()) },
        ProcEntry { name: "42".to_string(), exe: None },
        ProcEntry { name: "77".to_string(), exe: Some("/bin/sh".to_string()) },
    ];
    let mut st = Store::new();
    get_processes(&mut st, RUN, &entries);
    assert_eq!(st.len(), 6);
    assert_eq!(st.get(&cell(RUN, 1, 1)), Some(&Value::Integer(1)));
    assert_eq!(st.get(&cell(RUN, 2, 1)), Some(&Value::OctetString("systemd".to_string())));
    assert_eq!(st.get(&cell(RUN, 4, 1)), Some(&Value::OctetString("/usr/lib/systemd/systemd".to_string())));
    assert_eq!(st.get(&cell(RUN, 2, 77)), Some(&Value::OctetString("sh".to_string())));
    assert_eq!(st.get(&cell(RUN, 1, 42)), None);
}

#[test]
fn device_paths_and_interface_names() {
    assert!(sunt::mib_disks::is_device_path("/dev/sda1"));
    assert!(!sunt::mib_disks::is_device_path("tmpfs"));
    assert_eq!(
        sunt::mib_net::netdev_names(NETDEV),
        vec!["lo".to_string(), "eth0".to_string(), "wlan0".to_string()]
    );
    assert_eq!(sunt::mib_net::netdev_names("only one line\n"), Vec::<String>::new());
}
