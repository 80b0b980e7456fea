use vstd::prelude::*;
use crate::mib_disks::{field_u64, low32};
use crate::mib_sys::base_of;
use crate::oid::{is_dotted, parse_dotted, OID};
use crate::store::{entry_views, insert_rows, push_row, Store};
use crate::text::{
    chars_of, equal_chars, has_prefix, is_u64_number, lines_of, parse_u64, split_lines,
    split_words, starts_with, string_from_chars, views, words,
};
use crate::value::{Value, ValueView};

verus! {

/// What kind of network interface a name stands for.
#[derive(Clone, Copy, Debug, PartialEq, Eq, Structural)]
pub enum IfaceClass {
    Physical,
    Bonding,
    VLAN,
    Bridge,
    Virtual,
}

/// Which entries `/sys/class/net/<if>/` has.
pub struct SysEntries {
    pub device: bool,
    pub bonding: bool,
    pub bridge: bool,
    pub master: bool,
}

/// What the host tells of an interface besides its counters.
pub struct IfaceHost {
    pub name: String,
    pub class: IfaceClass,
    pub mtu: Option<u32>,
    pub speed: Option<u32>,
    pub operstate: Option<String>,
}

/// The interface names that `/proc/net/vlan/config` lists: the first word of each line
/// after its two header lines.
pub open spec fn vlan_listed(config: Seq<char>, name: Seq<char>) -> bool {
    exists|i: int|
        2 <= i < lines_of(config).len() && words(#[trigger] lines_of(config)[i]).len() > 0
            && words(lines_of(config)[i])[0] == name
}

/// The class of an interface: a `device` entry makes it physical, then `bonding` a bond,
/// then `bridge` a bridge; with a `master` entry and a line in the VLAN configuration it is
/// a VLAN; anything else is virtual.
pub open spec fn iface_class(name: Seq<char>, sys: SysEntries, vlan_config: Option<Seq<char>>) -> IfaceClass {
    if sys.device {
        IfaceClass::Physical
    } else if sys.bonding {
        IfaceClass::Bonding
    } else if sys.bridge {
        IfaceClass::Bridge
    } else if sys.master && (match vlan_config {
        Some(c) => vlan_listed(c, name),
        None => false,
    }) {
        IfaceClass::VLAN
    } else {
        IfaceClass::Virtual
    }
}

/// Classifies an interface from its `/sys/class/net` entries and the text of
/// `/proc/net/vlan/config`, when there is one.
pub fn classify_interface(ifname: &str, sys: &SysEntries, vlan_config: Option<&str>) -> (r: IfaceClass)
    ensures
        r == iface_class(ifname@, *sys, match vlan_config {
            Some(c) => Some(c@),
            None => None,
        }),
{
    if sys.device {
        return IfaceClass::Physical;
    }
    if sys.bonding {
        return IfaceClass::Bonding;
    }
    if sys.bridge {
        return IfaceClass::Bridge;
    }
    if sys.master {
        if let Some(config) = vlan_config {
            let name = chars_of(ifname);
            let text = chars_of(config);
            let lines = split_lines(&text);
            let mut i: usize = 2;
            while i < lines.len()
                invariant
                    2 <= i,
                    !sys.device && !sys.bonding && !sys.bridge && sys.master,
                    vlan_config == Some(config),
                    views(lines@) == lines_of(config@),
                    name@ == ifname@,
                    forall|k: int|
                        2 <= k < i && k < lines_of(config@).len() ==> !(words(
                            #[trigger] lines_of(config@)[k],
                        ).len() > 0 && words(lines_of(config@)[k])[0] == ifname@),
                decreases lines.len() - i,
            {
                let w = split_words(lines[i].as_slice());
                proof {
                    assert(lines@[i as int]@ == lines_of(config@)[i as int]);
                }
                if w.len() > 0 && equal_chars(w[0].as_slice(), name.as_slice()) {
                    proof {
                        assert(views(w@)[0] == w@[0]@);
                        assert(words(lines_of(config@)[i as int]).len() > 0);
                        assert(words(lines_of(config@)[i as int])[0] == ifname@);
                        assert(vlan_listed(config@, ifname@));
                        assert(!sys.device && !sys.bonding && !sys.bridge && sys.master);
                        assert(iface_class(ifname@, *sys, Some(config@)) == IfaceClass::VLAN);
                    }
                    return IfaceClass::VLAN;
                }
                proof {
                    if w@.len() > 0 {
                        assert(views(w@)[0] == w@[0]@);
                    }
                }
                i = i + 1;
            }
        }
    }
    IfaceClass::Virtual
}

/// The name in the first field of a `/proc/net/dev` line, without trailing colons.
pub open spec fn trim_colons(s: Seq<char>) -> Seq<char>
    decreases s.len(),
{
    if s.len() > 0 && s.last() == ':' {
        trim_colons(s.drop_last())
    } else {
        s
    }
}

fn trim_colons_exec(s: &Vec<char>) -> (r: Vec<char>)
    ensures
        r@ == trim_colons(s@),
{
    let mut k: usize = s.len();
    proof {
        assert(s@.take(k as int) =~= s@);
    }
    while k > 0 && s[k - 1] == ':'
        invariant
            k <= s@.len(),
            trim_colons(s@) == trim_colons(s@.take(k as int)),
        decreases k,
    {
        proof {
            assert(s@.take(k as int).drop_last() =~= s@.take(k as int - 1));
        }
        k = k - 1;
    }
    let r = crate::text::copy_range(s.as_slice(), 0, k);
    proof {
        assert(r@ =~= s@.take(k as int));
    }
    r
}

/// What the host tells of the interface `name`, the first entry if several match.
pub open spec fn lookup_host(hosts: Seq<IfaceHost>, name: Seq<char>) -> Option<IfaceHost>
    decreases hosts.len(),
{
    if hosts.len() == 0 {
        None
    } else if hosts[0].name@ == name {
        Some(hosts[0])
    } else {
        lookup_host(hosts.drop_first(), name)
    }
}

/// The fields of a `/proc/net/dev` line: enough numeric ones for the counters.
pub open spec fn netdev_fields_ok(w: Seq<Seq<char>>) -> bool {
    &&& w.len() >= 13
    &&& forall|k: int| 1 <= k <= 12 ==> is_u64_number(#[trigger] w[k])
}

/// A line that gives a row: its counters read and its interface is known and not
/// virtual.
pub open spec fn netdev_accepted(line: Seq<char>, hosts: Seq<IfaceHost>) -> bool {
    let w = words(line);
    netdev_fields_ok(w) && match lookup_host(hosts, trim_colons(w[0])) {
        Some(h) => h.class != IfaceClass::Virtual,
        None => false,
    }
}

/// `ifType`: 71 for a physical wireless interface, 135 for a VLAN, 6 otherwise.
pub open spec fn if_type(class: IfaceClass, name: Seq<char>) -> i64 {
    if class == IfaceClass::Physical && starts_with(name, "wl"@) {
        71
    } else if class == IfaceClass::VLAN {
        135
    } else {
        6
    }
}

/// Speed in Mb/s as bits per second, saturating at 32 bits.
pub open spec fn speed_bps(speed: Option<u32>) -> u32 {
    let s = match speed {
        Some(s) => s as int,
        None => 0,
    };
    if s * 1_000_000 > u32::MAX {
        u32::MAX
    } else {
        (s * 1_000_000) as u32
    }
}

/// `ifOperStatus`: 1 when the operational state reads `up`, 2 otherwise.
pub open spec fn oper_status(state: Option<String>) -> i64 {
    match state {
        Some(s) => if s@ == "up"@ {
            1i64
        } else {
            2i64
        },
        None => 2i64,
    }
}

/// The first ifTable entries of row `n`: index, description, type and MTU.
pub open spec fn iface_head(if_tab: Seq<u32>, n: u32, name: Seq<char>, h: IfaceHost) -> Seq<(Seq<u32>, ValueView)> {
    let mtu = match h.mtu {
        Some(m) => seq![(if_tab + seq![4u32, n], ValueView::Integer(m as i64))],
        None => Seq::<(Seq<u32>, ValueView)>::empty(),
    };
    seq![
        (if_tab + seq![1u32, n], ValueView::Integer(n as i64)),
        (if_tab + seq![2u32, n], ValueView::OctetString(name)),
        (if_tab + seq![3u32, n], ValueView::Integer(if_type(h.class, name))),
    ] + mtu + seq![
        (if_tab + seq![5u32, n], ValueView::Unsigned32(speed_bps(h.speed))),
        (if_tab + seq![8u32, n], ValueView::Integer(oper_status(h.operstate))),
    ]
}

/// The ifTable counters of row `n`, from the fields of its `/proc/net/dev` line.
pub open spec fn iface_counters(if_tab: Seq<u32>, n: u32, w: Seq<Seq<char>>) -> Seq<(Seq<u32>, ValueView)> {
    seq![
        (if_tab + seq![10u32, n], ValueView::Counter32(low32(field_u64(w[1])))),
        (if_tab + seq![11u32, n], ValueView::Counter32(low32(field_u64(w[2])))),
        (if_tab + seq![12u32, n], ValueView::Counter32(low32(field_u64(w[8])))),
        (if_tab + seq![13u32, n], ValueView::Counter32(low32(field_u64(w[4])))),
        (if_tab + seq![14u32, n], ValueView::Counter32(low32(field_u64(w[3])))),
        (if_tab + seq![16u32, n], ValueView::Counter32(low32(field_u64(w[9])))),
        (if_tab + seq![17u32, n], ValueView::Counter32(low32(field_u64(w[10])))),
        (if_tab + seq![19u32, n], ValueView::Counter32(low32(field_u64(w[12])))),
        (if_tab + seq![20u32, n], ValueView::Counter32(low32(field_u64(w[11])))),
    ]
}

/// The ifXTable entries of row `n`.
pub open spec fn iface_extended(x_tab: Seq<u32>, n: u32, name: Seq<char>, w: Seq<Seq<char>>, speed: Option<u32>) -> Seq<
    (Seq<u32>, ValueView),
> {
    seq![
        (x_tab + seq![1u32, n], ValueView::OctetString(name)),
        (x_tab + seq![6u32, n], ValueView::Counter64(field_u64(w[1]))),
        (x_tab + seq![7u32, n], ValueView::Counter64(field_u64(w[2]))),
        (x_tab + seq![10u32, n], ValueView::Counter64(field_u64(w[9]))),
        (x_tab + seq![11u32, n], ValueView::Counter64(field_u64(w[10]))),
        (x_tab + seq![15u32, n], ValueView::Unsigned32(match speed {
            Some(s) => s,
            None => 0,
        })),
    ]
}

/// The ifTable and ifXTable entries of row `n`.
pub open spec fn iface_row(if_tab: Seq<u32>, x_tab: Seq<u32>, n: u32, w: Seq<Seq<char>>, h: IfaceHost) -> Seq<
    (Seq<u32>, ValueView),
> {
    let name = trim_colons(w[0]);
    iface_head(if_tab, n, name, h) + iface_counters(if_tab, n, w) + iface_extended(x_tab, n, name, w, h.speed)
}

/// How many of the lines give a row.
pub open spec fn iface_count(lines: Seq<Seq<char>>, hosts: Seq<IfaceHost>) -> nat
    decreases lines.len(),
{
    if lines.len() == 0 {
        0
    } else if netdev_accepted(lines.last(), hosts) {
        iface_count(lines.drop_last(), hosts) + 1
    } else {
        iface_count(lines.drop_last(), hosts)
    }
}

/// The entries for the interface lines of `/proc/net/dev` (its header lines left out),
/// rows numbered from 1 in file order.
pub open spec fn iface_table(if_tab: Seq<u32>, x_tab: Seq<u32>, lines: Seq<Seq<char>>, hosts: Seq<IfaceHost>) -> Seq<
    (Seq<u32>, ValueView),
>
    decreases lines.len(),
{
    if lines.len() == 0 {
        Seq::<(Seq<u32>, ValueView)>::empty()
    } else {
        let prev = iface_table(if_tab, x_tab, lines.drop_last(), hosts);
        if netdev_accepted(lines.last(), hosts) {
            let w = words(lines.last());
            prev + iface_row(
                if_tab,
                x_tab,
                (iface_count(lines.drop_last(), hosts) + 1) as u32,
                w,
                lookup_host(hosts, trim_colons(w[0]))->Some_0,
            )
        } else {
            prev
        }
    }
}

/// The lines of `/proc/net/dev` that describe interfaces.
pub open spec fn netdev_lines(text: Seq<char>) -> Seq<Seq<char>> {
    let l = lines_of(text);
    if l.len() >= 2 {
        l.skip(2)
    } else {
        Seq::<Seq<char>>::empty()
    }
}

fn find_host(hosts: &Vec<IfaceHost>, name: &[char]) -> (r: Option<usize>)
    ensures
        match r {
            None => lookup_host(hosts@, name@) is None,
            Some(i) => i < hosts@.len() && lookup_host(hosts@, name@) == Some(hosts@[i as int]),
        },
{
    let mut i: usize = 0;
    proof {
        assert(hosts@.skip(0) =~= hosts@);
    }
    while i < hosts.len()
        invariant
            i <= hosts@.len(),
            lookup_host(hosts@, name@) == lookup_host(hosts@.skip(i as int), name@),
        decreases hosts.len() - i,
    {
        let h = chars_of(hosts[i].name.as_str());
        proof {
            assert(hosts@.skip(i as int)[0] == hosts@[i as int]);
            assert(hosts@.skip(i as int).drop_first() =~= hosts@.skip(i as int + 1));
        }
        if equal_chars(h.as_slice(), name) {
            return Some(i);
        }
        i = i + 1;
    }
    None
}

fn field(w: &Vec<Vec<char>>, k: usize) -> (r: u64)
    requires
        k < w@.len(),
        is_u64_number(views(w@)[k as int]),
    ensures
        r == field_u64(views(w@)[k as int]),
{
    proof {
        assert(views(w@)[k as int] == w@[k as int]@);
    }
    match parse_u64(w[k].as_slice()) {
        Some(v) => v,
        None => 0,
    }
}

fn speed_bps_exec(speed: Option<u32>) -> (r: u32)
    ensures
        r == speed_bps(speed),
{
    let s: u64 = match speed {
        Some(s) => s as u64,
        None => 0,
    };
    if s * 1_000_000 > u32::MAX as u64 {
        u32::MAX
    } else {
        (s * 1_000_000) as u32
    }
}

fn push_iface_head(rows: &mut Vec<(OID, Value)>, if_tab: &OID, n: u32, name: &Vec<char>, h: &IfaceHost)
    ensures
        entry_views(final(rows)@) == entry_views(old(rows)@) + iface_head(if_tab@, n, name@, *h),
{
    let wl = has_prefix(name.as_slice(), "wl");
    let kind: i64 = if h.class == IfaceClass::Physical && wl {
        71
    } else if h.class == IfaceClass::VLAN {
        135
    } else {
        6
    };
    let oper: i64 = match &h.operstate {
        Some(s) => {
            let c = chars_of(s.as_str());
            let up = chars_of("up");
            if equal_chars(c.as_slice(), up.as_slice()) {
                1
            } else {
                2
            }
        },
        None => 2,
    };
    let ghost start = entry_views(rows@);
    push_row(rows, if_tab.cell(1, n), Value::Integer(n as i64));
    push_row(rows, if_tab.cell(2, n), Value::OctetString(string_from_chars(name.as_slice())));
    push_row(rows, if_tab.cell(3, n), Value::Integer(kind));
    let ghost head = entry_views(rows@);
    match h.mtu {
        Some(m) => {
            push_row(rows, if_tab.cell(4, n), Value::Integer(m as i64));
        },
        None => {},
    }
    push_row(rows, if_tab.cell(5, n), Value::Unsigned32(speed_bps_exec(h.speed)));
    push_row(rows, if_tab.cell(8, n), Value::Integer(oper));
    proof {
        let expected = iface_head(if_tab@, n, name@, *h);
        assert(oper == oper_status(h.operstate));
        assert(head =~= start + expected.take(3));
        assert(entry_views(rows@) =~= start + expected);
    }
}

fn push_iface_counters(rows: &mut Vec<(OID, Value)>, if_tab: &OID, n: u32, w: &Vec<Vec<char>>)
    requires
        netdev_fields_ok(views(w@)),
    ensures
        entry_views(final(rows)@) == entry_views(old(rows)@) + iface_counters(if_tab@, n, views(w@)),
{
    let ghost start = entry_views(rows@);
    push_row(rows, if_tab.cell(10, n), Value::Counter32((field(w, 1) % 0x1_0000_0000) as u32));
    push_row(rows, if_tab.cell(11, n), Value::Counter32((field(w, 2) % 0x1_0000_0000) as u32));
    push_row(rows, if_tab.cell(12, n), Value::Counter32((field(w, 8) % 0x1_0000_0000) as u32));
    push_row(rows, if_tab.cell(13, n), Value::Counter32((field(w, 4) % 0x1_0000_0000) as u32));
    push_row(rows, if_tab.cell(14, n), Value::Counter32((field(w, 3) % 0x1_0000_0000) as u32));
    push_row(rows, if_tab.cell(16, n), Value::Counter32((field(w, 9) % 0x1_0000_0000) as u32));
    push_row(rows, if_tab.cell(17, n), Value::Counter32((field(w, 10) % 0x1_0000_0000) as u32));
    push_row(rows, if_tab.cell(19, n), Value::Counter32((field(w, 12) % 0x1_0000_0000) as u32));
    push_row(rows, if_tab.cell(20, n), Value::Counter32((field(w, 11) % 0x1_0000_0000) as u32));
    proof {
        assert(entry_views(rows@) =~= start + iface_counters(if_tab@, n, views(w@)));
    }
}

fn push_iface_extended(
    rows: &mut Vec<(OID, Value)>,
    x_tab: &OID,
    n: u32,
    name: &Vec<char>,
    w: &Vec<Vec<char>>,
    speed: Option<u32>,
)
    requires
        netdev_fields_ok(views(w@)),
    ensures
        entry_views(final(rows)@) == entry_views(old(rows)@) + iface_extended(x_tab@, n, name@, views(w@), speed),
{
    let ghost start = entry_views(rows@);
    push_row(rows, x_tab.cell(1, n), Value::OctetString(string_from_chars(name.as_slice())));
    push_row(rows, x_tab.cell(6, n), Value::Counter64(field(w, 1)));
    push_row(rows, x_tab.cell(7, n), Value::Counter64(field(w, 2)));
    push_row(rows, x_tab.cell(10, n), Value::Counter64(field(w, 9)));
    push_row(rows, x_tab.cell(11, n), Value::Counter64(field(w, 10)));
    let high: u32 = match speed {
        Some(s) => s,
        None => 0,
    };
    push_row(rows, x_tab.cell(15, n), Value::Unsigned32(high));
    proof {
        assert(entry_views(rows@) =~= start + iface_extended(x_tab@, n, name@, views(w@), speed));
    }
}

fn push_iface_row(
    rows: &mut Vec<(OID, Value)>,
    if_tab: &OID,
    x_tab: &OID,
    n: u32,
    w: &Vec<Vec<char>>,
    h: &IfaceHost,
)
    requires
        netdev_fields_ok(views(w@)),
    ensures
        entry_views(final(rows)@) == entry_views(old(rows)@) + iface_row(
            if_tab@,
            x_tab@,
            n,
            views(w@),
            *h,
        ),
{
    proof {
        assert(views(w@)[0] == w@[0]@);
    }
    let name = trim_colons_exec(&w[0]);
    let ghost start = entry_views(rows@);
    push_iface_head(rows, if_tab, n, &name, h);
    push_iface_counters(rows, if_tab, n, w);
    push_iface_extended(rows, x_tab, n, &name, w, h.speed);
    proof {
        assert(entry_views(rows@) =~= start + iface_row(if_tab@, x_tab@, n, views(w@), *h));
    }
}

/// Fills IF-MIB's ifTable under `if_table_oid` and ifXTable under `extended_oid` from
/// the text of `/proc/net/dev` and what the host tells of each interface; interfaces
/// that are virtual or unknown are left out.
pub fn get_interfaces(
    values: &mut Store,
    if_table_oid: &str,
    extended_oid: &str,
    netdev: &str,
    hosts: &Vec<IfaceHost>,
)
    requires
        old(values).wf(),
        is_dotted(if_table_oid@),
        is_dotted(extended_oid@),
        lines_of(netdev@).len() < u32::MAX,
    ensures
        final(values).wf(),
        final(values).map() == insert_rows(
            old(values).map(),
            iface_table(
                parse_dotted(if_table_oid@),
                parse_dotted(extended_oid@),
                netdev_lines(netdev@),
                hosts@,
            ),
        ),
{
    let if_tab = base_of(if_table_oid);
    let x_tab = base_of(extended_oid);
    let text = chars_of(netdev);
    let lines = split_lines(&text);
    let ghost ls = netdev_lines(netdev@);
    let mut rows: Vec<(OID, Value)> = Vec::new();
    let mut count: u32 = 0;
    let mut i: usize = 2;
    proof {
        assert(ls.take(0) =~= Seq::<Seq<char>>::empty());
        assert(entry_views(rows@) =~= Seq::<(Seq<u32>, ValueView)>::empty());
    }
    if lines.len() < 2 {
        proof {
            assert(ls =~= Seq::<Seq<char>>::empty());
        }
        values.insert_all(rows);
        return;
    }
    while i < lines.len()
        invariant
            2 <= i <= lines@.len(),
            views(lines@) == lines_of(netdev@),
            ls == lines_of(netdev@).skip(2),
            lines@.len() < u32::MAX,
            count == iface_count(ls.take(i - 2), hosts@),
            count <= i - 2,
            entry_views(rows@) == iface_table(if_tab@, x_tab@, ls.take(i - 2), hosts@),
        decreases lines.len() - i,
    {
        let w = split_words(lines[i].as_slice());
        let ghost t1 = ls.take(i - 1);
        proof {
            assert(lines@[i as int]@ == ls[i - 2]);
            assert(t1.drop_last() =~= ls.take(i - 2));
            assert(t1.last() == ls[i - 2]);
            assert(words(t1.last()) == views(w@));
        }
        let mut ok = w.len() >= 13;
        let mut k: usize = 1;
        while ok && k <= 12
            invariant
                1 <= k <= 13,
                ok ==> w@.len() >= 13,
                ok ==> forall|j: int| 1 <= j < k ==> is_u64_number(#[trigger] views(w@)[j]),
                !ok ==> !netdev_fields_ok(views(w@)),
            decreases 13 - k,
        {
            proof {
                assert(views(w@)[k as int] == w@[k as int]@);
            }
            if parse_u64(w[k].as_slice()).is_none() {
                ok = false;
                k = 13;
            } else {
                k = k + 1;
            }
        }
        let ghost prev_rows = entry_views(rows@);
        if ok {
            let name = trim_colons_exec(&w[0]);
            proof {
                assert(views(w@)[0] == w@[0]@);
            }
            match find_host(hosts, name.as_slice()) {
                Some(j) => {
                    if hosts[j].class != IfaceClass::Virtual {
                        push_iface_row(&mut rows, &if_tab, &x_tab, count + 1, &w, &hosts[j]);
                        count = count + 1;
                    }
                },
                None => {},
            }
        }
        i = i + 1;
        proof {
            assert(ls.take(i - 2) == t1);
        }
    }
    proof {
        assert(ls.take(lines@.len() - 2) =~= ls);
    }
    values.insert_all(rows);
}

/// The interface names of the lines of `/proc/net/dev` that have a first field.
pub open spec fn netdev_name_list(lines: Seq<Seq<char>>) -> Seq<Seq<char>>
    decreases lines.len(),
{
    if lines.len() == 0 {
        Seq::<Seq<char>>::empty()
    } else {
        let prev = netdev_name_list(lines.drop_last());
        let w = words(lines.last());
        if w.len() > 0 {
            prev.push(trim_colons(w[0]))
        } else {
            prev
        }
    }
}

/// The interface names that the text of `/proc/net/dev` lists, in order.
pub fn netdev_names(netdev: &str) -> (r: Vec<String>)
    ensures
        r@.map_values(|s: String| s@) == netdev_name_list(netdev_lines(netdev@)),
{
    let text = chars_of(netdev);
    let lines = split_lines(&text);
    let ghost ls = netdev_lines(netdev@);
    let mut out: Vec<String> = Vec::new();
    if lines.len() < 2 {
        proof {
            assert(ls =~= Seq::<Seq<char>>::empty());
            assert(out@.map_values(|s: String| s@) =~= Seq::<Seq<char>>::empty());
        }
        return out;
    }
    let mut i: usize = 2;
    proof {
        assert(ls.take(0) =~= Seq::<Seq<char>>::empty());
        assert(out@.map_values(|s: String| s@) =~= Seq::<Seq<char>>::empty());
    }
    while i < lines.len()
        invariant
            2 <= i <= lines@.len(),
            views(lines@) == lines_of(netdev@),
            ls == lines_of(netdev@).skip(2),
            out@.map_values(|s: String| s@) == netdev_name_list(ls.take(i - 2)),
        decreases lines.len() - i,
    {
        let w = split_words(lines[i].as_slice());
        let ghost t1 = ls.take(i - 1);
        proof {
            assert(lines@[i as int]@ == ls[i - 2]);
            assert(t1.drop_last() =~= ls.take(i - 2));
            assert(t1.last() == ls[i - 2]);
        }
        if w.len() > 0 {
            proof {
                assert(views(w@)[0] == w@[0]@);
            }
            let name = trim_colons_exec(&w[0]);
            let ghost before = out@.map_values(|s: String| s@);
            let n = string_from_chars(name.as_slice());
            out.push(n);
            proof {
                assert(out@.map_values(|s: String| s@) =~= before.push(name@));
            }
        }
        i = i + 1;
        proof {
            assert(ls.take(i - 2) == t1);
        }
    }
    proof {
        assert(ls.take(lines@.len() - 2) =~= ls);
    }
    out
}

} // verus!
