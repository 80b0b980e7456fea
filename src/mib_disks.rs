use vstd::prelude::*;
use crate::oid::{is_dotted, parse_dotted, OID};
use crate::mib_sys::base_of;
use crate::store::{entry_views, insert_rows, push_row, Store};
use crate::text::{
    chars_of, digits_value, has_prefix, is_u64_number, lines_of, parse_u64, split_lines,
    split_words, starts_with, string_from_chars, views, words,
};
use crate::value::{Value, ValueView};

verus! {

/// The position of the dash that parts volume group from logical volume in a
/// device-mapper name, looking from `i` on; a doubled dash is an escaped one.
pub open spec fn lv_separator(s: Seq<char>, i: int) -> Option<int>
    decreases s.len() - i,
{
    if i < 0 || i >= s.len() {
        None
    } else if s[i] == '-' {
        if i + 1 < s.len() && s[i + 1] == '-' {
            lv_separator(s, i + 2)
        } else {
            Some(i)
        }
    } else {
        lv_separator(s, i + 1)
    }
}

/// `s` with each doubled dash made single.
pub open spec fn unescape_dashes(s: Seq<char>) -> Seq<char>
    decreases s.len(),
{
    if s.len() == 0 {
        s
    } else if s.len() >= 2 && s[0] == '-' && s[1] == '-' {
        seq!['-'] + unescape_dashes(s.skip(2))
    } else {
        seq![s[0]] + unescape_dashes(s.skip(1))
    }
}

/// A readable name for a device-mapper entry: `<vg>/<lv>` for an entry named
/// `<vg>-<lv>` (dashes within either doubled), the entry's own name otherwise.
pub open spec fn mapper_alias(name: Seq<char>) -> Seq<char> {
    match lv_separator(name, 0) {
        Some(i) => unescape_dashes(name.take(i)) + seq!['/'] + unescape_dashes(name.skip(i + 1)),
        None => name,
    }
}

fn unescape(s: &[char]) -> (r: Vec<char>)
    ensures
        r@ == unescape_dashes(s@),
{
    let mut out: Vec<char> = Vec::new();
    let mut i: usize = 0;
    proof {
        assert(s@.skip(0) =~= s@);
    }
    while i < s.len()
        invariant
            i <= s@.len(),
            out@ + unescape_dashes(s@.skip(i as int)) == unescape_dashes(s@),
        decreases s.len() - i,
    {
        let ghost rest = s@.skip(i as int);
        if i + 1 < s.len() && s[i] == '-' && s[i + 1] == '-' {
            out.push('-');
            proof {
                assert(rest.skip(2) =~= s@.skip(i as int + 2));
            }
            i = i + 2;
        } else {
            out.push(s[i]);
            proof {
                assert(rest.skip(1) =~= s@.skip(i as int + 1));
            }
            i = i + 1;
        }
        proof {
            assert(out@ + unescape_dashes(s@.skip(i as int)) =~= unescape_dashes(s@));
        }
    }
    proof {
        assert(s@.skip(i as int) =~= Seq::<char>::empty());
        assert(out@ =~= out@ + unescape_dashes(s@.skip(i as int)));
    }
    out
}

/// The readable name of a device-mapper entry (see `mapper_alias`).
pub fn canonicalize_dm_name(name: &str) -> (r: String)
    ensures
        r@ == mapper_alias(name@),
{
    let s = chars_of(name);
    let mut i: usize = 0;
    let mut sep: Option<usize> = None;
    while i < s.len()
        invariant
            i <= s@.len(),
            s@ == name@,
            sep is None ==> lv_separator(s@, 0) == lv_separator(s@, i as int),
            sep matches Some(j) ==> lv_separator(s@, 0) == Some(j as int) && j < s@.len(),
            sep is Some ==> i == s@.len(),
        decreases s.len() - i,
    {
        if s[i] == '-' {
            if i + 1 < s.len() && s[i + 1] == '-' {
                i = i + 2;
            } else {
                sep = Some(i);
                i = s.len();
            }
        } else {
            i = i + 1;
        }
    }
    match sep {
        Some(j) => {
            let vg = unescape(crate::text::copy_range(s.as_slice(), 0, j).as_slice());
            let lv = unescape(crate::text::copy_range(s.as_slice(), j + 1, s.len()).as_slice());
            proof {
                assert(s@.subrange(0, j as int) =~= s@.take(j as int));
                assert(s@.subrange(j as int + 1, s@.len() as int) =~= s@.skip(j as int + 1));
            }
            let mut out = vg;
            out.push('/');
            let all = crate::text::concat_chars(out.as_slice(), lv.as_slice());
            proof {
                assert(all@ =~= mapper_alias(name@));
            }
            string_from_chars(all.as_slice())
        },
        None => {
            proof {
                assert(lv_separator(s@, s@.len() as int) is None);
            }
            string_from_chars(s.as_slice())
        },
    }
}

/// A decimal field read as a number of 64 bits.
pub open spec fn field_u64(s: Seq<char>) -> u64 {
    digits_value(s) as u64
}

/// The low 32 bits.
pub open spec fn low32(n: u64) -> u32 {
    (n % 0x1_0000_0000) as u32
}

/// Sectors of 512 bytes as bytes, wrapping at 64 bits.
pub open spec fn sector_bytes(sectors: u64) -> u64 {
    ((sectors as nat * 512) % 0x1_0000_0000_0000_0000) as u64
}

pub open spec fn alias_views(a: Seq<(String, String)>) -> Seq<(Seq<char>, Seq<char>)> {
    a.map_values(|p: (String, String)| (p.0@, p.1@))
}

/// The device-mapper entry listed for a device, the first one if several are.
pub open spec fn lookup_alias(aliases: Seq<(Seq<char>, Seq<char>)>, dev: Seq<char>) -> Option<Seq<char>>
    decreases aliases.len(),
{
    if aliases.len() == 0 {
        None
    } else if aliases[0].0 == dev {
        Some(aliases[0].1)
    } else {
        lookup_alias(aliases.drop_first(), dev)
    }
}

/// The name a disk is shown under: for a `dm-` device with a device-mapper entry, the
/// entry's readable name; the device name otherwise.
pub open spec fn disk_device(name: Seq<char>, aliases: Seq<(Seq<char>, Seq<char>)>) -> Seq<char> {
    if starts_with(name, "dm-"@) {
        match lookup_alias(aliases, name) {
            Some(m) => mapper_alias(m),
            None => name,
        }
    } else {
        name
    }
}

/// A line of `/proc/diskstats` that gives a row: enough numeric fields, and no loop
/// device.
pub open spec fn disk_line_ok(w: Seq<Seq<char>>) -> bool {
    &&& w.len() >= 10
    &&& !starts_with(w[2], "loop"@)
    &&& is_u64_number(w[3])
    &&& is_u64_number(w[5])
    &&& is_u64_number(w[7])
    &&& is_u64_number(w[9])
}

/// The diskIOTable row `n` for the fields of a `/proc/diskstats` line.
pub open spec fn disk_row(
    base: Seq<u32>,
    n: u32,
    w: Seq<Seq<char>>,
    aliases: Seq<(Seq<char>, Seq<char>)>,
) -> Seq<(Seq<u32>, ValueView)> {
    let read = sector_bytes(field_u64(w[5]));
    let written = sector_bytes(field_u64(w[9]));
    seq![
        (base + seq![1u32, n], ValueView::Integer(n as i64)),
        (base + seq![2u32, n], ValueView::OctetString(disk_device(w[2], aliases))),
        (base + seq![3u32, n], ValueView::Counter32(low32(read))),
        (base + seq![4u32, n], ValueView::Counter32(low32(written))),
        (base + seq![5u32, n], ValueView::Counter32(low32(field_u64(w[3])))),
        (base + seq![6u32, n], ValueView::Counter32(low32(field_u64(w[7])))),
        (base + seq![9u32, n], ValueView::Integer(0)),
        (base + seq![10u32, n], ValueView::Integer(0)),
        (base + seq![11u32, n], ValueView::Integer(0)),
        (base + seq![12u32, n], ValueView::Counter64(read)),
        (base + seq![13u32, n], ValueView::Counter64(written)),
    ]
}

/// How many of the lines give a row.
pub open spec fn disk_count(lines: Seq<Seq<char>>) -> nat
    decreases lines.len(),
{
    if lines.len() == 0 {
        0
    } else if disk_line_ok(words(lines.last())) {
        disk_count(lines.drop_last()) + 1
    } else {
        disk_count(lines.drop_last())
    }
}

/// The diskIOTable entries for the lines of `/proc/diskstats`, rows numbered from 1 in
/// file order.
pub open spec fn disk_table(
    base: Seq<u32>,
    lines: Seq<Seq<char>>,
    aliases: Seq<(Seq<char>, Seq<char>)>,
) -> Seq<(Seq<u32>, ValueView)>
    decreases lines.len(),
{
    if lines.len() == 0 {
        Seq::<(Seq<u32>, ValueView)>::empty()
    } else {
        let prev = disk_table(base, lines.drop_last(), aliases);
        let w = words(lines.last());
        if disk_line_ok(w) {
            prev + disk_row(base, (disk_count(lines.drop_last()) + 1) as u32, w, aliases)
        } else {
            prev
        }
    }
}

fn find_alias(aliases: &Vec<(String, String)>, dev: &[char]) -> (r: Option<String>)
    ensures
        match r {
            None => lookup_alias(alias_views(aliases@), dev@) is None,
            Some(m) => lookup_alias(alias_views(aliases@), dev@) == Some(m@),
        },
{
    let mut i: usize = 0;
    proof {
        assert(alias_views(aliases@).skip(0) =~= alias_views(aliases@));
    }
    while i < aliases.len()
        invariant
            i <= aliases@.len(),
            lookup_alias(alias_views(aliases@), dev@) == lookup_alias(
                alias_views(aliases@).skip(i as int),
                dev@,
            ),
        decreases aliases.len() - i,
    {
        let name = chars_of(aliases[i].0.as_str());
        let ghost rest = alias_views(aliases@).skip(i as int);
        proof {
            assert(rest[0] == (aliases@[i as int].0@, aliases@[i as int].1@));
            assert(rest.drop_first() =~= alias_views(aliases@).skip(i as int + 1));
        }
        if crate::text::equal_chars(name.as_slice(), dev) {
            return Some(aliases[i].1.clone());
        }
        i = i + 1;
    }
    None
}

fn device_name(name: &Vec<char>, aliases: &Vec<(String, String)>) -> (r: String)
    ensures
        r@ == disk_device(name@, alias_views(aliases@)),
{
    if has_prefix(name.as_slice(), "dm-") {
        match find_alias(aliases, name.as_slice()) {
            Some(m) => canonicalize_dm_name(m.as_str()),
            None => string_from_chars(name.as_slice()),
        }
    } else {
        string_from_chars(name.as_slice())
    }
}

fn sector_bytes_exec(sectors: u64) -> (r: u64)
    ensures
        r == sector_bytes(sectors),
{
    ((sectors as u128 * 512) % 0x1_0000_0000_0000_0000) as u64
}

fn push_disk_row(
    rows: &mut Vec<(OID, Value)>,
    base: &OID,
    n: u32,
    w: &Vec<Vec<char>>,
    aliases: &Vec<(String, String)>,
)
    requires
        disk_line_ok(views(w@)),
    ensures
        entry_views(final(rows)@) == entry_views(old(rows)@) + disk_row(
            base@,
            n,
            views(w@),
            alias_views(aliases@),
        ),
{
    let ghost wv = views(w@);
    proof {
        assert(w@[3]@ == wv[3] && w@[5]@ == wv[5] && w@[7]@ == wv[7] && w@[9]@ == wv[9]);
        assert(w@[2]@ == wv[2]);
    }
    let reads = match parse_u64(w[3].as_slice()) {
        Some(v) => v,
        None => 0,
    };
    let read_sectors = match parse_u64(w[5].as_slice()) {
        Some(v) => v,
        None => 0,
    };
    let writes = match parse_u64(w[7].as_slice()) {
        Some(v) => v,
        None => 0,
    };
    let written_sectors = match parse_u64(w[9].as_slice()) {
        Some(v) => v,
        None => 0,
    };
    let read = sector_bytes_exec(read_sectors);
    let written = sector_bytes_exec(written_sectors);
    let device = device_name(&w[2], aliases);
    let ghost start = entry_views(rows@);
    push_row(rows, base.cell(1, n), Value::Integer(n as i64));
    push_row(rows, base.cell(2, n), Value::OctetString(device));
    push_row(rows, base.cell(3, n), Value::Counter32((read % 0x1_0000_0000) as u32));
    push_row(rows, base.cell(4, n), Value::Counter32((written % 0x1_0000_0000) as u32));
    push_row(rows, base.cell(5, n), Value::Counter32((reads % 0x1_0000_0000) as u32));
    push_row(rows, base.cell(6, n), Value::Counter32((writes % 0x1_0000_0000) as u32));
    push_row(rows, base.cell(9, n), Value::Integer(0));
    push_row(rows, base.cell(10, n), Value::Integer(0));
    push_row(rows, base.cell(11, n), Value::Integer(0));
    push_row(rows, base.cell(12, n), Value::Counter64(read));
    push_row(rows, base.cell(13, n), Value::Counter64(written));
    proof {
        assert(entry_views(rows@) =~= start + disk_row(base@, n, wv, alias_views(aliases@)));
    }
}

/// Fills UCD-DISKIO's diskIOTable under `base_oid` from the text of `/proc/diskstats`.
/// `aliases` pairs device names with the `/dev/mapper` entries that point at them.
pub fn get_disks(
    values: &mut Store,
    base_oid: &str,
    diskstats: &str,
    aliases: &Vec<(String, String)>,
)
    requires
        old(values).wf(),
        is_dotted(base_oid@),
        lines_of(diskstats@).len() < u32::MAX,
    ensures
        final(values).wf(),
        final(values).map() == insert_rows(
            old(values).map(),
            disk_table(parse_dotted(base_oid@), lines_of(diskstats@), alias_views(aliases@)),
        ),
{
    let base = base_of(base_oid);
    let text = chars_of(diskstats);
    let lines = split_lines(&text);
    let ghost ls = lines_of(diskstats@);
    let ghost al = alias_views(aliases@);
    let mut rows: Vec<(OID, Value)> = Vec::new();
    let mut count: u32 = 0;
    let mut i: usize = 0;
    proof {
        assert(ls.take(0) =~= Seq::<Seq<char>>::empty());
        assert(entry_views(rows@) =~= Seq::<(Seq<u32>, ValueView)>::empty());
    }
    while i < lines.len()
        invariant
            i <= lines@.len(),
            views(lines@) == ls,
            al == alias_views(aliases@),
            ls.len() < u32::MAX,
            count == disk_count(ls.take(i as int)),
            count <= i,
            entry_views(rows@) == disk_table(base@, ls.take(i as int), al),
        decreases lines.len() - i,
    {
        let w = split_words(lines[i].as_slice());
        proof {
            assert(lines@[i as int]@ == ls[i as int]);
            assert(ls.take(i as int + 1).drop_last() =~= ls.take(i as int));
            assert(ls.take(i as int + 1).last() == ls[i as int]);
        }
        let ok = w.len() >= 10 && !has_prefix(w[2].as_slice(), "loop") && parse_u64(
            w[3].as_slice(),
        ).is_some() && parse_u64(w[5].as_slice()).is_some() && parse_u64(w[7].as_slice()).is_some()
            && parse_u64(w[9].as_slice()).is_some();
        proof {
            if w@.len() >= 10 {
                assert(w@[2]@ == views(w@)[2] && w@[3]@ == views(w@)[3] && w@[5]@ == views(w@)[5]);
                assert(w@[7]@ == views(w@)[7] && w@[9]@ == views(w@)[9]);
            }
            assert(ok == disk_line_ok(views(w@)));
        }
        let ghost prev_rows = entry_views(rows@);
        let ghost t1 = ls.take(i as int + 1);
        proof {
            assert(t1.drop_last() == ls.take(i as int));
            assert(words(t1.last()) == views(w@));
        }
        if ok {
            push_disk_row(&mut rows, &base, count + 1, &w, aliases);
            count = count + 1;
            proof {
                assert(entry_views(rows@) == prev_rows + disk_row(base@, count, words(t1.last()), al));
            }
        }
        i = i + 1;
        proof {
            assert(ls.take(i as int) == t1);
        }
    }
    proof {
        assert(ls.take(lines@.len() as int) =~= ls);
    }
    values.insert_all(rows);
}

/// What `statvfs` reports of a mounted filesystem.
pub struct FsStat {
    pub fsid: u64,
    pub frsize: u64,
    pub blocks: u64,
    pub bfree: u64,
    pub bavail: u64,
    pub files: u64,
    pub ffree: u64,
}

/// A line of `/proc/mounts` with what the host tells of it: the device as listed and as
/// its symlinks resolve, the mount point, the filesystem's statistics when `statvfs`
/// succeeded, and the `/dev/mapper` entry that points at the resolved device, if any.
pub struct MountInfo {
    pub device: String,
    pub resolved: String,
    pub mountpoint: String,
    pub stat: Option<FsStat>,
    pub mapper: Option<String>,
}

/// A mount that can give a row: a device under `/dev` with statistics.
pub open spec fn mount_ok(m: MountInfo) -> bool {
    starts_with(m.device@, "/dev"@) && m.stat is Some
}

/// Some usable mount among `ms` is on the filesystem `id`.
pub open spec fn fsid_seen(ms: Seq<MountInfo>, id: u64) -> bool {
    exists|j: int| 0 <= j < ms.len() && mount_ok(#[trigger] ms[j]) && ms[j].stat->Some_0.fsid == id
}

/// Whether the last of `ms` gives a row: usable, and its filesystem not already shown
/// (bind mounts show one filesystem twice).
pub open spec fn mount_accepted(ms: Seq<MountInfo>) -> bool {
    mount_ok(ms.last()) && !fsid_seen(ms.drop_last(), ms.last().stat->Some_0.fsid)
}

/// A non-negative number as an INTEGER, capped at the largest one.
pub open spec fn capped(n: int) -> i64 {
    if n > i64::MAX {
        i64::MAX
    } else {
        n as i64
    }
}

/// `a - b`, or zero when `b` is larger.
pub open spec fn minus(a: u64, b: u64) -> int {
    if a >= b {
        a - b
    } else {
        0
    }
}

/// The name `dskDevice` shows: `/dev/<vg>/<lv>` and the like for a device-mapper
/// device with a `/dev/mapper` entry, the device as listed otherwise.
pub open spec fn fs_device(m: MountInfo) -> Seq<char> {
    if starts_with(m.resolved@, "/dev/dm-"@) && m.mapper is Some {
        "/dev/"@ + mapper_alias(m.mapper->Some_0@)
    } else {
        m.device@
    }
}

/// The hrStorageTable and dskTable entries of row `n` for a usable mount.
pub open spec fn fs_row(hr: Seq<u32>, dsk: Seq<u32>, n: u32, m: MountInfo) -> Seq<(Seq<u32>, ValueView)> {
    let st = m.stat->Some_0;
    let used = minus(st.blocks, st.bfree);
    let percent = if st.blocks > 0 {
        seq![(dsk + seq![9u32, n], ValueView::Integer(capped(100 * used / (st.blocks as int))))]
    } else {
        Seq::<(Seq<u32>, ValueView)>::empty()
    };
    let inodes = if st.files > 0 {
        seq![(dsk + seq![10u32, n], ValueView::Integer(capped(100 * minus(st.files, st.ffree) / (st.files as int))))]
    } else {
        Seq::<(Seq<u32>, ValueView)>::empty()
    };
    seq![
        (hr + seq![1u32, n], ValueView::Integer(n as i64)),
        (hr + seq![2u32, n], ValueView::Null),
        (hr + seq![3u32, n], ValueView::OctetString(m.mountpoint@)),
        (hr + seq![4u32, n], ValueView::Integer(capped(st.frsize as int))),
        (hr + seq![5u32, n], ValueView::Integer(capped(st.blocks as int))),
        (hr + seq![6u32, n], ValueView::Integer(capped(used))),
        (dsk + seq![1u32, n], ValueView::Integer(n as i64)),
        (dsk + seq![2u32, n], ValueView::OctetString(m.mountpoint@)),
        (dsk + seq![3u32, n], ValueView::OctetString(fs_device(m))),
        (dsk + seq![4u32, n], ValueView::Integer(0)),
        (dsk + seq![5u32, n], ValueView::Integer(-1i64)),
        (dsk + seq![6u32, n], ValueView::Integer(capped((st.blocks as int) * (st.frsize as int) / 1024))),
        (dsk + seq![7u32, n], ValueView::Integer(capped((st.bavail as int) * (st.frsize as int) / 1024))),
        (dsk + seq![8u32, n], ValueView::Integer(capped(used * (st.frsize as int) / 1024))),
    ] + percent + inodes
}

/// How many of the mounts give a row.
pub open spec fn fs_count(ms: Seq<MountInfo>) -> nat
    decreases ms.len(),
{
    if ms.len() == 0 {
        0
    } else if mount_accepted(ms) {
        fs_count(ms.drop_last()) + 1
    } else {
        fs_count(ms.drop_last())
    }
}

/// The entries for the mounts, rows numbered from 1 in the order of `/proc/mounts`.
pub open spec fn fs_table(hr: Seq<u32>, dsk: Seq<u32>, ms: Seq<MountInfo>) -> Seq<(Seq<u32>, ValueView)>
    decreases ms.len(),
{
    if ms.len() == 0 {
        Seq::<(Seq<u32>, ValueView)>::empty()
    } else {
        let prev = fs_table(hr, dsk, ms.drop_last());
        if mount_accepted(ms) {
            prev + fs_row(hr, dsk, (fs_count(ms.drop_last()) + 1) as u32, ms.last())
        } else {
            prev
        }
    }
}

fn capped_exec(n: u128) -> (r: i64)
    ensures
        r == capped(n as int),
{
    if n > i64::MAX as u128 {
        i64::MAX
    } else {
        n as i64
    }
}

fn fs_device_name(m: &MountInfo) -> (r: String)
    ensures
        r@ == fs_device(*m),
{
    let resolved = chars_of(m.resolved.as_str());
    if has_prefix(resolved.as_slice(), "/dev/dm-") {
        match &m.mapper {
            Some(entry) => {
                let alias = canonicalize_dm_name(entry.as_str());
                let dev = chars_of("/dev/");
                let a = chars_of(alias.as_str());
                let all = crate::text::concat_chars(dev.as_slice(), a.as_slice());
                return string_from_chars(all.as_slice());
            },
            None => {},
        }
    }
    m.device.clone()
}

fn push_fs_row(rows: &mut Vec<(OID, Value)>, hr: &OID, dsk: &OID, n: u32, m: &MountInfo)
    requires
        mount_ok(*m),
    ensures
        entry_views(final(rows)@) == entry_views(old(rows)@) + fs_row(hr@, dsk@, n, *m),
{
    let st = match &m.stat {
        Some(st) => st,
        None => {
            return;
        },
    };
    let ghost start = entry_views(rows@);
    let used: u64 = if st.blocks >= st.bfree {
        st.blocks - st.bfree
    } else {
        0
    };
    let device = fs_device_name(m);
    push_row(rows, hr.cell(1, n), Value::Integer(n as i64));
    push_row(rows, hr.cell(2, n), Value::Null);
    push_row(rows, hr.cell(3, n), Value::OctetString(m.mountpoint.clone()));
    push_row(rows, hr.cell(4, n), Value::Integer(capped_exec(st.frsize as u128)));
    push_row(rows, hr.cell(5, n), Value::Integer(capped_exec(st.blocks as u128)));
    push_row(rows, hr.cell(6, n), Value::Integer(capped_exec(used as u128)));
    push_row(rows, dsk.cell(1, n), Value::Integer(n as i64));
    push_row(rows, dsk.cell(2, n), Value::OctetString(m.mountpoint.clone()));
    push_row(rows, dsk.cell(3, n), Value::OctetString(device));
    push_row(rows, dsk.cell(4, n), Value::Integer(0));
    push_row(rows, dsk.cell(5, n), Value::Integer(-1));
    let total = kib(st.blocks, st.frsize);
    let avail = kib(st.bavail, st.frsize);
    let used_bytes = kib(used, st.frsize);
    push_row(rows, dsk.cell(6, n), Value::Integer(capped_exec(total)));
    push_row(rows, dsk.cell(7, n), Value::Integer(capped_exec(avail)));
    push_row(rows, dsk.cell(8, n), Value::Integer(capped_exec(used_bytes)));
    let ghost base_part = entry_views(rows@);
    if st.blocks > 0 {
        let pct = used as u128 * 100 / st.blocks as u128;
        push_row(rows, dsk.cell(9, n), Value::Integer(capped_exec(pct)));
    }
    let ghost with_percent = entry_views(rows@);
    if st.files > 0 {
        let fused: u64 = if st.files >= st.ffree {
            st.files - st.ffree
        } else {
            0
        };
        let pct = fused as u128 * 100 / st.files as u128;
        push_row(rows, dsk.cell(10, n), Value::Integer(capped_exec(pct)));
    }
    proof {
        let stv = m.stat->Some_0;
        assert(stv == *st);
        assert(base_part =~= start + fs_row(hr@, dsk@, n, *m).take(14));
        assert(entry_views(rows@) =~= start + fs_row(hr@, dsk@, n, *m));
    }
}

/// `count` units of `size` bytes, in KiB.
fn kib(count: u64, size: u64) -> (r: u128)
    ensures
        r == (count as int) * (size as int) / 1024,
{
    proof {
        assert((count as int) * (size as int) <= u128::MAX) by (nonlinear_arith)
            requires
                count <= u64::MAX,
                size <= u64::MAX,
        ;
    }
    count as u128 * size as u128 / 1024
}

proof fn lemma_fsid_seen_last(ms: Seq<MountInfo>, x: u64)
    requires
        ms.len() > 0,
    ensures
        fsid_seen(ms, x) <==> (fsid_seen(ms.drop_last(), x) || (mount_ok(ms.last())
            && ms.last().stat->Some_0.fsid == x)),
{
    let d = ms.drop_last();
    if fsid_seen(ms, x) {
        let j = choose|j: int| 0 <= j < ms.len() && mount_ok(#[trigger] ms[j]) && ms[j].stat->Some_0.fsid == x;
        if j < ms.len() - 1 {
            assert(d[j] == ms[j]);
        }
    }
    if fsid_seen(d, x) {
        let j = choose|j: int| 0 <= j < d.len() && mount_ok(#[trigger] d[j]) && d[j].stat->Some_0.fsid == x;
        assert(ms[j] == d[j]);
    }
    if mount_ok(ms.last()) && ms.last().stat->Some_0.fsid == x {
        assert(mount_ok(ms[ms.len() - 1]));
    }
}

fn seen_contains(seen: &Vec<u64>, id: u64) -> (r: bool)
    ensures
        r == seen@.contains(id),
{
    let mut i: usize = 0;
    while i < seen.len()
        invariant
            i <= seen@.len(),
            forall|j: int| 0 <= j < i ==> seen@[j] != id,
        decreases seen.len() - i,
    {
        if seen[i] == id {
            proof {
                assert(seen@[i as int] == id);
            }
            return true;
        }
        i = i + 1;
    }
    false
}

fn mount_ok_exec(m: &MountInfo) -> (r: bool)
    ensures
        r == mount_ok(*m),
{
    let dev = chars_of(m.device.as_str());
    has_prefix(dev.as_slice(), "/dev") && m.stat.is_some()
}

/// Fills hrStorageTable under `hr_storage_table_oid` and UCD's dskTable under
/// `dsk_table_oid` from the mounts, in the order of `/proc/mounts`.
pub fn get_filesystems(
    values: &mut Store,
    hr_storage_table_oid: &str,
    dsk_table_oid: &str,
    mounts: &Vec<MountInfo>,
)
    requires
        old(values).wf(),
        is_dotted(hr_storage_table_oid@),
        is_dotted(dsk_table_oid@),
        mounts@.len() < u32::MAX,
    ensures
        final(values).wf(),
        final(values).map() == insert_rows(
            old(values).map(),
            fs_table(parse_dotted(hr_storage_table_oid@), parse_dotted(dsk_table_oid@), mounts@),
        ),
{
    let hr = base_of(hr_storage_table_oid);
    let dsk = base_of(dsk_table_oid);
    let ghost ms = mounts@;
    let mut rows: Vec<(OID, Value)> = Vec::new();
    let mut seen: Vec<u64> = Vec::new();
    let mut count: u32 = 0;
    let mut i: usize = 0;
    proof {
        assert(ms.take(0) =~= Seq::<MountInfo>::empty());
        assert(entry_views(rows@) =~= Seq::<(Seq<u32>, ValueView)>::empty());
    }
    while i < mounts.len()
        invariant
            i <= ms.len(),
            ms == mounts@,
            ms.len() < u32::MAX,
            count == fs_count(ms.take(i as int)),
            count <= i,
            forall|id: u64| seen@.contains(id) <==> fsid_seen(ms.take(i as int), id),
            entry_views(rows@) == fs_table(hr@, dsk@, ms.take(i as int)),
        decreases mounts.len() - i,
    {
        let m = &mounts[i];
        let ghost t1 = ms.take(i as int + 1);
        proof {
            assert(t1.drop_last() =~= ms.take(i as int));
            assert(t1.last() == *m);
        }
        let ok = mount_ok_exec(m);
        let mut accepted = false;
        let ghost seen_before = seen@;
        let ghost id_m = m.stat->Some_0.fsid;
        if ok {
            let id = match &m.stat {
                Some(st) => st.fsid,
                None => 0,
            };
            if !seen_contains(&seen, id) {
                accepted = true;
                push_fs_row(&mut rows, &hr, &dsk, count + 1, m);
                count = count + 1;
            }
            seen.push(id);
        }
        proof {
            assert(accepted == mount_accepted(t1));
            assert forall|id: u64| seen@.contains(id) <==> fsid_seen(t1, id) by {
                lemma_fsid_seen_last(t1, id);
                if ok {
                    assert(seen@ == seen_before.push(id_m));
                    if seen_before.contains(id) {
                        let j = choose|j: int| 0 <= j < seen_before.len() && seen_before[j] == id;
                        assert(seen@[j] == id);
                    }
                    if id == id_m {
                        assert(seen@[seen_before.len() as int] == id);
                    }
                    if seen@.contains(id) {
                        let k = choose|k: int| 0 <= k < seen@.len() && seen@[k] == id;
                        if k < seen_before.len() {
                            assert(seen_before[k] == id);
                        }
                    }
                } else {
                    assert(seen@ == seen_before);
                }
            }
        }
        i = i + 1;
        proof {
            assert(ms.take(i as int) == t1);
        }
    }
    proof {
        assert(ms.take(mounts@.len() as int) =~= ms);
    }
    values.insert_all(rows);
}

/// The device and mount point of each line of `/proc/mounts` that has both.
pub open spec fn mount_pairs(lines: Seq<Seq<char>>) -> Seq<(Seq<char>, Seq<char>)>
    decreases lines.len(),
{
    if lines.len() == 0 {
        Seq::<(Seq<char>, Seq<char>)>::empty()
    } else {
        let w = words(lines.last());
        let prev = mount_pairs(lines.drop_last());
        if w.len() >= 2 {
            prev.push((w[0], w[1]))
        } else {
            prev
        }
    }
}

/// The device and mount point of each line of the text of `/proc/mounts`.
pub fn mount_points(mounts: &str) -> (r: Vec<(String, String)>)
    ensures
        alias_views(r@) == mount_pairs(lines_of(mounts@)),
{
    let text = chars_of(mounts);
    let lines = split_lines(&text);
    let ghost ls = lines_of(mounts@);
    let mut out: Vec<(String, String)> = Vec::new();
    let mut i: usize = 0;
    proof {
        assert(ls.take(0) =~= Seq::<Seq<char>>::empty());
        assert(alias_views(out@) =~= Seq::<(Seq<char>, Seq<char>)>::empty());
    }
    while i < lines.len()
        invariant
            i <= lines@.len(),
            views(lines@) == ls,
            alias_views(out@) == mount_pairs(ls.take(i as int)),
        decreases lines.len() - i,
    {
        let w = split_words(lines[i].as_slice());
        let ghost t1 = ls.take(i as int + 1);
        proof {
            assert(lines@[i as int]@ == ls[i as int]);
            assert(t1.drop_last() =~= ls.take(i as int));
            assert(t1.last() == ls[i as int]);
        }
        if w.len() >= 2 {
            let dev = string_from_chars(w[0].as_slice());
            let mp = string_from_chars(w[1].as_slice());
            let ghost before = alias_views(out@);
            proof {
                assert(views(w@)[0] == w@[0]@ && views(w@)[1] == w@[1]@);
            }
            out.push((dev, mp));
            proof {
                assert(alias_views(out@) =~= before.push((views(w@)[0], views(w@)[1])));
            }
        }
        i = i + 1;
        proof {
            assert(ls.take(i as int) == t1);
        }
    }
    proof {
        assert(ls.take(lines@.len() as int) =~= ls);
    }
    out
}

/// Whether a device as `/proc/mounts` lists it lies under `/dev`; only those mounts are
/// shown.
pub fn is_device_path(device: &str) -> (r: bool)
    ensures
        r == starts_with(device@, "/dev"@),
{
    let d = chars_of(device);
    has_prefix(d.as_slice(), "/dev")
}

} // verus!
