use vstd::prelude::*;
use crate::mib_disks::{alias_views, disk_table, fs_table, get_disks, get_filesystems, MountInfo};
use crate::mib_extend::{extend_table, get_extend, ExtendOutput};
use crate::mib_net::{get_interfaces, iface_table, netdev_lines, IfaceHost};
use crate::mib_procs::{get_processes, proc_table, ProcEntry};
use crate::mib_sys::{get_system, system_rows, HostInfo};
use crate::oid::{is_dotted, parse_dotted};
use crate::store::{
    insert_rows, lemma_insert_rows_concat, lemma_insert_rows_idempotent, Store,
};
use crate::text::{
    chars_of, is_u32_number, lines_of, parse_u32, pieces, split_lines,
    split_on, views,
};
use crate::value::ValueView;

verus! {

/// The base OIDs of the tables, in dotted form.
pub struct MibBases {
    pub system: String,
    pub disks: String,
    pub hr_storage: String,
    pub dsk: String,
    pub if_table: String,
    pub if_x_table: String,
    pub hr_sw_run: String,
    pub extend: String,
}

impl MibBases {
    /// Every base is a dotted-decimal OID.
    pub open spec fn wf(&self) -> bool {
        &&& is_dotted(self.system@)
        &&& is_dotted(self.disks@)
        &&& is_dotted(self.hr_storage@)
        &&& is_dotted(self.dsk@)
        &&& is_dotted(self.if_table@)
        &&& is_dotted(self.if_x_table@)
        &&& is_dotted(self.hr_sw_run@)
        &&& is_dotted(self.extend@)
    }

    /// Whether every base is a dotted-decimal OID.
    pub fn check(&self) -> (r: bool)
        ensures
            r == self.wf(),
    {
        dotted_ok(self.system.as_str()) && dotted_ok(self.disks.as_str()) && dotted_ok(
            self.hr_storage.as_str(),
        ) && dotted_ok(self.dsk.as_str()) && dotted_ok(self.if_table.as_str()) && dotted_ok(
            self.if_x_table.as_str(),
        ) && dotted_ok(self.hr_sw_run.as_str()) && dotted_ok(self.extend.as_str())
    }
}

/// Whether `s` is a dotted-decimal OID.
pub fn dotted_ok(s: &str) -> (r: bool)
    ensures
        r == is_dotted(s@),
{
    let cs = chars_of(s);
    let parts = split_on(&cs, '.');
    let mut i: usize = 0;
    while i < parts.len()
        invariant
            i <= parts@.len(),
            views(parts@) == pieces(s@, '.'),
            forall|j: int| 0 <= j < i ==> is_u32_number(#[trigger] pieces(s@, '.')[j]),
        decreases parts.len() - i,
    {
        proof {
            assert(parts@[i as int]@ == pieces(s@, '.')[i as int]);
        }
        if parse_u32(parts[i].as_slice()).is_none() {
            return false;
        }
        i = i + 1;
    }
    true
}

/// Everything the probes read from the host in one refresh.
pub struct HostSnapshot {
    pub host: Option<HostInfo>,
    pub uptime: Option<u32>,
    pub diskstats: String,
    pub mapper: Vec<(String, String)>,
    pub mounts: Vec<MountInfo>,
    pub netdev: String,
    pub ifaces: Vec<IfaceHost>,
    pub procs: Vec<ProcEntry>,
    pub extend: Vec<ExtendOutput>,
}

impl HostSnapshot {
    /// Sizes small enough for row numbers and counts to fit their types.
    pub open spec fn within_bounds(&self) -> bool {
        &&& lines_of(self.diskstats@).len() < u32::MAX
        &&& lines_of(self.netdev@).len() < u32::MAX
        &&& self.mounts@.len() < u32::MAX
        &&& forall|i: int|
            0 <= i < self.extend@.len() ==> (#[trigger] self.extend@[i]).name@.len() <= u32::MAX
                && lines_of(self.extend@[i].stdout@).len() <= i64::MAX
    }

    /// Whether the sizes are within bounds.
    pub fn check(&self) -> (r: bool)
        ensures
            r == self.within_bounds(),
    {
        let d = split_lines(&chars_of(self.diskstats.as_str()));
        let n = split_lines(&chars_of(self.netdev.as_str()));
        if d.len() >= u32::MAX as usize || n.len() >= u32::MAX as usize || self.mounts.len()
            >= u32::MAX as usize {
            return false;
        }
        let mut i: usize = 0;
        while i < self.extend.len()
            invariant
                i <= self.extend@.len(),
                forall|j: int|
                    0 <= j < i ==> (#[trigger] self.extend@[j]).name@.len() <= u32::MAX
                        && lines_of(self.extend@[j].stdout@).len() <= i64::MAX,
            decreases self.extend.len() - i,
        {
            let name = chars_of(self.extend[i].name.as_str());
            let lines = split_lines(&chars_of(self.extend[i].stdout.as_str()));
            if name.len() as u64 > u32::MAX as u64 || lines.len() as u64 > i64::MAX as u64 {
                return false;
            }
            i = i + 1;
        }
        true
    }
}

/// The rows of one refresh: every probe's table, in the order the probes run.
pub open spec fn refresh_rows(b: MibBases, h: HostSnapshot) -> Seq<(Seq<u32>, ValueView)> {
    system_rows(parse_dotted(b.system@), h.host, h.uptime) + disk_table(
        parse_dotted(b.disks@),
        lines_of(h.diskstats@),
        alias_views(h.mapper@),
    ) + fs_table(parse_dotted(b.hr_storage@), parse_dotted(b.dsk@), h.mounts@) + iface_table(
        parse_dotted(b.if_table@),
        parse_dotted(b.if_x_table@),
        netdev_lines(h.netdev@),
        h.ifaces@,
    ) + proc_table(parse_dotted(b.hr_sw_run@), h.procs@) + extend_table(
        parse_dotted(b.extend@),
        h.extend@,
    )
}

/// Runs every probe on what was read from the host: system, disks, filesystems,
/// interfaces, processes and extend commands.
pub fn refresh(values: &mut Store, bases: &MibBases, snap: HostSnapshot)
    requires
        old(values).wf(),
        bases.wf(),
        snap.within_bounds(),
    ensures
        final(values).wf(),
        final(values).map() == insert_rows(old(values).map(), refresh_rows(*bases, snap)),
{
    let ghost m0 = values.map();
    let ghost sv = snap;
    let HostSnapshot { host, uptime, diskstats, mapper, mounts, netdev, ifaces, procs, extend } =
        snap;
    let ghost b = *bases;
    let ghost r1 = system_rows(parse_dotted(b.system@), sv.host, sv.uptime);
    let ghost r2 = disk_table(parse_dotted(b.disks@), lines_of(sv.diskstats@), alias_views(sv.mapper@));
    let ghost r3 = fs_table(parse_dotted(b.hr_storage@), parse_dotted(b.dsk@), sv.mounts@);
    let ghost r4 = iface_table(
        parse_dotted(b.if_table@),
        parse_dotted(b.if_x_table@),
        netdev_lines(sv.netdev@),
        sv.ifaces@,
    );
    let ghost r5 = proc_table(parse_dotted(b.hr_sw_run@), sv.procs@);
    let ghost r6 = extend_table(parse_dotted(b.extend@), sv.extend@);
    get_system(values, bases.system.as_str(), host, uptime);
    get_disks(values, bases.disks.as_str(), diskstats.as_str(), &mapper);
    get_filesystems(values, bases.hr_storage.as_str(), bases.dsk.as_str(), &mounts);
    get_interfaces(values, bases.if_table.as_str(), bases.if_x_table.as_str(), netdev.as_str(), &ifaces);
    get_processes(values, bases.hr_sw_run.as_str(), &procs);
    get_extend(values, &extend, bases.extend.as_str());
    proof {
        lemma_insert_rows_concat(m0, r1, r2);
        lemma_insert_rows_concat(m0, r1 + r2, r3);
        lemma_insert_rows_concat(m0, r1 + r2 + r3, r4);
        lemma_insert_rows_concat(m0, r1 + r2 + r3 + r4, r5);
        lemma_insert_rows_concat(m0, r1 + r2 + r3 + r4 + r5, r6);
    }
}

/// A refresh run a second time on an unchanged host leaves the store as the first left
/// it: the same keys with the same values.
pub proof fn lemma_refresh_twice(m: Map<Seq<u32>, ValueView>, b: MibBases, h: HostSnapshot)
    ensures
        insert_rows(insert_rows(m, refresh_rows(b, h)), refresh_rows(b, h)) == insert_rows(
            m,
            refresh_rows(b, h),
        ),
{
    lemma_insert_rows_idempotent(m, refresh_rows(b, h));
}

} // verus!
