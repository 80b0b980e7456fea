use vstd::prelude::*;
use vstd::string::StringExecFns;
use crate::oid::{is_dotted, parse_dotted, OID};
use crate::store::{entry_views, insert_rows, lemma_insert_rows_last, push_row, Store};
use crate::value::{Value, ValueView};

verus! {

/// What `sysContact` reports.
pub const SYS_CONTACT: &'static str = "sunt v0.0.1";

/// What `sysLocation` reports.
pub const SYS_LOCATION: &'static str = "the cloud, probably";

/// The fields of the host's `uname`.
pub struct HostInfo {
    pub sysname: String,
    pub nodename: String,
    pub release: String,
    pub version: String,
    pub machine: String,
}

/// `sysDescr`: the `uname` fields separated by single spaces.
pub open spec fn sys_descr(h: HostInfo) -> Seq<char> {
    h.sysname@ + seq![' '] + h.nodename@ + seq![' '] + h.release@ + seq![' '] + h.version@
        + seq![' '] + h.machine@
}

/// Uptime in seconds as timeticks (hundredths of a second), wrapping at 32 bits.
pub open spec fn uptime_ticks(secs: u32) -> u32 {
    ((secs as nat * 100) % 0x1_0000_0000) as u32
}

/// The entries of the system group under `base`.
pub open spec fn system_rows(base: Seq<u32>, host: Option<HostInfo>, uptime: Option<u32>) -> Seq<
    (Seq<u32>, ValueView),
> {
    let named = match host {
        Some(h) => seq![
            (base + seq![1u32, 0u32], ValueView::OctetString(sys_descr(h))),
            (base + seq![5u32, 0u32], ValueView::OctetString(h.nodename@)),
        ],
        None => Seq::<(Seq<u32>, ValueView)>::empty(),
    };
    let fixed = seq![
        (base + seq![4u32, 0u32], ValueView::OctetString(SYS_CONTACT@)),
        (base + seq![6u32, 0u32], ValueView::OctetString(SYS_LOCATION@)),
    ];
    let up = match uptime {
        Some(t) => seq![(base + seq![3u32, 0u32], ValueView::Timeticks(uptime_ticks(t)))],
        None => Seq::<(Seq<u32>, ValueView)>::empty(),
    };
    named + fixed + up
}

/// The base OID of a probe, parsed from its dotted form.
pub fn base_of(base_oid: &str) -> (r: OID)
    requires
        is_dotted(base_oid@),
    ensures
        r@ == parse_dotted(base_oid@),
{
    OID::from_string(String::from_str(base_oid))
}

/// Fills the system group (`sysDescr`, `sysUpTime`, `sysContact`, `sysName`,
/// `sysLocation`) under `base_oid` from the host's `uname` fields and its uptime in
/// seconds; what is missing is left out.
pub fn get_system(values: &mut Store, base_oid: &str, host: Option<HostInfo>, uptime: Option<u32>)
    requires
        old(values).wf(),
        is_dotted(base_oid@),
    ensures
        final(values).wf(),
        final(values).map() == insert_rows(
            old(values).map(),
            system_rows(parse_dotted(base_oid@), host, uptime),
        ),
{
    let base = base_of(base_oid);
    let ghost b = base@;
    let mut rows: Vec<(OID, Value)> = Vec::new();
    let ghost named: Seq<(Seq<u32>, ValueView)>;
    match host {
        Some(h) => {
            let ghost hv = h;
            let mut descr = h.sysname.clone();
            descr.append(" ");
            descr.append(h.nodename.as_str());
            descr.append(" ");
            descr.append(h.release.as_str());
            descr.append(" ");
            descr.append(h.version.as_str());
            descr.append(" ");
            descr.append(h.machine.as_str());
            proof {
                reveal_strlit(" ");
                assert(descr@ =~= sys_descr(hv));
            }
            push_row(&mut rows, base.cell(1, 0), Value::OctetString(descr));
            push_row(&mut rows, base.cell(5, 0), Value::OctetString(h.nodename));
            proof {
                named = seq![
                    (b + seq![1u32, 0u32], ValueView::OctetString(sys_descr(hv))),
                    (b + seq![5u32, 0u32], ValueView::OctetString(hv.nodename@)),
                ];
                assert(entry_views(rows@) =~= named);
            }
        },
        None => {
            proof {
                named = Seq::<(Seq<u32>, ValueView)>::empty();
                assert(entry_views(rows@) =~= named);
            }
        },
    }
    push_row(&mut rows, base.cell(4, 0), Value::OctetString(String::from_str(SYS_CONTACT)));
    push_row(&mut rows, base.cell(6, 0), Value::OctetString(String::from_str(SYS_LOCATION)));
    match uptime {
        Some(t) => {
            let ticks = ((t as u64 * 100) % 0x1_0000_0000) as u32;
            push_row(&mut rows, base.cell(3, 0), Value::Timeticks(ticks));
        },
        None => {},
    }
    proof {
        assert(entry_views(rows@) =~= system_rows(b, host, uptime));
    }
    values.insert_all(rows);
}

/// After the system group is filled from a host's `uname` fields, sysName (`base.5.0`)
/// holds the host's node name, whatever the store held before.
pub proof fn lemma_sys_name(
    m: Map<Seq<u32>, ValueView>,
    base: Seq<u32>,
    h: HostInfo,
    uptime: Option<u32>,
)
    ensures
        insert_rows(m, system_rows(base, Some(h), uptime)).contains_key(base + seq![5u32, 0u32]),
        insert_rows(m, system_rows(base, Some(h), uptime))[base + seq![5u32, 0u32]]
            == ValueView::OctetString(h.nodename@),
{
    let rows = system_rows(base, Some(h), uptime);
    let k = base + seq![5u32, 0u32];
    assert(rows[1].0 == k);
    assert forall|j: int| 1 < j < rows.len() implies #[trigger] rows[j].0 != rows[1].0 by {
        let other = rows[j].0;
        assert(other[base.len() as int] != 5u32);
        assert(k[base.len() as int] == 5u32);
    }
    lemma_insert_rows_last(m, rows, 1);
}

} // verus!
