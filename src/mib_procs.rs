use vstd::prelude::*;
use crate::mib_sys::base_of;
use crate::oid::{is_dotted, parse_dotted, OID};
use crate::store::{entry_views, insert_rows, push_row, Store};
use crate::text::{
    chars_of, digits_value, is_u32_number, lemma_pieces_nonempty, parse_u32, pieces, split_on,
    string_from_chars, views,
};
use crate::value::{Value, ValueView};

verus! {

/// A directory under `/proc` and where its `exe` link points, when it could be read.
pub struct ProcEntry {
    pub name: String,
    pub exe: Option<String>,
}

/// The last component of a path.
pub open spec fn basename(path: Seq<char>) -> Seq<char> {
    pieces(path, '/').last()
}

/// The hrSWRunTable entries of one `/proc` entry: none unless its name is a process id
/// and its executable is known.
pub open spec fn proc_rows(base: Seq<u32>, e: ProcEntry) -> Seq<(Seq<u32>, ValueView)> {
    if is_u32_number(e.name@) && e.exe is Some {
        let pid = digits_value(e.name@) as u32;
        let exe = e.exe->Some_0@;
        seq![
            (base + seq![1u32, pid], ValueView::Integer(pid as i64)),
            (base + seq![2u32, pid], ValueView::OctetString(basename(exe))),
            (base + seq![4u32, pid], ValueView::OctetString(exe)),
        ]
    } else {
        Seq::<(Seq<u32>, ValueView)>::empty()
    }
}

/// The entries for all of `/proc`, in the order given.
pub open spec fn proc_table(base: Seq<u32>, es: Seq<ProcEntry>) -> Seq<(Seq<u32>, ValueView)>
    decreases es.len(),
{
    if es.len() == 0 {
        Seq::<(Seq<u32>, ValueView)>::empty()
    } else {
        proc_table(base, es.drop_last()) + proc_rows(base, es.last())
    }
}

fn basename_exec(path: &str) -> (r: String)
    ensures
        r@ == basename(path@),
{
    let cs = chars_of(path);
    let parts = split_on(&cs, '/');
    proof {
        lemma_pieces_nonempty(path@, '/');
        assert(parts@[parts@.len() - 1]@ == pieces(path@, '/').last());
    }
    string_from_chars(parts[parts.len() - 1].as_slice())
}

/// Fills hrSWRunTable under `hr_sw_run_table_oid`, one row per process, indexed by its
/// id: the id, the executable's file name and its full path.
pub fn get_processes(values: &mut Store, hr_sw_run_table_oid: &str, entries: &Vec<ProcEntry>)
    requires
        old(values).wf(),
        is_dotted(hr_sw_run_table_oid@),
    ensures
        final(values).wf(),
        final(values).map() == insert_rows(
            old(values).map(),
            proc_table(parse_dotted(hr_sw_run_table_oid@), entries@),
        ),
{
    let base = base_of(hr_sw_run_table_oid);
    let ghost es = entries@;
    let mut rows: Vec<(OID, Value)> = Vec::new();
    let mut i: usize = 0;
    proof {
        assert(es.take(0) =~= Seq::<ProcEntry>::empty());
        assert(entry_views(rows@) =~= Seq::<(Seq<u32>, ValueView)>::empty());
    }
    while i < entries.len()
        invariant
            i <= es.len(),
            es == entries@,
            entry_views(rows@) == proc_table(base@, es.take(i as int)),
        decreases entries.len() - i,
    {
        let e = &entries[i];
        let ghost t1 = es.take(i as int + 1);
        proof {
            assert(t1.drop_last() =~= es.take(i as int));
            assert(t1.last() == *e);
        }
        let ghost start = entry_views(rows@);
        let name = chars_of(e.name.as_str());
        match parse_u32(name.as_slice()) {
            Some(pid) => {
                match &e.exe {
                    Some(exe) => {
                        push_row(&mut rows, base.cell(1, pid), Value::Integer(pid as i64));
                        push_row(&mut rows, base.cell(2, pid), Value::OctetString(basename_exec(exe.as_str())));
                        push_row(&mut rows, base.cell(4, pid), Value::OctetString(exe.clone()));
                        proof {
                            assert(entry_views(rows@) =~= start + proc_rows(base@, *e));
                        }
                    },
                    None => {
                        proof {
                            assert(entry_views(rows@) =~= start + proc_rows(base@, *e));
                        }
                    },
                }
            },
            None => {
                proof {
                    assert(entry_views(rows@) =~= start + proc_rows(base@, *e));
                }
            },
        }
        i = i + 1;
        proof {
            assert(es.take(i as int) == t1);
        }
    }
    proof {
        assert(es.take(entries@.len() as int) =~= es);
    }
    values.insert_all(rows);
}

} // verus!
