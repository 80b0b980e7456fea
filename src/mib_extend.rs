use vstd::prelude::*;
use crate::mib_sys::base_of;
use crate::oid::{char_codes, is_dotted, parse_dotted, OID};
use crate::store::{entry_views, insert_rows, push_row, Store};
use crate::text::{chars_of, lines_of, split_lines, string_from_chars, trim_end};
use crate::value::{Value, ValueView};

verus! {

/// What running an extend command gave: the entry's name, its standard output and its
/// exit code.
pub struct ExtendOutput {
    pub name: String,
    pub stdout: String,
    pub status: i32,
}

/// The index under which an extend entry appears: the name's length, then the code of
/// each of its characters.
pub open spec fn name_index(name: Seq<char>) -> Seq<u32> {
    seq![name.len() as u32] + char_codes(name)
}

/// The first line of the output, empty when there is none.
pub open spec fn first_output_line(out: Seq<char>) -> Seq<char> {
    if lines_of(out).len() > 0 {
        lines_of(out)[0]
    } else {
        Seq::<char>::empty()
    }
}

/// The nsExtendOutput1Table and nsExtendOutput2Table entries of one command.
pub open spec fn extend_rows(base: Seq<u32>, o: ExtendOutput) -> Seq<(Seq<u32>, ValueView)> {
    let idx = name_index(o.name@);
    seq![
        (base + seq![1u32] + idx, ValueView::OctetString(first_output_line(o.stdout@))),
        (base + seq![2u32] + idx, ValueView::OctetString(trim_end(o.stdout@))),
        (base + seq![3u32] + idx, ValueView::Integer(lines_of(o.stdout@).len() as i64)),
        (base + seq![4u32] + idx, ValueView::Integer(o.status as i64)),
    ]
}

/// The entries for all commands, in the order given.
pub open spec fn extend_table(base: Seq<u32>, os: Seq<ExtendOutput>) -> Seq<(Seq<u32>, ValueView)>
    decreases os.len(),
{
    if os.len() == 0 {
        Seq::<(Seq<u32>, ValueView)>::empty()
    } else {
        extend_table(base, os.drop_last()) + extend_rows(base, os.last())
    }
}

fn trim_end_exec(s: &Vec<char>) -> (r: Vec<char>)
    ensures
        r@ == trim_end(s@),
{
    let mut k: usize = s.len();
    proof {
        assert(s@.take(k as int) =~= s@);
    }
    while k > 0 && crate::text::is_space_char(s[k - 1])
        invariant
            k <= s@.len(),
            trim_end(s@) == trim_end(s@.take(k as int)),
        decreases k,
    {
        proof {
            assert(s@.take(k as int).drop_last() =~= s@.take(k as int - 1));
        }
        k = k - 1;
    }
    let r = crate::text::copy_range(s.as_slice(), 0, k);
    proof {
        assert(r@ =~= s@.take(k as int));
    }
    r
}

/// The index arcs of an extend entry's name (see `name_index`).
fn name_arcs(name: &str) -> (r: Vec<u32>)
    requires
        name@.len() <= u32::MAX,
    ensures
        r@ == name_index(name@),
{
    let cs = chars_of(name);
    let mut arcs: Vec<u32> = Vec::new();
    arcs.push(cs.len() as u32);
    let mut i: usize = 0;
    while i < cs.len()
        invariant
            i <= cs@.len(),
            cs@ == name@,
            arcs@ == seq![name@.len() as u32] + char_codes(name@).take(i as int),
        decreases cs.len() - i,
    {
        arcs.push(cs[i] as u32);
        i = i + 1;
        proof {
            assert(arcs@ =~= seq![name@.len() as u32] + char_codes(name@).take(i as int));
        }
    }
    proof {
        assert(char_codes(name@).take(cs@.len() as int) =~= char_codes(name@));
    }
    arcs
}

fn push_extend_rows(rows: &mut Vec<(OID, Value)>, base: &OID, o: &ExtendOutput)
    requires
        o.name@.len() <= u32::MAX,
        lines_of(o.stdout@).len() <= i64::MAX,
    ensures
        entry_views(final(rows)@) == entry_views(old(rows)@) + extend_rows(base@, *o),
{
    let idx = name_arcs(o.name.as_str());
    let out = chars_of(o.stdout.as_str());
    let lines = split_lines(&out);
    let first: Vec<char> = if lines.len() > 0 {
        crate::text::copy_range(lines[0].as_slice(), 0, lines[0].len())
    } else {
        Vec::new()
    };
    proof {
        if lines@.len() > 0 {
            assert(lines@[0]@ == lines_of(o.stdout@)[0]);
            assert(lines@[0]@.subrange(0, lines@[0]@.len() as int) =~= lines@[0]@);
        } else {
            assert(first@ =~= Seq::<char>::empty());
        }
    }
    let full = trim_end_exec(&out);
    let ghost start = entry_views(rows@);
    let mut keys: Vec<OID> = Vec::new();
    let mut k: u32 = 1;
    while k <= 4
        invariant
            1 <= k <= 5,
            keys@.len() == k - 1,
            forall|j: int| 0 <= j < keys@.len() ==> #[trigger] keys@[j]@ == base@ + seq![(j + 1) as u32] + idx@,
        decreases 5 - k,
    {
        let column = [k];
        let key = base.extended(column.as_slice()).extended(idx.as_slice());
        proof {
            assert(column@ =~= seq![k]);
        }
        keys.push(key);
        k = k + 1;
    }
    let status = o.status as i64;
    let count = lines.len() as i64;
    let k4 = keys.pop().unwrap();
    let k3 = keys.pop().unwrap();
    let k2 = keys.pop().unwrap();
    let k1 = keys.pop().unwrap();
    push_row(rows, k1, Value::OctetString(string_from_chars(first.as_slice())));
    push_row(rows, k2, Value::OctetString(string_from_chars(full.as_slice())));
    push_row(rows, k3, Value::Integer(count));
    push_row(rows, k4, Value::Integer(status));
    proof {
        assert(entry_views(rows@) =~= start + extend_rows(base@, *o));
    }
}

/// Fills NET-SNMP's extend output tables under `extend_oid` from what each configured
/// command gave: its first line, its whole output without trailing white space, its
/// number of lines and its exit code, indexed by the entry's name.
pub fn get_extend(values: &mut Store, outputs: &Vec<ExtendOutput>, extend_oid: &str)
    requires
        old(values).wf(),
        is_dotted(extend_oid@),
        forall|i: int| 0 <= i < outputs@.len() ==> (#[trigger] outputs@[i]).name@.len() <= u32::MAX
            && lines_of(outputs@[i].stdout@).len() <= i64::MAX,
    ensures
        final(values).wf(),
        final(values).map() == insert_rows(
            old(values).map(),
            extend_table(parse_dotted(extend_oid@), outputs@),
        ),
{
    let base = base_of(extend_oid);
    let ghost os = outputs@;
    let mut rows: Vec<(OID, Value)> = Vec::new();
    let mut i: usize = 0;
    proof {
        assert(os.take(0) =~= Seq::<ExtendOutput>::empty());
        assert(entry_views(rows@) =~= Seq::<(Seq<u32>, ValueView)>::empty());
    }
    while i < outputs.len()
        invariant
            i <= os.len(),
            os == outputs@,
            forall|i: int| 0 <= i < outputs@.len() ==> (#[trigger] outputs@[i]).name@.len() <= u32::MAX
                && lines_of(outputs@[i].stdout@).len() <= i64::MAX,
            entry_views(rows@) == extend_table(base@, os.take(i as int)),
        decreases outputs.len() - i,
    {
        let ghost t1 = os.take(i as int + 1);
        proof {
            assert(t1.drop_last() =~= os.take(i as int));
            assert(t1.last() == outputs@[i as int]);
        }
        push_extend_rows(&mut rows, &base, &outputs[i]);
        i = i + 1;
        proof {
            assert(os.take(i as int) == t1);
        }
    }
    proof {
        assert(os.take(outputs@.len() as int) =~= os);
    }
    values.insert_all(rows);
}

} // verus!
