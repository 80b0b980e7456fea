use vstd::prelude::*;
use core::cmp::Ordering;
use crate::oid::{
    arcs_lt, compare_arcs, copy_arcs, is_prefix, is_prefix_of, lemma_lt_irreflexive, lemma_lt_total,
    lemma_lt_transitive, lemma_prefix_le, OID,
};
use crate::value::{Value, ValueView};

verus! {

/// The most varbinds that one response carries.
pub const MAX_VARBINDS: usize = 100;

/// Keys in strictly ascending OID order, hence each at most once.
pub open spec fn strictly_sorted(s: Seq<(Seq<u32>, ValueView)>) -> bool {
    forall|i: int, j: int| 0 <= i < j < s.len() ==> arcs_lt(#[trigger] s[i].0, #[trigger] s[j].0)
}

pub open spec fn has_key(s: Seq<(Seq<u32>, ValueView)>, k: Seq<u32>) -> bool {
    exists|i: int| 0 <= i < s.len() && #[trigger] s[i].0 == k
}

/// The value of an entry with key `k`.
pub open spec fn value_at(s: Seq<(Seq<u32>, ValueView)>, k: Seq<u32>) -> ValueView {
    s[choose|i: int| 0 <= i < s.len() && #[trigger] s[i].0 == k].1
}

/// The mapping from keys to values that a sequence of entries describes.
pub open spec fn contents(s: Seq<(Seq<u32>, ValueView)>) -> Map<Seq<u32>, ValueView> {
    Map::new(|k: Seq<u32>| has_key(s, k), |k: Seq<u32>| value_at(s, k))
}

/// The mapping after inserting `rows` in order, a later row replacing an earlier one.
pub open spec fn insert_rows(m: Map<Seq<u32>, ValueView>, rows: Seq<(Seq<u32>, ValueView)>) -> Map<
    Seq<u32>,
    ValueView,
>
    decreases rows.len(),
{
    if rows.len() == 0 {
        m
    } else {
        insert_rows(m, rows.drop_last()).insert(rows.last().0, rows.last().1)
    }
}

pub open spec fn entry_views(v: Seq<(OID, Value)>) -> Seq<(Seq<u32>, ValueView)> {
    v.map_values(|e: (OID, Value)| (e.0@, e.1@))
}

pub open spec fn pair_views(v: Seq<(Vec<u32>, Value)>) -> Seq<(Seq<u32>, ValueView)> {
    v.map_values(|e: (Vec<u32>, Value)| (e.0@, e.1@))
}

/// Some key lies in the subtree of `p` (`p` itself included).
pub open spec fn has_subtree_key(s: Seq<(Seq<u32>, ValueView)>, p: Seq<u32>) -> bool {
    exists|i: int| 0 <= i < s.len() && is_prefix(p, #[trigger] s[i].0)
}

/// The start OID after backing off: its longest prefix that is a key or has keys below
/// it, or the empty sequence when there is none.
pub open spec fn normalize(s: Seq<(Seq<u32>, ValueView)>, start: Seq<u32>) -> Seq<u32>
    decreases start.len(),
{
    if start.len() == 0 || has_subtree_key(s, start) {
        start
    } else {
        normalize(s, start.drop_last())
    }
}

/// The position of the first entry at or after `i` in the subtree of `start`, or the
/// length when there is none.
pub open spec fn first_in_subtree(s: Seq<(Seq<u32>, ValueView)>, start: Seq<u32>, i: int) -> int
    decreases s.len() - i,
{
    if i >= s.len() {
        s.len() as int
    } else if is_prefix(start, s[i].0) {
        i
    } else {
        first_in_subtree(s, start, i + 1)
    }
}

/// Where the emitted run begins: at the first entry in the subtree of `start`, or just
/// after it when that entry is `start` itself.
pub open spec fn walk_begin(s: Seq<(Seq<u32>, ValueView)>, start: Seq<u32>) -> int {
    let a = first_in_subtree(s, start, 0);
    if a < s.len() && s[a].0 == start {
        a + 1
    } else {
        a
    }
}

/// The single varbind that ends a walk.
pub open spec fn end_of_mib() -> Seq<(Seq<u32>, ValueView)> {
    seq![(seq![0u32, 0u32], ValueView::EndOfMibView)]
}

/// The entries that a walk from `start` (already backed off) emits: a contiguous run in
/// key order, at most `MAX_VARBINDS` long; the end-of-MIB marker alone when the run is
/// empty.
pub open spec fn walk_from(s: Seq<(Seq<u32>, ValueView)>, start: Seq<u32>) -> Seq<(Seq<u32>, ValueView)> {
    let b = walk_begin(s, start);
    let e = if b + MAX_VARBINDS < s.len() {
        b + MAX_VARBINDS
    } else {
        s.len() as int
    };
    if b >= s.len() {
        end_of_mib()
    } else {
        s.subrange(b, e)
    }
}

/// The response to a GetNext from `start`.
pub open spec fn walk_spec(s: Seq<(Seq<u32>, ValueView)>, start: Seq<u32>) -> Seq<(Seq<u32>, ValueView)> {
    walk_from(s, normalize(s, start))
}

/// The ordered store of values, keyed by OID.
#[derive(Debug)]
pub struct Store {
    entries: Vec<(OID, Value)>,
}

impl View for Store {
    type V = Seq<(Seq<u32>, ValueView)>;

    closed spec fn view(&self) -> Seq<(Seq<u32>, ValueView)> {
        entry_views(self.entries@)
    }
}

proof fn lemma_unique_index(s: Seq<(Seq<u32>, ValueView)>, i: int, j: int)
    requires
        strictly_sorted(s),
        0 <= i < s.len(),
        0 <= j < s.len(),
        s[i].0 == s[j].0,
    ensures
        i == j,
{
    if i < j {
        assert(arcs_lt(s[i].0, s[j].0));
        lemma_lt_irreflexive(s[i].0, 0);
    } else if j < i {
        assert(arcs_lt(s[j].0, s[i].0));
        lemma_lt_irreflexive(s[i].0, 0);
    }
}

/// In a sorted sequence, the mapping gives each entry's own value.
proof fn lemma_contents_at(s: Seq<(Seq<u32>, ValueView)>, j: int)
    requires
        strictly_sorted(s),
        0 <= j < s.len(),
    ensures
        contents(s).contains_key(s[j].0),
        contents(s)[s[j].0] == s[j].1,
{
    let k = s[j].0;
    assert(has_key(s, k));
    assert forall|i: int| 0 <= i < s.len() && #[trigger] s[i].0 == k implies i == j by {
        lemma_unique_index(s, i, j);
    }
}

proof fn lemma_contents_insert(s: Seq<(Seq<u32>, ValueView)>, n: Seq<(Seq<u32>, ValueView)>, k: Seq<u32>, v: ValueView)
    requires
        strictly_sorted(s),
        strictly_sorted(n),
        forall|j: int| 0 <= j < n.len() && n[j].0 != k ==> has_key(s, #[trigger] n[j].0),
        forall|j: int|
            0 <= j < s.len() && s[j].0 != k ==> exists|m: int|
                0 <= m < n.len() && #[trigger] n[m] == #[trigger] s[j],
        has_key(n, k),
        forall|j: int| 0 <= j < n.len() && n[j].0 == k ==> #[trigger] n[j].1 == v,
    ensures
        contents(n) == contents(s).insert(k, v),
{
    assert forall|key: Seq<u32>| #[trigger] contents(n).contains_key(key) == contents(s).insert(k, v).contains_key(key) by {
        if key != k && has_key(s, key) {
            let j = choose|j: int| 0 <= j < s.len() && #[trigger] s[j].0 == key;
            let m = choose|m: int| 0 <= m < n.len() && #[trigger] n[m] == #[trigger] s[j];
            assert(n[m].0 == key);
        }
    }
    assert forall|key: Seq<u32>| contents(n).contains_key(key) implies #[trigger] contents(n)[key]
        == contents(s).insert(k, v)[key] by {
        let m = choose|m: int| 0 <= m < n.len() && #[trigger] n[m].0 == key;
        lemma_contents_at(n, m);
        if key != k {
            let j = choose|j: int| 0 <= j < s.len() && #[trigger] s[j].0 == key;
            lemma_contents_at(s, j);
            let m2 = choose|m2: int| 0 <= m2 < n.len() && #[trigger] n[m2] == #[trigger] s[j];
            lemma_unique_index(n, m, m2);
        }
    }
    assert(contents(n) =~= contents(s).insert(k, v));
}

fn oid_less(a: &OID, b: &OID) -> (r: bool)
    ensures
        r == arcs_lt(a@, b@),
{
    match compare_arcs(a.as_vec().as_slice(), b.as_vec().as_slice()) {
        Ordering::Less => true,
        _ => false,
    }
}

fn oid_equal(a: &OID, b: &OID) -> (r: bool)
    ensures
        r == (a@ == b@),
{
    match compare_arcs(a.as_vec().as_slice(), b.as_vec().as_slice()) {
        Ordering::Equal => true,
        _ => false,
    }
}

impl Store {
    /// Well-formed: the keys are in strictly ascending order.
    pub open spec fn wf(&self) -> bool {
        strictly_sorted(self@)
    }

    /// The contents as a mapping from arcs to values.
    pub open spec fn map(&self) -> Map<Seq<u32>, ValueView> {
        contents(self@)
    }

    /// An empty store.
    pub fn new() -> (r: Store)
        ensures
            r.wf(),
            r@ == Seq::<(Seq<u32>, ValueView)>::empty(),
    {
        let r = Store { entries: Vec::new() };
        proof {
            assert(entry_views(r.entries@) =~= Seq::<(Seq<u32>, ValueView)>::empty());
        }
        r
    }

    /// The number of entries.
    pub fn len(&self) -> (r: usize)
        ensures
            r == self@.len(),
    {
        self.entries.len()
    }

    /// Inserts an entry; an entry with an equal key is replaced.
    pub fn insert(&mut self, key: OID, value: Value)
        requires
            old(self).wf(),
        ensures
            final(self).wf(),
            final(self).map() == old(self).map().insert(key@, value@),
    {
        let ghost s = self@;
        let mut lo: usize = 0;
        let mut hi: usize = self.entries.len();
        while lo < hi
            invariant
                lo <= hi <= self.entries@.len(),
                s == entry_views(self.entries@),
                strictly_sorted(s),
                forall|j: int| 0 <= j < lo ==> arcs_lt(#[trigger] s[j].0, key@),
                forall|j: int| hi <= j < s.len() ==> !arcs_lt(#[trigger] s[j].0, key@),
            decreases hi - lo,
        {
            let mid = lo + (hi - lo) / 2;
            if oid_less(&self.entries[mid].0, &key) {
                proof {
                    assert forall|j: int| 0 <= j <= mid implies arcs_lt(#[trigger] s[j].0, key@) by {
                        if j < mid {
                            assert(arcs_lt(s[j].0, s[mid as int].0));
                            lemma_lt_transitive(s[j].0, s[mid as int].0, key@, 0);
                        }
                    }
                }
                lo = mid + 1;
            } else {
                proof {
                    assert forall|j: int| mid <= j < s.len() implies !arcs_lt(#[trigger] s[j].0, key@) by {
                        if j > mid && arcs_lt(s[j].0, key@) {
                            assert(arcs_lt(s[mid as int].0, s[j].0));
                            lemma_lt_transitive(s[mid as int].0, s[j].0, key@, 0);
                        }
                    }
                }
                hi = mid;
            }
        }
        let i = lo;
        let found = i < self.entries.len() && oid_equal(&self.entries[i].0, &key);
        proof {
            if !found && i < s.len() {
                lemma_lt_total(s[i as int].0, key@);
            }
        }
        let ghost k = key@;
        if found {
            let _old = self.entries.remove(i);
            self.entries.insert(i, (key, value));
            proof {
                let n = entry_views(self.entries@);
                assert(n =~= s.update(i as int, (k, value@)));
                assert forall|a: int, b: int| 0 <= a < b < n.len() implies arcs_lt(#[trigger] n[a].0, #[trigger] n[b].0) by {
                    assert(arcs_lt(s[a].0, s[b].0));
                }
                assert forall|j: int| 0 <= j < n.len() && n[j].0 != k implies has_key(s, #[trigger] n[j].0) by {
                    assert(s[j].0 == n[j].0);
                }
                assert forall|j: int| 0 <= j < s.len() && s[j].0 != k implies exists|m: int|
                    0 <= m < n.len() && #[trigger] n[m] == #[trigger] s[j] by {
                    assert(n[j] == s[j]);
                }
                assert(n[i as int].0 == k);
                assert forall|j: int| 0 <= j < n.len() && n[j].0 == k implies #[trigger] n[j].1 == value@ by {
                    lemma_unique_index(n, j, i as int);
                }
                lemma_contents_insert(s, n, k, value@);
            }
        } else {
            self.entries.insert(i, (key, value));
            proof {
                let n = entry_views(self.entries@);
                assert(n =~= s.insert(i as int, (k, value@)));
                assert forall|j: int| i <= j < s.len() implies arcs_lt(k, #[trigger] s[j].0) by {
                    if j > i {
                        assert(arcs_lt(s[i as int].0, s[j].0));
                        lemma_lt_transitive(k, s[i as int].0, s[j].0, 0);
                    }
                }
                assert forall|a: int, b: int| 0 <= a < b < n.len() implies arcs_lt(#[trigger] n[a].0, #[trigger] n[b].0) by {
                    if b < i {
                        assert(arcs_lt(s[a].0, s[b].0));
                    } else if b == i {
                    } else if a < i {
                        assert(arcs_lt(s[a].0, k));
                        assert(arcs_lt(k, s[b - 1].0));
                        lemma_lt_transitive(s[a].0, k, s[b - 1].0, 0);
                    } else if a == i {
                    } else {
                        assert(arcs_lt(s[a - 1].0, s[b - 1].0));
                    }
                }
                assert forall|j: int| 0 <= j < n.len() && n[j].0 != k implies has_key(s, #[trigger] n[j].0) by {
                    if j < i {
                        assert(s[j].0 == n[j].0);
                    } else {
                        assert(s[j - 1].0 == n[j].0);
                    }
                }
                assert forall|j: int| 0 <= j < s.len() && s[j].0 != k implies exists|m: int|
                    0 <= m < n.len() && #[trigger] n[m] == #[trigger] s[j] by {
                    if j < i {
                        assert(n[j] == s[j]);
                    } else {
                        assert(n[j + 1] == s[j]);
                    }
                }
                assert(n[i as int].0 == k);
                assert forall|j: int| 0 <= j < n.len() && n[j].0 == k implies #[trigger] n[j].1 == value@ by {
                    lemma_unique_index(n, j, i as int);
                }
                lemma_contents_insert(s, n, k, value@);
            }
        }
    }

    /// Inserts the rows in order, a later row replacing an earlier one of equal key.
    pub fn insert_all(&mut self, rows: Vec<(OID, Value)>)
        requires
            old(self).wf(),
        ensures
            final(self).wf(),
            final(self).map() == insert_rows(old(self).map(), entry_views(rows@)),
    {
        let mut rows = rows;
        let total = rows.len();
        let ghost all = entry_views(rows@);
        let ghost m0 = self.map();
        let mut taken: Vec<(OID, Value)> = Vec::new();
        // take the rows off the back, then insert them front first
        while rows.len() > 0
            invariant
                entry_views(rows@) + entry_views(taken@).reverse() == all,
            decreases rows.len(),
        {
            let e = rows.pop().unwrap();
            let ghost before = entry_views(taken@);
            taken.push(e);
            proof {
                assert(entry_views(taken@) =~= before.push((e.0@, e.1@)));
                assert(entry_views(rows@) + entry_views(taken@).reverse() =~= all);
            }
        }
        let mut done: usize = 0;
        let ghost n = all.len();
        while taken.len() > 0
            invariant
                entry_views(taken@).reverse() == all.skip(done as int),
                done <= all.len(),
                all.len() == total,
                taken@.len() + done == all.len(),
                self.wf(),
                self.map() == insert_rows(m0, all.take(done as int)),
            decreases taken.len(),
        {
            let ghost tv = entry_views(taken@);
            let e = taken.pop().unwrap();
            let ghost before = all.skip(done as int);
            proof {
                assert(entry_views(taken@) =~= tv.drop_last());
                assert(tv.last() == (e.0@, e.1@));
                assert(tv.reverse()[0] == tv.last());
                assert(before[0] == (e.0@, e.1@));
                assert(all[done as int] == (e.0@, e.1@));
            }
            let ghost k = e.0@;
            let ghost v = e.1;
            self.insert(e.0, e.1);
            done = done + 1;
            proof {
                assert(all.take(done as int).drop_last() =~= all.take(done as int - 1));
                assert(tv.drop_last().reverse() =~= tv.reverse().drop_first());
                assert(entry_views(taken@).reverse() =~= all.skip(done as int));
            }
        }
        proof {
            assert(all.take(done as int) =~= all);
        }
    }

    /// Whether some entry has exactly these arcs as its key.
    pub fn contains_key(&self, key: &[u32]) -> (r: bool)
        ensures
            r == has_key(self@, key@),
    {
        let mut i: usize = 0;
        while i < self.entries.len()
            invariant
                i <= self.entries@.len(),
                forall|j: int| 0 <= j < i ==> #[trigger] self@[j].0 != key@,
            decreases self.entries.len() - i,
        {
            if equal_arcs(self.entries[i].0.as_vec().as_slice(), key) {
                proof {
                    assert(self@[i as int].0 == key@);
                }
                return true;
            }
            i = i + 1;
        }
        false
    }

    /// Whether some key lies in the subtree of `p` (`p` itself included).
    pub fn has_key_under(&self, p: &[u32]) -> (r: bool)
        ensures
            r == has_subtree_key(self@, p@),
    {
        let mut i: usize = 0;
        while i < self.entries.len()
            invariant
                i <= self.entries@.len(),
                forall|j: int| 0 <= j < i ==> !is_prefix(p@, #[trigger] self@[j].0),
            decreases self.entries.len() - i,
        {
            if is_prefix_of(p, self.entries[i].0.as_vec().as_slice()) {
                proof {
                    assert(is_prefix(p@, self@[i as int].0));
                }
                return true;
            }
            i = i + 1;
        }
        false
    }

    /// The start OID of a walk after backing off: arcs are dropped from its end until some
    /// key lies in its subtree or nothing is left.
    pub fn normalize_start(&self, start: &OID) -> (r: Vec<u32>)
        ensures
            r@ == normalize(self@, start@),
    {
        let mut cur = copy_arcs(start.as_vec().as_slice());
        while cur.len() > 0 && !self.has_key_under(cur.as_slice())
            invariant
                normalize(self@, start@) == normalize(self@, cur@),
            decreases cur.len(),
        {
            let ghost before = cur@;
            let _ = cur.pop();
            proof {
                assert(cur@ == before.drop_last());
            }
        }
        cur
    }

    /// The varbinds that answer a GetNext from `start`: after backing off to a prefix with
    /// keys below it (or to nothing), the entries from the first one in its subtree on,
    /// that first one left out when it is the start itself, at most `MAX_VARBINDS` of
    /// them; the end-of-MIB marker alone when there are none.
    pub fn walk(&self, start: &OID) -> (r: Vec<(Vec<u32>, Value)>)
        requires
            self.wf(),
        ensures
            pair_views(r@) == walk_spec(self@, start@),
            1 <= r@.len() <= MAX_VARBINDS,
            forall|i: int, j: int|
                0 <= i < j < r@.len() ==> arcs_lt(#[trigger] r@[i].0@, #[trigger] r@[j].0@),
            pair_views(r@) == end_of_mib() || forall|i: int|
                0 <= i < r@.len() ==> arcs_lt(normalize(self@, start@), #[trigger] r@[i].0@),
            (forall|i: int| 0 <= i < self@.len() ==> !is_prefix(normalize(self@, start@), #[trigger] self@[i].0))
                ==> pair_views(r@) == end_of_mib(),
    {
        let norm = self.normalize_start(start);
        let ghost s = self@;
        let ghost p = norm@;
        let len = self.entries.len();
        let mut a: usize = 0;
        while a < len && !is_prefix_of(norm.as_slice(), self.entries[a].0.as_vec().as_slice())
            invariant
                a <= len == s.len(),
                s == self@,
                p == norm@,
                first_in_subtree(s, p, 0) == first_in_subtree(s, p, a as int),
                forall|j: int| 0 <= j < a ==> !is_prefix(p, #[trigger] s[j].0),
            decreases len - a,
        {
            a = a + 1;
        }
        proof {
            lemma_first_in_subtree(s, p, a as int);
        }
        let b: usize = if a < len && equal_arcs(self.entries[a].0.as_vec().as_slice(), norm.as_slice()) {
            a + 1
        } else {
            a
        };
        let mut out: Vec<(Vec<u32>, Value)> = Vec::new();
        if b >= len {
            out.push((vec![0u32, 0u32], Value::EndOfMibView));
            proof {
                assert(pair_views(out@) =~= end_of_mib());
            }
            return out;
        }
        let e: usize = if len - b > MAX_VARBINDS {
            b + MAX_VARBINDS
        } else {
            len
        };
        let mut i: usize = b;
        while i < e
            invariant
                b <= i <= e <= len == s.len(),
                s == self@,
                pair_views(out@) == s.subrange(b as int, i as int),
            decreases e - i,
        {
            let key = copy_arcs(self.entries[i].0.as_vec().as_slice());
            let value = self.entries[i].1.duplicate();
            let ghost before = pair_views(out@);
            out.push((key, value));
            i = i + 1;
            proof {
                assert(pair_views(out@) =~= before.push(s[i - 1]));
                assert(pair_views(out@) =~= s.subrange(b as int, i as int));
            }
        }
        proof {
            let a0 = a as int;
            assert(is_prefix(p, s[a0].0));
            assert forall|i: int| 0 <= i < out@.len() implies arcs_lt(p, #[trigger] out@[i].0@) by {
                assert(out@[i].0@ == pair_views(out@)[i].0);
                let idx = b + i;
                assert(pair_views(out@)[i] == s[idx]);
                lemma_prefix_le(p, s[a0].0);
                if s[a0].0 == p {
                    assert(arcs_lt(s[a0].0, s[idx].0));
                } else {
                    if idx > a0 {
                        assert(arcs_lt(s[a0].0, s[idx].0));
                        lemma_lt_transitive(p, s[a0].0, s[idx].0, 0);
                    }
                }
            }
            assert forall|i: int, j: int| 0 <= i < j < out@.len() implies arcs_lt(#[trigger] out@[i].0@, #[trigger] out@[j].0@) by {
                assert(out@[i].0@ == pair_views(out@)[i].0);
                assert(out@[j].0@ == pair_views(out@)[j].0);
                assert(arcs_lt(s[b + i].0, s[b + j].0));
            }
        }
        out
    }

    /// The value stored under `key`, if any.
    pub fn get(&self, key: &OID) -> (r: Option<&Value>)
        requires
            self.wf(),
        ensures
            match r {
                None => !self.map().contains_key(key@),
                Some(v) => self.map().contains_key(key@) && self.map()[key@] == v@,
            },
    {
        let mut i: usize = 0;
        while i < self.entries.len()
            invariant
                i <= self.entries@.len(),
                self.wf(),
                forall|j: int| 0 <= j < i ==> #[trigger] self@[j].0 != key@,
            decreases self.entries.len() - i,
        {
            if equal_arcs(self.entries[i].0.as_vec().as_slice(), key.as_vec().as_slice()) {
                proof {
                    assert(self@[i as int].0 == key@);
                    lemma_contents_at(self@, i as int);
                }
                return Some(&self.entries[i].1);
            }
            i = i + 1;
        }
        None
    }
}

/// Appends an entry to a list of rows.
pub fn push_row(rows: &mut Vec<(OID, Value)>, key: OID, value: Value)
    ensures
        entry_views(final(rows)@) == entry_views(old(rows)@).push((key@, value@)),
{
    let ghost before = entry_views(rows@);
    let ghost k = key@;
    let ghost v = value@;
    rows.push((key, value));
    proof {
        assert(entry_views(rows@) =~= before.push((k, v)));
    }
}

fn equal_arcs(a: &[u32], b: &[u32]) -> (r: bool)
    ensures
        r == (a@ == b@),
{
    match compare_arcs(a, b) {
        Ordering::Equal => true,
        _ => false,
    }
}

proof fn lemma_first_in_subtree(s: Seq<(Seq<u32>, ValueView)>, p: Seq<u32>, a: int)
    requires
        0 <= a <= s.len(),
        first_in_subtree(s, p, 0) == first_in_subtree(s, p, a),
        forall|j: int| 0 <= j < a ==> !is_prefix(p, #[trigger] s[j].0),
        a == s.len() || is_prefix(p, s[a].0),
    ensures
        first_in_subtree(s, p, 0) == a,
        a == s.len() ==> forall|j: int| 0 <= j < s.len() ==> !is_prefix(p, #[trigger] s[j].0),
{
}

proof fn lemma_insert_rows_union(m: Map<Seq<u32>, ValueView>, rows: Seq<(Seq<u32>, ValueView)>)
    ensures
        insert_rows(m, rows) == m.union_prefer_right(insert_rows(Map::empty(), rows)),
    decreases rows.len(),
{
    if rows.len() > 0 {
        lemma_insert_rows_union(m, rows.drop_last());
        let r = insert_rows(Map::<Seq<u32>, ValueView>::empty(), rows.drop_last());
        assert(m.union_prefer_right(r).insert(rows.last().0, rows.last().1) =~= m.union_prefer_right(
            r.insert(rows.last().0, rows.last().1),
        ));
    } else {
        assert(m =~= m.union_prefer_right(Map::<Seq<u32>, ValueView>::empty()));
    }
}

/// Inserting the same rows a second time changes nothing: a probe that runs again on an
/// unchanged host leaves the store with the same keys and values.
pub proof fn lemma_insert_rows_idempotent(m: Map<Seq<u32>, ValueView>, rows: Seq<(Seq<u32>, ValueView)>)
    ensures
        insert_rows(insert_rows(m, rows), rows) == insert_rows(m, rows),
{
    let r = insert_rows(Map::<Seq<u32>, ValueView>::empty(), rows);
    lemma_insert_rows_union(m, rows);
    lemma_insert_rows_union(insert_rows(m, rows), rows);
    assert(m.union_prefer_right(r).union_prefer_right(r) =~= m.union_prefer_right(r));
}

/// Inserting `a` then `b` is inserting `a` followed by `b`.
pub proof fn lemma_insert_rows_concat(
    m: Map<Seq<u32>, ValueView>,
    a: Seq<(Seq<u32>, ValueView)>,
    b: Seq<(Seq<u32>, ValueView)>,
)
    ensures
        insert_rows(m, a + b) == insert_rows(insert_rows(m, a), b),
    decreases b.len(),
{
    if b.len() == 0 {
        assert(a + b =~= a);
    } else {
        lemma_insert_rows_concat(m, a, b.drop_last());
        assert((a + b).drop_last() =~= a + b.drop_last());
        assert((a + b).last() == b.last());
    }
}

/// After inserting rows, a key holds the value of the last row that has it.
pub proof fn lemma_insert_rows_last(m: Map<Seq<u32>, ValueView>, rows: Seq<(Seq<u32>, ValueView)>, i: int)
    requires
        0 <= i < rows.len(),
        forall|j: int| i < j < rows.len() ==> #[trigger] rows[j].0 != rows[i].0,
    ensures
        insert_rows(m, rows).contains_key(rows[i].0),
        insert_rows(m, rows)[rows[i].0] == rows[i].1,
    decreases rows.len(),
{
    if i < rows.len() - 1 {
        let d = rows.drop_last();
        assert forall|j: int| i < j < d.len() implies #[trigger] d[j].0 != d[i].0 by {
            assert(d[j] == rows[j]);
        }
        lemma_insert_rows_last(m, d, i);
        assert(rows.last().0 != rows[i].0);
    }
}

} // verus!
