use vstd::prelude::*;
use core::cmp::Ordering;
use vstd::std_specs::cmp::PartialOrdSpec;
use crate::text::{
    chars_of, decimal, digits_value, is_u32_number, lemma_pieces_nonempty, parse_u32, pieces,
    push_decimal, split_on, string_from_chars, views,
};

verus! {

/// The dotted-decimal form of an arc sequence.
pub open spec fn dotted(arcs: Seq<u32>) -> Seq<char>
    decreases arcs.len(),
{
    if arcs.len() == 0 {
        Seq::<char>::empty()
    } else if arcs.len() == 1 {
        decimal(arcs[0] as nat)
    } else {
        dotted(arcs.drop_last()) + seq!['.'] + decimal(arcs.last() as nat)
    }
}

/// Every dot-separated component of `s` is a decimal number of 32 bits.
pub open spec fn is_dotted(s: Seq<char>) -> bool {
    forall|i: int| 0 <= i < pieces(s, '.').len() ==> is_u32_number(#[trigger] pieces(s, '.')[i])
}

/// The arcs named by a dotted-decimal string.
pub open spec fn parse_dotted(s: Seq<char>) -> Seq<u32> {
    pieces(s, '.').map_values(|p: Seq<char>| digits_value(p) as u32)
}

/// Fragments joined with single dots in between.
pub open spec fn join_dots(parts: Seq<Seq<char>>) -> Seq<char>
    decreases parts.len(),
{
    if parts.len() == 0 {
        Seq::<char>::empty()
    } else if parts.len() == 1 {
        parts[0]
    } else {
        join_dots(parts.drop_last()) + seq!['.'] + parts.last()
    }
}

pub open spec fn str_views(parts: Seq<&str>) -> Seq<Seq<char>> {
    parts.map_values(|p: &str| p@)
}

/// `prefix` is an equal or proper prefix of `arcs`.
pub open spec fn is_prefix(prefix: Seq<u32>, arcs: Seq<u32>) -> bool {
    prefix.len() <= arcs.len() && arcs.take(prefix.len() as int) == prefix
}

/// Lexicographic comparison from position `i` on: `a` is less when at the first
/// differing position its arc is smaller, or when it ends first.
pub open spec fn lt_from(a: Seq<u32>, b: Seq<u32>, i: int) -> bool
    decreases a.len() - i,
{
    if i >= b.len() {
        false
    } else if i >= a.len() {
        true
    } else if a[i] != b[i] {
        a[i] < b[i]
    } else {
        lt_from(a, b, i + 1)
    }
}

/// The order of OIDs: lexicographic on arcs, a proper prefix first.
pub open spec fn arcs_lt(a: Seq<u32>, b: Seq<u32>) -> bool {
    lt_from(a, b, 0)
}

/// Lexicographic order stated through the first position where the sequences part.
pub open spec fn lex_less(a: Seq<u32>, b: Seq<u32>) -> bool {
    exists|i: int|
        0 <= i <= a.len() && i <= b.len() && #[trigger] a.take(i) == b.take(i) && (
        (i == a.len() && i < b.len()) || (i < a.len() && i < b.len() && a[i] < b[i]))
}

/// The character codes of a name.
pub open spec fn char_codes(s: Seq<char>) -> Seq<u32> {
    s.map_values(|c: char| c as u32)
}

/// An SNMP object identifier: a sequence of 32-bit arcs with its dotted-decimal form.
#[derive(Debug)]
pub struct OID {
    oid_str: String,
    oid_vec: Vec<u32>,
}

impl View for OID {
    type V = Seq<u32>;

    closed spec fn view(&self) -> Seq<u32> {
        self.oid_vec@
    }
}

/// The dotted-decimal form of `arcs`, as characters.
pub fn render(arcs: &[u32]) -> (r: Vec<char>)
    ensures
        r@ == dotted(arcs@),
{
    let mut out: Vec<char> = Vec::new();
    let mut i: usize = 0;
    while i < arcs.len()
        invariant
            i <= arcs.len(),
            out@ == dotted(arcs@.take(i as int)),
        decreases arcs.len() - i,
    {
        proof {
            assert(arcs@.take(i as int + 1).drop_last() == arcs@.take(i as int));
        }
        if i > 0 {
            out.push('.');
        }
        push_decimal(&mut out, arcs[i]);
        i = i + 1;
        proof {
            assert(out@ =~= dotted(arcs@.take(i as int)));
        }
    }
    proof {
        assert(arcs@.take(arcs@.len() as int) == arcs@);
    }
    out
}

/// Copies a slice of arcs into a new vector.
pub fn copy_arcs(arcs: &[u32]) -> (r: Vec<u32>)
    ensures
        r@ == arcs@,
{
    let mut out: Vec<u32> = Vec::new();
    let mut i: usize = 0;
    while i < arcs.len()
        invariant
            i <= arcs.len(),
            out@ == arcs@.take(i as int),
        decreases arcs.len() - i,
    {
        out.push(arcs[i]);
        i = i + 1;
        proof {
            assert(out@ =~= arcs@.take(i as int));
        }
    }
    proof {
        assert(arcs@.take(arcs@.len() as int) == arcs@);
    }
    out
}

/// The arcs of a dotted-decimal string given as characters.
fn parse_chars(s: &Vec<char>) -> (r: Vec<u32>)
    requires
        is_dotted(s@),
    ensures
        r@ == parse_dotted(s@),
{
    let parts = split_on(s, '.');
    let mut out: Vec<u32> = Vec::new();
    let mut i: usize = 0;
    while i < parts.len()
        invariant
            i <= parts.len(),
            views(parts@) == pieces(s@, '.'),
            is_dotted(s@),
            out@ == parse_dotted(s@).take(i as int),
        decreases parts.len() - i,
    {
        proof {
            assert(parts@[i as int]@ == pieces(s@, '.')[i as int]);
            assert(is_u32_number(pieces(s@, '.')[i as int]));
        }
        let n = match parse_u32(parts[i].as_slice()) {
            Some(n) => n,
            None => 0,
        };
        out.push(n);
        i = i + 1;
        proof {
            assert(out@ =~= parse_dotted(s@).take(i as int));
        }
    }
    proof {
        assert(parse_dotted(s@).take(parts@.len() as int) =~= parse_dotted(s@));
    }
    out
}

impl OID {
    #[verifier::type_invariant]
    closed spec fn inv(self) -> bool {
        self.oid_str@ == dotted(self.oid_vec@)
    }

    /// The OID with these arcs, its dotted form rendered from them.
    fn from_arcs(arcs: Vec<u32>) -> (r: OID)
        ensures
            r@ == arcs@,
    {
        let cs = render(arcs.as_slice());
        let s = string_from_chars(cs.as_slice());
        OID { oid_str: s, oid_vec: arcs }
    }

    /// Parses a dotted-decimal string such as `1.3.6.1.2.1.1.3.0`.
    pub fn from_string(input: String) -> (r: OID)
        requires
            is_dotted(input@),
        ensures
            r@ == parse_dotted(input@),
    {
        let cs = chars_of(input.as_str());
        OID::from_arcs(parse_chars(&cs))
    }

    /// The OID with the given arcs.
    pub fn from_vec(input: &Vec<u32>) -> (r: OID)
        ensures
            r@ == input@,
    {
        OID::from_arcs(copy_arcs(input.as_slice()))
    }

    /// Joins dotted fragments with `.` and parses the result.
    pub fn from_parts(input: &[&str]) -> (r: OID)
        requires
            is_dotted(join_dots(str_views(input@))),
        ensures
            r@ == parse_dotted(join_dots(str_views(input@))),
    {
        let cs = join_parts(input);
        OID::from_arcs(parse_chars(&cs))
    }

    /// Joins dotted fragments with `.`, appends `.` and the decimal instance, and parses
    /// the result.
    pub fn from_parts_and_instance(input: &[&str], instance: u32) -> (r: OID)
        requires
            is_dotted(join_dots(str_views(input@)) + seq!['.'] + decimal(instance as nat)),
        ensures
            r@ == parse_dotted(join_dots(str_views(input@)) + seq!['.'] + decimal(instance as nat)),
    {
        let mut cs = join_parts(input);
        cs.push('.');
        push_decimal(&mut cs, instance);
        proof {
            assert(cs@ =~= join_dots(str_views(input@)) + seq!['.'] + decimal(instance as nat));
        }
        OID::from_arcs(parse_chars(&cs))
    }

    /// A name written as the dotted decimal codes of its characters, as the extend
    /// table embeds names in its indices.
    pub fn asciify_part(name: &str) -> (r: String)
        ensures
            r@ == dotted(char_codes(name@)),
    {
        let cs = chars_of(name);
        let mut codes: Vec<u32> = Vec::new();
        let mut i: usize = 0;
        while i < cs.len()
            invariant
                i <= cs.len(),
                cs@ == name@,
                codes@ == char_codes(name@).take(i as int),
            decreases cs.len() - i,
        {
            codes.push(cs[i] as u32);
            i = i + 1;
            proof {
                assert(codes@ =~= char_codes(name@).take(i as int));
            }
        }
        proof {
            assert(char_codes(name@).take(cs@.len() as int) =~= char_codes(name@));
        }
        let out = render(codes.as_slice());
        string_from_chars(out.as_slice())
    }

    /// The arcs.
    pub fn as_vec(&self) -> (r: &Vec<u32>)
        ensures
            r@ == self@,
    {
        &self.oid_vec
    }

    /// The dotted-decimal form.
    pub fn as_string(&self) -> (r: &String)
        ensures
            r@ == dotted(self@),
    {
        proof {
            use_type_invariant(self);
        }
        &self.oid_str
    }

    /// The dotted-decimal form.
    pub fn str(&self) -> (r: &str)
        ensures
            r@ == dotted(self@),
    {
        proof {
            use_type_invariant(self);
        }
        self.oid_str.as_str()
    }

    /// Whether `subtree`'s arcs are a prefix of this OID's arcs (equality included).
    pub fn is_subtree_of(&self, subtree: &OID) -> (r: bool)
        ensures
            r == is_prefix(subtree@, self@),
    {
        is_prefix_of(subtree.oid_vec.as_slice(), self.oid_vec.as_slice())
    }

    /// This OID with `tail` appended.
    pub fn extended(&self, tail: &[u32]) -> (r: OID)
        ensures
            r@ == self@ + tail@,
    {
        let mut arcs = copy_arcs(self.oid_vec.as_slice());
        let mut i: usize = 0;
        while i < tail.len()
            invariant
                i <= tail@.len(),
                arcs@ == self@ + tail@.take(i as int),
            decreases tail.len() - i,
        {
            arcs.push(tail[i]);
            i = i + 1;
            proof {
                assert(arcs@ =~= self@ + tail@.take(i as int));
            }
        }
        proof {
            assert(tail@.take(tail@.len() as int) =~= tail@);
        }
        OID::from_arcs(arcs)
    }

    /// The cell of column `column` and row `index` in a table rooted here.
    pub fn cell(&self, column: u32, index: u32) -> (r: OID)
        ensures
            r@ == self@ + seq![column, index],
    {
        let tail = [column, index];
        let r = self.extended(tail.as_slice());
        proof {
            assert(tail@ =~= seq![column, index]);
        }
        r
    }

    /// A copy of this OID.
    pub fn duplicate(&self) -> (r: OID)
        ensures
            r@ == self@,
    {
        OID::from_vec(&self.oid_vec)
    }
}

/// Whether `p` is an equal or proper prefix of `a`.
pub fn is_prefix_of(p: &[u32], a: &[u32]) -> (r: bool)
    ensures
        r == is_prefix(p@, a@),
{
    if p.len() > a.len() {
        return false;
    }
    let mut i: usize = 0;
    while i < p.len()
        invariant
            i <= p@.len() <= a@.len(),
            a@.take(i as int) == p@.take(i as int),
        decreases p.len() - i,
    {
        if a[i] != p[i] {
            proof {
                assert(a@.take(p@.len() as int)[i as int] != p@[i as int]);
            }
            return false;
        }
        i = i + 1;
        proof {
            assert(a@.take(i as int) =~= p@.take(i as int));
        }
    }
    proof {
        assert(p@.take(p@.len() as int) == p@);
    }
    true
}

/// Characters of the fragments joined with single dots.
fn join_parts(input: &[&str]) -> (r: Vec<char>)
    ensures
        r@ == join_dots(str_views(input@)),
{
    let mut out: Vec<char> = Vec::new();
    let mut i: usize = 0;
    while i < input.len()
        invariant
            i <= input.len(),
            out@ == join_dots(str_views(input@).take(i as int)),
        decreases input.len() - i,
    {
        proof {
            assert(str_views(input@).take(i as int + 1).drop_last() =~= str_views(input@).take(i as int));
        }
        if i > 0 {
            out.push('.');
        }
        let part = chars_of(input[i]);
        let mut j: usize = 0;
        let ghost start = out@;
        while j < part.len()
            invariant
                j <= part.len(),
                out@ == start + part@.take(j as int),
            decreases part.len() - j,
        {
            out.push(part[j]);
            j = j + 1;
            proof {
                assert(out@ =~= start + part@.take(j as int));
            }
        }
        proof {
            assert(part@.take(part@.len() as int) == part@);
        }
        i = i + 1;
        proof {
            assert(out@ =~= join_dots(str_views(input@).take(i as int)));
        }
    }
    proof {
        assert(str_views(input@).take(input@.len() as int) =~= str_views(input@));
    }
    out
}

/// Compares two arc sequences in OID order.
pub fn compare_arcs(a: &[u32], b: &[u32]) -> (r: Ordering)
    ensures
        (r == Ordering::Less) == arcs_lt(a@, b@),
        (r == Ordering::Equal) == (a@ == b@),
        (r == Ordering::Greater) == arcs_lt(b@, a@),
{
    let mut i: usize = 0;
    while i < a.len() && i < b.len()
        invariant
            i <= a.len(),
            i <= b.len(),
            a@.take(i as int) == b@.take(i as int),
            arcs_lt(a@, b@) == lt_from(a@, b@, i as int),
            arcs_lt(b@, a@) == lt_from(b@, a@, i as int),
        decreases a.len() - i,
    {
        if a[i] != b[i] {
            proof {
                assert(a@ != b@ || a@[i as int] == b@[i as int]);
            }
            if a[i] < b[i] {
                return Ordering::Less;
            } else {
                return Ordering::Greater;
            }
        }
        i = i + 1;
        proof {
            assert(a@.take(i as int) =~= b@.take(i as int));
        }
    }
    if a.len() < b.len() {
        proof {
            assert(a@.len() != b@.len());
        }
        Ordering::Less
    } else if b.len() < a.len() {
        proof {
            assert(a@.len() != b@.len());
        }
        Ordering::Greater
    } else {
        proof {
            assert(a@.take(i as int) == a@);
            assert(b@.take(i as int) == b@);
        }
        Ordering::Equal
    }
}

impl PartialEq for OID {
    fn eq(&self, other: &OID) -> (r: bool) {
        let o = compare_arcs(self.oid_vec.as_slice(), other.oid_vec.as_slice());
        match o {
            Ordering::Equal => true,
            _ => false,
        }
    }
}

impl vstd::std_specs::cmp::PartialEqSpecImpl for OID {
    open spec fn obeys_eq_spec() -> bool {
        true
    }

    open spec fn eq_spec(&self, other: &OID) -> bool {
        self@ == other@
    }
}

impl PartialOrd for OID {
    fn partial_cmp(&self, other: &OID) -> (r: Option<Ordering>) {
        Some(compare_arcs(self.oid_vec.as_slice(), other.oid_vec.as_slice()))
    }
}

impl vstd::std_specs::cmp::PartialOrdSpecImpl for OID {
    open spec fn obeys_partial_cmp_spec() -> bool {
        true
    }

    open spec fn partial_cmp_spec(&self, other: &OID) -> Option<Ordering> {
        if arcs_lt(self@, other@) {
            Some(Ordering::Less)
        } else if self@ == other@ {
            Some(Ordering::Equal)
        } else {
            Some(Ordering::Greater)
        }
    }
}

/// No arc sequence is below itself.
pub proof fn lemma_lt_irreflexive(a: Seq<u32>, i: int)
    requires
        0 <= i,
    ensures
        !lt_from(a, a, i),
    decreases a.len() - i,
{
    if i < a.len() {
        lemma_lt_irreflexive(a, i + 1);
    }
}

/// The order is transitive.
pub proof fn lemma_lt_transitive(a: Seq<u32>, b: Seq<u32>, c: Seq<u32>, i: int)
    requires
        0 <= i,
        lt_from(a, b, i),
        lt_from(b, c, i),
    ensures
        lt_from(a, c, i),
    decreases a.len() - i,
{
    if i < a.len() && i < b.len() && i < c.len() && a[i] == b[i] && b[i] == c[i] {
        lemma_lt_transitive(a, b, c, i + 1);
    }
}

/// Two sequences that agree on a prefix compare as their remainders do.
proof fn lemma_lt_total_from(a: Seq<u32>, b: Seq<u32>, i: int)
    requires
        0 <= i <= a.len(),
        i <= b.len(),
        a.take(i) == b.take(i),
    ensures
        a == b || lt_from(a, b, i) || lt_from(b, a, i),
        !(lt_from(a, b, i) && lt_from(b, a, i)),
    decreases a.len() - i,
{
    if i < a.len() && i < b.len() && a[i] == b[i] {
        assert(a.take(i + 1) =~= b.take(i + 1)) by {
            assert(a.take(i + 1) =~= a.take(i).push(a[i]));
            assert(b.take(i + 1) =~= b.take(i).push(b[i]));
        }
        lemma_lt_total_from(a, b, i + 1);
    } else if i == a.len() && i == b.len() {
        assert(a =~= a.take(i));
        assert(b =~= b.take(i));
    }
}

/// Distinct arc sequences are ordered one way or the other, never both.
pub proof fn lemma_lt_total(a: Seq<u32>, b: Seq<u32>)
    ensures
        a == b || arcs_lt(a, b) || arcs_lt(b, a),
        !(arcs_lt(a, b) && arcs_lt(b, a)),
{
    assert(a.take(0) =~= b.take(0));
    lemma_lt_total_from(a, b, 0);
}

proof fn lemma_prefix_from(p: Seq<u32>, a: Seq<u32>, i: int)
    requires
        0 <= i <= p.len(),
        is_prefix(p, a),
    ensures
        !lt_from(a, p, i),
        lt_from(p, a, i) == (p.len() < a.len()),
    decreases p.len() - i,
{
    if i < p.len() {
        assert(a[i] == a.take(p.len() as int)[i]);
        lemma_prefix_from(p, a, i + 1);
    }
}

/// A prefix comes no later than the sequences it begins, and strictly earlier when it
/// is proper.
pub proof fn lemma_prefix_le(p: Seq<u32>, a: Seq<u32>)
    requires
        is_prefix(p, a),
    ensures
        !arcs_lt(a, p),
        arcs_lt(p, a) == (p.len() < a.len()),
        p.len() == a.len() ==> p == a,
{
    lemma_prefix_from(p, a, 0);
    if p.len() == a.len() {
        assert(a.take(a.len() as int) == a);
    }
}

proof fn lemma_lt_from_agrees(a: Seq<u32>, b: Seq<u32>, i: int, j: int)
    requires
        0 <= i <= j,
        j <= a.len(),
        j <= b.len(),
        forall|k: int| i <= k < j ==> a[k] == b[k],
    ensures
        lt_from(a, b, i) == lt_from(a, b, j),
    decreases j - i,
{
    if i < j {
        lemma_lt_from_agrees(a, b, i + 1, j);
    }
}

/// The order of OIDs is the lexicographic order of their arcs, with a proper prefix
/// coming first: `a < b` exactly when, at the first position where they differ, `a`
/// has the smaller arc, or `a` ends there and `b` does not.
pub proof fn lemma_lt_is_lexicographic(a: Seq<u32>, b: Seq<u32>)
    ensures
        arcs_lt(a, b) <==> lex_less(a, b),
{
    if lex_less(a, b) {
        let i = choose|i: int|
            0 <= i <= a.len() && i <= b.len() && #[trigger] a.take(i) == b.take(i) && (
            (i == a.len() && i < b.len()) || (i < a.len() && i < b.len() && a[i] < b[i]));
        assert forall|k: int| 0 <= k < i implies a[k] == b[k] by {
            assert(a[k] == a.take(i)[k]);
            assert(b[k] == b.take(i)[k]);
        }
        lemma_lt_from_agrees(a, b, 0, i);
    }
    if arcs_lt(a, b) {
        assert(a.take(0) =~= b.take(0));
        lemma_lt_witness(a, b, 0);
    }
}

proof fn lemma_lt_witness(a: Seq<u32>, b: Seq<u32>, i: int)
    requires
        0 <= i <= a.len(),
        i <= b.len(),
        a.take(i) == b.take(i),
        lt_from(a, b, i),
    ensures
        lex_less(a, b),
    decreases a.len() - i,
{
    if i < a.len() && i < b.len() && a[i] == b[i] {
        assert(a.take(i + 1) =~= b.take(i + 1)) by {
            assert(a.take(i + 1) =~= a.take(i).push(a[i]));
            assert(b.take(i + 1) =~= b.take(i).push(b[i]));
        }
        lemma_lt_witness(a, b, i + 1);
    } else {
        assert(a.take(i) == b.take(i));
    }
}

/// `<` on OIDs is the lexicographic order of their arcs.
pub proof fn lemma_oid_order(a: &OID, b: &OID)
    ensures
        (a.partial_cmp_spec(b) == Some(Ordering::Less)) <==> lex_less(a@, b@),
        (a.partial_cmp_spec(b) == Some(Ordering::Equal)) <==> a@ == b@,
{
    lemma_lt_is_lexicographic(a@, b@);
    lemma_lt_total(a@, b@);
    if a@ == b@ {
        lemma_lt_irreflexive(a@, 0);
    }
}

} // verus!
