use vstd::prelude::*;
use vstd::utf8::encode_utf8;
use crate::store::pair_views;
use crate::value::{is_wire_of, Value, ValueView, WireValue};

verus! {

pub const TAG_BOOLEAN: u8 = 0x01;
pub const TAG_INTEGER: u8 = 0x02;
pub const TAG_OCTET_STRING: u8 = 0x04;
pub const TAG_NULL: u8 = 0x05;
pub const TAG_OBJECT_IDENTIFIER: u8 = 0x06;
pub const TAG_SEQUENCE: u8 = 0x30;
pub const TAG_IP_ADDRESS: u8 = 0x40;
pub const TAG_COUNTER32: u8 = 0x41;
pub const TAG_UNSIGNED32: u8 = 0x42;
pub const TAG_TIMETICKS: u8 = 0x43;
pub const TAG_COUNTER64: u8 = 0x46;
pub const TAG_END_OF_MIB_VIEW: u8 = 0x82;
pub const TAG_GET_RESPONSE: u8 = 0xa2;

/// The SNMP version field of a v2c message.
pub const VERSION_2C: i64 = 1;

/// The last `k` bytes of `n`, most significant first.
pub open spec fn be_bytes(n: nat, k: nat) -> Seq<u8>
    decreases k,
{
    if k == 0 {
        Seq::<u8>::empty()
    } else {
        be_bytes(n / 256, (k - 1) as nat).push((n % 256) as u8)
    }
}

/// The number of bytes that `n` takes, at least one.
pub open spec fn byte_count(n: nat) -> nat
    decreases n,
{
    if n < 256 {
        1
    } else {
        1 + byte_count(n / 256)
    }
}

pub open spec fn pow256(k: nat) -> nat
    decreases k,
{
    if k == 0 {
        1
    } else {
        256 * pow256((k - 1) as nat)
    }
}

/// Leading bytes that do not change a two's complement value dropped.
pub open spec fn strip_redundant(b: Seq<u8>) -> Seq<u8>
    decreases b.len(),
{
    if b.len() >= 2 && ((b[0] == 0 && b[1] < 128) || (b[0] == 255 && b[1] >= 128)) {
        strip_redundant(b.drop_first())
    } else {
        b
    }
}

/// The 64-bit two's complement pattern of `v`.
pub open spec fn twos64(v: int) -> nat {
    if v >= 0 {
        v as nat
    } else {
        (v + 0x1_0000_0000_0000_0000) as nat
    }
}

/// The contents of an INTEGER: the shortest two's complement form.
pub open spec fn int_content(v: i64) -> Seq<u8> {
    strip_redundant(be_bytes(twos64(v as int), 8))
}

/// The contents of an unsigned application type: the shortest two's complement form of
/// a non-negative number.
pub open spec fn uint_content(u: u64) -> Seq<u8> {
    strip_redundant(seq![0u8] + be_bytes(u as nat, 8))
}

/// Definite length octets: short form below 128, long form above.
pub open spec fn length_octets(n: nat) -> Seq<u8> {
    if n < 128 {
        seq![n as u8]
    } else {
        seq![(128 + byte_count(n)) as u8] + be_bytes(n, byte_count(n))
    }
}

/// Tag, length and contents.
pub open spec fn tlv(tag: u8, content: Seq<u8>) -> Seq<u8> {
    seq![tag] + length_octets(content.len()) + content
}

/// Base-128 digits of `n`, each with the continuation bit set.
pub open spec fn base128_more(n: nat) -> Seq<u8>
    decreases n,
{
    if n < 128 {
        seq![(n + 128) as u8]
    } else {
        base128_more(n / 128).push(((n % 128) + 128) as u8)
    }
}

/// A sub-identifier: base-128 digits, the continuation bit set on all but the last.
pub open spec fn base128(n: nat) -> Seq<u8> {
    if n < 128 {
        seq![n as u8]
    } else {
        base128_more(n / 128).push((n % 128) as u8)
    }
}

pub open spec fn subids(arcs: Seq<u32>) -> Seq<u8>
    decreases arcs.len(),
{
    if arcs.len() == 0 {
        Seq::<u8>::empty()
    } else {
        subids(arcs.drop_last()) + base128(arcs.last() as nat)
    }
}

/// The contents of an OBJECT IDENTIFIER: the first two arcs folded into one
/// sub-identifier, then one per arc.
pub open spec fn oid_content(arcs: Seq<u32>) -> Seq<u8> {
    if arcs.len() == 0 {
        Seq::<u8>::empty()
    } else if arcs.len() == 1 {
        base128(40 * arcs[0] as nat)
    } else {
        base128(40 * arcs[0] as nat + arcs[1] as nat) + subids(arcs.skip(2))
    }
}

/// The encoding of a value under its SNMP wire type.
pub open spec fn value_tlv(v: ValueView) -> Seq<u8> {
    match v {
        ValueView::Boolean(b) => tlv(TAG_BOOLEAN, seq![if b { 1u8 } else { 0u8 }]),
        ValueView::Null => tlv(TAG_NULL, Seq::<u8>::empty()),
        ValueView::Integer(i) => tlv(TAG_INTEGER, int_content(i)),
        ValueView::OctetString(s) => tlv(TAG_OCTET_STRING, encode_utf8(s)),
        ValueView::IpAddress(a) => tlv(TAG_IP_ADDRESS, a@),
        ValueView::Counter32(n) => tlv(TAG_COUNTER32, uint_content(n as u64)),
        ValueView::Unsigned32(n) => tlv(TAG_UNSIGNED32, uint_content(n as u64)),
        ValueView::Timeticks(n) => tlv(TAG_TIMETICKS, uint_content(n as u64)),
        ValueView::Counter64(n) => tlv(TAG_COUNTER64, uint_content(n)),
        ValueView::EndOfMibView => tlv(TAG_END_OF_MIB_VIEW, Seq::<u8>::empty()),
    }
}

/// The varbinds, each a SEQUENCE of name and value, one after another.
pub open spec fn varbind_list(vbs: Seq<(Seq<u32>, ValueView)>) -> Seq<u8>
    decreases vbs.len(),
{
    if vbs.len() == 0 {
        Seq::<u8>::empty()
    } else {
        varbind_list(vbs.drop_last()) + tlv(
            TAG_SEQUENCE,
            tlv(TAG_OBJECT_IDENTIFIER, oid_content(vbs.last().0)) + value_tlv(vbs.last().1),
        )
    }
}

/// An SNMPv2c GetResponse message with no error.
pub open spec fn response_message(community: Seq<u8>, req_id: i32, vbs: Seq<(Seq<u32>, ValueView)>) -> Seq<u8> {
    tlv(
        TAG_SEQUENCE,
        tlv(TAG_INTEGER, int_content(VERSION_2C)) + tlv(TAG_OCTET_STRING, community) + tlv(
            TAG_GET_RESPONSE,
            tlv(TAG_INTEGER, int_content(req_id as i64)) + tlv(TAG_INTEGER, int_content(0))
                + tlv(TAG_INTEGER, int_content(0)) + tlv(TAG_SEQUENCE, varbind_list(vbs)),
        ),
    )
}

fn push_be(out: &mut Vec<u8>, n: u64, k: usize)
    ensures
        final(out)@ == old(out)@ + be_bytes(n as nat, k as nat),
    decreases k,
{
    if k > 0 {
        push_be(out, n / 256, k - 1);
        out.push((n % 256) as u8);
        proof {
            assert(final(out)@ =~= old(out)@ + be_bytes(n as nat, k as nat));
        }
    } else {
        proof {
            assert(final(out)@ =~= old(out)@ + be_bytes(n as nat, k as nat));
        }
    }
}

proof fn lemma_byte_count_bound(n: nat, k: nat)
    requires
        k >= 1,
        n < pow256(k),
    ensures
        byte_count(n) <= k,
    decreases k,
{
    if n >= 256 {
        if k == 1 {
            assert(pow256(1) == 256) by {
                reveal_with_fuel(pow256, 2);
            }
        } else {
            let p = pow256((k - 1) as nat);
            assert(n / 256 < p) by (nonlinear_arith)
                requires
                    n < 256 * p,
            ;
            lemma_byte_count_bound(n / 256, (k - 1) as nat);
        }
    }
}

fn count_bytes(n: u64) -> (r: usize)
    ensures
        r == byte_count(n as nat),
        r <= 8,
    decreases n,
{
    proof {
        assert(pow256(8) == 0x1_0000_0000_0000_0000) by {
            reveal_with_fuel(pow256, 9);
        }
        lemma_byte_count_bound(n as nat, 8);
    }
    if n < 256 {
        1
    } else {
        1 + count_bytes(n / 256)
    }
}

fn push_length(out: &mut Vec<u8>, n: usize)
    ensures
        final(out)@ == old(out)@ + length_octets(n as nat),
{
    if n < 128 {
        out.push(n as u8);
        proof {
            assert(final(out)@ =~= old(out)@ + length_octets(n as nat));
        }
    } else {
        let k = count_bytes(n as u64);
        out.push((128 + k) as u8);
        push_be(out, n as u64, k);
        proof {
            assert(final(out)@ =~= old(out)@ + length_octets(n as nat));
        }
    }
}

fn append_bytes(out: &mut Vec<u8>, b: &[u8])
    ensures
        final(out)@ == old(out)@ + b@,
{
    let mut i: usize = 0;
    while i < b.len()
        invariant
            i <= b@.len(),
            out@ == old(out)@ + b@.take(i as int),
        decreases b.len() - i,
    {
        out.push(b[i]);
        i = i + 1;
        proof {
            assert(out@ =~= old(out)@ + b@.take(i as int));
        }
    }
    proof {
        assert(b@.take(b@.len() as int) =~= b@);
    }
}

/// Tag, length and contents.
pub fn encode_tlv(tag: u8, content: &[u8]) -> (r: Vec<u8>)
    ensures
        r@ == tlv(tag, content@),
{
    let mut out: Vec<u8> = Vec::new();
    out.push(tag);
    push_length(&mut out, content.len());
    append_bytes(&mut out, content);
    proof {
        assert(out@ =~= tlv(tag, content@));
    }
    out
}

fn strip_leading(b: &Vec<u8>) -> (r: Vec<u8>)
    ensures
        r@ == strip_redundant(b@),
{
    let mut i: usize = 0;
    proof {
        assert(b@.skip(0) =~= b@);
    }
    while i < b.len() && i + 1 < b.len() && ((b[i] == 0 && b[i + 1] < 128) || (b[i] == 255 && b[i + 1] >= 128))
        invariant
            i <= b@.len(),
            strip_redundant(b@) == strip_redundant(b@.skip(i as int)),
        decreases b.len() - i,
    {
        proof {
            assert(b@.skip(i as int).drop_first() =~= b@.skip(i as int + 1));
        }
        i = i + 1;
    }
    let mut out: Vec<u8> = Vec::new();
    let mut j: usize = i;
    while j < b.len()
        invariant
            i <= j <= b@.len(),
            out@ == b@.subrange(i as int, j as int),
        decreases b.len() - j,
    {
        out.push(b[j]);
        j = j + 1;
        proof {
            assert(out@ =~= b@.subrange(i as int, j as int));
        }
    }
    proof {
        assert(out@ =~= b@.skip(i as int));
    }
    out
}

/// The contents of an INTEGER.
pub fn int_bytes(v: i64) -> (r: Vec<u8>)
    ensures
        r@ == int_content(v),
{
    let u: u64 = if v >= 0 {
        v as u64
    } else {
        u64::MAX - ((-(v + 1)) as u64)
    };
    let mut b: Vec<u8> = Vec::new();
    push_be(&mut b, u, 8);
    proof {
        assert(b@ =~= be_bytes(twos64(v as int), 8));
    }
    strip_leading(&b)
}

/// The contents of an unsigned application type.
pub fn uint_bytes(u: u64) -> (r: Vec<u8>)
    ensures
        r@ == uint_content(u),
{
    let mut b: Vec<u8> = Vec::new();
    b.push(0u8);
    push_be(&mut b, u, 8);
    proof {
        assert(b@ =~= seq![0u8] + be_bytes(u as nat, 8));
    }
    strip_leading(&b)
}

fn push_base128_more(out: &mut Vec<u8>, n: u64)
    ensures
        final(out)@ == old(out)@ + base128_more(n as nat),
    decreases n,
{
    if n < 128 {
        out.push((n + 128) as u8);
    } else {
        push_base128_more(out, n / 128);
        out.push(((n % 128) + 128) as u8);
    }
    proof {
        assert(final(out)@ =~= old(out)@ + base128_more(n as nat));
    }
}

fn push_base128(out: &mut Vec<u8>, n: u64)
    ensures
        final(out)@ == old(out)@ + base128(n as nat),
{
    if n < 128 {
        out.push(n as u8);
    } else {
        push_base128_more(out, n / 128);
        out.push((n % 128) as u8);
    }
    proof {
        assert(final(out)@ =~= old(out)@ + base128(n as nat));
    }
}

/// The contents of an OBJECT IDENTIFIER.
pub fn oid_bytes(arcs: &[u32]) -> (r: Vec<u8>)
    ensures
        r@ == oid_content(arcs@),
{
    let mut out: Vec<u8> = Vec::new();
    if arcs.len() == 0 {
        proof {
            assert(out@ =~= oid_content(arcs@));
        }
        return out;
    }
    if arcs.len() == 1 {
        push_base128(&mut out, 40 * (arcs[0] as u64));
        proof {
            assert(out@ =~= oid_content(arcs@));
        }
        return out;
    }
    push_base128(&mut out, 40 * (arcs[0] as u64) + arcs[1] as u64);
    let ghost head = out@;
    let ghost tail = arcs@.skip(2);
    let mut i: usize = 2;
    while i < arcs.len()
        invariant
            2 <= i <= arcs@.len(),
            tail == arcs@.skip(2),
            out@ == head + subids(tail.take(i - 2)),
        decreases arcs.len() - i,
    {
        push_base128(&mut out, arcs[i] as u64);
        i = i + 1;
        proof {
            assert(tail.take(i - 2).drop_last() =~= tail.take(i - 3));
            assert(tail.take(i - 2).last() == arcs@[i - 1]);
            assert(out@ =~= head + subids(tail.take(i - 2)));
        }
    }
    proof {
        assert(tail.take(i - 2) =~= tail);
    }
    out
}

/// The encoding of a value under its wire type.
pub fn encode_value(v: &Value) -> (r: Vec<u8>)
    ensures
        r@ == value_tlv(v@),
{
    let w = v.as_snmp_value();
    match w {
        WireValue::Boolean(b) => {
            let c: Vec<u8> = if b { vec![1u8] } else { vec![0u8] };
            proof {
                assert(c@ =~= seq![if b { 1u8 } else { 0u8 }]);
            }
            encode_tlv(TAG_BOOLEAN, c.as_slice())
        },
        WireValue::Null => {
            let c: Vec<u8> = Vec::new();
            proof {
                assert(c@ =~= Seq::<u8>::empty());
            }
            encode_tlv(TAG_NULL, c.as_slice())
        },
        WireValue::Integer(i) => encode_tlv(TAG_INTEGER, int_bytes(i).as_slice()),
        WireValue::OctetString(bytes) => encode_tlv(TAG_OCTET_STRING, bytes.as_slice()),
        WireValue::IpAddress(a) => encode_tlv(TAG_IP_ADDRESS, a.as_slice()),
        WireValue::Counter32(n) => encode_tlv(TAG_COUNTER32, uint_bytes(n as u64).as_slice()),
        WireValue::Unsigned32(n) => encode_tlv(TAG_UNSIGNED32, uint_bytes(n as u64).as_slice()),
        WireValue::Timeticks(n) => encode_tlv(TAG_TIMETICKS, uint_bytes(n as u64).as_slice()),
        WireValue::Counter64(n) => encode_tlv(TAG_COUNTER64, uint_bytes(n).as_slice()),
        WireValue::EndOfMibView => {
            let c: Vec<u8> = Vec::new();
            proof {
                assert(c@ =~= Seq::<u8>::empty());
            }
            encode_tlv(TAG_END_OF_MIB_VIEW, c.as_slice())
        },
    }
}

/// Encodes a GetResponse that carries `vbs`, echoing the request id and community.
pub fn encode_response(community: &[u8], req_id: i32, vbs: &Vec<(Vec<u32>, Value)>) -> (r: Vec<u8>)
    ensures
        r@ == response_message(community@, req_id, pair_views(vbs@)),
{
    let mut list: Vec<u8> = Vec::new();
    let mut i: usize = 0;
    while i < vbs.len()
        invariant
            i <= vbs@.len(),
            list@ == varbind_list(pair_views(vbs@).take(i as int)),
        decreases vbs.len() - i,
    {
        let mut inner = encode_tlv(TAG_OBJECT_IDENTIFIER, oid_bytes(vbs[i].0.as_slice()).as_slice());
        let value = encode_value(&vbs[i].1);
        append_bytes(&mut inner, value.as_slice());
        let one = encode_tlv(TAG_SEQUENCE, inner.as_slice());
        append_bytes(&mut list, one.as_slice());
        i = i + 1;
        proof {
            let t = pair_views(vbs@).take(i as int);
            assert(t.drop_last() =~= pair_views(vbs@).take(i as int - 1));
            assert(t.last() == (vbs@[i - 1].0@, vbs@[i - 1].1@));
        }
    }
    proof {
        assert(pair_views(vbs@).take(vbs@.len() as int) =~= pair_views(vbs@));
    }
    let mut pdu = encode_tlv(TAG_INTEGER, int_bytes(req_id as i64).as_slice());
    let zero = encode_tlv(TAG_INTEGER, int_bytes(0).as_slice());
    append_bytes(&mut pdu, zero.as_slice());
    append_bytes(&mut pdu, zero.as_slice());
    let seq = encode_tlv(TAG_SEQUENCE, list.as_slice());
    append_bytes(&mut pdu, seq.as_slice());
    let mut msg = encode_tlv(TAG_INTEGER, int_bytes(VERSION_2C).as_slice());
    let comm = encode_tlv(TAG_OCTET_STRING, community);
    append_bytes(&mut msg, comm.as_slice());
    let body = encode_tlv(TAG_GET_RESPONSE, pdu.as_slice());
    append_bytes(&mut msg, body.as_slice());
    encode_tlv(TAG_SEQUENCE, msg.as_slice())
}

} // verus!
