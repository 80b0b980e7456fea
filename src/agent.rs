use vstd::prelude::*;
use crate::ber::{encode_response, pow256, response_message};
use crate::oid::OID;
use crate::store::{walk_spec, Store};

verus! {

/// The time between refreshes of the store, in milliseconds.
pub const REFRESH_INTERVAL_MS: u64 = 15000;

/// What decoding a request datagram gives: its request id and, when the first varbind's
/// name reads, that name's arcs; `None` when the datagram is no SNMPv2c message.
pub uninterp spec fn decoded_request(b: Seq<u8>) -> Option<(i32, Option<Seq<u32>>)>;

pub open spec fn opt_arcs(n: Option<Vec<u32>>) -> Option<Seq<u32>> {
    match n {
        Some(v) => Some(v@),
        None => None,
    }
}

/// The OID a walk starts from: the request's first name, or `1` when there is none.
pub open spec fn start_of(name: Option<Seq<u32>>) -> Seq<u32> {
    match name {
        Some(a) => a,
        None => seq![1u32],
    }
}

/// The value of big-endian bytes.
pub open spec fn be_value(s: Seq<u8>) -> nat
    decreases s.len(),
{
    if s.len() == 0 {
        0
    } else {
        be_value(s.drop_last()) * 256 + s.last() as nat
    }
}

/// The contents of the element whose tag is at `i`, as a range, when its length octets
/// are in short form or in long form of one to four bytes and all of it lies before `end`.
pub open spec fn element(b: Seq<u8>, i: int, end: int) -> Option<(int, int)> {
    if i < 0 || i + 2 > end || end > b.len() {
        None
    } else {
        let l = b[i + 1] as int;
        if l < 128 {
            if i + 2 + l <= end {
                Some((i + 2, i + 2 + l))
            } else {
                None
            }
        } else {
            let k = l - 128;
            if 1 <= k <= 4 && i + 2 + k <= end {
                let n = be_value(b.subrange(i + 2, i + 2 + k)) as int;
                if i + 2 + k + n <= end {
                    Some((i + 2 + k, i + 2 + k + n))
                } else {
                    None
                }
            } else {
                None
            }
        }
    }
}

/// Tags of the types whose contents are read as an integer.
pub open spec fn integer_tag(t: u8) -> bool {
    t == 0x02 || t == 0x41 || t == 0x42 || t == 0x43 || t == 0x46
}

/// `b[i..end]` is a run of well-delimited elements, recursively inside constructed ones,
/// with no empty integer.
pub open spec fn elements_sound(b: Seq<u8>, i: int, end: int) -> bool
    decreases end - i,
{
    if i >= end {
        i == end
    } else {
        match element(b, i, end) {
            None => false,
            Some((cs, ce)) => {
                &&& (b[i] & 0x20 == 0 || elements_sound(b, cs, ce))
                &&& !(integer_tag(b[i]) && cs == ce)
                &&& elements_sound(b, ce, end)
            },
        }
    }
}

/// A datagram that starts with a well-delimited SEQUENCE whose contents are sound.
/// Decoding such a datagram never reads a length beyond its bytes.
pub open spec fn message_sound(b: Seq<u8>) -> bool {
    b.len() >= 2 && b[0] == 0x30 && match element(b, 0, b.len() as int) {
        Some((cs, ce)) => elements_sound(b, cs, ce),
        None => false,
    }
}

fn element_exec(b: &[u8], i: usize, end: usize) -> (r: Option<(usize, usize)>)
    requires
        end <= b@.len(),
    ensures
        match r {
            None => element(b@, i as int, end as int) is None,
            Some((cs, ce)) => element(b@, i as int, end as int) == Some((cs as int, ce as int)),
        },
{
    if i >= end || end - i < 2 {
        return None;
    }
    let l = b[i + 1] as usize;
    if l < 128 {
        if l <= end - (i + 2) {
            Some((i + 2, i + 2 + l))
        } else {
            None
        }
    } else {
        let k = l - 128;
        if k < 1 || k > 4 || k > end - (i + 2) {
            return None;
        }
        let mut n: u64 = 0;
        let mut j: usize = 0;
        while j < k
            invariant
                j <= k <= 4,
                i + 2 + k <= end <= b@.len(),
                n == be_value(b@.subrange(i + 2, i + 2 + j)),
                n < pow256(j as nat),
            decreases k - j,
        {
            proof {
                assert(b@.subrange(i + 2, i + 2 + j + 1).drop_last() =~= b@.subrange(i + 2, i + 2 + j));
                assert(pow256(j as nat + 1) == 256 * pow256(j as nat));
                assert(n * 256 + b@[i + 2 + j] < 256 * pow256(j as nat)) by (nonlinear_arith)
                    requires
                        n < pow256(j as nat),
                        b@[i + 2 + j] < 256,
                ;
                lemma_pow256_small(j as nat + 1);
            }
            n = n * 256 + b[i + 2 + j] as u64;
            j = j + 1;
        }
        let start = i + 2 + k;
        if n <= (end - start) as u64 {
            Some((start, start + n as usize))
        } else {
            None
        }
    }
}

proof fn lemma_pow256_small(k: nat)
    requires
        k <= 5,
    ensures
        pow256(k) <= 0x100_0000_0000,
{
    reveal_with_fuel(pow256, 6);
}

fn elements_ok(b: &[u8], i: usize, end: usize) -> (r: bool)
    requires
        end <= b@.len(),
    ensures
        r == elements_sound(b@, i as int, end as int),
    decreases end - i,
{
    if i >= end {
        return i == end;
    }
    match element_exec(b, i, end) {
        None => false,
        Some((cs, ce)) => {
            let t = b[i];
            if t & 0x20 != 0 && !elements_ok(b, cs, ce) {
                return false;
            }
            if (t == 0x02 || t == 0x41 || t == 0x42 || t == 0x43 || t == 0x46) && cs == ce {
                return false;
            }
            elements_ok(b, ce, end)
        },
    }
}

/// Whether a datagram is sound in the sense of `message_sound`.
pub fn check_message(b: &[u8]) -> (r: bool)
    ensures
        r == message_sound(b@),
{
    if b.len() < 2 || b[0] != 0x30 {
        return false;
    }
    match element_exec(b, 0, b.len()) {
        Some((cs, ce)) => elements_ok(b, cs, ce),
        None => false,
    }
}

/// Relies on `snmp::SnmpPdu::from_bytes` to decode the message, then on the varbind
/// iterator's `next` and `ObjectIdentifier::read_name` to read the first varbind's name.
/// What comes back depends on the bytes alone.
#[verifier::external_body]
fn decode_request(bytes: &[u8]) -> (r: Option<(i32, Option<Vec<u32>>)>)
    requires
        message_sound(bytes@),
    ensures
        match r {
            None => decoded_request(bytes@) is None,
            Some(d) => decoded_request(bytes@) == Some((d.0, opt_arcs(d.1))),
        },
{
    let mut pdu = snmp::SnmpPdu::from_bytes(bytes).ok()?;
    let mut buf: snmp::ObjIdBuf = [0u32; 128];
    let name = match pdu.varbinds.next() {
        Some((oid, _)) => oid.read_name(&mut buf).ok().map(|arcs| arcs.to_vec()),
        None => None,
    };
    Some((pdu.req_id, name))
}

/// The response to a decoded request: a walk of the store from the request's first name
/// (or from `1`), encoded as a GetResponse with the request's id and `community`.
pub fn answer(store: &Store, req_id: i32, name: Option<Vec<u32>>, community: &[u8]) -> (r: Vec<u8>)
    requires
        store.wf(),
    ensures
        r@ == response_message(community@, req_id, walk_spec(store@, start_of(opt_arcs(name)))),
{
    let start = match name {
        Some(arcs) => OID::from_vec(&arcs),
        None => OID::from_vec(&vec![1u32]),
    };
    proof {
        assert(start@ =~= start_of(opt_arcs(name)));
    }
    let vbs = store.walk(&start);
    encode_response(community, req_id, &vbs)
}

/// The datagram to send back for a request datagram; `None` when it is not sound or does
/// not decode, so that it is dropped.
pub fn handle_request(store: &Store, bytes: &[u8], community: &[u8]) -> (r: Option<Vec<u8>>)
    requires
        store.wf(),
    ensures
        r is None <==> (!message_sound(bytes@) || decoded_request(bytes@) is None),
        message_sound(bytes@) ==> match decoded_request(bytes@) {
            None => true,
            Some((id, name)) => match r {
                Some(out) => out@ == response_message(community@, id, walk_spec(store@, start_of(name))),
                None => false,
            },
        },
{
    if !check_message(bytes) {
        return None;
    }
    match decode_request(bytes) {
        None => None,
        Some((req_id, name)) => Some(answer(store, req_id, name, community)),
    }
}

/// Whether the store is due for a refresh: it has never been filled, or the last refresh
/// is more than `REFRESH_INTERVAL_MS` before `now` (both in milliseconds of one clock).
pub fn needs_refresh(last_refresh: Option<u64>, now: u64) -> (r: bool)
    ensures
        r == match last_refresh {
            None => true,
            Some(t) => now > t + REFRESH_INTERVAL_MS,
        },
{
    match last_refresh {
        None => true,
        Some(t) => now > t && now - t > REFRESH_INTERVAL_MS,
    }
}

} // verus!
