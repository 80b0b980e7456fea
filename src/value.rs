use vstd::prelude::*;
use vstd::string::StrSliceExecFns;
use vstd::utf8::encode_utf8;
use crate::text::{
    chars_of, digits_value, is_u32_number, lines_of, parse_u32, pieces, split_lines, split_on,
    string_from_chars, trim, trim_end, trim_start,
};

verus! {

/// A typed SNMP scalar as the value store holds it.
#[derive(Debug, Clone, PartialEq)]
pub enum Value {
    Boolean(bool),
    Null,
    Integer(i64),
    OctetString(String),
    IpAddress([u8; 4]),
    Counter32(u32),
    Unsigned32(u32),
    Timeticks(u32),
    Counter64(u64),
    EndOfMibView,
}

/// What a value denotes: its type and payload, text as its characters.
pub enum ValueView {
    Boolean(bool),
    Null,
    Integer(i64),
    OctetString(Seq<char>),
    IpAddress([u8; 4]),
    Counter32(u32),
    Unsigned32(u32),
    Timeticks(u32),
    Counter64(u64),
    EndOfMibView,
}

impl View for Value {
    type V = ValueView;

    open spec fn view(&self) -> ValueView {
        match *self {
            Value::Boolean(b) => ValueView::Boolean(b),
            Value::Null => ValueView::Null,
            Value::Integer(i) => ValueView::Integer(i),
            Value::OctetString(s) => ValueView::OctetString(s@),
            Value::IpAddress(a) => ValueView::IpAddress(a),
            Value::Counter32(n) => ValueView::Counter32(n),
            Value::Unsigned32(n) => ValueView::Unsigned32(n),
            Value::Timeticks(n) => ValueView::Timeticks(n),
            Value::Counter64(n) => ValueView::Counter64(n),
            Value::EndOfMibView => ValueView::EndOfMibView,
        }
    }
}

/// A value in the form it takes on the wire.
#[derive(Debug, Clone, PartialEq)]
pub enum WireValue {
    Boolean(bool),
    Null,
    Integer(i64),
    OctetString(Vec<u8>),
    IpAddress([u8; 4]),
    Counter32(u32),
    Unsigned32(u32),
    Timeticks(u32),
    Counter64(u64),
    EndOfMibView,
}

/// `w` is the wire form of `v`: the same type tag and payload, text as its UTF-8 bytes.
pub open spec fn is_wire_of(v: ValueView, w: WireValue) -> bool {
    match v {
        ValueView::Boolean(b) => w == WireValue::Boolean(b),
        ValueView::Null => w == WireValue::Null,
        ValueView::Integer(i) => w == WireValue::Integer(i),
        ValueView::OctetString(s) => match w {
            WireValue::OctetString(bytes) => bytes@ == encode_utf8(s),
            _ => false,
        },
        ValueView::IpAddress(a) => w == WireValue::IpAddress(a),
        ValueView::Counter32(n) => w == WireValue::Counter32(n),
        ValueView::Unsigned32(n) => w == WireValue::Unsigned32(n),
        ValueView::Timeticks(n) => w == WireValue::Timeticks(n),
        ValueView::Counter64(n) => w == WireValue::Counter64(n),
        ValueView::EndOfMibView => w == WireValue::EndOfMibView,
    }
}

impl Value {
    /// The wire form of this value.
    pub fn as_snmp_value(&self) -> (r: WireValue)
        ensures
            is_wire_of(self@, r),
    {
        match self {
            Value::Boolean(b) => WireValue::Boolean(*b),
            Value::Null => WireValue::Null,
            Value::Integer(i) => WireValue::Integer(*i),
            Value::OctetString(s) => WireValue::OctetString(s.as_str().as_bytes_vec()),
            Value::IpAddress(a) => WireValue::IpAddress(*a),
            Value::Counter32(n) => WireValue::Counter32(*n),
            Value::Unsigned32(n) => WireValue::Unsigned32(*n),
            Value::Timeticks(n) => WireValue::Timeticks(*n),
            Value::Counter64(n) => WireValue::Counter64(*n),
            Value::EndOfMibView => WireValue::EndOfMibView,
        }
    }

    /// A copy of this value.
    pub fn duplicate(&self) -> (r: Value)
        ensures
            r@ == self@,
    {
        match self {
            Value::Boolean(b) => Value::Boolean(*b),
            Value::Null => Value::Null,
            Value::Integer(i) => Value::Integer(*i),
            Value::OctetString(s) => Value::OctetString(s.clone()),
            Value::IpAddress(a) => Value::IpAddress(*a),
            Value::Counter32(n) => Value::Counter32(*n),
            Value::Unsigned32(n) => Value::Unsigned32(*n),
            Value::Timeticks(n) => Value::Timeticks(*n),
            Value::Counter64(n) => Value::Counter64(*n),
            Value::EndOfMibView => Value::EndOfMibView,
        }
    }
}

/// The first line of a text without surrounding white space; `None` for a text with no
/// line.
pub open spec fn first_line(s: Seq<char>) -> Option<Seq<char>> {
    if lines_of(s).len() == 0 {
        None
    } else {
        Some(trim_end(trim_start(lines_of(s)[0])))
    }
}

/// The number before the first `.` of a text's first line (as it stands, untrimmed), when
/// it is one of 32 bits.
pub open spec fn leading_u32(s: Seq<char>) -> Option<u32> {
    if lines_of(s).len() == 0 {
        None
    } else {
        let head = pieces(lines_of(s)[0], '.')[0];
        if is_u32_number(head) {
            Some(digits_value(head) as u32)
        } else {
            None
        }
    }
}

fn first_line_chars(contents: &str) -> (r: Option<Vec<char>>)
    ensures
        match r {
            None => first_line(contents@) is None,
            Some(l) => first_line(contents@) == Some(l@),
        },
{
    let cs = chars_of(contents);
    let lines = split_lines(&cs);
    if lines.len() == 0 {
        None
    } else {
        proof {
            assert(lines@[0]@ == lines_of(contents@)[0]);
        }
        Some(trim(lines[0].as_slice()))
    }
}

/// The first line of a file's contents, without surrounding white space.
pub fn str_from_file(contents: &str) -> (r: Option<String>)
    ensures
        match r {
            None => first_line(contents@) is None,
            Some(l) => first_line(contents@) == Some(l@),
        },
{
    match first_line_chars(contents) {
        None => None,
        Some(l) => Some(string_from_chars(l.as_slice())),
    }
}

/// The number that a file's first line starts with, up to a `.` (as `/proc/uptime`
/// writes seconds and hundredths).
pub fn u32_from_file(contents: &str) -> (r: Option<u32>)
    ensures
        r == leading_u32(contents@),
{
    let cs = chars_of(contents);
    let lines = split_lines(&cs);
    if lines.len() == 0 {
        None
    } else {
        let l = &lines[0];
        proof {
            assert(lines@[0]@ == lines_of(contents@)[0]);
        }
        let parts = split_on(l, '.');
        proof {
            crate::text::lemma_pieces_nonempty(l@, '.');
            assert(parts@[0]@ == pieces(l@, '.')[0]);
        }
        parse_u32(parts[0].as_slice())
    }
}

} // verus!
