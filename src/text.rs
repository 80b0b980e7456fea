use vstd::prelude::*;

verus! {

/// The character for a decimal digit `d` (`d < 10`).
pub open spec fn digit_char(d: nat) -> char {
    ((d + 48) as u32) as char
}

pub open spec fn is_digit(c: char) -> bool {
    '0' <= c && c <= '9'
}

/// The numeric value of a decimal digit character.
pub open spec fn digit_value(c: char) -> nat {
    ((c as u32) - 48) as nat
}

/// The shortest decimal representation of `n`.
pub open spec fn decimal(n: nat) -> Seq<char>
    decreases n,
{
    if n < 10 {
        seq![digit_char(n)]
    } else {
        decimal(n / 10).push(digit_char(n % 10))
    }
}

/// `s` is a non-empty string of decimal digits.
pub open spec fn all_digits(s: Seq<char>) -> bool {
    s.len() > 0 && forall|i: int| 0 <= i < s.len() ==> is_digit(#[trigger] s[i])
}

/// The value of a string of decimal digits, read most significant first.
pub open spec fn digits_value(s: Seq<char>) -> nat
    decreases s.len(),
{
    if s.len() == 0 {
        0
    } else {
        digits_value(s.drop_last()) * 10 + digit_value(s.last())
    }
}

/// `s` is a decimal number that fits in 32 bits.
pub open spec fn is_u32_number(s: Seq<char>) -> bool {
    all_digits(s) && digits_value(s) <= u32::MAX
}

/// `s` is a decimal number that fits in 64 bits.
pub open spec fn is_u64_number(s: Seq<char>) -> bool {
    all_digits(s) && digits_value(s) <= u64::MAX
}

/// A character of Unicode's White_Space property (what `char::is_whitespace` accepts).
pub open spec fn is_space(c: char) -> bool {
    let u = c as u32;
    (0x09 <= u && u <= 0x0d) || u == 0x20 || u == 0x85 || u == 0xa0 || u == 0x1680 || (0x2000
        <= u && u <= 0x200a) || u == 0x2028 || u == 0x2029 || u == 0x202f || u == 0x205f || u
        == 0x3000
}

/// The lines of a text: pieces between line feeds, each without a final carriage
/// return, and no empty last piece after a final line feed.
pub open spec fn lines_of(s: Seq<char>) -> Seq<Seq<char>> {
    let p = pieces(s, '\n');
    let q = if p.last().len() == 0 {
        p.drop_last()
    } else {
        p
    };
    q.map_values(|l: Seq<char>| strip_cr(l))
}

pub open spec fn strip_cr(l: Seq<char>) -> Seq<char> {
    if l.len() > 0 && l.last() == '\r' {
        l.drop_last()
    } else {
        l
    }
}

/// `s` without leading white space.
pub open spec fn trim_start(s: Seq<char>) -> Seq<char>
    decreases s.len(),
{
    if s.len() > 0 && is_space(s[0]) {
        trim_start(s.drop_first())
    } else {
        s
    }
}

/// `s` without trailing white space.
pub open spec fn trim_end(s: Seq<char>) -> Seq<char>
    decreases s.len(),
{
    if s.len() > 0 && is_space(s.last()) {
        trim_end(s.drop_last())
    } else {
        s
    }
}

/// The maximal runs of non-space characters of `s`, in order.
pub open spec fn words(s: Seq<char>) -> Seq<Seq<char>>
    decreases s.len(),
{
    if s.len() == 0 {
        Seq::<Seq<char>>::empty()
    } else {
        let w = words(s.drop_last());
        let c = s.last();
        if is_space(c) {
            w
        } else if s.len() >= 2 && !is_space(s[s.len() - 2]) {
            w.update(w.len() - 1, w.last().push(c))
        } else {
            w.push(seq![c])
        }
    }
}

/// The pieces of `s` between occurrences of `sep`; there is always at least one.
pub open spec fn pieces(s: Seq<char>, sep: char) -> Seq<Seq<char>>
    decreases s.len(),
{
    if s.len() == 0 {
        seq![Seq::<char>::empty()]
    } else {
        let p = pieces(s.drop_last(), sep);
        if s.last() == sep {
            p.push(Seq::<char>::empty())
        } else {
            p.update(p.len() - 1, p.last().push(s.last()))
        }
    }
}

/// The views of a sequence of character vectors.
pub open spec fn views(v: Seq<Vec<char>>) -> Seq<Seq<char>> {
    v.map_values(|x: Vec<char>| x@)
}

/// Relies on `str::chars`, collected into a `Vec`: the characters of the string in order.
#[verifier::external_body]
pub(crate) fn chars_of(s: &str) -> (r: Vec<char>)
    ensures
        r@ == s@,
{
    s.chars().collect()
}

/// Relies on `String`'s `FromIterator<char>`: a string of exactly these characters.
#[verifier::external_body]
pub(crate) fn string_from_chars(cs: &[char]) -> (r: String)
    ensures
        r@ == cs@,
{
    cs.iter().collect()
}

pub proof fn lemma_pieces_nonempty(s: Seq<char>, sep: char)
    ensures
        pieces(s, sep).len() >= 1,
    decreases s.len(),
{
    if s.len() > 0 {
        lemma_pieces_nonempty(s.drop_last(), sep);
    }
}

/// Splits `s` at every `sep`.
pub fn split_on(s: &Vec<char>, sep: char) -> (r: Vec<Vec<char>>)
    ensures
        views(r@) == pieces(s@, sep),
{
    let mut out: Vec<Vec<char>> = Vec::new();
    let mut cur: Vec<char> = Vec::new();
    let mut i: usize = 0;
    while i < s.len()
        invariant
            i <= s.len(),
            views(out@).push(cur@) == pieces(s@.take(i as int), sep),
        decreases s.len() - i,
    {
        let c = s[i];
        proof {
            assert(s@.take(i as int + 1).drop_last() == s@.take(i as int));
            lemma_pieces_nonempty(s@.take(i as int), sep);
        }
        let ghost before = views(out@);
        if c == sep {
            let done = cur;
            out.push(done);
            cur = Vec::new();
            proof {
                assert(views(out@) =~= before.push(done@));
            }
        } else {
            cur.push(c);
        }
        i = i + 1;
        proof {
            assert(views(out@).push(cur@) =~= pieces(s@.take(i as int), sep));
        }
    }
    proof {
        assert(s@.take(s@.len() as int) == s@);
    }
    out.push(cur);
    proof {
        assert(views(out@) =~= pieces(s@, sep));
    }
    out
}

/// Appends the decimal representation of `n`.
pub fn push_decimal(out: &mut Vec<char>, n: u32)
    ensures
        final(out)@ == old(out)@ + decimal(n as nat),
    decreases n,
{
    if n >= 10 {
        push_decimal(out, n / 10);
    }
    let d: u8 = (n % 10) as u8;
    let c = (d + 48u8) as char;
    out.push(c);
    proof {
        assert(c == digit_char((n % 10) as nat));
        assert(final(out)@ =~= old(out)@ + decimal(n as nat));
    }
}

pub proof fn lemma_digits_value_monotone(s: Seq<char>, j: int, k: int)
    requires
        forall|i: int| 0 <= i < s.len() ==> is_digit(#[trigger] s[i]),
        0 <= j <= k <= s.len(),
    ensures
        digits_value(s.take(j)) <= digits_value(s.take(k)),
    decreases k - j,
{
    if j < k {
        lemma_digits_value_monotone(s, j, k - 1);
        assert(s.take(k).drop_last() == s.take(k - 1));
    }
}

/// Reads a decimal number of 32 bits: `None` unless `s` is a non-empty run of digits whose
/// value fits.
pub fn parse_u32(s: &[char]) -> (r: Option<u32>)
    ensures
        r == (if is_u32_number(s@) {
            Some(digits_value(s@) as u32)
        } else {
            None::<u32>
        }),
{
    match parse_u64(s) {
        Some(n) => {
            if n <= u32::MAX as u64 {
                Some(n as u32)
            } else {
                None
            }
        },
        None => None,
    }
}

/// Reads a decimal number of 64 bits: `None` unless `s` is a non-empty run of digits whose
/// value fits.
pub fn parse_u64(s: &[char]) -> (r: Option<u64>)
    ensures
        r == (if is_u64_number(s@) {
            Some(digits_value(s@) as u64)
        } else {
            None::<u64>
        }),
{
    if s.len() == 0 {
        return None;
    }
    let mut acc: u64 = 0;
    let mut i: usize = 0;
    while i < s.len()
        invariant
            i <= s.len(),
            s@.len() > 0,
            forall|k: int| 0 <= k < i ==> is_digit(#[trigger] s@[k]),
            acc == digits_value(s@.take(i as int)),
        decreases s.len() - i,
    {
        let c = s[i];
        if !('0' <= c && c <= '9') {
            return None;
        }
        let d: u64 = ((c as u32) - 48) as u64;
        proof {
            assert(s@.take(i as int + 1).drop_last() == s@.take(i as int));
            assert(digits_value(s@.take(i as int + 1)) == acc * 10 + d);
        }
        if acc > (u64::MAX - d) / 10 {
            proof {
                assert(acc * 10 + d > u64::MAX) by (nonlinear_arith)
                    requires
                        acc > (u64::MAX - d) / 10,
                        d <= 9,
                ;
                if is_u64_number(s@) {
                    lemma_digits_value_monotone(s@, i as int + 1, s@.len() as int);
                    assert(s@.take(s@.len() as int) == s@);
                }
            }
            return None;
        }
        acc = acc * 10 + d;
        i = i + 1;
    }
    proof {
        assert(s@.take(s@.len() as int) == s@);
    }
    Some(acc)
}

pub fn is_space_char(c: char) -> (r: bool)
    ensures
        r == is_space(c),
{
    let u = c as u32;
    (0x09 <= u && u <= 0x0d) || u == 0x20 || u == 0x85 || u == 0xa0 || u == 0x1680 || (0x2000
        <= u && u <= 0x200a) || u == 0x2028 || u == 0x2029 || u == 0x202f || u == 0x205f || u
        == 0x3000
}

/// Copies `s[from..to]`.
pub fn copy_range(s: &[char], from: usize, to: usize) -> (r: Vec<char>)
    requires
        from <= to <= s@.len(),
    ensures
        r@ == s@.subrange(from as int, to as int),
{
    let mut out: Vec<char> = Vec::new();
    let mut i: usize = from;
    while i < to
        invariant
            from <= i <= to <= s@.len(),
            out@ == s@.subrange(from as int, i as int),
        decreases to - i,
    {
        out.push(s[i]);
        i = i + 1;
        proof {
            assert(out@ =~= s@.subrange(from as int, i as int));
        }
    }
    out
}

/// `s` without leading and trailing white space.
pub fn trim(s: &[char]) -> (r: Vec<char>)
    ensures
        r@ == trim_end(trim_start(s@)),
{
    let mut j: usize = 0;
    proof {
        assert(s@.skip(0) =~= s@);
    }
    while j < s.len() && is_space_char(s[j])
        invariant
            j <= s@.len(),
            trim_start(s@) == trim_start(s@.skip(j as int)),
        decreases s.len() - j,
    {
        proof {
            assert(s@.skip(j as int).drop_first() =~= s@.skip(j as int + 1));
        }
        j = j + 1;
    }
    proof {
        if j == s@.len() {
            assert(s@.skip(j as int) =~= Seq::<char>::empty());
        }
    }
    let ghost t = s@.skip(j as int);
    let mut k: usize = s.len();
    while k > j && is_space_char(s[k - 1])
        invariant
            j <= k <= s@.len(),
            t == s@.skip(j as int),
            trim_end(t) == trim_end(s@.subrange(j as int, k as int)),
        decreases k,
    {
        proof {
            assert(s@.subrange(j as int, k as int).drop_last() =~= s@.subrange(j as int, k as int - 1));
        }
        k = k - 1;
    }
    proof {
        assert(trim_start(s@) == t);
        assert(t =~= s@.subrange(j as int, s@.len() as int));
    }
    copy_range(s, j, k)
}

proof fn lemma_lines_pieces(s: Seq<char>)
    ensures
        pieces(s, '\n').len() >= 1,
{
    lemma_pieces_nonempty(s, '\n');
}

/// Splits a text into its lines.
pub fn split_lines(s: &Vec<char>) -> (r: Vec<Vec<char>>)
    ensures
        views(r@) == lines_of(s@),
{
    let p = split_on(s, '\n');
    proof {
        lemma_lines_pieces(s@);
    }
    let last = p.len() - 1;
    let n: usize = if p[last].len() == 0 {
        last
    } else {
        p.len()
    };
    let ghost q = if pieces(s@, '\n').last().len() == 0 {
        pieces(s@, '\n').drop_last()
    } else {
        pieces(s@, '\n')
    };
    proof {
        assert(p@[last as int]@ == pieces(s@, '\n').last());
        assert(q.len() == n);
    }
    let mut out: Vec<Vec<char>> = Vec::new();
    let mut i: usize = 0;
    while i < n
        invariant
            i <= n <= p@.len(),
            q.len() == n,
            forall|k: int| 0 <= k < n ==> #[trigger] q[k] == p@[k]@,
            views(out@) == q.map_values(|l: Seq<char>| strip_cr(l)).take(i as int),
        decreases n - i,
    {
        let line = &p[i];
        let len = line.len();
        let cut: usize = if len > 0 && line[len - 1] == '\r' {
            len - 1
        } else {
            len
        };
        let l = copy_range(line.as_slice(), 0, cut);
        proof {
            assert(l@ =~= strip_cr(q[i as int]));
        }
        let ghost before = views(out@);
        out.push(l);
        proof {
            assert(views(out@) =~= before.push(l@));
        }
        i = i + 1;
        proof {
            assert(views(out@) =~= q.map_values(|l: Seq<char>| strip_cr(l)).take(i as int));
        }
    }
    proof {
        assert(q.map_values(|l: Seq<char>| strip_cr(l)).take(n as int) =~= lines_of(s@));
    }
    out
}

/// The words of `s`: its maximal runs of non-space characters.
pub fn split_words(s: &[char]) -> (r: Vec<Vec<char>>)
    ensures
        views(r@) == words(s@),
{
    let mut out: Vec<Vec<char>> = Vec::new();
    let mut cur: Vec<char> = Vec::new();
    let mut i: usize = 0;
    while i < s.len()
        invariant
            i <= s@.len(),
            words(s@.take(i as int)) == (if cur@.len() > 0 {
                views(out@).push(cur@)
            } else {
                views(out@)
            }),
            (cur@.len() > 0) == (i > 0 && !is_space(s@[i - 1])),
        decreases s.len() - i,
    {
        let c = s[i];
        proof {
            assert(s@.take(i as int + 1).drop_last() =~= s@.take(i as int));
            if i > 0 {
                assert(s@.take(i as int + 1)[i - 1] == s@[i - 1]);
            }
        }
        let ghost before = views(out@);
        let ghost cur_before = cur@;
        if is_space_char(c) {
            if cur.len() > 0 {
                let done = cur;
                out.push(done);
                cur = Vec::new();
                proof {
                    assert(views(out@) =~= before.push(done@));
                }
            }
        } else {
            cur.push(c);
            proof {
                if cur_before.len() > 0 {
                    assert(views(out@).push(cur@) =~= before.push(cur_before).update(
                        before.len() as int,
                        cur_before.push(c),
                    ));
                } else {
                    assert(cur@ =~= seq![c]);
                }
            }
        }
        i = i + 1;
    }
    proof {
        assert(s@.take(s@.len() as int) =~= s@);
    }
    if cur.len() > 0 {
        let ghost before = views(out@);
        let done = cur;
        out.push(done);
        proof {
            assert(views(out@) =~= before.push(done@));
        }
    }
    out
}

/// `s` begins with `p`.
pub open spec fn starts_with(s: Seq<char>, p: Seq<char>) -> bool {
    p.len() <= s.len() && s.take(p.len() as int) == p
}

/// Whether `s` begins with `p`.
pub fn has_prefix(s: &[char], p: &str) -> (r: bool)
    ensures
        r == starts_with(s@, p@),
{
    let pc = chars_of(p);
    if pc.len() > s.len() {
        return false;
    }
    let mut i: usize = 0;
    while i < pc.len()
        invariant
            i <= pc@.len() <= s@.len(),
            pc@ == p@,
            s@.take(i as int) == pc@.take(i as int),
        decreases pc.len() - i,
    {
        if s[i] != pc[i] {
            proof {
                assert(s@.take(pc@.len() as int)[i as int] != pc@[i as int]);
            }
            return false;
        }
        i = i + 1;
        proof {
            assert(s@.take(i as int) =~= pc@.take(i as int));
        }
    }
    proof {
        assert(pc@.take(pc@.len() as int) =~= pc@);
    }
    true
}

/// A string of exactly these characters followed by those of `tail`.
pub fn concat_chars(head: &[char], tail: &[char]) -> (r: Vec<char>)
    ensures
        r@ == head@ + tail@,
{
    let mut out = copy_range(head, 0, head.len());
    let mut i: usize = 0;
    proof {
        assert(head@.subrange(0, head@.len() as int) =~= head@);
    }
    while i < tail.len()
        invariant
            i <= tail@.len(),
            out@ == head@ + tail@.take(i as int),
        decreases tail.len() - i,
    {
        out.push(tail[i]);
        i = i + 1;
        proof {
            assert(out@ =~= head@ + tail@.take(i as int));
        }
    }
    proof {
        assert(tail@.take(tail@.len() as int) =~= tail@);
    }
    out
}

/// Whether two character sequences are equal.
pub fn equal_chars(a: &[char], b: &[char]) -> (r: bool)
    ensures
        r == (a@ == b@),
{
    if a.len() != b.len() {
        return false;
    }
    let mut i: usize = 0;
    while i < a.len()
        invariant
            i <= a@.len(),
            a@.len() == b@.len(),
            a@.take(i as int) == b@.take(i as int),
        decreases a.len() - i,
    {
        if a[i] != b[i] {
            return false;
        }
        i = i + 1;
        proof {
            assert(a@.take(i as int) =~= b@.take(i as int));
        }
    }
    proof {
        assert(a@.take(i as int) =~= a@);
        assert(b@.take(i as int) =~= b@);
    }
    true
}

} // verus!
