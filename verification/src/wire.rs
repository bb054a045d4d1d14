//! Byte-level building blocks of the wire codec.
//!
//! Record texts and packet fields are handled here as byte sequences:
//! big-endian integer fields, decimal integer parsing as Rust's `FromStr`
//! for unsigned integers does it, whitespace splitting as
//! `str::split_whitespace` does it, and quote trimming as `str::trim_matches`
//! does it. Each executable function is pinned to a specification function
//! over `Seq<u8>`.

use vstd::prelude::*;

verus! {

/// The ASCII dot that separates name labels.
pub const DOT: u8 = 0x2E;

/// Value of a 16-bit big-endian field.
pub open spec fn be16(hi: u8, lo: u8) -> u16 {
    (hi * 256 + lo) as u16
}

/// Big-endian bytes of a 16-bit value.
pub open spec fn spec_u16_be(x: u16) -> Seq<u8> {
    seq![(x / 256) as u8, (x % 256) as u8]
}

/// Big-endian bytes of a 32-bit value.
pub open spec fn spec_u32_be(x: u32) -> Seq<u8> {
    seq![
        (x / 0x1000000) as u8,
        ((x / 0x10000) % 256) as u8,
        ((x / 256) % 256) as u8,
        (x % 256) as u8,
    ]
}

/// Append a 16-bit value in big-endian order.
pub fn push_u16_be(out: &mut Vec<u8>, x: u16)
    ensures
        final(out)@ == old(out)@ + spec_u16_be(x),
{
    out.push((x / 256) as u8);
    out.push((x % 256) as u8);
    assert(out@ =~= old(out)@ + spec_u16_be(x));
}

/// Append a 32-bit value in big-endian order.
pub fn push_u32_be(out: &mut Vec<u8>, x: u32)
    ensures
        final(out)@ == old(out)@ + spec_u32_be(x),
{
    out.push((x / 0x1000000) as u8);
    out.push(((x / 0x10000) % 256) as u8);
    out.push(((x / 256) % 256) as u8);
    out.push((x % 256) as u8);
    assert(out@ =~= old(out)@ + spec_u32_be(x));
}

/// Byte-wise equality of two slices.
#[verifier::loop_isolation(false)]
pub fn bytes_eq(a: &[u8], b: &[u8]) -> (r: bool)
    ensures
        r <==> a@ == b@,
{
    if a.len() != b.len() {
        assert(a@ != b@) by {
            assert(a@.len() != b@.len());
        }
        return false;
    }
    let n = a.len();
    let mut i: usize = 0;
    while i < n
        invariant
            i <= n,
            forall|j: int| 0 <= j < i ==> a@[j] == b@[j],
        decreases n - i,
    {
        if a[i] != b[i] {
            return false;
        }
        i += 1;
    }
    assert(a@ =~= b@);
    true
}

/// ASCII decimal digit.
pub open spec fn is_digit(b: u8) -> bool {
    0x30 <= b <= 0x39
}

/// All bytes of the sequence are decimal digits.
pub open spec fn all_digits(s: Seq<u8>) -> bool {
    forall|i: int| 0 <= i < s.len() ==> is_digit(#[trigger] s[i])
}

/// Value of a most-significant-first digit sequence.
pub open spec fn digits_val(s: Seq<u8>) -> int
    decreases s.len(),
{
    if s.len() == 0 {
        0
    } else {
        digits_val(s.drop_last()) * 10 + (s[s.len() - 1] - 0x30)
    }
}

/// Decimal parse of an unsigned integer, as `str::parse` for the unsigned
/// primitives accepts it: an optional leading `+`, then one or more digits.
/// No bound is applied here; width checks sit at the typed entry points.
pub open spec fn spec_parse_uint(s: Seq<u8>) -> Option<int> {
    let t = if s.len() > 0 && s[0] == 0x2B {
        s.subrange(1, s.len() as int)
    } else {
        s
    };
    if t.len() == 0 || !all_digits(t) {
        None
    } else {
        Some(digits_val(t))
    }
}

/// A successfully parsed decimal value is never negative.
pub proof fn lemma_parse_uint_nonneg(s: Seq<u8>)
    ensures
        spec_parse_uint(s) matches Some(v) ==> v >= 0,
{
    let t = if s.len() > 0 && s[0] == 0x2B {
        s.subrange(1, s.len() as int)
    } else {
        s
    };
    if spec_parse_uint(s) is Some {
        lemma_digits_val_nonneg(t);
    }
}

proof fn lemma_digits_val_nonneg(s: Seq<u8>)
    requires
        all_digits(s),
    ensures
        digits_val(s) >= 0,
    decreases s.len(),
{
    if s.len() > 0 {
        assert(all_digits(s.drop_last())) by {
            assert(forall|i: int|
                0 <= i < s.len() - 1 ==> is_digit(#[trigger] s.drop_last()[i]));
        }
        lemma_digits_val_nonneg(s.drop_last());
    }
}

/// Shared body of the typed decimal parsers: value of `s` if it parses and
/// fits below `max`, else `None`.
#[verifier::loop_isolation(false)]
fn parse_bounded(s: &[u8], max: u64) -> (r: Option<u64>)
    requires
        max <= 0xFFFF_FFFF,
    ensures
        match spec_parse_uint(s@) {
            Some(v) => if v <= max {
                r == Some(v as u64)
            } else {
                r is None
            },
            None => r is None,
        },
{
    let ghost t: Seq<u8> = if s@.len() > 0 && s@[0] == 0x2B {
        s@.subrange(1, s@.len() as int)
    } else {
        s@
    };
    let start: usize = if s.len() > 0 && s[0] == 0x2B {
        1
    } else {
        0
    };
    if s.len() == start {
        return None;
    }
    let mut i: usize = start;
    let mut acc: u64 = 0;
    let mut over: bool = false;
    while i < s.len()
        invariant
            start <= i <= s@.len(),
            t == s@.subrange(start as int, s@.len() as int),
            all_digits(t.subrange(0, i - start)),
            !over ==> acc == digits_val(t.subrange(0, i - start)) && acc <= max,
            over ==> digits_val(t.subrange(0, i - start)) > max,
        decreases s@.len() - i,
    {
        let c = s[i];
        if c < 0x30 || c > 0x39 {
            assert(!all_digits(t)) by {
                assert(t[i - start] == c);
            }
            return None;
        }
        let ghost pre = t.subrange(0, i - start);
        let ghost cur = t.subrange(0, i + 1 - start);
        assert(cur.drop_last() =~= pre);
        assert(cur[cur.len() - 1] == c);
        if !over {
            acc = acc * 10 + ((c - 0x30) as u64);
            if acc > max {
                over = true;
            }
        } else {
            proof {
                lemma_digits_val_nonneg(pre);
            }
            assert(digits_val(cur) > max);
        }
        i += 1;
    }
    assert(t.subrange(0, s@.len() - start) =~= t);
    if over {
        None
    } else {
        Some(acc)
    }
}

/// Parse a `u8` as `str::parse::<u8>` would.
pub fn parse_u8(s: &[u8]) -> (r: Option<u8>)
    ensures
        match spec_parse_uint(s@) {
            Some(v) => if v <= 255 {
                r == Some(v as u8)
            } else {
                r is None
            },
            None => r is None,
        },
{
    proof {
        lemma_parse_uint_nonneg(s@);
    }
    match parse_bounded(s, 255) {
        Some(v) => Some(v as u8),
        None => None,
    }
}

/// Parse a `u16` as `str::parse::<u16>` would.
pub fn parse_u16(s: &[u8]) -> (r: Option<u16>)
    ensures
        match spec_parse_uint(s@) {
            Some(v) => if v <= 0xFFFF {
                r == Some(v as u16)
            } else {
                r is None
            },
            None => r is None,
        },
{
    proof {
        lemma_parse_uint_nonneg(s@);
    }
    match parse_bounded(s, 0xFFFF) {
        Some(v) => Some(v as u16),
        None => None,
    }
}

/// Parse a `u32` as `str::parse::<u32>` would.
pub fn parse_u32(s: &[u8]) -> (r: Option<u32>)
    ensures
        match spec_parse_uint(s@) {
            Some(v) => if v <= 0xFFFF_FFFF {
                r == Some(v as u32)
            } else {
                r is None
            },
            None => r is None,
        },
{
    proof {
        lemma_parse_uint_nonneg(s@);
    }
    match parse_bounded(s, 0xFFFF_FFFF) {
        Some(v) => Some(v as u32),
        None => None,
    }
}

/// ASCII whitespace, the byte forms of the characters
/// `str::split_whitespace` splits on.
pub open spec fn is_ws(b: u8) -> bool {
    b == 0x20 || (0x09 <= b <= 0x0D)
}

/// Position of the first whitespace byte at or after `pos`, or the length.
pub open spec fn next_ws(s: Seq<u8>, pos: int) -> int
    decreases s.len() - pos,
{
    if pos < 0 || pos >= s.len() {
        s.len() as int
    } else if is_ws(s[pos]) {
        pos
    } else {
        next_ws(s, pos + 1)
    }
}

/// Position of the first non-whitespace byte at or after `pos`, or the
/// length.
pub open spec fn next_non_ws(s: Seq<u8>, pos: int) -> int
    decreases s.len() - pos,
{
    if pos < 0 || pos >= s.len() {
        s.len() as int
    } else if !is_ws(s[pos]) {
        pos
    } else {
        next_non_ws(s, pos + 1)
    }
}

pub proof fn lemma_next_ws_bounds(s: Seq<u8>, pos: int)
    requires
        0 <= pos <= s.len(),
    ensures
        pos <= next_ws(s, pos) <= s.len(),
        pos <= next_non_ws(s, pos) <= s.len(),
        next_non_ws(s, pos) < s.len() ==> !is_ws(s[next_non_ws(s, pos)]),
        next_ws(s, pos) < s.len() ==> is_ws(s[next_ws(s, pos)]),
    decreases s.len() - pos,
{
    if pos < s.len() {
        lemma_next_ws_bounds(s, pos + 1);
    }
}

/// The whitespace-separated words of `s` from `pos` on, as
/// `str::split_whitespace` yields them: maximal non-whitespace runs, never
/// empty.
pub open spec fn spec_split_ws_from(s: Seq<u8>, pos: int) -> Seq<Seq<u8>>
    decreases s.len() - pos,
    when 0 <= pos <= s.len()
    via spec_split_ws_from_decreases
{
    let a = next_non_ws(s, pos);
    if a >= s.len() {
        seq![]
    } else {
        let b = next_ws(s, a);
        seq![s.subrange(a, b)] + spec_split_ws_from(s, b)
    }
}

#[via_fn]
proof fn spec_split_ws_from_decreases(s: Seq<u8>, pos: int) {
    lemma_next_ws_bounds(s, pos);
    let a = next_non_ws(s, pos);
    if a < s.len() {
        lemma_next_ws_bounds(s, a);
        assert(next_ws(s, a) > a);
    }
}

/// The whitespace-separated words of `s`.
pub open spec fn spec_split_ws(s: Seq<u8>) -> Seq<Seq<u8>> {
    spec_split_ws_from(s, 0)
}

/// Split into whitespace-separated words.
#[verifier::loop_isolation(false)]
pub fn split_ws(s: &[u8]) -> (r: Vec<Vec<u8>>)
    ensures
        r.deep_view() == spec_split_ws(s@),
{
    let n = s.len();
    let mut r: Vec<Vec<u8>> = Vec::new();
    let mut pos: usize = 0;
    proof {
        assert(r.deep_view() =~~= Seq::<Seq<u8>>::empty());
        assert(Seq::<Seq<u8>>::empty() + spec_split_ws_from(s@, 0) =~= spec_split_ws_from(s@, 0));
    }
    while pos < n
        invariant
            0 <= pos <= n,
            n == s@.len(),
            spec_split_ws(s@) == r.deep_view() + spec_split_ws_from(s@, pos as int),
        decreases n - pos,
    {
        if is_ws_exec(s[pos]) {
            assert(next_non_ws(s@, pos as int) == next_non_ws(s@, pos + 1));
            pos += 1;
        } else {
            // take the word that starts here
            let start = pos;
            while pos < n && !is_ws_exec(s[pos])
                invariant
                    start <= pos <= n,
                    n == s@.len(),
                    next_ws(s@, start as int) == next_ws(s@, pos as int),
                decreases n - pos,
            {
                pos += 1;
            }
            assert(next_ws(s@, start as int) == pos);
            let mut word: Vec<u8> = Vec::new();
            assert(word@ =~= s@.subrange(start as int, start as int));
            let mut j = start;
            while j < pos
                invariant
                    start <= j <= pos <= n,
                    n == s@.len(),
                    word@ == s@.subrange(start as int, j as int),
                decreases pos - j,
            {
                word.push(s[j]);
                assert(word@ =~= s@.subrange(start as int, j + 1));
                j += 1;
            }
            proof {
                assert(next_non_ws(s@, start as int) == start);
                assert(spec_split_ws_from(s@, start as int) == seq![s@.subrange(
                    start as int,
                    pos as int,
                )] + spec_split_ws_from(s@, pos as int));
                assert((r.deep_view() + seq![word@]).len() == r.deep_view().len() + 1);
            }
            let ghost old_dv = r.deep_view();
            r.push(word);
            proof {
                assert(r.deep_view() =~~= old_dv + seq![s@.subrange(start as int, pos as int)]);
                assert(old_dv + (seq![s@.subrange(start as int, pos as int)]
                    + spec_split_ws_from(s@, pos as int)) =~= (old_dv + seq![s@.subrange(
                    start as int,
                    pos as int,
                )]) + spec_split_ws_from(s@, pos as int));
            }
        }
    }
    assert(spec_split_ws_from(s@, pos as int) =~= Seq::<Seq<u8>>::empty());
    assert(r.deep_view() =~= r.deep_view() + Seq::<Seq<u8>>::empty());
    r
}

/// Whitespace test on a byte.
pub fn is_ws_exec(b: u8) -> (r: bool)
    ensures
        r == is_ws(b),
{
    b == 0x20 || (0x09 <= b && b <= 0x0D)
}

/// `s` with every leading byte equal to `c` removed.
pub open spec fn strip_lead(s: Seq<u8>, c: u8) -> Seq<u8>
    decreases s.len(),
{
    if s.len() > 0 && s[0] == c {
        strip_lead(s.subrange(1, s.len() as int), c)
    } else {
        s
    }
}

/// `s` with every trailing byte equal to `c` removed.
pub open spec fn strip_trail(s: Seq<u8>, c: u8) -> Seq<u8>
    decreases s.len(),
{
    if s.len() > 0 && s[s.len() - 1] == c {
        strip_trail(s.drop_last(), c)
    } else {
        s
    }
}

/// `s` trimmed of `c` at both ends, as `str::trim_matches` trims a char.
pub open spec fn trim_byte_spec(s: Seq<u8>, c: u8) -> Seq<u8> {
    strip_trail(strip_lead(s, c), c)
}

/// Trim `c` from both ends of `s`.
#[verifier::loop_isolation(false)]
pub fn trim_byte(s: &[u8], c: u8) -> (r: Vec<u8>)
    ensures
        r@ == trim_byte_spec(s@, c),
{
    let n = s.len();
    let mut lo: usize = 0;
    assert(s@.subrange(0, n as int) =~= s@);
    while lo < n && s[lo] == c
        invariant
            0 <= lo <= n,
            n == s@.len(),
            strip_lead(s@, c) == strip_lead(s@.subrange(lo as int, n as int), c),
        decreases n - lo,
    {
        assert(s@.subrange(lo as int, n as int).subrange(1, n - lo) =~= s@.subrange(
            lo + 1,
            n as int,
        ));
        lo += 1;
    }
    assert(strip_lead(s@, c) =~= s@.subrange(lo as int, n as int));
    let mut hi: usize = n;
    while hi > lo && s[hi - 1] == c
        invariant
            lo <= hi <= n,
            n == s@.len(),
            strip_trail(s@.subrange(lo as int, n as int), c) == strip_trail(
                s@.subrange(lo as int, hi as int),
                c,
            ),
        decreases hi,
    {
        assert(s@.subrange(lo as int, hi as int).drop_last() =~= s@.subrange(
            lo as int,
            hi - 1,
        ));
        hi -= 1;
    }
    assert(strip_trail(s@.subrange(lo as int, hi as int), c) =~= s@.subrange(
        lo as int,
        hi as int,
    ));
    let mut r: Vec<u8> = Vec::new();
    assert(r@ =~= s@.subrange(lo as int, lo as int));
    let mut j = lo;
    while j < hi
        invariant
            lo <= j <= hi <= n,
            n == s@.len(),
            r@ == s@.subrange(lo as int, j as int),
        decreases hi - j,
    {
        r.push(s[j]);
        assert(r@ =~= s@.subrange(lo as int, j + 1));
        j += 1;
    }
    r
}

} // verus!
