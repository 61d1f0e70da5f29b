//! Comparison of `major.minor.patch` version strings.

use vstd::prelude::*;
use vstd::utf8::encode_utf8;

verus! {

broadcast use vstd::utf8::group_utf8_lib;

/// Position of the first `.` at or after `i`, or the length when none.
pub open spec fn find_dot(b: Seq<u8>, i: int) -> int
    decreases b.len() - i,
{
    if i >= b.len() {
        b.len() as int
    } else if b[i] == 46u8 {
        i
    } else {
        find_dot(b, i + 1)
    }
}

/// Whether the byte is an ASCII decimal digit.
pub open spec fn is_digit(c: u8) -> bool {
    48u8 <= c <= 57u8
}

/// The number written by a string of decimal digits.
pub open spec fn digits_value(d: Seq<u8>) -> int
    decreases d.len(),
{
    if d.len() == 0 {
        0
    } else {
        digits_value(d.drop_last()) * 10 + (d.last() as int - 48)
    }
}

/// What parsing a `u32` gives: an optional `+`, then one or more decimal
/// digits whose value fits in 32 bits.
pub open spec fn parse_u32(d: Seq<u8>) -> Option<u32> {
    let digits = unsigned_digits(d);
    if digits.len() > 0 && all_digits(digits) && digits_value(digits) <= u32::MAX {
        Some(digits_value(digits) as u32)
    } else {
        None
    }
}

/// The text without its leading `+`, if it has one.
pub open spec fn unsigned_digits(d: Seq<u8>) -> Seq<u8> {
    if d.len() > 0 && d[0] == 43u8 {
        d.drop_first()
    } else {
        d
    }
}

/// Every byte is a decimal digit.
pub open spec fn all_digits(d: Seq<u8>) -> bool {
    forall|k: int| 0 <= k < d.len() ==> is_digit(#[trigger] d[k])
}

/// The first three `.`-separated fields of the text read as numbers, when
/// there are at least three fields and each of the three parses.
pub open spec fn version_of(b: Seq<u8>) -> Option<(u32, u32, u32)> {
    let d0 = find_dot(b, 0);
    let d1 = find_dot(b, d0 + 1);
    let d2 = find_dot(b, d1 + 1);
    if d0 < b.len() && d1 < b.len() {
        match (
            parse_u32(b.subrange(0, d0)),
            parse_u32(b.subrange(d0 + 1, d1)),
            parse_u32(b.subrange(d1 + 1, d2)),
        ) {
            (Some(x), Some(y), Some(z)) => Some((x, y, z)),
            _ => None,
        }
    } else {
        None
    }
}

/// Lexicographic order on version triples.
pub open spec fn triple_gt(l: (u32, u32, u32), c: (u32, u32, u32)) -> bool {
    l.0 > c.0 || (l.0 == c.0 && (l.1 > c.1 || (l.1 == c.1 && l.2 > c.2)))
}

/// `latest` is newer than `current`: compared as version triples when both
/// read as such, and otherwise whenever the two texts differ.
pub open spec fn newer(latest: Seq<char>, current: Seq<char>) -> bool {
    match (version_of(encode_utf8(latest)), version_of(encode_utf8(current))) {
        (Some(l), Some(c)) => triple_gt(l, c),
        _ => latest != current,
    }
}

fn find_dot_exec(b: &[u8], i: usize) -> (r: usize)
    requires
        i <= b@.len(),
    ensures
        r == find_dot(b@, i as int),
        i <= r <= b@.len(),
    decreases b@.len() - i,
{
    let mut j = i;
    while j < b.len() && b[j] != 46u8
        invariant
            i <= j <= b@.len(),
            find_dot(b@, i as int) == find_dot(b@, j as int),
        decreases b@.len() - j,
    {
        j += 1;
    }
    j
}

spec fn cap(x: int) -> int {
    if x > 0x1_0000_0000 {
        0x1_0000_0000
    } else {
        x
    }
}

fn parse_u32_range(b: &[u8], start: usize, end: usize) -> (r: Option<u32>)
    requires
        start <= end <= b@.len(),
    ensures
        r == parse_u32(b@.subrange(start as int, end as int)),
{
    let ghost d = b@.subrange(start as int, end as int);
    let mut s = start;
    if s < end && b[s] == 43u8 {
        s += 1;
    }
    let ghost digits = b@.subrange(s as int, end as int);
    assert(digits =~= unsigned_digits(d));
    if s == end {
        return None;
    }
    let mut val: u64 = 0;
    let mut k = s;
    while k < end
        invariant
            start <= s <= k <= end <= b@.len(),
            digits == b@.subrange(s as int, end as int),
            forall|j: int| s <= j < k ==> is_digit(#[trigger] b@[j]),
            val == cap(digits_value(b@.subrange(s as int, k as int))),
            d == b@.subrange(start as int, end as int),
            digits == unsigned_digits(d),
            digits.len() > 0,
        decreases end - k,
    {
        let c = b[k];
        if c < 48u8 || c > 57u8 {
            assert(digits[k - s] == c);
            assert(!is_digit(digits[k - s]));
            assert(digits.len() == end - s);
            return None;
        }
        let ghost prev = b@.subrange(s as int, k as int);
        let ghost next = b@.subrange(s as int, k + 1);
        assert(next.drop_last() =~= prev);
        assert(next.last() == c);
        proof {
            lemma_digits_nonneg(prev);
            let v = digits_value(prev);
            assert(digits_value(next) == v * 10 + (c as int - 48));
            if v > 0x1_0000_0000 {
                assert(v * 10 + (c as int - 48) > 0x1_0000_0000) by (nonlinear_arith)
                    requires
                        v > 0x1_0000_0000,
                        0 <= c as int - 48,
                ;
            }
        }
        if val == 0x1_0000_0000 {
            proof {
                let v = digits_value(prev);
                assert(v >= 0x1_0000_0000);
                assert(v * 10 + (c as int - 48) >= 0x1_0000_0000) by (nonlinear_arith)
                    requires
                        v >= 0x1_0000_0000,
                        0 <= c as int - 48,
                ;
            }
        } else {
            let nv = val * 10 + (c - 48u8) as u64;
            val = if nv > 0x1_0000_0000 {
                0x1_0000_0000
            } else {
                nv
            };
        }
        k += 1;
    }
    assert(b@.subrange(s as int, k as int) =~= digits);
    if val > 0xFFFF_FFFF {
        None
    } else {
        Some(val as u32)
    }
}

proof fn lemma_digits_nonneg(d: Seq<u8>)
    requires
        forall|k: int| 0 <= k < d.len() ==> is_digit(#[trigger] d[k]),
    ensures
        digits_value(d) >= 0,
    decreases d.len(),
{
    if d.len() > 0 {
        lemma_digits_nonneg(d.drop_last());
    }
}

fn parse_version(b: &[u8]) -> (r: Option<(u32, u32, u32)>)
    ensures
        r == version_of(b@),
{
    let d0 = find_dot_exec(b, 0);
    if d0 >= b.len() {
        return None;
    }
    let d1 = find_dot_exec(b, d0 + 1);
    if d1 >= b.len() {
        return None;
    }
    let d2 = find_dot_exec(b, d1 + 1);
    let x = parse_u32_range(b, 0, d0);
    let y = parse_u32_range(b, d0 + 1, d1);
    let z = parse_u32_range(b, d1 + 1, d2);
    match (x, y, z) {
        (Some(x), Some(y), Some(z)) => Some((x, y, z)),
        _ => None,
    }
}

fn same_bytes(a: &[u8], b: &[u8]) -> (r: bool)
    ensures
        r == (a@ == b@),
{
    if a.len() != b.len() {
        return false;
    }
    let mut k: usize = 0;
    while k < a.len()
        invariant
            a@.len() == b@.len(),
            0 <= k <= a@.len(),
            forall|j: int| 0 <= j < k ==> a@[j] == b@[j],
        decreases a@.len() - k,
    {
        if a[k] != b[k] {
            return false;
        }
        k += 1;
    }
    assert(a@ =~= b@);
    true
}

/// Whether `latest` is a newer version than `current`. Both are read as
/// `major.minor.patch`; when either does not read so, any difference
/// between the texts counts as newer.
pub fn is_newer_version(latest: &str, current: &str) -> (r: bool)
    ensures
        r == newer(latest@, current@),
{
    let lb = latest.as_bytes();
    let cb = current.as_bytes();
    match (parse_version(lb), parse_version(cb)) {
        (Some(l), Some(c)) => l.0 > c.0 || (l.0 == c.0 && (l.1 > c.1 || (l.1 == c.1 && l.2 > c.2))),
        _ => {
            let same = same_bytes(lb, cb);
            proof {
                vstd::utf8::encode_utf8_decode_utf8(latest@);
                vstd::utf8::encode_utf8_decode_utf8(current@);
            }
            !same
        },
    }
}

} // verus!
