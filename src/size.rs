//! Parsing of a `WIDTHxHEIGHT` size argument.

use vstd::prelude::*;
use vstd::string::StringSliceAdditionalSpecFns;

verus! {

/// The byte `x` that separates the two numbers.
pub const SEPARATOR: u8 = 0x78;

/// The byte `+`, which may stand before a number.
pub const PLUS: u8 = 0x2b;

/// Every byte is an ASCII digit.
pub open spec fn all_digits(b: Seq<u8>) -> bool {
    forall|i: int| 0 <= i < b.len() ==> 0x30 <= #[trigger] b[i] <= 0x39
}

/// The value of a run of decimal digits.
pub open spec fn digits_value(b: Seq<u8>) -> nat
    decreases b.len(),
{
    if b.len() == 0 {
        0
    } else {
        digits_value(b.drop_last()) * 10 + (b.last() - 0x30) as nat
    }
}

/// An unsigned decimal number that fits in `u32`, optionally preceded by
/// `+`, as `u32::from_str` reads it.
pub open spec fn decimal_u32(b: Seq<u8>) -> Option<u32> {
    let d = if b.len() > 0 && b[0] == PLUS { b.drop_first() } else { b };
    if d.len() > 0 && all_digits(d) && digits_value(d) <= u32::MAX {
        Some(digits_value(d) as u32)
    } else {
        None
    }
}

/// Position of the first separator at or after `i`.
pub open spec fn first_separator(b: Seq<u8>, i: nat) -> Option<nat>
    decreases b.len() - i,
{
    if i >= b.len() {
        None
    } else if b[i as int] == SEPARATOR {
        Some(i)
    } else {
        first_separator(b, i + 1)
    }
}

/// The size written in `b`: two numbers split at the first separator.
pub open spec fn size_value(b: Seq<u8>) -> Option<(u32, u32)> {
    match first_separator(b, 0) {
        None => None,
        Some(p) => match (
            decimal_u32(b.subrange(0, p as int)),
            decimal_u32(b.subrange(p + 1 as int, b.len() as int)),
        ) {
            (Some(x), Some(y)) => Some((x, y)),
            _ => None,
        },
    }
}

proof fn lemma_digits_step(b: Seq<u8>, i: int)
    requires
        0 <= i < b.len(),
    ensures
        digits_value(b.subrange(0, i + 1)) == digits_value(b.subrange(0, i)) * 10 + (b[i] - 0x30) as nat,
{
    assert(b.subrange(0, i + 1).drop_last() =~= b.subrange(0, i));
}

/// Reads `b[lo .. hi]` as `decimal_u32` does.
fn parse_decimal(b: &[u8], lo: usize, hi: usize) -> (r: Option<u32>)
    requires
        lo <= hi <= b@.len(),
    ensures
        r == decimal_u32(b@.subrange(lo as int, hi as int)),
{
    let ghost s = b@.subrange(lo as int, hi as int);
    let mut start = lo;
    if lo < hi && b[lo] == PLUS {
        start = lo + 1;
    }
    let ghost d = b@.subrange(start as int, hi as int);
    assert(d =~= if s.len() > 0 && s[0] == PLUS { s.drop_first() } else { s });
    if start == hi {
        return None;
    }
    let mut value: u64 = 0;
    let mut i = start;
    while i < hi
        invariant
            lo <= start <= i <= hi <= b@.len(),
            d == b@.subrange(start as int, hi as int),
            s == b@.subrange(lo as int, hi as int),
            d == (if s.len() > 0 && s[0] == PLUS { s.drop_first() } else { s }),
            d.len() > 0,
            all_digits(b@.subrange(start as int, i as int)),
            value == digits_value(b@.subrange(start as int, i as int)),
            value <= u32::MAX,
        decreases hi - i,
    {
        let c = b[i];
        if c < 0x30 || c > 0x39 {
            assert(d[i - start] == c);
            assert(!all_digits(d));
            return None;
        }
        proof {
            lemma_digits_step(d, i - start);
            assert(d.subrange(0, i - start + 1) =~= b@.subrange(start as int, i + 1));
            assert(d.subrange(0, i - start) =~= b@.subrange(start as int, i as int));
        }
        let next = value * 10 + (c - 0x30) as u64;
        if next > 0xffff_ffff {
            proof {
                lemma_digits_prefix_bound(d, i - start + 1);
            }
            return None;
        }
        value = next;
        i = i + 1;
    }
    assert(b@.subrange(start as int, i as int) =~= d);
    Some(value as u32)
}

/// A run of digits is worth at least any of its prefixes.
proof fn lemma_digits_prefix_bound(d: Seq<u8>, n: int)
    requires
        0 <= n <= d.len(),
    ensures
        all_digits(d) ==> digits_value(d) >= digits_value(d.subrange(0, n)),
    decreases d.len(),
{
    if d.len() > n {
        let e = d.drop_last();
        assert(e.subrange(0, n) =~= d.subrange(0, n));
        lemma_digits_prefix_bound(e, n);
        if all_digits(d) {
            assert(all_digits(e));
            assert(digits_value(d) == digits_value(e) * 10 + (d.last() - 0x30) as nat);
        }
    } else {
        assert(d.subrange(0, n) =~= d);
    }
}

/// Reads a size written `WIDTHxHEIGHT`, two decimal numbers that fit in
/// `u32` split at the first `x`; `None` when the text is not of that form.
fn read_size(src: &str) -> (r: Option<(u32, u32)>)
    ensures
        r == size_value(src.spec_bytes()),
{
    let b = src.as_bytes();
    let n = b.len();
    let mut i: usize = 0;
    while i < n
        invariant
            n == b@.len(),
            b@ == src.spec_bytes(),
            i <= n,
            first_separator(b@, 0) == first_separator(b@, i as nat),
        ensures
            i <= n,
            first_separator(b@, 0) == first_separator(b@, i as nat),
            i < n ==> b@[i as int] == SEPARATOR,
        decreases n - i,
    {
        if b[i] == SEPARATOR {
            break;
        }
        i = i + 1;
    }
    if i == n {
        return None;
    }
    let first = parse_decimal(b, 0, i);
    let second = parse_decimal(b, i + 1, n);
    match (first, second) {
        (Some(x), Some(y)) => Some((x, y)),
        _ => None,
    }
}

/// The text is a size that `parse_size` accepts.
pub fn is_size(src: &str) -> (r: bool)
    ensures
        r == size_value(src.spec_bytes()) is Some,
{
    read_size(src).is_some()
}

/// Reads a size written `WIDTHxHEIGHT`: two decimal numbers that fit in
/// `u32`, split at the first `x`. The text must be of that form (see
/// `is_size`).
pub fn parse_size(src: &str) -> (r: (u32, u32))
    requires
        size_value(src.spec_bytes()) is Some,
    ensures
        Some(r) == size_value(src.spec_bytes()),
{
    match read_size(src) {
        Some(r) => r,
        None => (0, 0),
    }
}

} // verus!
