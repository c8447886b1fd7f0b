//! Log keys: a key names a partition and must read as a non-negative decimal
//! integer, which places the partition in the global offset space.

use vstd::prelude::*;

verus! {

/// The width of each key's range of global offsets.
pub const STRIDE: u64 = 10000;

/// Whether `c` is a decimal digit.
pub open spec fn is_digit(c: char) -> bool {
    '0' <= c && c <= '9'
}

/// The value of a string of decimal digits.
pub open spec fn digits_value(s: Seq<char>) -> nat
    decreases s.len(),
{
    if s.len() == 0 {
        0
    } else {
        digits_value(s.drop_last()) * 10 + (s.last() as nat - '0' as nat) as nat
    }
}

/// The digits of a key: what follows an optional leading `+`.
pub open spec fn key_digits(s: Seq<char>) -> Seq<char> {
    if s.len() > 0 && s[0] == '+' {
        s.drop_first()
    } else {
        s
    }
}

/// The number a key reads as: one or more decimal digits after an optional
/// `+`, with a value that fits in 64 bits.
pub open spec fn key_number(s: Seq<char>) -> Option<u64> {
    let d = key_digits(s);
    if d.len() > 0 && (forall|i: int| 0 <= i < d.len() ==> is_digit(#[trigger] d[i]))
        && digits_value(d) <= u64::MAX {
        Some(digits_value(d) as u64)
    } else {
        None
    }
}

/// Appending digits never lowers the value.
proof fn lemma_digits_grow(s: Seq<char>, i: int)
    requires
        0 <= i <= s.len(),
        forall|j: int| 0 <= j < s.len() ==> is_digit(#[trigger] s[j]),
    ensures
        digits_value(s.subrange(0, i)) <= digits_value(s),
    decreases s.len() - i,
{
    if i < s.len() {
        lemma_digits_grow(s, i + 1);
        assert(s.subrange(0, i + 1).drop_last() =~= s.subrange(0, i));
    } else {
        assert(s.subrange(0, i) =~= s);
    }
}

/// The number `key` reads as, if it reads as one.
pub fn parse_key(key: &String) -> (r: Option<u64>)
    ensures
        r == key_number(key@),
{
    let s = key.as_str();
    let n = s.unicode_len();
    let ghost k = key@;
    let start: usize = if n > 0 && s.get_char(0) == '+' {
        1
    } else {
        0
    };
    let ghost d = key_digits(k);
    assert(d =~= k.subrange(start as int, n as int));
    if start == n {
        return None;
    }
    let mut value: u64 = 0;
    let mut i: usize = start;
    while i < n
        invariant
            start <= i <= n,
            n == k.len(),
            s@ == k,
            d == k.subrange(start as int, n as int),
            d == key_digits(k),
            k == key@,
            forall|j: int| 0 <= j < i - start ==> is_digit(#[trigger] d[j]),
            value == digits_value(d.subrange(0, i - start)),
        decreases n - i,
    {
        let c = s.get_char(i);
        assert(d[i - start] == k[i as int]);
        if !('0' <= c && c <= '9') {
            assert(!is_digit(d[i - start]));
            assert(key_digits(key@) == d);
            return None;
        }
        let digit = (c as u32 - '0' as u32) as u64;
        assert(d.subrange(0, i - start + 1).drop_last() =~= d.subrange(0, i - start));
        assert(d[i - start] == c);
        if value > (u64::MAX - digit) / 10 {
            proof {
                let q = (u64::MAX - digit) / 10;
                assert(value * 10 + digit > u64::MAX) by (nonlinear_arith)
                    requires
                        value > q,
                        q == (u64::MAX - digit) / 10,
                        digit <= 9,
                ;
                assert(key_digits(key@) == d);
                if forall|j: int| 0 <= j < d.len() ==> is_digit(#[trigger] d[j]) {
                    lemma_digits_grow(d, i - start + 1);
                }
            }
            return None;
        }
        value = value * 10 + digit;
        i = i + 1;
    }
    assert(d.subrange(0, n - start) =~= d);
    Some(value)
}

} // verus!
