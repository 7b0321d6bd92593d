//! The change detector: a short deterministic fingerprint of a note's
//! text, used to tell whether content changed. It is a 64-bit
//! Fowler–Noll–Vo hash of the characters, rendered as lowercase hex
//! without leading zeros; it is not cryptographically strong.

use vstd::prelude::*;

verus! {

pub const FNV_OFFSET: u64 = 0xcbf29ce484222325;

pub const FNV_PRIME: u64 = 0x100000001b3;

/// The hash state after absorbing the characters of `s` from `i` on,
/// starting from state `h`.
pub open spec fn fnv_acc(s: Seq<char>, i: int, h: u64) -> u64
    decreases s.len() - i,
{
    if i < 0 || i >= s.len() {
        h
    } else {
        fnv_acc(s, i + 1, vstd::wrapping::u64_specs::wrapping_mul(h ^ ((s[i] as u32) as u64), FNV_PRIME))
    }
}

/// The fingerprint value of a text.
pub open spec fn spec_fingerprint(s: Seq<char>) -> u64 {
    fnv_acc(s, 0, FNV_OFFSET)
}

/// The lowercase hex digit for a value below 16.
pub open spec fn hex_digit(d: int) -> char {
    if d == 0 { '0' } else if d == 1 { '1' } else if d == 2 { '2' } else if d == 3 { '3' }
    else if d == 4 { '4' } else if d == 5 { '5' } else if d == 6 { '6' } else if d == 7 { '7' }
    else if d == 8 { '8' } else if d == 9 { '9' } else if d == 10 { 'a' } else if d == 11 { 'b' }
    else if d == 12 { 'c' } else if d == 13 { 'd' } else if d == 14 { 'e' } else { 'f' }
}

/// The hex digits of `n`, most significant first, empty for zero.
pub open spec fn hex_digits(n: int) -> Seq<char>
    decreases n,
{
    if n <= 0 {
        Seq::empty()
    } else {
        hex_digits(n / 16).push(hex_digit(n % 16))
    }
}

/// The lowercase hex rendering of `n`, `"0"` for zero.
pub open spec fn spec_hex(n: u64) -> Seq<char> {
    if n == 0 {
        seq!['0']
    } else {
        hex_digits(n as int)
    }
}

/// The fingerprint of a text, rendered as lowercase hex.
pub open spec fn spec_fingerprint_hex(s: Seq<char>) -> Seq<char> {
    spec_hex(spec_fingerprint(s))
}

fn hex_digit_exec(d: u64) -> (r: char)
    requires
        d < 16,
    ensures
        r == hex_digit(d as int),
{
    if d == 0 { '0' } else if d == 1 { '1' } else if d == 2 { '2' } else if d == 3 { '3' }
    else if d == 4 { '4' } else if d == 5 { '5' } else if d == 6 { '6' } else if d == 7 { '7' }
    else if d == 8 { '8' } else if d == 9 { '9' } else if d == 10 { 'a' } else if d == 11 { 'b' }
    else if d == 12 { 'c' } else if d == 13 { 'd' } else if d == 14 { 'e' } else { 'f' }
}

/// Render a 64-bit value as lowercase hex without leading zeros.
fn hex_string(h: u64) -> (r: Vec<char>)
    ensures
        r@ == spec_hex(h),
{
    if h == 0 {
        let mut r: Vec<char> = Vec::new();
        r.push('0');
        proof {
            assert(r@ =~= seq!['0']);
        }
        return r;
    }
    let mut low: Vec<char> = Vec::new();
    let mut n: u64 = h;
    while n > 0
        invariant
            hex_digits(h as int) =~= hex_digits(n as int) + low@.reverse(),
        decreases n,
    {
        let d = n % 16;
        let ghost pre = low@;
        low.push(hex_digit_exec(d));
        proof {
            assert(low@.reverse() =~= seq![hex_digit(d as int)] + pre.reverse());
            assert(hex_digits(n as int) == hex_digits(n as int / 16).push(
                hex_digit(n as int % 16),
            ));
            assert(hex_digits(n as int / 16) + low@.reverse() =~= hex_digits(n as int)
                + pre.reverse());
        }
        n = n / 16;
    }
    let m = low.len();
    let mut r: Vec<char> = Vec::new();
    let mut k: usize = 0;
    while k < m
        invariant
            0 <= k <= m,
            m == low@.len(),
            r@ == low@.reverse().subrange(0, k as int),
        decreases m - k,
    {
        r.push(low[m - 1 - k]);
        proof {
            assert(low@.reverse()[k as int] == low@[m - 1 - k]);
            assert(r@ =~= low@.reverse().subrange(0, k + 1));
        }
        k = k + 1;
    }
    proof {
        assert(r@ =~= low@.reverse());
    }
    r
}

/// The fingerprint of a note's text, as a short lowercase-hex string.
/// Identical text always yields the identical fingerprint.
pub fn hash_content(content: &str) -> (r: String)
    ensures
        r@ == spec_fingerprint_hex(content@),
{
    let chars = crate::text::chars_of(content);
    let n = chars.len();
    let mut h: u64 = FNV_OFFSET;
    let mut i: usize = 0;
    while i < n
        invariant
            0 <= i <= n,
            n == chars@.len(),
            chars@ == content@,
            fnv_acc(chars@, i as int, h) == spec_fingerprint(content@),
        decreases n - i,
    {
        let c = chars[i];
        h = (h ^ ((c as u32) as u64)).wrapping_mul(FNV_PRIME);
        i = i + 1;
    }
    let digits = hex_string(h);
    crate::text::string_from_chars(&digits)
}

} // verus!
