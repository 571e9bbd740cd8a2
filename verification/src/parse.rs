//! Verified parsing of textual cells: unsigned and signed integers, booleans,
//! and decimal timestamps in seconds, read into whole nanoseconds.

use vstd::prelude::*;
use vstd::arithmetic::div_mod::lemma_fundamental_div_mod;

verus! {

/// Whether a character is a decimal digit.
pub open spec fn is_digit(c: char) -> bool {
    '0' <= c && c <= '9'
}

/// The numeric value of a digit character.
pub open spec fn digit_val(c: char) -> int {
    c as int - '0' as int
}

/// Every character of the sequence is a digit.
pub open spec fn all_digits(s: Seq<char>) -> bool {
    forall|i: int| 0 <= i < s.len() ==> is_digit(#[trigger] s[i])
}

/// The number the first `n` digit characters denote, most significant first.
pub open spec fn digits_value(s: Seq<char>, n: int) -> int
    decreases n,
{
    if n <= 0 {
        0
    } else {
        digits_value(s, n - 1) * 10 + digit_val(s[n - 1])
    }
}

/// Digit strings denote non-negative numbers.
proof fn lemma_digits_nonneg(s: Seq<char>, n: int)
    requires
        n <= s.len(),
        all_digits(s),
    ensures
        digits_value(s, n) >= 0,
    decreases n,
{
    if n > 0 {
        lemma_digits_nonneg(s, n - 1);
    }
}

/// A digit string's value never shrinks as digits are appended.
proof fn lemma_digits_mono(s: Seq<char>, i: int, n: int)
    requires
        0 <= i <= n <= s.len(),
        all_digits(s),
    ensures
        digits_value(s, i) <= digits_value(s, n),
    decreases n - i,
{
    if i < n {
        lemma_digits_mono(s, i, n - 1);
        lemma_digits_nonneg(s, n - 1);
        assert(digits_value(s, n - 1) * 10 >= digits_value(s, n - 1)) by (nonlinear_arith)
            requires
                digits_value(s, n - 1) >= 0,
        ;
    }
}

/// `acc * 10 + d` stays within `bound` exactly when `acc <= (bound - d) / 10`.
proof fn lemma_step_bound(acc: int, d: int, bound: int)
    requires
        0 <= acc,
        0 <= d <= 9,
        0 <= bound,
    ensures
        acc * 10 + d <= bound <==> acc <= (bound - d) / 10,
{
    lemma_fundamental_div_mod(bound - d, 10);
    let q = (bound - d) / 10;
    let m = (bound - d) % 10;
    if acc <= q {
        assert(acc * 10 + d <= bound) by (nonlinear_arith)
            requires
                acc <= q,
                bound - d == 10 * q + m,
                m >= 0,
        ;
    }
    if acc * 10 + d <= bound {
        assert(acc <= q) by (nonlinear_arith)
            requires
                acc * 10 + d <= bound,
                bound - d == 10 * q + m,
                m < 10,
                d <= 9,
        ;
    }
}

/// The digits of `s` from `start` on, read as a number, when they are
/// non-empty, all digits, and the value stays within `bound`.
pub open spec fn spec_parse_digits(s: Seq<char>, start: int, bound: u128) -> Option<u128> {
    let ds = s.skip(start);
    if ds.len() > 0 && all_digits(ds) && digits_value(ds, ds.len() as int) <= bound {
        Some(digits_value(ds, ds.len() as int) as u128)
    } else {
        None
    }
}

/// Reads the digits of `s` from position `start` to `end` (character
/// indices) as a number no greater than `bound`.
fn parse_digits_range(s: &str, start: usize, end: usize, bound: u128) -> (r: Option<u128>)
    requires
        start <= end <= s@.len(),
        bound >= 9,
    ensures
        r == spec_parse_digits(s@.take(end as int), start as int, bound),
        r is Some ==> r->0 <= bound,
{
    let ghost ds = s@.take(end as int).skip(start as int);
    if start == end {
        return None;
    }
    let mut acc: u128 = 0;
    let mut i: usize = start;
    while i < end
        invariant
            start <= i <= end <= s@.len(),
            bound >= 9,
            acc <= bound,
            ds == s@.take(end as int).skip(start as int),
            ds.len() == end - start,
            forall|j: int| 0 <= j < i - start ==> is_digit(#[trigger] ds[j]),
            acc == digits_value(ds, i - start),
        decreases end - i,
    {
        let c = s.get_char(i);
        proof {
            assert(ds[i - start] == s@[i as int]);
        }
        if c < '0' || c > '9' {
            proof {
                assert(!all_digits(ds));
            }
            return None;
        }
        let d: u32 = c as u32 - 48;
        proof {
            assert(c as u32 >= 48 && c as u32 <= 57);
        }
        if acc > (bound - d as u128) / 10 {
            proof {
                lemma_step_bound(acc as int, d as int, bound as int);
                assert(digits_value(ds, i - start + 1) > bound);
                if all_digits(ds) {
                    lemma_digits_mono(ds, i - start + 1, ds.len() as int);
                }
            }
            return None;
        }
        proof {
            lemma_step_bound(acc as int, d as int, bound as int);
        }
        acc = acc * 10 + d as u128;
        i = i + 1;
    }
    proof {
        assert(all_digits(ds));
    }
    Some(acc)
}

/// The unsigned number a piece of text denotes: an optional `+` sign and a
/// non-empty string of digits whose value fits the machine word.
pub open spec fn spec_parse_unsigned(s: Seq<char>) -> Option<u128> {
    if s.len() > 0 && s[0] == '+' {
        spec_parse_digits(s, 1, u128::MAX)
    } else {
        spec_parse_digits(s, 0, u128::MAX)
    }
}

/// Parses an unsigned integer cell.
pub fn parse_unsigned(s: &str) -> (r: Option<u128>)
    ensures
        r == spec_parse_unsigned(s@),
{
    let n = s.unicode_len();
    let start: usize = if n > 0 && s.get_char(0) == '+' {
        1
    } else {
        0
    };
    proof {
        assert(s@.take(n as int) =~= s@);
    }
    parse_digits_range(s, start, n, u128::MAX)
}

/// The magnitude bound of a signed parse: 2^127 for a negative number,
/// 2^127 - 1 for a positive one.
pub const SIGNED_MIN_MAGNITUDE: u128 = 0x8000_0000_0000_0000_0000_0000_0000_0000;

/// The signed number a piece of text denotes: an optional sign and a
/// non-empty string of digits whose value fits the machine word.
pub open spec fn spec_parse_signed(s: Seq<char>) -> Option<i128> {
    if s.len() > 0 && s[0] == '-' {
        match spec_parse_digits(s, 1, SIGNED_MIN_MAGNITUDE) {
            Some(m) => Some((-(m as int)) as i128),
            None => None,
        }
    } else if s.len() > 0 && s[0] == '+' {
        match spec_parse_digits(s, 1, (SIGNED_MIN_MAGNITUDE - 1) as u128) {
            Some(m) => Some(m as i128),
            None => None,
        }
    } else {
        match spec_parse_digits(s, 0, (SIGNED_MIN_MAGNITUDE - 1) as u128) {
            Some(m) => Some(m as i128),
            None => None,
        }
    }
}

/// Parses a signed integer cell.
pub fn parse_signed(s: &str) -> (r: Option<i128>)
    ensures
        r == spec_parse_signed(s@),
{
    let n = s.unicode_len();
    proof {
        assert(s@.take(n as int) =~= s@);
    }
    if n > 0 && s.get_char(0) == '-' {
        match parse_digits_range(s, 1, n, SIGNED_MIN_MAGNITUDE) {
            Some(m) => {
                if m == SIGNED_MIN_MAGNITUDE {
                    Some(i128::MIN)
                } else {
                    Some(-(m as i128))
                }
            },
            None => None,
        }
    } else if n > 0 && s.get_char(0) == '+' {
        match parse_digits_range(s, 1, n, SIGNED_MIN_MAGNITUDE - 1) {
            Some(m) => Some(m as i128),
            None => None,
        }
    } else {
        match parse_digits_range(s, 0, n, SIGNED_MIN_MAGNITUDE - 1) {
            Some(m) => Some(m as i128),
            None => None,
        }
    }
}

/// The boolean a piece of text denotes: exactly `true` or `false`.
pub open spec fn spec_parse_bool(s: Seq<char>) -> Option<bool> {
    if s == "true"@ {
        Some(true)
    } else if s == "false"@ {
        Some(false)
    } else {
        None
    }
}

/// Parses a boolean cell.
pub fn parse_bool(s: &str) -> (r: Option<bool>)
    ensures
        r == spec_parse_bool(s@),
{
    proof {
        reveal_strlit("true");
        reveal_strlit("false");
    }
    let n = s.unicode_len();
    if n == 4 && s.get_char(0) == 't' && s.get_char(1) == 'r' && s.get_char(2) == 'u'
        && s.get_char(3) == 'e' {
        proof {
            assert(s@ =~= "true"@);
        }
        Some(true)
    } else if n == 5 && s.get_char(0) == 'f' && s.get_char(1) == 'a' && s.get_char(2) == 'l'
        && s.get_char(3) == 's' && s.get_char(4) == 'e' {
        proof {
            assert(s@ =~= "false"@);
        }
        Some(false)
    } else {
        proof {
            if s@ == "true"@ {
                assert(s@.len() == 4);
                assert(s@[0] == 't' && s@[1] == 'r' && s@[2] == 'u' && s@[3] == 'e');
            }
            if s@ == "false"@ {
                assert(s@.len() == 5);
                assert(s@[0] == 'f' && s@[1] == 'a' && s@[2] == 'l' && s@[3] == 's' && s@[4]
                    == 'e');
            }
        }
        None
    }
}

/// The position of the first `.` in the sequence at or after `i`, or the
/// length when there is none.
pub open spec fn find_dot(s: Seq<char>, i: int) -> int
    decreases s.len() - i,
{
    if i < 0 || i >= s.len() {
        s.len() as int
    } else if s[i] == '.' {
        i
    } else {
        find_dot(s, i + 1)
    }
}

/// One second in nanoseconds, as a factor.
pub const NANOS_PER_SECOND: u128 = 1_000_000_000;

/// `10^(9 - k)`: the factor scaling `k` fractional digits to nanoseconds.
pub open spec fn spec_frac_scale(k: int) -> int
    decreases 9 - k,
{
    if k >= 9 {
        1
    } else {
        10 * spec_frac_scale(k + 1)
    }
}

/// The timestamp in nanoseconds that a decimal number of seconds denotes:
/// whole seconds, a dot and a fraction, either part optional but not both,
/// the whole seconds at most 2^64 - 1, and the fraction read to nanosecond
/// precision (digits beyond the ninth are dropped).
pub open spec fn spec_parse_time_nanos(s: Seq<char>) -> Option<u128> {
    let dot = find_dot(s, 0);
    let int_part = s.take(dot);
    let frac_part = s.skip(dot + 1);
    let frac_used = if frac_part.len() > 9 {
        frac_part.take(9)
    } else {
        frac_part
    };
    if dot == s.len() {
        // No dot: plain whole seconds.
        match spec_parse_digits(s, 0, u64::MAX as u128) {
            Some(secs) => Some((secs * NANOS_PER_SECOND) as u128),
            None => None,
        }
    } else if !all_digits(int_part) || !all_digits(frac_used) || (int_part.len() == 0
        && frac_part.len() == 0) {
        None
    } else if digits_value(int_part, int_part.len() as int) > u64::MAX {
        None
    } else {
        let secs = digits_value(int_part, int_part.len() as int);
        let nanos = digits_value(frac_used, frac_used.len() as int) * spec_frac_scale(
            frac_used.len() as int,
        );
        Some((secs * NANOS_PER_SECOND + nanos) as u128)
    }
}

/// Parses a decimal timestamp in seconds into whole nanoseconds.
pub fn parse_time_nanos(s: &str) -> (r: Option<u128>)
    ensures
        r == spec_parse_time_nanos(s@),
{
    let n = s.unicode_len();
    let mut dot: usize = 0;
    while dot < n && s.get_char(dot) != '.'
        invariant
            0 <= dot <= n == s@.len(),
            find_dot(s@, 0) == find_dot(s@, dot as int),
        decreases n - dot,
    {
        dot = dot + 1;
    }
    proof {
        assert(find_dot(s@, 0) == dot);
        assert(s@.take(n as int) =~= s@);
    }
    if dot == n {
        return match parse_digits_range(s, 0, n, u64::MAX as u128) {
            Some(secs) => Some(secs * NANOS_PER_SECOND),
            None => None,
        };
    }
    let ghost int_part = s@.take(dot as int);
    let ghost frac_part = s@.skip(dot as int + 1);
    let frac_len = n - (dot + 1);
    let frac_end = if frac_len > 9 {
        dot + 1 + 9
    } else {
        n
    };
    let ghost frac_used = if frac_part.len() > 9 {
        frac_part.take(9)
    } else {
        frac_part
    };
    if dot == 0 && frac_len == 0 {
        return None;
    }
    // Whole seconds: empty means zero, but only when a fraction follows.
    let secs: u128 = if dot == 0 {
        0
    } else {
        match parse_digits_range(s, 0, dot, u64::MAX as u128) {
            Some(v) => v,
            None => {
                proof {
                    assert(s@.take(dot as int).skip(0) =~= int_part);
                }
                return None;
            },
        }
    };
    proof {
        assert(s@.take(dot as int).skip(0) =~= int_part);
        assert(all_digits(int_part));
        lemma_digits_nonneg(int_part, int_part.len() as int);
        assert(digits_value(int_part, int_part.len() as int) == secs);
    }
    // Fraction: empty means zero, scaled to nanoseconds.
    let frac: u128 = if frac_end == dot + 1 {
        proof {
            assert(frac_used.len() == 0);
        }
        0
    } else {
        match parse_digits_range(s, dot + 1, frac_end, u128::MAX) {
            Some(v) => v,
            None => {
                proof {
                    assert(s@.take(frac_end as int).skip(dot as int + 1) =~= frac_used);
                    lemma_digits_bounded(frac_used);
                }
                return None;
            },
        }
    };
    proof {
        assert(s@.take(frac_end as int).skip(dot as int + 1) =~= frac_used);
        lemma_digits_bounded(frac_used);
    }
    let scale = frac_scale(frac_end - (dot + 1));
    Some(secs * NANOS_PER_SECOND + frac * scale)
}

/// Ten to the `n`th power.
pub open spec fn pow10(n: int) -> int
    decreases n,
{
    if n <= 0 {
        1
    } else {
        10 * pow10(n - 1)
    }
}

/// `n` digits denote a value below `10^n`.
proof fn lemma_digits_below_pow10(s: Seq<char>, n: int)
    requires
        0 <= n <= s.len(),
        all_digits(s),
    ensures
        0 <= digits_value(s, n) < pow10(n),
    decreases n,
{
    if n > 0 {
        lemma_digits_below_pow10(s, n - 1);
        let v = digits_value(s, n - 1);
        let d = digit_val(s[n - 1]);
        assert(0 <= v * 10 + d < 10 * pow10(n - 1)) by (nonlinear_arith)
            requires
                0 <= v < pow10(n - 1),
                0 <= d <= 9,
        ;
    }
}

/// `10^n * 10^(9-n) == 10^9` for `0 <= n <= 9`.
proof fn lemma_pow10_scale(n: int)
    requires
        0 <= n <= 9,
    ensures
        pow10(n) * spec_frac_scale(n) == 1_000_000_000,
        spec_frac_scale(n) >= 1,
    decreases 9 - n,
{
    if n == 9 {
        assert(pow10(9) == 1_000_000_000) by {
            reveal_with_fuel(pow10, 10);
        }
    } else {
        lemma_pow10_scale(n + 1);
        assert(pow10(n + 1) == 10 * pow10(n));
        assert(pow10(n) * (10 * spec_frac_scale(n + 1)) == (10 * pow10(n)) * spec_frac_scale(
            n + 1,
        )) by (nonlinear_arith);
    }
}

/// At most nine digits, scaled to nanoseconds, stay below one second.
proof fn lemma_digits_bounded(s: Seq<char>)
    requires
        s.len() <= 9,
    ensures
        all_digits(s) ==> 0 <= digits_value(s, s.len() as int) * spec_frac_scale(s.len() as int)
            < 1_000_000_000,
        all_digits(s) ==> 0 <= digits_value(s, s.len() as int) <= u128::MAX,
{
    if all_digits(s) {
        let n = s.len() as int;
        lemma_digits_below_pow10(s, n);
        lemma_pow10_scale(n);
        let v = digits_value(s, n);
        assert(0 <= v * spec_frac_scale(n) < pow10(n) * spec_frac_scale(n)) by (nonlinear_arith)
            requires
                0 <= v < pow10(n),
                spec_frac_scale(n) >= 1,
        ;
        assert(v <= v * spec_frac_scale(n)) by (nonlinear_arith)
            requires
                0 <= v,
                spec_frac_scale(n) >= 1,
        ;
    }
}

/// `10^(9-k)` as a machine number.
fn frac_scale(k: usize) -> (r: u128)
    requires
        k <= 9,
    ensures
        r == spec_frac_scale(k as int),
        r >= 1,
{
    proof {
        reveal_with_fuel(spec_frac_scale, 10);
    }
    match k {
        0 => 1_000_000_000,
        1 => 100_000_000,
        2 => 10_000_000,
        3 => 1_000_000,
        4 => 100_000,
        5 => 10_000,
        6 => 1_000,
        7 => 100,
        8 => 10,
        _ => 1,
    }
}

} // verus!
