//! Divisibility, greatest common divisor and least common multiple over
//! nanosecond counts. The periodic schedule rests on these: the gcd of all
//! stream rates is the tick resolution, their lcm is the hyper-period.

use vstd::prelude::*;
use vstd::arithmetic::div_mod::{lemma_fundamental_div_mod, lemma_div_multiples_vanish};

verus! {

/// `d` divides `n`.
pub open spec fn divides(d: int, n: int) -> bool {
    exists|k: int| n == #[trigger] (d * k)
}

pub proof fn lemma_divides_refl(a: int)
    ensures
        divides(a, a),
{
    assert(a == a * 1);
}

pub proof fn lemma_divides_zero(d: int)
    ensures
        divides(d, 0),
{
    assert(0int == d * 0);
}

pub proof fn lemma_divides_trans(a: int, b: int, c: int)
    requires
        divides(a, b),
        divides(b, c),
    ensures
        divides(a, c),
{
    let k1 = choose|k: int| b == #[trigger] (a * k);
    let k2 = choose|k: int| c == #[trigger] (b * k);
    assert(c == a * (k1 * k2)) by (nonlinear_arith)
        requires
            b == a * k1,
            c == b * k2,
    ;
}

/// A positive multiple is at least as large as the divisor.
pub proof fn lemma_divides_le(d: int, n: int)
    requires
        divides(d, n),
        d >= 0,
        n > 0,
    ensures
        d <= n,
{
    let k = choose|k: int| n == #[trigger] (d * k);
    assert(d <= n) by (nonlinear_arith)
        requires
            n == d * k,
            d >= 0,
            n > 0,
    ;
}

/// Two non-negative numbers that divide each other are equal.
pub proof fn lemma_divides_antisym(a: int, b: int)
    requires
        a >= 0,
        b >= 0,
        divides(a, b),
        divides(b, a),
    ensures
        a == b,
{
    if a == 0 {
        let k = choose|k: int| b == #[trigger] (a * k);
        assert(b == 0 * k);
        assert(b == 0) by (nonlinear_arith)
            requires
                b == 0 * k,
        ;
    } else if b == 0 {
        let k = choose|k: int| a == #[trigger] (b * k);
        assert(a == 0) by (nonlinear_arith)
            requires
                a == 0 * k,
        ;
    } else {
        lemma_divides_le(a, b);
        lemma_divides_le(b, a);
    }
}

/// The greatest common divisor, by Euclid's recursion.
pub open spec fn spec_gcd(a: nat, b: nat) -> nat
    decreases b,
{
    if b == 0 {
        a
    } else {
        spec_gcd(b, a % b)
    }
}

/// The gcd divides both of its arguments.
pub proof fn lemma_gcd_divides(a: nat, b: nat)
    ensures
        divides(spec_gcd(a, b) as int, a as int),
        divides(spec_gcd(a, b) as int, b as int),
    decreases b,
{
    if b == 0 {
        lemma_divides_refl(a as int);
        lemma_divides_zero(a as int);
    } else {
        lemma_gcd_divides(b, a % b);
        let g = spec_gcd(b, a % b) as int;
        let k1 = choose|k: int| b as int == #[trigger] (g * k);
        let k2 = choose|k: int| (a % b) as int == #[trigger] (g * k);
        lemma_fundamental_div_mod(a as int, b as int);
        let q = a as int / b as int;
        assert(a as int == g * (k1 * q + k2)) by (nonlinear_arith)
            requires
                a as int == b as int * q + (a % b) as int,
                b as int == g * k1,
                (a % b) as int == g * k2,
        ;
    }
}

/// Every common divisor of `a` and `b` divides their gcd.
pub proof fn lemma_gcd_greatest(d: int, a: nat, b: nat)
    requires
        divides(d, a as int),
        divides(d, b as int),
    ensures
        divides(d, spec_gcd(a, b) as int),
    decreases b,
{
    if b == 0 {
    } else {
        let k1 = choose|k: int| a as int == #[trigger] (d * k);
        let k2 = choose|k: int| b as int == #[trigger] (d * k);
        lemma_fundamental_div_mod(a as int, b as int);
        let q = a as int / b as int;
        assert((a % b) as int == d * (k1 - k2 * q)) by (nonlinear_arith)
            requires
                a as int == b as int * q + (a % b) as int,
                a as int == d * k1,
                b as int == d * k2,
        ;
        lemma_gcd_greatest(d, b, a % b);
    }
}

/// The gcd of anything with a positive number is positive.
pub proof fn lemma_gcd_pos(a: nat, b: nat)
    requires
        a > 0 || b > 0,
    ensures
        spec_gcd(a, b) > 0,
{
    lemma_gcd_divides(a, b);
    if spec_gcd(a, b) == 0 {
        let k1 = choose|k: int| a as int == #[trigger] (0 * k);
        let k2 = choose|k: int| b as int == #[trigger] (0 * k);
        assert(a == 0 && b == 0) by (nonlinear_arith)
            requires
                a as int == 0 * k1,
                b as int == 0 * k2,
        ;
    }
}

/// The gcd is commutative.
pub proof fn lemma_gcd_comm(a: nat, b: nat)
    ensures
        spec_gcd(a, b) == spec_gcd(b, a),
{
    lemma_gcd_divides(a, b);
    lemma_gcd_divides(b, a);
    lemma_gcd_greatest(spec_gcd(a, b) as int, b, a);
    lemma_gcd_greatest(spec_gcd(b, a) as int, a, b);
    lemma_divides_antisym(spec_gcd(a, b) as int, spec_gcd(b, a) as int);
}

/// The gcd is associative.
pub proof fn lemma_gcd_assoc(a: nat, b: nat, c: nat)
    ensures
        spec_gcd(spec_gcd(a, b), c) == spec_gcd(a, spec_gcd(b, c)),
{
    let ab = spec_gcd(a, b);
    let bc = spec_gcd(b, c);
    let l = spec_gcd(ab, c);
    let r = spec_gcd(a, bc);
    lemma_gcd_divides(a, b);
    lemma_gcd_divides(b, c);
    lemma_gcd_divides(ab, c);
    lemma_gcd_divides(a, bc);
    // l divides a, b and c, hence bc, hence r.
    lemma_divides_trans(l as int, ab as int, a as int);
    lemma_divides_trans(l as int, ab as int, b as int);
    lemma_gcd_greatest(l as int, b, c);
    lemma_gcd_greatest(l as int, a, bc);
    // r divides a, b and c, hence ab, hence l.
    lemma_divides_trans(r as int, bc as int, b as int);
    lemma_divides_trans(r as int, bc as int, c as int);
    lemma_gcd_greatest(r as int, a, b);
    lemma_gcd_greatest(r as int, ab, c);
    lemma_divides_antisym(l as int, r as int);
}

/// Some integer combination of `a` and `b` yields `g`.
pub open spec fn linear_combo(g: int, a: int, b: int) -> bool {
    exists|x: int, y: int| g == #[trigger] (a * x + b * y)
}

/// Bezout's identity: the gcd is an integer combination of its arguments.
pub proof fn lemma_bezout(a: nat, b: nat)
    ensures
        linear_combo(spec_gcd(a, b) as int, a as int, b as int),
    decreases b,
{
    if b == 0 {
        assert(spec_gcd(a, b) as int == a as int * 1 + b as int * 0);
    } else {
        lemma_bezout(b, a % b);
        let g = spec_gcd(b, a % b) as int;
        let (x, y) = choose|x: int, y: int| g == #[trigger] (b as int * x + (a % b) as int * y);
        lemma_fundamental_div_mod(a as int, b as int);
        let q = a as int / b as int;
        assert(g == a as int * y + b as int * (x - q * y)) by (nonlinear_arith)
            requires
                g == b as int * x + (a % b) as int * y,
                a as int == b as int * q + (a % b) as int,
        ;
    }
}

/// The least common multiple.
pub open spec fn spec_lcm(a: nat, b: nat) -> nat {
    if a == 0 || b == 0 {
        0
    } else {
        (a * b) / spec_gcd(a, b)
    }
}

/// For positive arguments, gcd * lcm == a * b, and the lcm is the product of
/// either argument with the cofactor of the other.
pub proof fn lemma_lcm_shape(a: nat, b: nat)
    requires
        a > 0,
        b > 0,
    ensures
        spec_lcm(a, b) == a * (b as int / spec_gcd(a, b) as int),
        spec_lcm(a, b) == b * (a as int / spec_gcd(a, b) as int),
        spec_gcd(a, b) * spec_lcm(a, b) == a * b,
        spec_lcm(a, b) > 0,
{
    let g = spec_gcd(a, b) as int;
    lemma_gcd_pos(a, b);
    lemma_gcd_divides(a, b);
    let ka = choose|k: int| a as int == #[trigger] (g * k);
    let kb = choose|k: int| b as int == #[trigger] (g * k);
    assert(ka > 0 && kb > 0) by (nonlinear_arith)
        requires
            a as int == g * ka,
            b as int == g * kb,
            g > 0,
            a > 0,
            b > 0,
    ;
    // a * b == g * (a * kb), so (a * b) / g == a * kb.
    assert(a as int * b as int == g * (a as int * kb)) by (nonlinear_arith)
        requires
            b as int == g * kb,
    ;
    lemma_div_multiples_vanish(a as int * kb, g);
    assert((a * b) as int / g == a as int * kb);
    assert(a as int * b as int == g * (b as int * ka)) by (nonlinear_arith)
        requires
            a as int == g * ka,
    ;
    lemma_div_multiples_vanish(b as int * ka, g);
    assert((a * b) as int / g == b as int * ka);
    // b / g == kb and a / g == ka.
    lemma_div_multiples_vanish(kb, g);
    assert(b as int / g == kb);
    lemma_div_multiples_vanish(ka, g);
    assert(a as int / g == ka);
    assert(spec_lcm(a, b) > 0) by (nonlinear_arith)
        requires
            spec_lcm(a, b) as int == a as int * kb,
            a > 0,
            kb > 0,
    ;
    assert(g * spec_lcm(a, b) as int == a as int * b as int) by (nonlinear_arith)
        requires
            spec_lcm(a, b) as int == a as int * kb,
            b as int == g * kb,
    ;
}

/// The lcm is a multiple of both of its arguments.
pub proof fn lemma_lcm_is_multiple(a: nat, b: nat)
    requires
        a > 0,
        b > 0,
    ensures
        divides(a as int, spec_lcm(a, b) as int),
        divides(b as int, spec_lcm(a, b) as int),
        spec_lcm(a, b) > 0,
{
    let g = spec_gcd(a, b) as int;
    lemma_lcm_shape(a, b);
    assert(spec_lcm(a, b) as int == a as int * (b as int / g));
    assert(spec_lcm(a, b) as int == b as int * (a as int / g));
}

/// Every common multiple of `a` and `b` is a multiple of their lcm.
pub proof fn lemma_lcm_least(a: nat, b: nat, m: nat)
    requires
        a > 0,
        b > 0,
        divides(a as int, m as int),
        divides(b as int, m as int),
    ensures
        divides(spec_lcm(a, b) as int, m as int),
{
    let g = spec_gcd(a, b) as int;
    let l = spec_lcm(a, b) as int;
    lemma_gcd_pos(a, b);
    lemma_lcm_shape(a, b);
    lemma_bezout(a, b);
    let (x, y) = choose|x: int, y: int| g == #[trigger] (a as int * x + b as int * y);
    let k1 = choose|k: int| m as int == #[trigger] (a as int * k);
    let k2 = choose|k: int| m as int == #[trigger] (b as int * k);
    // m * g == a * b * (k2 * x + k1 * y) == g * l * (k2 * x + k1 * y),
    // and g > 0, so m == l * (k2 * x + k1 * y).
    let c = k2 * x + k1 * y;
    assert(m as int * g == m as int * (a as int * x) + m as int * (b as int * y))
        by (nonlinear_arith)
        requires
            g == a as int * x + b as int * y,
    ;
    assert(m as int * (a as int * x) == (a as int * b as int) * (k2 * x)) by (nonlinear_arith)
        requires
            m as int == b as int * k2,
    ;
    assert(m as int * (b as int * y) == (a as int * b as int) * (k1 * y)) by (nonlinear_arith)
        requires
            m as int == a as int * k1,
    ;
    assert((a as int * b as int) * (k2 * x) + (a as int * b as int) * (k1 * y) == (a as int
        * b as int) * c) by (nonlinear_arith)
        requires
            c == k2 * x + k1 * y,
    ;
    assert((a as int * b as int) * c == g * (l * c)) by (nonlinear_arith)
        requires
            g * l == a as int * b as int,
    ;
    assert(m as int == l * c) by (nonlinear_arith)
        requires
            m as int * g == g * (l * c),
            g > 0,
    ;
}

/// The lcm is commutative.
pub proof fn lemma_lcm_comm(a: nat, b: nat)
    ensures
        spec_lcm(a, b) == spec_lcm(b, a),
{
    lemma_gcd_comm(a, b);
}

/// The lcm is associative.
pub proof fn lemma_lcm_assoc(a: nat, b: nat, c: nat)
    requires
        a > 0,
        b > 0,
        c > 0,
    ensures
        spec_lcm(spec_lcm(a, b), c) == spec_lcm(a, spec_lcm(b, c)),
{
    let ab = spec_lcm(a, b);
    let bc = spec_lcm(b, c);
    lemma_lcm_is_multiple(a, b);
    lemma_lcm_is_multiple(b, c);
    let l = spec_lcm(ab, c);
    let r = spec_lcm(a, bc);
    lemma_lcm_is_multiple(ab, c);
    lemma_lcm_is_multiple(a, bc);
    // a, b and c all divide l, so bc divides l, so r divides l.
    lemma_divides_trans(a as int, ab as int, l as int);
    lemma_divides_trans(b as int, ab as int, l as int);
    lemma_lcm_least(b, c, l);
    lemma_lcm_least(a, bc, l);
    // a, b and c all divide r, so ab divides r, so l divides r.
    lemma_divides_trans(b as int, bc as int, r as int);
    lemma_divides_trans(c as int, bc as int, r as int);
    lemma_lcm_least(a, b, r);
    lemma_lcm_least(ab, c, r);
    lemma_divides_antisym(l as int, r as int);
}

/// A witness decomposition `x == m * q + r` with `0 <= r < m` pins both the
/// quotient and the remainder.
pub proof fn lemma_mod_witness(x: int, q: int, r: int, m: int)
    requires
        m >= 1,
        0 <= r < m,
        x == m * q + r,
    ensures
        x % m == r,
        x / m == q,
{
    lemma_fundamental_div_mod(x, m);
    assert(x / m == q && x % m == r) by (nonlinear_arith)
        requires
            x == m * (x / m) + (x % m),
            0 <= x % m < m,
            x == m * q + r,
            0 <= r < m,
    ;
}

/// The euclidean remainder of a negated number: zero stays zero, anything
/// else reflects to the divisor's complement.
pub proof fn lemma_neg_mod(mag: int, m: int)
    requires
        mag >= 0,
        m >= 1,
    ensures
        mag % m == 0 ==> (-mag) % m == 0,
        mag % m != 0 ==> (-mag) % m == m - mag % m,
{
    lemma_fundamental_div_mod(mag, m);
    let q = mag / m;
    let r = mag % m;
    if r == 0 {
        assert(-mag == m * (-q) + 0) by (nonlinear_arith)
            requires
                mag == m * q + r,
                r == 0,
        ;
        lemma_mod_witness(-mag, -q, 0, m);
    } else {
        assert(-mag == m * (-q - 1) + (m - r)) by (nonlinear_arith)
            requires
                mag == m * q + r,
        ;
        lemma_mod_witness(-mag, -q - 1, m - r, m);
    }
}

/// Euclid's algorithm.
pub fn gcd(a: u128, b: u128) -> (r: u128)
    ensures
        r as nat == spec_gcd(a as nat, b as nat),
{
    let mut x = a;
    let mut y = b;
    while y != 0
        invariant
            spec_gcd(x as nat, y as nat) == spec_gcd(a as nat, b as nat),
        decreases y,
    {
        let t = x % y;
        x = y;
        y = t;
    }
    x
}

/// The least common multiple of two positive numbers.
pub fn lcm(a: u128, b: u128) -> (r: u128)
    requires
        a > 0,
        b > 0,
        spec_lcm(a as nat, b as nat) <= u128::MAX,
    ensures
        r as nat == spec_lcm(a as nat, b as nat),
        r > 0,
{
    let g = gcd(a, b);
    proof {
        lemma_gcd_pos(a as nat, b as nat);
        lemma_lcm_shape(a as nat, b as nat);
    }
    let cofactor = b / g;
    proof {
        assert(a as int * cofactor as int == spec_lcm(a as nat, b as nat));
    }
    a * cofactor
}

/// The gcd of all entries of a sequence, folded from the left; 0 when empty.
pub open spec fn gcd_seq(s: Seq<u128>) -> nat
    decreases s.len(),
{
    if s.len() == 0 {
        0
    } else {
        spec_gcd(gcd_seq(s.drop_last()), s.last() as nat)
    }
}

/// The lcm of all entries of a sequence, folded from the left; 1 when empty.
pub open spec fn lcm_seq(s: Seq<u128>) -> nat
    decreases s.len(),
{
    if s.len() == 0 {
        1
    } else {
        spec_lcm(lcm_seq(s.drop_last()), s.last() as nat)
    }
}

/// Every entry of a sequence is positive.
pub open spec fn all_pos(s: Seq<u128>) -> bool {
    forall|i: int| 0 <= i < s.len() ==> s[i] > 0
}

pub proof fn lemma_gcd_seq_pos(s: Seq<u128>)
    requires
        s.len() > 0,
        all_pos(s),
    ensures
        gcd_seq(s) > 0,
    decreases s.len(),
{
    assert(s.last() > 0);
    lemma_gcd_pos(gcd_seq(s.drop_last()), s.last() as nat);
}

pub proof fn lemma_lcm_seq_pos(s: Seq<u128>)
    requires
        all_pos(s),
    ensures
        lcm_seq(s) > 0,
    decreases s.len(),
{
    if s.len() > 0 {
        assert(all_pos(s.drop_last()));
        lemma_lcm_seq_pos(s.drop_last());
        lemma_lcm_is_multiple(lcm_seq(s.drop_last()), s.last() as nat);
    }
}

/// The folded gcd divides every entry.
pub proof fn lemma_gcd_seq_divides(s: Seq<u128>, i: int)
    requires
        0 <= i < s.len(),
    ensures
        divides(gcd_seq(s) as int, s[i] as int),
    decreases s.len(),
{
    lemma_gcd_divides(gcd_seq(s.drop_last()), s.last() as nat);
    if i == s.len() - 1 {
    } else {
        lemma_gcd_seq_divides(s.drop_last(), i);
        lemma_divides_trans(gcd_seq(s) as int, gcd_seq(s.drop_last()) as int, s[i] as int);
    }
}

/// Every entry divides the folded lcm.
pub proof fn lemma_lcm_seq_multiple(s: Seq<u128>, i: int)
    requires
        0 <= i < s.len(),
        all_pos(s),
    ensures
        divides(s[i] as int, lcm_seq(s) as int),
    decreases s.len(),
{
    assert(all_pos(s.drop_last()));
    lemma_lcm_seq_pos(s.drop_last());
    lemma_lcm_is_multiple(lcm_seq(s.drop_last()), s.last() as nat);
    if i == s.len() - 1 {
    } else {
        lemma_lcm_seq_multiple(s.drop_last(), i);
        lemma_divides_trans(s[i] as int, lcm_seq(s.drop_last()) as int, lcm_seq(s) as int);
    }
}

/// A prefix's folded lcm divides the whole sequence's folded lcm.
pub proof fn lemma_lcm_seq_prefix(s: Seq<u128>, n: int)
    requires
        0 <= n <= s.len(),
        all_pos(s),
    ensures
        divides(lcm_seq(s.take(n)) as int, lcm_seq(s) as int),
    decreases s.len() - n,
{
    if n == s.len() {
        assert(s.take(n) =~= s);
        lemma_lcm_seq_pos(s);
        lemma_divides_refl(lcm_seq(s) as int);
    } else {
        assert(s.take(n + 1).drop_last() =~= s.take(n));
        assert(all_pos(s.take(n)));
        lemma_lcm_seq_pos(s.take(n));
        lemma_lcm_is_multiple(lcm_seq(s.take(n)), s[n] as nat);
        lemma_lcm_seq_prefix(s, n + 1);
        lemma_divides_trans(
            lcm_seq(s.take(n)) as int,
            lcm_seq(s.take(n + 1)) as int,
            lcm_seq(s) as int,
        );
    }
}

/// The gcd of all entries; callers guarantee at least one entry.
pub fn gcd_all(rates: &Vec<u128>) -> (r: u128)
    requires
        rates@.len() > 0,
    ensures
        r as nat == gcd_seq(rates@),
{
    let mut g: u128 = 0;
    let mut i: usize = 0;
    proof {
        assert(rates@.take(0int) =~= Seq::<u128>::empty());
    }
    while i < rates.len()
        invariant
            0 <= i <= rates@.len(),
            g as nat == gcd_seq(rates@.take(i as int)),
        decreases rates@.len() - i,
    {
        proof {
            assert(rates@.take(i as int + 1).drop_last() =~= rates@.take(i as int));
            assert(rates@.take(i as int + 1).last() == rates@[i as int]);
        }
        g = gcd(g, rates[i]);
        i = i + 1;
    }
    proof {
        assert(rates@.take(rates@.len() as int) =~= rates@);
    }
    g
}

/// The lcm of all entries; callers guarantee positive entries and a result
/// that fits the machine word.
pub fn lcm_all(rates: &Vec<u128>) -> (r: u128)
    requires
        rates@.len() > 0,
        all_pos(rates@),
        lcm_seq(rates@) <= u128::MAX,
    ensures
        r as nat == lcm_seq(rates@),
        r > 0,
{
    let mut l: u128 = 1;
    let mut i: usize = 0;
    proof {
        assert(rates@.take(0int) =~= Seq::<u128>::empty());
    }
    while i < rates.len()
        invariant
            0 <= i <= rates@.len(),
            all_pos(rates@),
            lcm_seq(rates@) <= u128::MAX,
            l as nat == lcm_seq(rates@.take(i as int)),
            l > 0,
        decreases rates@.len() - i,
    {
        proof {
            assert(rates@.take(i as int + 1).drop_last() =~= rates@.take(i as int));
            assert(rates@.take(i as int + 1).last() == rates@[i as int]);
            assert(all_pos(rates@.take(i as int + 1)));
            lemma_lcm_seq_prefix(rates@, i as int + 1);
            lemma_lcm_seq_pos(rates@);
            lemma_divides_le(lcm_seq(rates@.take(i as int + 1)) as int, lcm_seq(rates@) as int);
        }
        l = lcm(l, rates[i]);
        i = i + 1;
    }
    proof {
        assert(rates@.take(rates@.len() as int) =~= rates@);
    }
    l
}


/// The least common multiple of two positive numbers, detecting overflow.
pub fn lcm_checked(a: u128, b: u128) -> (r: Option<u128>)
    requires
        a > 0,
        b > 0,
    ensures
        match r {
            Some(l) => l as nat == spec_lcm(a as nat, b as nat) && l > 0,
            None => spec_lcm(a as nat, b as nat) > u128::MAX,
        },
{
    let g = gcd(a, b);
    proof {
        lemma_gcd_pos(a as nat, b as nat);
        lemma_lcm_shape(a as nat, b as nat);
    }
    let cofactor = b / g;
    a.checked_mul(cofactor)
}

/// The least common multiple of all entries, detecting overflow.
pub fn lcm_all_checked(rates: &Vec<u128>) -> (r: Option<u128>)
    requires
        rates@.len() > 0,
        all_pos(rates@),
    ensures
        match r {
            Some(l) => l as nat == lcm_seq(rates@) && l > 0 && lcm_seq(rates@) <= u128::MAX,
            None => lcm_seq(rates@) > u128::MAX,
        },
{
    let mut l: u128 = 1;
    let mut i: usize = 0;
    proof {
        assert(rates@.take(0int) =~= Seq::<u128>::empty());
    }
    while i < rates.len()
        invariant
            0 <= i <= rates@.len(),
            all_pos(rates@),
            l as nat == lcm_seq(rates@.take(i as int)),
            l > 0,
        decreases rates@.len() - i,
    {
        proof {
            assert(rates@.take(i as int + 1).drop_last() =~= rates@.take(i as int));
            assert(rates@.take(i as int + 1).last() == rates@[i as int]);
            assert(all_pos(rates@.take(i as int + 1)));
        }
        l = match lcm_checked(l, rates[i]) {
            Some(v) => v,
            None => {
                proof {
                    lemma_lcm_seq_prefix(rates@, i as int + 1);
                    lemma_lcm_seq_pos(rates@);
                    lemma_divides_le(
                        lcm_seq(rates@.take(i as int + 1)) as int,
                        lcm_seq(rates@) as int,
                    );
                }
                return None;
            },
        };
        i = i + 1;
    }
    proof {
        assert(rates@.take(rates@.len() as int) =~= rates@);
    }
    Some(l)
}

} // verus!
