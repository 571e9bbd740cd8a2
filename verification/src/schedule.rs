//! The periodic schedule: from the rates of the time-driven streams, a cyclic
//! list of deadlines covering one hyper-period. The tick is the gcd of the
//! rates, the hyper-period their lcm; a stream with rate `r` fires at every
//! multiple of `r`, so it stands in exactly `hyper_period / r` deadlines, and
//! the pauses of all deadlines sum to the hyper-period.

use vstd::prelude::*;
use vstd::arithmetic::div_mod::{lemma_fundamental_div_mod, lemma_div_multiples_vanish};
use crate::ir::{
    LolaIR, StreamReference, TimeDrivenStream, no_dups, lemma_no_dups_push, spec_out_layer,
};
use crate::math::{
    divides, gcd_all, gcd_seq, lcm_all, lcm_seq, all_pos, lemma_gcd_seq_divides,
    lemma_lcm_seq_multiple, lemma_gcd_seq_pos, lemma_lcm_seq_pos, lemma_divides_trans,
    lemma_divides_le,
};
use crate::time::{divide_durations, div_round_spec};

verus! {

/// One deadline of the schedule: how long to wait after the previous
/// deadline, and which streams are due then.
#[derive(Debug, Clone, PartialEq)]
pub struct Deadline {
    /// The wait before this deadline, in nanoseconds; always positive.
    pub pause: u128,
    /// The streams due at this deadline.
    pub due: Vec<StreamReference>,
}

/// The cyclic schedule of one hyper-period.
#[derive(Debug, Clone, PartialEq)]
pub struct Schedule {
    /// The tick: the gcd of all rates, in nanoseconds.
    pub gcd: u128,
    /// The cycle length: the lcm of all rates, in nanoseconds.
    pub hyper_period: u128,
    /// The deadlines of one cycle, in order.
    pub deadlines: Vec<Deadline>,
}

/// The rates of the time-driven streams, in list order.
pub open spec fn spec_rates(tds: Seq<TimeDrivenStream>) -> Seq<u128> {
    Seq::new(tds.len(), |i: int| tds[i].extend_rate)
}

/// The sum of the pauses of a deadline list.
pub open spec fn sum_pauses(ds: Seq<Deadline>) -> int
    decreases ds.len(),
{
    if ds.len() == 0 {
        0
    } else {
        sum_pauses(ds.drop_last()) + ds.last().pause
    }
}

/// The cumulative pause through deadline `k` of the list, in nanoseconds;
/// zero for `k` below the first deadline.
pub open spec fn cum_pause(ds: Seq<Deadline>, k: int) -> int {
    sum_pauses(ds.take(k + 1))
}

/// Cumulative pauses never decrease along the deadline list.
pub proof fn lemma_cum_mono(ds: Seq<Deadline>, k1: int, k2: int)
    requires
        0 <= k1 <= k2 < ds.len(),
    ensures
        cum_pause(ds, k1) <= cum_pause(ds, k2),
    decreases k2 - k1,
{
    if k1 < k2 {
        lemma_cum_mono(ds, k1, k2 - 1);
        assert(ds.take(k2 + 1).drop_last() =~= ds.take(k2));
    }
}

/// Two deadline lists with pairwise equal pauses have equal cumulative
/// pauses everywhere.
pub proof fn lemma_cum_pointwise(ds1: Seq<Deadline>, ds2: Seq<Deadline>, k: int)
    requires
        ds1.len() == ds2.len(),
        forall|j: int| 0 <= j < ds1.len() ==> (#[trigger] ds2[j].pause) == ds1[j].pause,
        -1 <= k < ds1.len(),
    ensures
        cum_pause(ds2, k) == cum_pause(ds1, k),
{
    assert forall|j: int| 0 <= j < ds1.take(k + 1).len() implies (#[trigger] ds2.take(
        k + 1,
    )[j].pause) == ds1.take(k + 1)[j].pause by {
        assert(ds1.take(k + 1)[j] == ds1[j]);
    }
    lemma_sum_pauses_pointwise(ds1.take(k + 1), ds2.take(k + 1));
}

/// Pushing a deadline leaves every earlier cumulative pause unchanged.
pub proof fn lemma_cum_push(ds: Seq<Deadline>, d: Deadline, k: int)
    requires
        -1 <= k < ds.len(),
    ensures
        cum_pause(ds.push(d), k) == cum_pause(ds, k),
{
    assert(ds.push(d).take(k + 1) =~= ds.take(k + 1));
}

/// The cumulative pause through a pushed deadline: everything before it plus
/// its own pause.
pub proof fn lemma_cum_push_last(ds: Seq<Deadline>, d: Deadline)
    ensures
        cum_pause(ds.push(d), ds.len() as int) == sum_pauses(ds) + d.pause,
{
    assert(ds.push(d).take(ds.len() as int + 1) =~= ds.push(d));
    assert(ds.push(d).drop_last() =~= ds);
}

/// In how many deadlines of the list the stream stands.
pub open spec fn count_deadlines_with(ds: Seq<Deadline>, r: StreamReference) -> int
    decreases ds.len(),
{
    if ds.len() == 0 {
        0
    } else {
        count_deadlines_with(ds.drop_last(), r) + if ds.last().due@.contains(r) {
            1int
        } else {
            0int
        }
    }
}

/// In how many of the slot lists the stream stands.
pub open spec fn count_slots_with(ss: Seq<Vec<StreamReference>>, r: StreamReference) -> int
    decreases ss.len(),
{
    if ss.len() == 0 {
        0
    } else {
        count_slots_with(ss.drop_last(), r) + if ss.last()@.contains(r) {
            1int
        } else {
            0int
        }
    }
}

/// How many of the numbers `1 ..= n` are multiples of `m`.
pub open spec fn count_multiples(n: int, m: int) -> int
    decreases n,
{
    if n <= 0 {
        0
    } else {
        count_multiples(n - 1, m) + if n % m == 0 {
            1int
        } else {
            0int
        }
    }
}

/// Dividing by `m` counts the multiples of `m` up to the dividend.
proof fn lemma_count_multiples_is_div(n: int, m: int)
    requires
        n >= 0,
        m >= 1,
    ensures
        count_multiples(n, m) == n / m,
    decreases n,
{
    if n == 0 {
        assert(0int / m == 0) by (nonlinear_arith)
            requires
                m >= 1,
        ;
    } else {
        lemma_count_multiples_is_div(n - 1, m);
        lemma_div_step(n, m);
    }
}

/// The quotient grows by one exactly at multiples of the divisor.
proof fn lemma_div_step(n: int, m: int)
    requires
        n >= 1,
        m >= 1,
    ensures
        n / m == (n - 1) / m + if n % m == 0 {
            1int
        } else {
            0int
        },
{
    lemma_fundamental_div_mod(n, m);
    let q = n / m;
    let r = n % m;
    if r == 0 {
        // n - 1 == m * (q - 1) + (m - 1).
        assert(n - 1 == m * (q - 1) + (m - 1)) by (nonlinear_arith)
            requires
                n == m * q + r,
                r == 0,
        ;
        lemma_quotient_of(n - 1, q - 1, m - 1, m);
    } else {
        assert(n - 1 == m * q + (r - 1)) by (nonlinear_arith)
            requires
                n == m * q + r,
        ;
        lemma_quotient_of(n - 1, q, r - 1, m);
    }
}

/// A witness decomposition `x == m * q + r` with `0 <= r < m` pins `x / m`.
proof fn lemma_quotient_of(x: int, q: int, r: int, m: int)
    requires
        m >= 1,
        0 <= r < m,
        x == m * q + r,
    ensures
        x / m == q,
{
    lemma_fundamental_div_mod(x, m);
    assert(x / m == q) by (nonlinear_arith)
        requires
            x == m * (x / m) + (x % m),
            0 <= x % m < m,
            x == m * q + r,
            0 <= r < m,
    ;
}

/// Whether the list is ordered by evaluation layer: a deadline evaluates
/// its due streams in dependency order.
pub open spec fn due_in_layer_order(ir: &LolaIR, due: Seq<StreamReference>) -> bool {
    forall|a: int, b: int|
        #![trigger due[a], due[b]]
        0 <= a < b < due.len() ==> spec_out_layer(ir, due[a]) <= spec_out_layer(ir, due[b])
}

/// Two deadline lists with pairwise equal pauses have equal pause sums.
pub proof fn lemma_sum_pauses_pointwise(ds1: Seq<Deadline>, ds2: Seq<Deadline>)
    requires
        ds1.len() == ds2.len(),
        forall|k: int| 0 <= k < ds1.len() ==> (#[trigger] ds2[k].pause) == ds1[k].pause,
    ensures
        sum_pauses(ds2) == sum_pauses(ds1),
    decreases ds1.len(),
{
    if ds1.len() > 0 {
        lemma_sum_pauses_pointwise(ds1.drop_last(), ds2.drop_last());
    }
}

/// Reorders a due list by evaluation layer, keeping exactly its members.
pub fn sort_due_by_layer(ir: &LolaIR, due: &Vec<StreamReference>) -> (r: Vec<StreamReference>)
    requires
        forall|i: int|
            0 <= i < due@.len() ==> (#[trigger] due@[i]) is OutRef && due@[i].spec_ix()
                < ir.outputs@.len(),
        no_dups(due@),
    ensures
        forall|x: StreamReference| #[trigger] r@.contains(x) <==> due@.contains(x),
        no_dups(r@),
        due_in_layer_order(ir, r@),
    {
    let n = due.len();
    if n == 0 {
        return Vec::new();
    }
    // The greatest layer among the due streams.
    let mut max_layer: u32 = 0;
    let mut i: usize = 0;
    while i < n
        invariant
            n == due@.len(),
            0 <= i <= n,
            forall|j: int|
                0 <= j < due@.len() ==> (#[trigger] due@[j]) is OutRef && due@[j].spec_ix()
                    < ir.outputs@.len(),
            forall|j: int| 0 <= j < i ==> spec_out_layer(ir, #[trigger] due@[j]) <= max_layer,
        decreases n - i,
    {
        let s = ir.get_out(due[i]);
        if s.layer > max_layer {
            max_layer = s.layer;
        }
        i = i + 1;
    }
    // One pass per layer, collecting its streams in list order.
    let mut out: Vec<StreamReference> = Vec::new();
    let mut l: u64 = 0;
    while l <= max_layer as u64
        invariant
            n == due@.len(),
            0 <= l <= max_layer as u64 + 1,
            no_dups(due@),
            forall|j: int|
                0 <= j < due@.len() ==> (#[trigger] due@[j]) is OutRef && due@[j].spec_ix()
                    < ir.outputs@.len(),
            forall|j: int| 0 <= j < n ==> spec_out_layer(ir, #[trigger] due@[j]) <= max_layer,
            forall|x: StreamReference| #[trigger]
                out@.contains(x) <==> (due@.contains(x) && spec_out_layer(ir, x) < l),
            no_dups(out@),
            forall|a: int| 0 <= a < out@.len() ==> spec_out_layer(ir, #[trigger] out@[a]) < l,
            due_in_layer_order(ir, out@),
        decreases max_layer as u64 + 1 - l,
    {
        let mut j: usize = 0;
        while j < n
            invariant
                n == due@.len(),
                0 <= j <= n,
                no_dups(due@),
                forall|j2: int|
                    0 <= j2 < due@.len() ==> (#[trigger] due@[j2]) is OutRef && due@[j2].spec_ix()
                        < ir.outputs@.len(),
                forall|x: StreamReference| #[trigger]
                    out@.contains(x) <==> (due@.contains(x) && (spec_out_layer(ir, x) < l || (
                    spec_out_layer(ir, x) == l && due@.take(j as int).contains(x)))),
                no_dups(out@),
                forall|a: int| 0 <= a < out@.len() ==> spec_out_layer(ir, #[trigger] out@[a]) <= l,
                due_in_layer_order(ir, out@),
            decreases n - j,
        {
            let s = ir.get_out(due[j]);
            if s.layer as u64 == l {
                let ghost prev = out@;
                proof {
                    assert(!prev.contains(due@[j as int])) by {
                        if due@.take(j as int).contains(due@[j as int]) {
                            let w = choose|w: int|
                                0 <= w < j && #[trigger] due@.take(j as int)[w] == due@[j as int];
                            assert(due@[w] == due@[j as int]);
                        }
                    }
                    lemma_no_dups_push(prev, due@[j as int]);
                }
                out.push(due[j]);
                proof {
                    assert(due@.take(j as int + 1) =~= due@.take(j as int).push(due@[j as int]));
                    assert(due@.contains(due@[j as int]));
                    assert(due@.take(j as int + 1).contains(due@[j as int])) by {
                        assert(due@.take(j as int + 1).last() == due@[j as int]);
                    }
                    assert forall|x: StreamReference| #[trigger]
                        out@.contains(x) implies (due@.contains(x) && (spec_out_layer(ir, x) < l
                        || (spec_out_layer(ir, x) == l && due@.take(j as int + 1).contains(
                        x,
                    )))) by {
                        if x == due@[j as int] {
                        } else {
                            let w = choose|w: int| 0 <= w < out@.len() && out@[w] == x;
                            assert(prev[w] == x);
                            assert(prev.contains(x));
                            if spec_out_layer(ir, x) == l {
                                let w2 = choose|w2: int|
                                    0 <= w2 < j && #[trigger] due@.take(j as int)[w2] == x;
                                assert(due@.take(j as int + 1)[w2] == x);
                            }
                        }
                    }
                    assert forall|x: StreamReference|
                        (due@.contains(x) && (spec_out_layer(ir, x) < l || (spec_out_layer(ir, x)
                            == l && due@.take(j as int + 1).contains(x)))) implies #[trigger] out@.contains(
                        x,
                    ) by {
                        if x == due@[j as int] {
                            assert(out@.last() == x);
                        } else {
                            if spec_out_layer(ir, x) == l && due@.take(j as int + 1).contains(x) {
                                let w2 = choose|w2: int|
                                    0 <= w2 < j + 1 && #[trigger] due@.take(j as int + 1)[w2] == x;
                                assert(w2 < j);
                                assert(due@.take(j as int)[w2] == x);
                            }
                            assert(prev.contains(x));
                            let w = choose|w: int| 0 <= w < prev.len() && prev[w] == x;
                            assert(out@[w] == x);
                        }
                    }
                    assert forall|a: int, b: int|
                        #![trigger out@[a], out@[b]]
                        0 <= a < b < out@.len() implies spec_out_layer(ir, out@[a])
                        <= spec_out_layer(ir, out@[b]) by {
                        if b < prev.len() {
                            assert(out@[a] == prev[a] && out@[b] == prev[b]);
                        } else {
                            assert(out@[b] == due@[j as int]);
                            assert(out@[a] == prev[a]);
                            assert(prev.contains(prev[a]));
                        }
                    }
                }
            } else {
                proof {
                    assert(due@.take(j as int + 1) =~= due@.take(j as int).push(due@[j as int]));
                    assert forall|x: StreamReference| #[trigger]
                        out@.contains(x) <==> (due@.contains(x) && (spec_out_layer(ir, x) < l || (
                        spec_out_layer(ir, x) == l && due@.take(j as int + 1).contains(
                        x,
                    )))) by {
                        if !out@.contains(x) && due@.contains(x) && spec_out_layer(ir, x) == l
                            && due@.take(j as int + 1).contains(x) {
                            let w2 = choose|w2: int|
                                0 <= w2 < j + 1 && #[trigger] due@.take(j as int + 1)[w2] == x;
                            if w2 == j {
                                assert(x == due@[j as int]);
                                assert(spec_out_layer(ir, x) != l);
                            } else {
                                assert(due@.take(j as int)[w2] == x);
                            }
                        }
                    }
                }
            }
            j = j + 1;
        }
        proof {
            assert(due@.take(n as int) =~= due@);
            assert forall|x: StreamReference| #[trigger]
                out@.contains(x) <==> (due@.contains(x) && spec_out_layer(ir, x) < l + 1) by {
                if due@.contains(x) && spec_out_layer(ir, x) < l + 1 {
                    if spec_out_layer(ir, x) == l {
                        assert(due@.take(n as int).contains(x));
                    }
                }
            }
        }
        l = l + 1;
    }
    proof {
        assert forall|x: StreamReference| #[trigger] out@.contains(x) <==> due@.contains(x) by {
            if due@.contains(x) {
                let w = choose|w: int| 0 <= w < due@.len() && due@[w] == x;
                assert(spec_out_layer(ir, due@[w]) <= max_layer);
            }
        }
    }
    out
}

/// Scaling by a positive factor preserves divisibility: `q * g` is a
/// multiple of `m * g` exactly when `q` is a multiple of `m`.
proof fn lemma_mod_scale(q: int, m: int, g: int)
    requires
        m >= 1,
        g >= 1,
    ensures
        ((q * g) % (m * g) == 0) <==> (q % m == 0),
{
    lemma_fundamental_div_mod(q, m);
    assert(q * g == (q / m) * (m * g) + (q % m) * g) by (nonlinear_arith)
        requires
            q == m * (q / m) + q % m,
    ;
    assert(0 <= (q % m) * g < m * g) by (nonlinear_arith)
        requires
            0 <= q % m < m,
            g >= 1,
    ;
    vstd::arithmetic::div_mod::lemma_fundamental_div_mod_converse(
        q * g,
        m * g,
        q / m,
        (q % m) * g,
    );
    assert(((q % m) * g == 0) <==> (q % m == 0)) by (nonlinear_arith)
        requires
            g >= 1,
            0 <= q % m,
    ;
}

impl Schedule {
    /// The most time the engine may wait between checks for due deadlines
    /// without missing one: the gcd of all rates. It divides every rate.
    pub fn find_extend_period(rates: &Vec<u128>) -> (r: u128)
        requires
            rates@.len() > 0,
        ensures
            r == gcd_seq(rates@),
            forall|i: int| 0 <= i < rates@.len() ==> divides(r as int, #[trigger] rates@[i] as int),
    {
        let g = gcd_all(rates);
        proof {
            assert forall|i: int| 0 <= i < rates@.len() implies divides(
                g as int,
                #[trigger] rates@[i] as int,
            ) by {
                lemma_gcd_seq_divides(rates@, i);
            }
        }
        g
    }

    /// The hyper-period of the given rates: their lcm. Every rate divides it.
    pub fn find_hyper_period(rates: &Vec<u128>) -> (r: u128)
        requires
            rates@.len() > 0,
            all_pos(rates@),
            lcm_seq(rates@) <= u128::MAX,
        ensures
            r == lcm_seq(rates@),
            r > 0,
            forall|i: int| 0 <= i < rates@.len() ==> divides(#[trigger] rates@[i] as int, r as int),
    {
        let l = lcm_all(rates);
        proof {
            assert forall|i: int| 0 <= i < rates@.len() implies divides(
                #[trigger] rates@[i] as int,
                l as int,
            ) by {
                lemma_lcm_seq_multiple(rates@, i);
            }
        }
        l
    }

    /// One empty slot per tick of the hyper-period, with each stream put into
    /// the slot of its first firing.
    fn build_extend_steps(ir: &LolaIR, gcd: u128, hyper_period: u128) -> (steps: Vec<
        Vec<StreamReference>,
    >)
        requires
            gcd > 0,
            div_round_spec(hyper_period as int, gcd as int, false) <= usize::MAX,
            forall|i: int|
                0 <= i < ir.time_driven@.len() ==> {
                    &&& (#[trigger] ir.time_driven@[i].extend_rate) > 0
                    &&& divides(gcd as int, ir.time_driven@[i].extend_rate as int)
                    &&& ir.time_driven@[i].extend_rate <= hyper_period
                },
            forall|i: int, k: int|
                0 <= i < k < ir.time_driven@.len() ==> (#[trigger] ir.time_driven@[i].reference)
                    != (#[trigger] ir.time_driven@[k].reference),
        ensures
            steps@.len() == hyper_period as int / gcd as int,
            forall|j: int, r: StreamReference|
                0 <= j < steps@.len() ==> (#[trigger] steps@[j]@.contains(r) <==> exists|i: int|
                    0 <= i < ir.time_driven@.len() && (#[trigger] ir.time_driven@[i].reference)
                        == r && j == ir.time_driven@[i].extend_rate as int / gcd as int - 1),
            forall|j: int| 0 <= j < steps@.len() ==> no_dups(#[trigger] steps@[j]@),
    {
        let num_steps = divide_durations(hyper_period, gcd, false);
        let mut steps: Vec<Vec<StreamReference>> = Vec::new();
        while steps.len() < num_steps
            invariant
                steps@.len() <= num_steps,
                forall|j: int| 0 <= j < steps@.len() ==> (#[trigger] steps@[j]@) =~= Seq::empty(),
            decreases num_steps - steps@.len(),
        {
            steps.push(Vec::new());
        }
        let tds_len = ir.time_driven.len();
        let mut i: usize = 0;
        while i < tds_len
            invariant
                tds_len == ir.time_driven@.len(),
                0 <= i <= tds_len,
                gcd > 0,
                steps@.len() == num_steps,
                num_steps == div_round_spec(hyper_period as int, gcd as int, false),
                forall|k: int|
                    0 <= k < ir.time_driven@.len() ==> {
                        &&& (#[trigger] ir.time_driven@[k].extend_rate) > 0
                        &&& divides(gcd as int, ir.time_driven@[k].extend_rate as int)
                        &&& ir.time_driven@[k].extend_rate <= hyper_period
                    },
                forall|j: int, r: StreamReference|
                    0 <= j < steps@.len() ==> (#[trigger] steps@[j]@.contains(r) <==> exists|k: int|
                        0 <= k < i && (#[trigger] ir.time_driven@[k].reference) == r && j
                            == ir.time_driven@[k].extend_rate as int / gcd as int - 1),
                forall|k: int, k2: int|
                    0 <= k < k2 < ir.time_driven@.len() ==> (
                    #[trigger] ir.time_driven@[k].reference) != (
                    #[trigger] ir.time_driven@[k2].reference),
                forall|j: int| 0 <= j < steps@.len() ==> no_dups(#[trigger] steps@[j]@),
            decreases tds_len - i,
        {
            let s = &ir.time_driven[i];
            let ghost prev = steps@;
            proof {
                // The first firing of this stream lies within the hyper-period.
                let m = s.extend_rate as int / gcd as int;
                lemma_div_exact_pos(s.extend_rate as int, gcd as int);
                vstd::arithmetic::div_mod::lemma_div_is_ordered(
                    s.extend_rate as int,
                    hyper_period as int,
                    gcd as int,
                );
            }
            let ix = divide_durations(s.extend_rate, gcd, false) - 1;
            proof {
                // The stream is not yet in its slot: an earlier occupant
                // would be an earlier entry with the same reference.
                assert(!steps@[ix as int]@.contains(s.reference)) by {
                    if steps@[ix as int]@.contains(s.reference) {
                        let k = choose|k: int|
                            0 <= k < i && (#[trigger] ir.time_driven@[k].reference) == s.reference
                                && ix as int == ir.time_driven@[k].extend_rate as int / gcd as int
                                - 1;
                        assert(ir.time_driven@[k].reference == ir.time_driven@[
                            i as int
                        ].reference);
                    }
                }
                lemma_no_dups_push(steps@[ix as int]@, s.reference);
            }
            let slot = &mut steps[ix];
            slot.push(s.reference);
            proof {
                assert forall|j: int| 0 <= j < steps@.len() implies no_dups(
                    #[trigger] steps@[j]@,
                ) by {
                    if j != ix {
                        assert(steps@[j]@ == prev[j]@);
                    } else {
                        assert(steps@[j]@ == prev[j]@.push(s.reference));
                    }
                }
                assert forall|j: int, r: StreamReference|
                    0 <= j < steps@.len() implies (#[trigger] steps@[j]@.contains(r) <==> exists|
                    k: int,
                |
                    0 <= k < i + 1 && (#[trigger] ir.time_driven@[k].reference) == r && j
                        == ir.time_driven@[k].extend_rate as int / gcd as int - 1) by {
                    if j == ix {
                        assert(steps@[j]@ == prev[j]@.push(s.reference));
                        if steps@[j]@.contains(r) {
                            if r == s.reference {
                                assert(ir.time_driven@[i as int].reference == r);
                            } else {
                                assert(prev[j]@.contains(r));
                            }
                        }
                        if exists|k: int|
                            0 <= k < i + 1 && (#[trigger] ir.time_driven@[k].reference) == r && j
                                == ir.time_driven@[k].extend_rate as int / gcd as int - 1 {
                            let k = choose|k: int|
                                0 <= k < i + 1 && (#[trigger] ir.time_driven@[k].reference) == r
                                    && j == ir.time_driven@[k].extend_rate as int / gcd as int - 1;
                            if k == i {
                                assert(steps@[j]@.last() == r);
                            } else {
                                assert(prev[j]@.contains(r));
                                assert(steps@[j]@.contains(r)) by {
                                    let t = choose|t: int| 0 <= t < prev[j]@.len() && prev[j]@[t] == r;
                                    assert(steps@[j]@[t] == r);
                                }
                            }
                        }
                    } else {
                        assert(steps@[j]@ == prev[j]@);
                    }
                }
            }
            i = i + 1;
        }
        steps
    }

    /// Adds every later firing: a stream first firing at slot `f` also fires
    /// at every slot `k * (f + 1) - 1` within the hyper-period. With each
    /// stream entering in one slot only, no slot of the result names a
    /// stream twice.
    fn apply_periodicity(steps: &Vec<Vec<StreamReference>>) -> (res: Vec<Vec<StreamReference>>)
        requires
            forall|j: int| 0 <= j < steps@.len() ==> no_dups(#[trigger] steps@[j]@),
            forall|j1: int, j2: int, r: StreamReference|
                #![trigger steps@[j1]@.contains(r), steps@[j2]@.contains(r)]
                0 <= j1 < j2 < steps@.len() && steps@[j1]@.contains(r) ==> !(steps@[j2]@.contains(
                    r,
                )),
        ensures
            res@.len() == steps@.len(),
            forall|j: int, r: StreamReference|
                0 <= j < res@.len() ==> (#[trigger] res@[j]@.contains(r) <==> exists|ix: int|
                    0 <= ix < steps@.len() && (#[trigger] steps@[ix]@).contains(r) && (j + 1) % (ix
                        + 1) == 0),
            forall|j: int| 0 <= j < res@.len() ==> no_dups(#[trigger] res@[j]@),
    {
        let n = steps.len();
        let mut res: Vec<Vec<StreamReference>> = Vec::new();
        let mut j: usize = 0;
        while j < n
            invariant
                n == steps@.len(),
                0 <= j <= n,
                res@.len() == j,
                forall|j2: int, r: StreamReference|
                    0 <= j2 < j ==> (#[trigger] res@[j2]@.contains(r) <==> exists|ix: int|
                        0 <= ix < steps@.len() && (#[trigger] steps@[ix]@).contains(r) && (j2 + 1)
                            % (ix + 1) == 0),
                forall|j2: int| 0 <= j2 < j ==> no_dups(#[trigger] res@[j2]@),
                forall|x: int| 0 <= x < steps@.len() ==> no_dups(#[trigger] steps@[x]@),
                forall|j1: int, j2: int, r: StreamReference|
                    #![trigger steps@[j1]@.contains(r), steps@[j2]@.contains(r)]
                    0 <= j1 < j2 < steps@.len() && steps@[j1]@.contains(r) ==> !(steps@[j2]@.contains(
                        r,
                    )),
            decreases n - j,
        {
            let mut slot: Vec<StreamReference> = Vec::new();
            let mut ix: usize = 0;
            while ix < n
                invariant
                    n == steps@.len(),
                    0 <= ix <= n,
                    0 <= j < n,
                    forall|r: StreamReference| #[trigger]
                        slot@.contains(r) <==> exists|x: int|
                            0 <= x < ix && (#[trigger] steps@[x]@).contains(r) && (j + 1) % (x + 1)
                                == 0,
                    no_dups(slot@),
                    forall|x: int| 0 <= x < steps@.len() ==> no_dups(#[trigger] steps@[x]@),
                    forall|j1: int, j2: int, r: StreamReference|
                        #![trigger steps@[j1]@.contains(r), steps@[j2]@.contains(r)]
                        0 <= j1 < j2 < steps@.len() && steps@[j1]@.contains(r) ==> !(steps@[j2]@.contains(
                            r,
                        )),
                decreases n - ix,
            {
                if (j + 1) % (ix + 1) == 0 {
                    let ghost before = slot@;
                    let src = &steps[ix];
                    let mut t: usize = 0;
                    while t < src.len()
                        invariant
                            0 <= t <= src@.len(),
                            src == steps@[ix as int],
                            0 <= ix < n == steps@.len(),
                            0 <= j < n,
                            (j + 1) as int % (ix + 1) as int == 0,
                            forall|r: StreamReference| #[trigger]
                                slot@.contains(r) <==> (before.contains(r) || src@.take(
                                    t as int,
                                ).contains(r)),
                            forall|r: StreamReference| #[trigger]
                                before.contains(r) <==> exists|x: int|
                                    0 <= x < ix && (#[trigger] steps@[x]@).contains(r) && (j + 1) % (
                                    x + 1) == 0,
                            no_dups(slot@),
                            forall|x: int| 0 <= x < steps@.len() ==> no_dups(#[trigger] steps@[x]@),
                            forall|j1: int, j2: int, r: StreamReference|
                                #![trigger steps@[j1]@.contains(r), steps@[j2]@.contains(r)]
                                0 <= j1 < j2 < steps@.len() && steps@[j1]@.contains(r)
                                    ==> !(steps@[j2]@.contains(r)),
                        decreases src@.len() - t,
                    {
                        let ghost prev_slot = slot@;
                        proof {
                            // The element is new to the slot: its own list
                            // names it once, and no other slot names it.
                            assert(!prev_slot.contains(src@[t as int])) by {
                                if src@.take(t as int).contains(src@[t as int]) {
                                    let w = choose|w: int|
                                        0 <= w < t && #[trigger] src@.take(t as int)[w] == src@[
                                        t as int];
                                    assert(src@[w] == src@[t as int]);
                                    assert(no_dups(steps@[ix as int]@));
                                }
                                if before.contains(src@[t as int]) {
                                    let x = choose|x: int|
                                        0 <= x < ix && (#[trigger] steps@[x]@).contains(
                                            src@[t as int],
                                        ) && (j + 1) % (x + 1) == 0;
                                    assert(steps@[ix as int]@.contains(src@[t as int]));
                                }
                            }
                            lemma_no_dups_push(prev_slot, src@[t as int]);
                        }
                        slot.push(src[t]);
                        proof {
                            assert forall|r: StreamReference| #[trigger]
                                slot@.contains(r) <==> (before.contains(r) || src@.take(
                                    t as int + 1,
                                ).contains(r)) by {
                                assert(src@.take(t as int + 1) =~= src@.take(t as int).push(
                                    src@[t as int],
                                ));
                                if slot@.contains(r) {
                                    if r == src@[t as int] {
                                        assert(src@.take(t as int + 1).last() == r);
                                    } else {
                                        assert(prev_slot.contains(r));
                                    }
                                } else {
                                }
                                if before.contains(r) || src@.take(t as int + 1).contains(r) {
                                    if before.contains(r) {
                                        lemma_contains_push(prev_slot, src@[t as int], r);
                                    } else {
                                        let w = choose|w: int|
                                            0 <= w < t + 1 && #[trigger] src@.take(
                                                t as int + 1,
                                            )[w] == r;
                                        if w < t {
                                            assert(src@.take(t as int)[w] == r);
                                            lemma_contains_push(prev_slot, src@[t as int], r);
                                        } else {
                                            assert(slot@.last() == r);
                                        }
                                    }
                                }
                            }
                        }
                        t = t + 1;
                    }
                    proof {
                        assert(src@.take(src@.len() as int) =~= src@);
                        assert forall|r: StreamReference| #[trigger]
                            slot@.contains(r) <==> exists|x: int|
                                0 <= x < ix + 1 && (#[trigger] steps@[x]@).contains(r) && (j + 1) % (
                                x + 1) == 0 by {
                            if slot@.contains(r) {
                                if before.contains(r) {
                                } else {
                                    assert(steps@[ix as int]@.contains(r) && (j + 1) % (ix as int
                                        + 1) == 0);
                                }
                            }
                            if exists|x: int|
                                0 <= x < ix + 1 && (#[trigger] steps@[x]@).contains(r) && (j + 1)
                                    % (x + 1) == 0 {
                                let x = choose|x: int|
                                    0 <= x < ix + 1 && (#[trigger] steps@[x]@).contains(r) && (j
                                        + 1) % (x + 1) == 0;
                                if x < ix {
                                    assert(before.contains(r));
                                } else {
                                    assert(src@.contains(r));
                                }
                            }
                        }
                    }
                } else {
                    proof {
                        assert forall|r: StreamReference| #[trigger]
                            slot@.contains(r) <==> exists|x: int|
                                0 <= x < ix + 1 && (#[trigger] steps@[x]@).contains(r) && (j + 1) % (
                                x + 1) == 0 by {
                            if exists|x: int|
                                0 <= x < ix + 1 && (#[trigger] steps@[x]@).contains(r) && (j + 1)
                                    % (x + 1) == 0 {
                                let x = choose|x: int|
                                    0 <= x < ix + 1 && (#[trigger] steps@[x]@).contains(r) && (j
                                        + 1) % (x + 1) == 0;
                                assert(x < ix);
                            }
                        }
                    }
                }
                ix = ix + 1;
            }
            res.push(slot);
            j = j + 1;
        }
        res
    }

    /// Walks the slots; each non-empty slot becomes a deadline whose pause
    /// covers it and the empty slots before it; a trailing run of empty slots
    /// becomes a final deadline with nothing due, keeping the cycle length.
    fn condense_deadlines(gcd: u128, extend_steps: &Vec<Vec<StreamReference>>) -> (r: Vec<Deadline>)
        requires
            gcd > 0,
            extend_steps@.len() * gcd as int <= u128::MAX,
            forall|j: int| 0 <= j < extend_steps@.len() ==> no_dups(#[trigger] extend_steps@[j]@),
        ensures
            sum_pauses(r@) == extend_steps@.len() * gcd as int,
            forall|s: StreamReference| #[trigger]
                count_deadlines_with(r@, s) == count_slots_with(extend_steps@, s),
            forall|k: int| 0 <= k < r@.len() ==> (#[trigger] r@[k].pause) > 0,
            forall|k: int| 0 <= k < r@.len() ==> ((#[trigger] r@[k].pause) as int % gcd as int
                == 0),
            // Each deadline takes the slot its cumulative pause lands on.
            forall|k: int|
                0 <= k < r@.len() ==> {
                    &&& 0 <= cum_pause(r@, k) / gcd as int - 1 < extend_steps@.len()
                    &&& cum_pause(r@, k) % gcd as int == 0
                    &&& (#[trigger] r@[k]).due@ == extend_steps@[cum_pause(r@, k) / gcd as int
                        - 1]@
                },
            // Every non-empty slot is taken by a deadline, so the due lists
            // in order are exactly the non-empty slots in order.
            forall|j: int|
                0 <= j < extend_steps@.len() && (#[trigger] extend_steps@[j]@).len() > 0
                    ==> exists|k: int|
                    0 <= k < r@.len() && #[trigger] cum_pause(r@, k) / gcd as int - 1 == j,
            // Only a trailing padding deadline may have nothing due.
            forall|k: int| 0 <= k < r@.len() - 1 ==> ((#[trigger] r@[k]).due@.len() > 0),
            forall|k: int| 0 <= k < r@.len() ==> no_dups((#[trigger] r@[k]).due@),
    {
        let mut deadlines: Vec<Deadline> = Vec::new();
        let mut empty_counter: u128 = 0;
        let mut i: usize = 0;
        let n = extend_steps.len();
        proof {
            assert(extend_steps@.take(0int) =~= Seq::<Vec<StreamReference>>::empty());
        }
        while i < n
            invariant
                n == extend_steps@.len(),
                0 <= i <= n,
                gcd > 0,
                n * gcd as int <= u128::MAX,
                empty_counter <= i,
                sum_pauses(deadlines@) + empty_counter * gcd as int == i as int * gcd as int,
                forall|s: StreamReference| #[trigger]
                    count_deadlines_with(deadlines@, s) == count_slots_with(
                        extend_steps@.take(i as int),
                        s,
                    ),
                forall|k: int| 0 <= k < deadlines@.len() ==> (#[trigger] deadlines@[k].pause) > 0,
                forall|k: int|
                    0 <= k < deadlines@.len() ==> ((#[trigger] deadlines@[k].pause) as int
                        % gcd as int == 0),
                forall|k: int|
                    0 <= k < deadlines@.len() ==> {
                        &&& 0 <= cum_pause(deadlines@, k) / gcd as int - 1 < i
                        &&& cum_pause(deadlines@, k) % gcd as int == 0
                        &&& (#[trigger] deadlines@[k]).due@ == extend_steps@[cum_pause(
                            deadlines@,
                            k,
                        ) / gcd as int - 1]@
                        &&& deadlines@[k].due@.len() > 0
                        &&& no_dups(deadlines@[k].due@)
                    },
                forall|j: int|
                    0 <= j < i && (#[trigger] extend_steps@[j]@).len() > 0 ==> exists|k: int|
                        0 <= k < deadlines@.len() && #[trigger] cum_pause(deadlines@, k)
                            / gcd as int - 1 == j,
                forall|j: int|
                    i - empty_counter <= j < i ==> (#[trigger] extend_steps@[j]@).len() == 0,
                forall|j: int| 0 <= j < n ==> no_dups(#[trigger] extend_steps@[j]@),
            decreases n - i,
        {
            let ghost prev_dls = deadlines@;
            let ghost e0 = empty_counter as int;
            let is_empty = extend_steps[i].len() == 0;
            proof {
                lemma_mul_one_more(i as int, gcd as int);
                lemma_mul_one_more(e0, gcd as int);
            }
            if is_empty {
                proof {
                    assert(empty_counter as int + 1 <= i as int + 1);
                }
                empty_counter = empty_counter + 1;
            } else {
                proof {
                    assert((empty_counter as int + 1) * gcd as int <= (i as int + 1) * gcd as int)
                        by (nonlinear_arith)
                        requires
                            empty_counter as int + 1 <= i as int + 1,
                            gcd > 0,
                    ;
                    assert((i as int + 1) * gcd as int <= n * gcd as int) by (nonlinear_arith)
                        requires
                            i as int + 1 <= n,
                            gcd > 0,
                    ;
                }
                let pause = (empty_counter + 1) * gcd;
                let due = clone_refs(&extend_steps[i]);
                deadlines.push(Deadline { pause, due });
                empty_counter = 0;
                proof {
                    assert(deadlines@.drop_last() =~= prev_dls);
                    assert((empty_counter as int) * gcd as int == 0) by (nonlinear_arith)
                        requires
                            empty_counter == 0,
                    ;
                    assert(sum_pauses(deadlines@) == sum_pauses(prev_dls) + pause);
                    // The new deadline's cumulative pause lands on this slot.
                    assert(deadlines@ =~= prev_dls.push(deadlines@.last()));
                    lemma_cum_push_last(prev_dls, deadlines@.last());
                    assert(pause as int == (e0 + 1) * gcd as int);
                    assert(cum_pause(deadlines@, prev_dls.len() as int) == (i as int + 1)
                        * gcd as int);
                    assert(((i as int + 1) * gcd as int) / gcd as int == i as int + 1) by {
                        assert((i as int + 1) * gcd as int == gcd as int * (i as int + 1))
                            by (nonlinear_arith);
                        lemma_div_multiples_vanish(i as int + 1, gcd as int);
                    }
                    assert(((i as int + 1) * gcd as int) % (gcd as int) == 0) by (nonlinear_arith)
                        requires
                            gcd > 0,
                    ;
                    assert((pause as int) % (gcd as int) == 0) by (nonlinear_arith)
                        requires
                            pause as int == (e0 + 1) * gcd as int,
                            gcd > 0,
                    ;
                    assert(deadlines@.last().due@ == extend_steps@[i as int]@);
                    // Earlier deadlines keep their cumulative pauses.
                    assert forall|k: int| 0 <= k < prev_dls.len() implies #[trigger] cum_pause(
                        deadlines@,
                        k,
                    ) == cum_pause(prev_dls, k) by {
                        lemma_cum_push(prev_dls, deadlines@.last(), k);
                    }
                    // Every non-empty slot up to and including this one is
                    // taken.
                    assert forall|j: int|
                        0 <= j < i + 1 && (#[trigger] extend_steps@[j]@).len() > 0 implies exists|
                        k: int,
                    |
                        0 <= k < deadlines@.len() && #[trigger] cum_pause(deadlines@, k)
                            / gcd as int - 1 == j by {
                        if j < i {
                            let k0 = choose|k: int|
                                0 <= k < prev_dls.len() && #[trigger] cum_pause(prev_dls, k)
                                    / gcd as int - 1 == j;
                            assert(cum_pause(deadlines@, k0) == cum_pause(prev_dls, k0));
                            assert(cum_pause(deadlines@, k0) / gcd as int - 1 == j);
                        } else {
                            assert(cum_pause(deadlines@, prev_dls.len() as int) / gcd as int - 1
                                == i);
                        }
                    }
                }
            }
            proof {
                assert(extend_steps@.take(i as int + 1).drop_last() =~= extend_steps@.take(
                    i as int,
                ));
                assert forall|s: StreamReference| #[trigger]
                    count_deadlines_with(deadlines@, s) == count_slots_with(
                        extend_steps@.take(i as int + 1),
                        s,
                    ) by {
                    assert(count_deadlines_with(prev_dls, s) == count_slots_with(
                        extend_steps@.take(i as int),
                        s,
                    ));
                    assert(extend_steps@.take(i as int + 1).last() == extend_steps@[i as int]);
                    assert(count_slots_with(extend_steps@.take(i as int + 1), s)
                        == count_slots_with(extend_steps@.take(i as int), s) + if extend_steps@[i as int]@.contains(
                        s,
                    ) {
                        1int
                    } else {
                        0int
                    });
                    if is_empty {
                        assert(!extend_steps@[i as int]@.contains(s));
                        assert(deadlines@ == prev_dls);
                    } else {
                        assert(deadlines@.drop_last() =~= prev_dls);
                        assert(deadlines@.last().due@ == extend_steps@[i as int]@);
                        assert(count_deadlines_with(deadlines@, s) == count_deadlines_with(
                            prev_dls,
                            s,
                        ) + if extend_steps@[i as int]@.contains(s) {
                            1int
                        } else {
                            0int
                        });
                    }
                }
            }
            i = i + 1;
        }
        if empty_counter != 0 {
            proof {
                assert((empty_counter as int) * gcd as int <= n * gcd as int) by (nonlinear_arith)
                    requires
                        empty_counter as int <= n,
                        gcd > 0,
                ;
            }
            let ghost prev_dls = deadlines@;
            deadlines.push(Deadline { pause: empty_counter * gcd, due: Vec::new() });
            proof {
                assert(deadlines@.drop_last() =~= prev_dls);
                assert(deadlines@.last().pause as int == empty_counter as int * gcd as int);
                assert(empty_counter as int * gcd as int >= 1) by (nonlinear_arith)
                    requires
                        empty_counter >= 1,
                        gcd >= 1,
                ;
                // The padding deadline's cumulative pause lands on the final
                // slot, which the trailing run left empty.
                assert(deadlines@ =~= prev_dls.push(deadlines@.last()));
                lemma_cum_push_last(prev_dls, deadlines@.last());
                assert(cum_pause(deadlines@, prev_dls.len() as int) == n * gcd as int);
                assert((n * gcd as int) / gcd as int == n as int) by {
                    assert(n * gcd as int == gcd as int * n) by (nonlinear_arith);
                    lemma_div_multiples_vanish(n as int, gcd as int);
                }
                assert((n * gcd as int) % (gcd as int) == 0) by (nonlinear_arith)
                    requires
                        gcd > 0,
                ;
                assert((deadlines@.last().pause as int) % (gcd as int) == 0) by (nonlinear_arith)
                    requires
                        deadlines@.last().pause as int == empty_counter as int * gcd as int,
                        gcd > 0,
                ;
                assert(extend_steps@[n - 1]@.len() == 0);
                assert(deadlines@.last().due@ =~= extend_steps@[n - 1]@);
                assert forall|k: int| 0 <= k < prev_dls.len() implies #[trigger] cum_pause(
                    deadlines@,
                    k,
                ) == cum_pause(prev_dls, k) by {
                    lemma_cum_push(prev_dls, deadlines@.last(), k);
                }
                assert forall|j: int|
                    0 <= j < n && (#[trigger] extend_steps@[j]@).len() > 0 implies exists|k: int|
                    0 <= k < deadlines@.len() && #[trigger] cum_pause(deadlines@, k) / gcd as int
                        - 1 == j by {
                    let k0 = choose|k: int|
                        0 <= k < prev_dls.len() && #[trigger] cum_pause(prev_dls, k) / gcd as int
                            - 1 == j;
                    assert(cum_pause(deadlines@, k0) == cum_pause(prev_dls, k0));
                    assert(cum_pause(deadlines@, k0) / gcd as int - 1 == j);
                }
                assert forall|s: StreamReference| #[trigger]
                    count_deadlines_with(deadlines@, s) == count_slots_with(
                        extend_steps@.take(n as int),
                        s,
                    ) by {
                    assert(count_deadlines_with(prev_dls, s) == count_slots_with(
                        extend_steps@.take(n as int),
                        s,
                    ));
                    assert(!deadlines@.last().due@.contains(s));
                }
            }
        }
        proof {
            assert(extend_steps@.take(n as int) =~= extend_steps@);
        }
        deadlines
    }
}

/// A positive number exactly divisible by a positive divisor has a positive
/// quotient, and quotient times divisor gives it back.
proof fn lemma_div_exact_pos(x: int, d: int)
    requires
        d > 0,
        x > 0,
        divides(d, x),
    ensures
        x / d >= 1,
        d * (x / d) == x,
        x % d == 0,
{
    let k = choose|k: int| x == #[trigger] (d * k);
    lemma_div_multiples_vanish(k, d);
    assert(x / d == k);
    assert(k >= 1) by (nonlinear_arith)
        requires
            x == d * k,
            d > 0,
            x > 0,
    ;
    lemma_fundamental_div_mod(x, d);
    assert(x % d == 0) by (nonlinear_arith)
        requires
            x == d * (x / d) + x % d,
            d * (x / d) == x,
    ;
}


/// With slots characterized by a divisibility condition, the number of slots
/// containing the stream is the number of multiples.
proof fn lemma_count_from_char(ss: Seq<Vec<StreamReference>>, r: StreamReference, m: int, n: int)
    requires
        0 <= n <= ss.len(),
        m >= 1,
        forall|j: int| 0 <= j < ss.len() ==> (#[trigger] ss[j]@.contains(r) <==> (j + 1) % m == 0),
    ensures
        count_slots_with(ss.take(n), r) == count_multiples(n, m),
    decreases n,
{
    if n > 0 {
        lemma_count_from_char(ss, r, m, n - 1);
        assert(ss.take(n).drop_last() =~= ss.take(n - 1));
        assert(ss.take(n).last() == ss[n - 1]);
    }
}

impl Schedule {
    /// Builds the schedule of one hyper-period from the time-driven streams of
    /// the specification. Every pause is positive, the pauses sum to the
    /// hyper-period, and a stream with rate `r` stands in exactly
    /// `hyper_period / r` deadlines.
    pub fn from(ir: &LolaIR) -> (r: Schedule)
        requires
            ir.time_driven@.len() > 0,
            all_pos(spec_rates(ir.time_driven@)),
            lcm_seq(spec_rates(ir.time_driven@)) <= u128::MAX,
            lcm_seq(spec_rates(ir.time_driven@)) as int / gcd_seq(spec_rates(ir.time_driven@)) as int
                <= usize::MAX,
            forall|i: int, k: int|
                0 <= i < k < ir.time_driven@.len() ==> (#[trigger] ir.time_driven@[i].reference)
                    != (#[trigger] ir.time_driven@[k].reference),
        ensures
            r.gcd == gcd_seq(spec_rates(ir.time_driven@)),
            r.hyper_period == lcm_seq(spec_rates(ir.time_driven@)),
            r.gcd > 0,
            r.hyper_period > 0,
            sum_pauses(r.deadlines@) == r.hyper_period,
            forall|i: int|
                0 <= i < ir.time_driven@.len() ==> count_deadlines_with(
                    r.deadlines@,
                    #[trigger] ir.time_driven@[i].reference,
                ) == r.hyper_period as int / ir.time_driven@[i].extend_rate as int,
            forall|k: int| 0 <= k < r.deadlines@.len() ==> (#[trigger] r.deadlines@[k].pause) > 0,
            forall|k: int|
                0 <= k < r.deadlines@.len() ==> ((#[trigger] r.deadlines@[k].pause) as int
                    % r.gcd as int == 0),
            // No deadline names a stream twice, and only a trailing padding
            // deadline may have nothing due.
            forall|k: int| 0 <= k < r.deadlines@.len() ==> no_dups((#[trigger] r.deadlines@[k]).due@),
            forall|k: int|
                0 <= k < r.deadlines@.len() - 1 ==> ((#[trigger] r.deadlines@[k]).due@.len() > 0),
            // Placement: a stream is due at a deadline exactly when the
            // cumulative pause through it is a multiple of the stream's rate.
            forall|k: int, sx: int|
                #![trigger r.deadlines@[k].due@.contains(ir.time_driven@[sx].reference)]
                0 <= k < r.deadlines@.len() && 0 <= sx < ir.time_driven@.len() ==> (
                r.deadlines@[k].due@.contains(ir.time_driven@[sx].reference) <==> cum_pause(
                    r.deadlines@,
                    k,
                ) % (ir.time_driven@[sx].extend_rate as int) == 0),
            // Every due stream is one of the time-driven streams.
            forall|k: int, x: StreamReference|
                #![trigger r.deadlines@[k].due@.contains(x)]
                0 <= k < r.deadlines@.len() && r.deadlines@[k].due@.contains(x) ==> exists|i: int|
                    0 <= i < ir.time_driven@.len() && (#[trigger] ir.time_driven@[i].reference)
                        == x,
            // The first deadline waits exactly the smallest rate.
            r.deadlines@.len() > 0,
            exists|i: int|
                0 <= i < ir.time_driven@.len() && (#[trigger] ir.time_driven@[i].extend_rate)
                    == r.deadlines@[0].pause,
            forall|i: int|
                0 <= i < ir.time_driven@.len() ==> r.deadlines@[0].pause <= (
                #[trigger] ir.time_driven@[i].extend_rate),
    {
        let ghost tds = ir.time_driven@;
        let ghost srates = spec_rates(tds);
        let mut rates: Vec<u128> = Vec::new();
        let mut i: usize = 0;
        proof {
            assert(rates@ =~= srates.take(0int));
        }
        while i < ir.time_driven.len()
            invariant
                0 <= i <= ir.time_driven@.len(),
                tds == ir.time_driven@,
                srates == spec_rates(tds),
                rates@ == srates.take(i as int),
            decreases ir.time_driven@.len() - i,
        {
            rates.push(ir.time_driven[i].extend_rate);
            proof {
                assert(rates@ =~= srates.take(i as int + 1));
            }
            i = i + 1;
        }
        proof {
            assert(srates.take(srates.len() as int) =~= srates);
        }
        let gcd = Self::find_extend_period(&rates);
        proof {
            lemma_gcd_seq_pos(srates);
        }
        let hyper_period = Self::find_hyper_period(&rates);
        proof {
            // Every rate lies between the tick and the hyper-period, and the
            // tick divides the hyper-period.
            assert forall|k: int| 0 <= k < tds.len() implies {
                &&& (#[trigger] tds[k].extend_rate) > 0
                &&& divides(gcd as int, tds[k].extend_rate as int)
                &&& tds[k].extend_rate <= hyper_period
            } by {
                assert(srates[k] == tds[k].extend_rate);
                lemma_divides_le(tds[k].extend_rate as int, hyper_period as int);
            }
            lemma_divides_trans(gcd as int, srates[0] as int, hyper_period as int);
            lemma_div_exact_pos(hyper_period as int, gcd as int);
        }
        let extend_steps = Self::build_extend_steps(ir, gcd, hyper_period);
        proof {
            // Each stream enters in the one slot of its first firing, so no
            // two slots share a stream.
            assert forall|j1: int, j2: int, rr: StreamReference|
                #![trigger extend_steps@[j1]@.contains(rr), extend_steps@[j2]@.contains(rr)]
                0 <= j1 < j2 < extend_steps@.len() && extend_steps@[j1]@.contains(
                    rr,
                ) implies !(extend_steps@[j2]@.contains(rr)) by {
                if extend_steps@[j2]@.contains(rr) {
                    let i1 = choose|i: int|
                        0 <= i < tds.len() && (#[trigger] tds[i].reference) == rr && j1
                            == tds[i].extend_rate as int / gcd as int - 1;
                    let i2 = choose|i: int|
                        0 <= i < tds.len() && (#[trigger] tds[i].reference) == rr && j2
                            == tds[i].extend_rate as int / gcd as int - 1;
                    assert(tds[i1].reference == tds[i2].reference);
                    assert(i1 == i2);
                }
            }
        }
        let applied = Self::apply_periodicity(&extend_steps);
        let ghost num_steps = hyper_period as int / gcd as int;
        proof {
            assert(applied.len() * gcd as int <= u128::MAX) by {
                assert(gcd as int * num_steps == hyper_period as int);
                assert(num_steps * gcd as int == gcd as int * num_steps) by (nonlinear_arith);
            }
        }
        let deadlines = Self::condense_deadlines(gcd, &applied);
        proof {
            assert(sum_pauses(deadlines@) == num_steps * gcd as int);
            assert(num_steps * gcd as int == hyper_period as int) by (nonlinear_arith)
                requires
                    gcd as int * num_steps == hyper_period as int,
            ;
            // Each stream stands in exactly hyper_period / rate deadlines.
            assert forall|sx: int| 0 <= sx < tds.len() implies count_deadlines_with(
                deadlines@,
                #[trigger] tds[sx].reference,
            ) == hyper_period as int / tds[sx].extend_rate as int by {
                let rate = tds[sx].extend_rate as int;
                let g = gcd as int;
                let m = rate / g;
                let rr = tds[sx].reference;
                assert(srates[sx] == tds[sx].extend_rate);
                lemma_div_exact_pos(rate, g);
                vstd::arithmetic::div_mod::lemma_div_is_ordered(rate, hyper_period as int, g);
                // The applied slots contain the stream exactly at the
                // multiples of its rate in ticks.
                assert forall|j: int| 0 <= j < applied@.len() implies (#[trigger] applied@[j]@.contains(
                    rr,
                ) <==> (j + 1) % m == 0) by {
                    if applied@[j]@.contains(rr) {
                        let ix = choose|ix: int|
                            0 <= ix < extend_steps@.len() && (#[trigger] extend_steps@[ix]@).contains(
                                rr,
                            ) && (j + 1) % (ix + 1) == 0;
                        let i2 = choose|i2: int|
                            0 <= i2 < tds.len() && (#[trigger] tds[i2].reference) == rr && ix
                                == tds[i2].extend_rate as int / g - 1;
                        assert(i2 == sx);
                        assert(ix + 1 == m);
                    }
                    if (j + 1) % m == 0 {
                        let ix = m - 1;
                        assert(0 <= ix < extend_steps@.len());
                        assert(extend_steps@[ix]@.contains(rr)) by {
                            assert(tds[sx].reference == rr && ix == tds[sx].extend_rate as int / g
                                - 1);
                        }
                        assert((j + 1) % (ix + 1) == 0);
                        assert(applied@[j]@.contains(rr));
                    }
                }
                lemma_count_from_char(applied@, rr, m, applied@.len() as int);
                assert(applied@.take(applied@.len() as int) =~= applied@);
                lemma_count_multiples_is_div(num_steps, m);
                // num_steps / m == hyper_period / rate, by exact division.
                let kk = hyper_period as int / rate;
                lemma_div_exact_pos(hyper_period as int, rate);
                assert(hyper_period as int == g * (m * kk)) by (nonlinear_arith)
                    requires
                        g * m == rate,
                        rate * kk == hyper_period as int,
                ;
                lemma_div_multiples_vanish(m * kk, g);
                assert(num_steps == m * kk);
                lemma_div_multiples_vanish(kk, m);
                assert(num_steps / m == kk) by {
                    assert(m * kk == num_steps);
                }
            }
            // Placement: deadline k holds the slot its cumulative pause
            // lands on, and a stream stands in a slot exactly at the
            // multiples of its rate in ticks.
            assert forall|k: int, sx: int|
                #![trigger deadlines@[k].due@.contains(tds[sx].reference)]
                0 <= k < deadlines@.len() && 0 <= sx < tds.len() implies (
            deadlines@[k].due@.contains(tds[sx].reference) <==> cum_pause(deadlines@, k) % (
            tds[sx].extend_rate as int) == 0) by {
                let g = gcd as int;
                let rate = tds[sx].extend_rate as int;
                let rr = tds[sx].reference;
                let m = rate / g;
                assert(srates[sx] == tds[sx].extend_rate);
                lemma_div_exact_pos(rate, g);
                vstd::arithmetic::div_mod::lemma_div_is_ordered(rate, hyper_period as int, g);
                let c = cum_pause(deadlines@, k);
                let j = c / g - 1;
                assert(deadlines@[k].due@ == applied@[j]@ && 0 <= j < applied@.len() && c % g
                    == 0);
                // The slot holds the stream exactly when j + 1 is a multiple
                // of the rate in ticks.
                assert(applied@[j]@.contains(rr) <==> (j + 1) % m == 0) by {
                    if applied@[j]@.contains(rr) {
                        let ix = choose|ix: int|
                            0 <= ix < extend_steps@.len() && (#[trigger] extend_steps@[ix]@).contains(
                                rr,
                            ) && (j + 1) % (ix + 1) == 0;
                        let i2 = choose|i2: int|
                            0 <= i2 < tds.len() && (#[trigger] tds[i2].reference) == rr && ix
                                == tds[i2].extend_rate as int / g - 1;
                        assert(i2 == sx);
                        assert(ix + 1 == m);
                    }
                    if (j + 1) % m == 0 {
                        let ix = m - 1;
                        assert(0 <= ix < extend_steps@.len());
                        assert(extend_steps@[ix]@.contains(rr)) by {
                            assert(tds[sx].reference == rr && ix == tds[sx].extend_rate as int / g
                                - 1);
                        }
                        assert((j + 1) % (ix + 1) == 0);
                        assert(applied@[j]@.contains(rr));
                    }
                }
                // The cumulative pause is (j + 1) ticks, so divisibility by
                // the rate is divisibility of j + 1 by the rate in ticks.
                lemma_fundamental_div_mod(c, g);
                assert(c == (j + 1) * g) by (nonlinear_arith)
                    requires
                        c == g * (c / g) + c % g,
                        c % g == 0,
                        j == c / g - 1,
                ;
                lemma_mod_scale(j + 1, m, g);
                assert(m * g == rate) by (nonlinear_arith)
                    requires
                        g * m == rate,
                ;
            }
            // Every due stream came from the time-driven list.
            assert forall|k: int, x: StreamReference|
                #![trigger deadlines@[k].due@.contains(x)]
                0 <= k < deadlines@.len() && deadlines@[k].due@.contains(x) implies exists|i: int|
                0 <= i < tds.len() && (#[trigger] tds[i].reference) == x by {
                let g = gcd as int;
                let c = cum_pause(deadlines@, k);
                let j = c / g - 1;
                assert(deadlines@[k].due@ == applied@[j]@ && 0 <= j < applied@.len());
                assert(applied@[j]@.contains(x));
                let ix = choose|ix: int|
                    0 <= ix < extend_steps@.len() && (#[trigger] extend_steps@[ix]@).contains(x)
                        && (j + 1) % (ix + 1) == 0;
                let i = choose|i: int|
                    0 <= i < tds.len() && (#[trigger] tds[i].reference) == x && ix
                        == tds[i].extend_rate as int / g - 1;
                assert(tds[i].reference == x);
            }
            // The first deadline waits exactly the smallest rate: every
            // rate is a bound from below, and the deadline's own due
            // streams attain it.
            let g = gcd as int;
            assert(deadlines@.len() > 0) by {
                if deadlines@.len() == 0 {
                    assert(sum_pauses(deadlines@) == 0);
                }
            }
            let pause0 = deadlines@[0].pause;
            assert(cum_pause(deadlines@, 0) == pause0 as int) by {
                assert(deadlines@.take(1int).len() == 1);
                assert(deadlines@.take(1int).drop_last() =~= Seq::<Deadline>::empty());
                assert(deadlines@.take(1int).last() == deadlines@[0]);
                assert(sum_pauses(Seq::<Deadline>::empty()) == 0);
                assert(sum_pauses(deadlines@.take(1int)) == sum_pauses(
                    deadlines@.take(1int).drop_last(),
                ) + deadlines@.take(1int).last().pause);
            }
            assert forall|i: int| 0 <= i < tds.len() implies pause0 <= (
            #[trigger] tds[i].extend_rate) by {
                let rate = tds[i].extend_rate as int;
                let m = rate / g;
                let rr = tds[i].reference;
                assert(srates[i] == tds[i].extend_rate);
                lemma_div_exact_pos(rate, g);
                vstd::arithmetic::div_mod::lemma_div_is_ordered(rate, hyper_period as int, g);
                // The stream's first-fire slot is non-empty, so a deadline
                // lands on it, no earlier than the first deadline.
                assert(extend_steps@[m - 1]@.contains(rr)) by {
                    assert(tds[i].reference == rr && m - 1 == tds[i].extend_rate as int / g - 1);
                }
                assert(applied@[m - 1]@.contains(rr)) by {
                    assert((m - 1 + 1) % (m - 1 + 1) == 0) by (nonlinear_arith)
                        requires
                            m >= 1,
                    ;
                }
                assert(applied@[m - 1]@.len() > 0) by {
                    let w = choose|w: int|
                        0 <= w < applied@[m - 1]@.len() && #[trigger] applied@[m - 1]@[w] == rr;
                }
                let k = choose|k: int|
                    0 <= k < deadlines@.len() && #[trigger] cum_pause(deadlines@, k) / g - 1 == m
                        - 1;
                assert(cum_pause(deadlines@, k) == rate) by {
                    assert(cum_pause(deadlines@, k) / g == m);
                    assert(cum_pause(deadlines@, k) % g == 0);
                    lemma_fundamental_div_mod(cum_pause(deadlines@, k), g);
                    assert(cum_pause(deadlines@, k) == g * m);
                    assert(g * m == rate);
                }
                lemma_cum_mono(deadlines@, 0, k);
            }
            assert(deadlines@[0].due@.len() > 0) by {
                if deadlines@.len() == 1 {
                    // The one deadline holds every stream.
                    let rate0 = tds[0].extend_rate as int;
                    assert(srates[0] == tds[0].extend_rate);
                    lemma_div_exact_pos(hyper_period as int, rate0);
                    assert(count_deadlines_with(deadlines@, tds[0].reference) >= 1);
                    assert(deadlines@.drop_last() =~= Seq::<Deadline>::empty());
                    assert(count_deadlines_with(deadlines@, tds[0].reference)
                        == count_deadlines_with(Seq::<Deadline>::empty(), tds[0].reference) + (
                    if deadlines@.last().due@.contains(tds[0].reference) {
                        1int
                    } else {
                        0int
                    }));
                    assert(deadlines@.last() == deadlines@[0]);
                    assert(deadlines@[0].due@.contains(tds[0].reference));
                }
            }
            assert(exists|i: int|
                0 <= i < tds.len() && (#[trigger] tds[i].extend_rate) == pause0) by {
                let x = deadlines@[0].due@[0];
                assert(deadlines@[0].due@.contains(x));
                let i = choose|i: int| 0 <= i < tds.len() && (#[trigger] tds[i].reference) == x;
                assert(deadlines@[0].due@.contains(tds[i].reference));
                assert(cum_pause(deadlines@, 0) % (tds[i].extend_rate as int) == 0);
                assert(pause0 > 0);
                let rate = tds[i].extend_rate as int;
                assert(divides(rate, pause0 as int)) by {
                    lemma_fundamental_div_mod(pause0 as int, rate);
                    assert(pause0 as int == rate * ((pause0 as int) / rate));
                }
                lemma_divides_le(rate, pause0 as int);
                assert(tds[i].extend_rate == pause0);
            }
        }
        Schedule { gcd, hyper_period, deadlines }
    }
}

/// Multiplying one more copy of `g` adds `g`.
proof fn lemma_mul_one_more(a: int, g: int)
    ensures
        (a + 1) * g == a * g + g,
{
    assert((a + 1) * g == a * g + g) by (nonlinear_arith);
}

/// A verified copy of a reference list.
pub fn clone_refs(v: &Vec<StreamReference>) -> (r: Vec<StreamReference>)
    ensures
        r@ == v@,
{
    let mut out: Vec<StreamReference> = Vec::new();
    let mut i: usize = 0;
    while i < v.len()
        invariant
            0 <= i <= v@.len(),
            out@ == v@.take(i as int),
        decreases v@.len() - i,
    {
        out.push(v[i]);
        proof {
            assert(out@ =~= v@.take(i as int + 1));
        }
        i = i + 1;
    }
    proof {
        assert(v@.take(v@.len() as int) =~= v@);
    }
    out
}

/// Membership survives a push.
proof fn lemma_contains_push(s: Seq<StreamReference>, x: StreamReference, r: StreamReference)
    requires
        s.contains(r),
    ensures
        s.push(x).contains(r),
{
    let w = choose|w: int| 0 <= w < s.len() && s[w] == r;
    assert(s.push(x)[w] == r);
}

} // verus!
