//! Sliding-window aggregation: per window, the timestamped samples of its
//! target stream, and a query that folds the samples of the last `duration`
//! nanoseconds. The observable result is the mathematical fold over exactly
//! the samples in the window.

use vstd::prelude::*;
use crate::error::EngineError;
use crate::float;
use crate::ir::{StreamReference, Type, WindowOperation};
use crate::value::{
    Value, ValueV, spec_add, spec_mul, spec_div, values_view, lemma_values_view, value_view,
};

verus! {

/// The additive unit of a window's element type.
pub open spec fn spec_zero_of(ty: Type) -> ValueV {
    match ty {
        Type::UInt(_) => ValueV::Unsigned(0),
        Type::Int(_) => ValueV::Signed(0),
        Type::Float(_) => ValueV::Float(0),
        _ => ValueV::Bool(false),
    }
}

/// The multiplicative unit of a window's element type.
pub open spec fn spec_one_of(ty: Type) -> ValueV {
    match ty {
        Type::UInt(_) => ValueV::Unsigned(1),
        Type::Int(_) => ValueV::Signed(1),
        Type::Float(_) => ValueV::Float(0x3FF0_0000_0000_0000),
        _ => ValueV::Bool(false),
    }
}

/// A count, carried in the window's element type.
pub open spec fn spec_count_of(ty: Type, n: int) -> ValueV {
    match ty {
        Type::UInt(_) => ValueV::Unsigned(n as u128),
        Type::Int(_) => ValueV::Signed(n as i128),
        Type::Float(_) => ValueV::Float(float::unsigned_to_double_bits_of(n as u128)),
        _ => ValueV::Bool(false),
    }
}

/// The sum of the first `n` samples that lie in the window (time at least
/// `lo`), starting from `acc0`.
pub open spec fn spec_win_sum(
    ts: Seq<u128>,
    vs: Seq<ValueV>,
    lo: int,
    n: int,
    acc0: ValueV,
) -> Result<ValueV, EngineError>
    decreases n,
{
    if n <= 0 {
        Ok(acc0)
    } else {
        match spec_win_sum(ts, vs, lo, n - 1, acc0) {
            Ok(acc) => if ts[n - 1] >= lo {
                spec_add(acc, vs[n - 1])
            } else {
                Ok(acc)
            },
            Err(e) => Err(e),
        }
    }
}

/// The product of the first `n` samples in the window, starting from `acc0`.
pub open spec fn spec_win_product(
    ts: Seq<u128>,
    vs: Seq<ValueV>,
    lo: int,
    n: int,
    acc0: ValueV,
) -> Result<ValueV, EngineError>
    decreases n,
{
    if n <= 0 {
        Ok(acc0)
    } else {
        match spec_win_product(ts, vs, lo, n - 1, acc0) {
            Ok(acc) => if ts[n - 1] >= lo {
                spec_mul(acc, vs[n - 1])
            } else {
                Ok(acc)
            },
            Err(e) => Err(e),
        }
    }
}

/// How many of the first `n` samples lie in the window.
pub open spec fn spec_win_count(ts: Seq<u128>, lo: int, n: int) -> int
    decreases n,
{
    if n <= 0 {
        0
    } else {
        spec_win_count(ts, lo, n - 1) + if ts[n - 1] >= lo {
            1int
        } else {
            0int
        }
    }
}

/// The window's lower bound: `now` minus the duration, not below zero.
pub open spec fn spec_win_lo(now: int, duration: int) -> int {
    if now >= duration {
        now - duration
    } else {
        0
    }
}

/// The bits of the double 2.0.
pub open spec fn spec_two_bits() -> u64 {
    0x4000_0000_0000_0000
}

/// The bits of the double 1e9: nanoseconds per second.
pub open spec fn spec_nanos_per_sec_bits() -> u64 {
    0x41CD_CD65_0000_0000
}

/// One trapezoid of the integral: the mean of two adjacent samples times the
/// seconds between them; a sample that is no float faults.
pub open spec fn spec_trapezoid(a: ValueV, b: ValueV, t0: u128, t1: u128) -> Result<
    ValueV,
    EngineError,
> {
    match spec_add(a, b) {
        Ok(s) => match spec_div(s, ValueV::Float(spec_two_bits())) {
            Ok(mean) => spec_mul(
                mean,
                ValueV::Float(
                    float::div_bits_of(
                        float::unsigned_to_double_bits_of((t1 - t0) as u128),
                        spec_nanos_per_sec_bits(),
                    ),
                ),
            ),
            Err(e) => Err(e),
        },
        Err(e) => Err(e),
    }
}

/// The trapezoidal sum over the adjacent sample pairs whose earlier sample
/// lies in the window, among the first `n` samples, starting from `acc0`.
pub open spec fn spec_win_integral(
    ts: Seq<u128>,
    vs: Seq<ValueV>,
    lo: int,
    n: int,
    acc0: ValueV,
) -> Result<ValueV, EngineError>
    decreases n,
{
    if n <= 1 {
        Ok(acc0)
    } else {
        match spec_win_integral(ts, vs, lo, n - 1, acc0) {
            Ok(acc) => if ts[n - 2] >= lo {
                match spec_trapezoid(vs[n - 2], vs[n - 1], ts[n - 2], ts[n - 1]) {
                    Ok(tr) => spec_add(acc, tr),
                    Err(e) => Err(e),
                }
            } else {
                Ok(acc)
            },
            Err(e) => Err(e),
        }
    }
}

/// The aggregated value of a window at time `now`: the fold of the samples of
/// the last `duration` nanoseconds. An empty average has no value; the
/// surrounding default converts it. The integral is the trapezoidal sum over
/// adjacent samples in the window, with time in seconds; its element type
/// must be a float.
pub open spec fn spec_win_query(
    op: WindowOperation,
    ty: Type,
    ts: Seq<u128>,
    vs: Seq<ValueV>,
    now: int,
    duration: int,
) -> Result<Option<ValueV>, EngineError> {
    let lo = spec_win_lo(now, duration);
    let n = ts.len() as int;
    match op {
        WindowOperation::Sum => match spec_win_sum(ts, vs, lo, n, spec_zero_of(ty)) {
            Ok(v) => Ok(Some(v)),
            Err(e) => Err(e),
        },
        WindowOperation::Product => match spec_win_product(ts, vs, lo, n, spec_one_of(ty)) {
            Ok(v) => Ok(Some(v)),
            Err(e) => Err(e),
        },
        WindowOperation::Count => Ok(Some(ValueV::Unsigned(spec_win_count(ts, lo, n) as u128))),
        WindowOperation::Average => match spec_win_sum(ts, vs, lo, n, spec_zero_of(ty)) {
            Ok(v) => if spec_win_count(ts, lo, n) == 0 {
                Ok(None)
            } else {
                match spec_div(v, spec_count_of(ty, spec_win_count(ts, lo, n))) {
                    Ok(a) => Ok(Some(a)),
                    Err(e) => Err(e),
                }
            },
            Err(e) => Err(e),
        },
        WindowOperation::Integral => if !(ty is Float) {
            Err(EngineError::SpecLoadError)
        } else {
            match spec_win_integral(ts, vs, lo, n, ValueV::Float(0)) {
                Ok(v) => Ok(Some(v)),
                Err(e) => Err(e),
            }
        },
    }
}

/// The mathematical shape of one window accumulator: its configuration and
/// its timestamped samples.
pub ghost struct WinM {
    pub target: StreamReference,
    pub duration: u128,
    pub op: WindowOperation,
    pub ty: Type,
    pub times: Seq<u128>,
    pub vals: Seq<ValueV>,
}

impl WinM {
    /// The shape after one more sample.
    pub open spec fn sampled(&self, t: u128, v: ValueV) -> WinM {
        WinM {
            target: self.target,
            duration: self.duration,
            op: self.op,
            ty: self.ty,
            times: self.times.push(t),
            vals: self.vals.push(v),
        }
    }
}

/// The shapes of a list of window accumulators.
pub open spec fn wins_m(s: Seq<WindowInst>) -> Seq<WinM> {
    Seq::new(s.len(), |i: int| s[i].m())
}

/// One sliding-window accumulator: the samples of its target stream.
pub struct WindowInst {
    /// The stream whose values the window aggregates.
    pub target: StreamReference,
    /// The window length in nanoseconds; positive.
    pub duration: u128,
    pub op: WindowOperation,
    /// The element type.
    pub ty: Type,
    /// Sample times, non-decreasing.
    pub times: Vec<u128>,
    /// Sample values, one per time.
    pub vals: Vec<Value>,
}

impl WindowInst {
    /// The accumulator's mathematical shape.
    pub open spec fn m(&self) -> WinM {
        WinM {
            target: self.target,
            duration: self.duration,
            op: self.op,
            ty: self.ty,
            times: self.times@,
            vals: values_view(self.vals@),
        }
    }

    /// Times and values pair up and the times never decrease.
    pub open spec fn wf(&self) -> bool {
        &&& self.times@.len() == self.vals@.len()
        &&& forall|i: int, j: int|
            0 <= i <= j < self.times@.len() ==> #[trigger] self.times@[i] <= #[trigger] self.times@[j]
    }

    /// A fresh accumulator with no samples.
    pub fn new(target: StreamReference, duration: u128, op: WindowOperation, ty: Type) -> (r:
        WindowInst)
        ensures
            r.wf(),
            r.times@ == Seq::<u128>::empty(),
            r.vals@ == Seq::<Value>::empty(),
            r.target == target,
            r.duration == duration,
            r.op == op,
            r.ty == ty,
    {
        WindowInst { target, duration, op, ty, times: Vec::new(), vals: Vec::new() }
    }

    /// Folds one sample of the target stream into the window.
    pub fn add_sample(&mut self, t: u128, v: Value)
        requires
            old(self).wf(),
            forall|i: int| 0 <= i < old(self).times@.len() ==> #[trigger] old(self).times@[i] <= t,
        ensures
            final(self).wf(),
            final(self).times@ == old(self).times@.push(t),
            final(self).vals@ == old(self).vals@.push(v),
            final(self).target == old(self).target,
            final(self).duration == old(self).duration,
            final(self).op == old(self).op,
            final(self).ty == old(self).ty,
    {
        self.times.push(t);
        self.vals.push(v);
    }

    /// The aggregated value of the window at time `now`: exactly the fold of
    /// the samples of the last `duration` nanoseconds.
    #[verifier::loop_isolation(false)]
    pub fn query(&self, now: u128) -> (r: Result<Option<Value>, EngineError>)
        requires
            self.wf(),
        ensures
            match r {
                Ok(Some(v)) => spec_win_query(
                    self.op,
                    self.ty,
                    self.times@,
                    values_view(self.vals@),
                    now as int,
                    self.duration as int,
                ) == Ok::<Option<ValueV>, EngineError>(Some(v@)),
                Ok(None) => spec_win_query(
                    self.op,
                    self.ty,
                    self.times@,
                    values_view(self.vals@),
                    now as int,
                    self.duration as int,
                ) == Ok::<Option<ValueV>, EngineError>(None::<ValueV>),
                Err(e) => spec_win_query(
                    self.op,
                    self.ty,
                    self.times@,
                    values_view(self.vals@),
                    now as int,
                    self.duration as int,
                ) == Err::<Option<ValueV>, EngineError>(e),
            },
    {
        proof {
            lemma_values_view(self.vals@);
        }
        let lo: u128 = if now >= self.duration {
            now - self.duration
        } else {
            0
        };
        let ghost vsv = values_view(self.vals@);
        let n = self.times.len();
        match self.op {
            WindowOperation::Sum => {
                let mut acc = zero_of(&self.ty);
                let mut i: usize = 0;
                while i < n
                    invariant
                        0 <= i <= n,
                        self.wf(),
                        n == self.times@.len(),
                        vsv == values_view(self.vals@),
                        vsv.len() == n,
                        forall|j: int| 0 <= j < n ==> vsv[j] == value_view(#[trigger] self.vals@[j]),
                        lo == spec_win_lo(now as int, self.duration as int),
                        spec_win_sum(self.times@, vsv, lo as int, i as int, spec_zero_of(self.ty))
                            == Ok::<ValueV, EngineError>(acc@),
                    decreases n - i,
                {
                    if self.times[i] >= lo {
                        acc = match acc.add(self.vals[i].clone()) {
                            Ok(v) => v,
                            Err(e) => {
                                proof {
                                    lemma_win_sum_err(
                                        self.times@,
                                        vsv,
                                        lo as int,
                                        i as int + 1,
                                        n as int,
                                        spec_zero_of(self.ty),
                                    );
                                }
                                return Err(e);
                            },
                        };
                    }
                    i = i + 1;
                }
                Ok(Some(acc))
            },
            WindowOperation::Product => {
                let mut acc = one_of(&self.ty);
                let mut i: usize = 0;
                while i < n
                    invariant
                        0 <= i <= n,
                        self.wf(),
                        n == self.times@.len(),
                        vsv == values_view(self.vals@),
                        vsv.len() == n,
                        forall|j: int| 0 <= j < n ==> vsv[j] == value_view(#[trigger] self.vals@[j]),
                        lo == spec_win_lo(now as int, self.duration as int),
                        spec_win_product(self.times@, vsv, lo as int, i as int, spec_one_of(self.ty))
                            == Ok::<ValueV, EngineError>(acc@),
                    decreases n - i,
                {
                    if self.times[i] >= lo {
                        acc = match acc.mul(self.vals[i].clone()) {
                            Ok(v) => v,
                            Err(e) => {
                                proof {
                                    lemma_win_product_err(
                                        self.times@,
                                        vsv,
                                        lo as int,
                                        i as int + 1,
                                        n as int,
                                        spec_one_of(self.ty),
                                    );
                                }
                                return Err(e);
                            },
                        };
                    }
                    i = i + 1;
                }
                Ok(Some(acc))
            },
            WindowOperation::Count => {
                let mut count: usize = 0;
                let mut i: usize = 0;
                while i < n
                    invariant
                        0 <= i <= n,
                        self.wf(),
                        n == self.times@.len(),
                        count <= i,
                        lo == spec_win_lo(now as int, self.duration as int),
                        count as int == spec_win_count(self.times@, lo as int, i as int),
                    decreases n - i,
                {
                    if self.times[i] >= lo {
                        count = count + 1;
                    }
                    i = i + 1;
                }
                Ok(Some(Value::Unsigned(count as u128)))
            },
            WindowOperation::Average => {
                let mut acc = zero_of(&self.ty);
                let mut count: usize = 0;
                let mut i: usize = 0;
                while i < n
                    invariant
                        0 <= i <= n,
                        self.wf(),
                        n == self.times@.len(),
                        count <= i,
                        vsv == values_view(self.vals@),
                        vsv.len() == n,
                        forall|j: int| 0 <= j < n ==> vsv[j] == value_view(#[trigger] self.vals@[j]),
                        lo == spec_win_lo(now as int, self.duration as int),
                        count as int == spec_win_count(self.times@, lo as int, i as int),
                        spec_win_sum(self.times@, vsv, lo as int, i as int, spec_zero_of(self.ty))
                            == Ok::<ValueV, EngineError>(acc@),
                    decreases n - i,
                {
                    if self.times[i] >= lo {
                        acc = match acc.add(self.vals[i].clone()) {
                            Ok(v) => v,
                            Err(e) => {
                                proof {
                                    lemma_win_sum_err(
                                        self.times@,
                                        vsv,
                                        lo as int,
                                        i as int + 1,
                                        n as int,
                                        spec_zero_of(self.ty),
                                    );
                                }
                                return Err(e);
                            },
                        };
                        count = count + 1;
                    }
                    i = i + 1;
                }
                if count == 0 {
                    Ok(None)
                } else {
                    let divisor = count_of(&self.ty, count);
                    match acc.div(divisor) {
                        Ok(v) => Ok(Some(v)),
                        Err(e) => Err(e),
                    }
                }
            },
            WindowOperation::Integral => {
                let is_float = match &self.ty {
                    Type::Float(_) => true,
                    _ => false,
                };
                if !is_float {
                    return Err(EngineError::SpecLoadError);
                }
                let mut acc = Value::Float(0);
                let mut i: usize = 1;
                while i < n
                    invariant
                        1 <= i,
                        i <= n || i == 1,
                        self.wf(),
                        n == self.times@.len(),
                        vsv == values_view(self.vals@),
                        vsv.len() == n,
                        forall|j: int| 0 <= j < n ==> vsv[j] == value_view(#[trigger] self.vals@[j]),
                        lo == spec_win_lo(now as int, self.duration as int),
                        spec_win_integral(self.times@, vsv, lo as int, i as int, ValueV::Float(0))
                            == Ok::<ValueV, EngineError>(acc@),
                    decreases n - i,
                {
                    if self.times[i - 1] >= lo {
                        let s = match self.vals[i - 1].clone().add(self.vals[i].clone()) {
                            Ok(v) => v,
                            Err(e) => {
                                proof {
                                    lemma_win_integral_err(
                                        self.times@,
                                        vsv,
                                        lo as int,
                                        i as int + 1,
                                        n as int,
                                        ValueV::Float(0),
                                    );
                                }
                                return Err(e);
                            },
                        };
                        let mean = match s.div(Value::Float(0x4000_0000_0000_0000)) {
                            Ok(v) => v,
                            Err(e) => {
                                proof {
                                    lemma_win_integral_err(
                                        self.times@,
                                        vsv,
                                        lo as int,
                                        i as int + 1,
                                        n as int,
                                        ValueV::Float(0),
                                    );
                                }
                                return Err(e);
                            },
                        };
                        let dt = float::div_bits(
                            float::unsigned_to_double_bits(self.times[i] - self.times[i - 1]),
                            0x41CD_CD65_0000_0000,
                        );
                        let tr = match mean.mul(Value::Float(dt)) {
                            Ok(v) => v,
                            Err(e) => {
                                proof {
                                    lemma_win_integral_err(
                                        self.times@,
                                        vsv,
                                        lo as int,
                                        i as int + 1,
                                        n as int,
                                        ValueV::Float(0),
                                    );
                                }
                                return Err(e);
                            },
                        };
                        acc = match acc.add(tr) {
                            Ok(v) => v,
                            Err(e) => {
                                proof {
                                    lemma_win_integral_err(
                                        self.times@,
                                        vsv,
                                        lo as int,
                                        i as int + 1,
                                        n as int,
                                        ValueV::Float(0),
                                    );
                                }
                                return Err(e);
                            },
                        };
                    }
                    i = i + 1;
                }
                Ok(Some(acc))
            },
        }
    }
}

/// The only failure of a window fold is an arithmetic fault.
pub proof fn lemma_win_sum_kind(ts: Seq<u128>, vs: Seq<ValueV>, lo: int, n: int, acc0: ValueV)
    ensures
        spec_win_sum(ts, vs, lo, n, acc0) matches Err(e) ==> e == EngineError::ArithmeticFault,
    decreases n,
{
    if n > 0 {
        lemma_win_sum_kind(ts, vs, lo, n - 1, acc0);
    }
}

/// The only failure of a window product is an arithmetic fault.
pub proof fn lemma_win_product_kind(ts: Seq<u128>, vs: Seq<ValueV>, lo: int, n: int, acc0: ValueV)
    ensures
        spec_win_product(ts, vs, lo, n, acc0) matches Err(e) ==> e == EngineError::ArithmeticFault,
    decreases n,
{
    if n > 0 {
        lemma_win_product_kind(ts, vs, lo, n - 1, acc0);
    }
}

/// The only failure of a window integral is an arithmetic fault.
pub proof fn lemma_win_integral_kind(ts: Seq<u128>, vs: Seq<ValueV>, lo: int, n: int, acc0: ValueV)
    ensures
        spec_win_integral(ts, vs, lo, n, acc0) matches Err(e) ==> e
            == EngineError::ArithmeticFault,
    decreases n,
{
    if n > 1 {
        lemma_win_integral_kind(ts, vs, lo, n - 1, acc0);
    }
}

/// A faulted integral stays faulted as the window grows.
proof fn lemma_win_integral_err(
    ts: Seq<u128>,
    vs: Seq<ValueV>,
    lo: int,
    i: int,
    n: int,
    acc0: ValueV,
)
    requires
        0 <= i <= n,
        spec_win_integral(ts, vs, lo, i, acc0) is Err,
    ensures
        spec_win_integral(ts, vs, lo, n, acc0) == spec_win_integral(ts, vs, lo, i, acc0),
    decreases n - i,
{
    if i < n {
        lemma_win_integral_err(ts, vs, lo, i + 1, n, acc0);
    }
}

/// A window query fails only with an arithmetic fault or a load error.
pub proof fn lemma_win_query_kind(
    op: WindowOperation,
    ty: Type,
    ts: Seq<u128>,
    vs: Seq<ValueV>,
    now: int,
    duration: int,
)
    ensures
        spec_win_query(op, ty, ts, vs, now, duration) matches Err(e) ==> e
            != EngineError::ClockMonotonicityViolation,
{
    let lo = spec_win_lo(now, duration);
    let n = ts.len() as int;
    lemma_win_sum_kind(ts, vs, lo, n, spec_zero_of(ty));
    lemma_win_product_kind(ts, vs, lo, n, spec_one_of(ty));
    lemma_win_integral_kind(ts, vs, lo, n, ValueV::Float(0));
}

/// A faulted sum stays faulted as the window grows.
proof fn lemma_win_sum_err(
    ts: Seq<u128>,
    vs: Seq<ValueV>,
    lo: int,
    i: int,
    n: int,
    acc0: ValueV,
)
    requires
        0 <= i <= n,
        spec_win_sum(ts, vs, lo, i, acc0) is Err,
    ensures
        spec_win_sum(ts, vs, lo, n, acc0) == spec_win_sum(ts, vs, lo, i, acc0),
    decreases n - i,
{
    if i < n {
        lemma_win_sum_err(ts, vs, lo, i + 1, n, acc0);
    }
}

/// A faulted product stays faulted as the window grows.
proof fn lemma_win_product_err(
    ts: Seq<u128>,
    vs: Seq<ValueV>,
    lo: int,
    i: int,
    n: int,
    acc0: ValueV,
)
    requires
        0 <= i <= n,
        spec_win_product(ts, vs, lo, i, acc0) is Err,
    ensures
        spec_win_product(ts, vs, lo, n, acc0) == spec_win_product(ts, vs, lo, i, acc0),
    decreases n - i,
{
    if i < n {
        lemma_win_product_err(ts, vs, lo, i + 1, n, acc0);
    }
}

/// The additive unit of a window's element type.
fn zero_of(ty: &Type) -> (r: Value)
    ensures
        r@ == spec_zero_of(*ty),
{
    match ty {
        Type::UInt(_) => Value::Unsigned(0),
        Type::Int(_) => Value::Signed(0),
        Type::Float(_) => Value::Float(0),
        _ => Value::Bool(false),
    }
}

/// The multiplicative unit of a window's element type.
fn one_of(ty: &Type) -> (r: Value)
    ensures
        r@ == spec_one_of(*ty),
{
    match ty {
        Type::UInt(_) => Value::Unsigned(1),
        Type::Int(_) => Value::Signed(1),
        Type::Float(_) => Value::Float(0x3FF0_0000_0000_0000),
        _ => Value::Bool(false),
    }
}

/// A count, carried in the window's element type.
fn count_of(ty: &Type, n: usize) -> (r: Value)
    ensures
        r@ == spec_count_of(*ty, n as int),
{
    match ty {
        Type::UInt(_) => Value::Unsigned(n as u128),
        Type::Int(_) => Value::Signed(n as i128),
        Type::Float(_) => Value::Float(float::unsigned_to_double_bits(n as u128)),
        _ => Value::Bool(false),
    }
}

} // verus!
