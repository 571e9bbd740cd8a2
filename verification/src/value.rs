//! Tagged runtime values and their operations. A float is carried as the bit
//! pattern of its IEEE 754 double representation and never holds a NaN; an
//! operation that would produce one fails with an arithmetic fault, as does
//! integer overflow, division by zero, and an operation on mismatched tags
//! (which the frontend's type checker rules out).

use vstd::prelude::*;
use crate::error::EngineError;
use crate::float;
use crate::ir::Type;
use crate::parse;

verus! {

/// A runtime value of a stream.
#[derive(Debug, PartialEq)]
pub enum Value {
    Unsigned(u128),
    Signed(i128),
    /// The bits of an IEEE 754 double; never a NaN.
    Float(u64),
    Bool(bool),
    Str(String),
    Tuple(Vec<Value>),
}

/// The mathematical shape of a runtime value.
#[verifier::ext_equal]
pub enum ValueV {
    Unsigned(u128),
    Signed(i128),
    Float(u64),
    Bool(bool),
    Str(Seq<char>),
    Tuple(Seq<ValueV>),
}

/// The views of the first `n` values of a sequence.
pub open spec fn values_view_prefix(s: Seq<Value>, n: int) -> Seq<ValueV>
    decreases s, n,
        when n <= s.len()
{
    if n <= 0 {
        Seq::empty()
    } else {
        values_view_prefix(s, n - 1).push(value_view(s[n - 1]))
    }
}

/// The view of one runtime value.
pub open spec fn value_view(v: Value) -> ValueV
    decreases v,
{
    match v {
        Value::Unsigned(x) => ValueV::Unsigned(x),
        Value::Signed(x) => ValueV::Signed(x),
        Value::Float(b) => ValueV::Float(b),
        Value::Bool(b) => ValueV::Bool(b),
        Value::Str(s) => ValueV::Str(s@),
        Value::Tuple(vs) => ValueV::Tuple(values_view_prefix(vs@, vs@.len() as int)),
    }
}

/// The views of a sequence of values.
pub open spec fn values_view(s: Seq<Value>) -> Seq<ValueV> {
    values_view_prefix(s, s.len() as int)
}

impl View for Value {
    type V = ValueV;

    open spec fn view(&self) -> ValueV {
        value_view(*self)
    }
}

/// A prefix view has the prefix's length and the elements' views.
pub proof fn lemma_values_view_prefix(s: Seq<Value>, n: int)
    requires
        0 <= n <= s.len(),
    ensures
        values_view_prefix(s, n).len() == n,
        forall|i: int| 0 <= i < n ==> values_view_prefix(s, n)[i] == value_view(s[i]),
    decreases n,
{
    if n > 0 {
        lemma_values_view_prefix(s, n - 1);
    }
}

/// A whole sequence's view has the sequence's length and the elements' views.
pub proof fn lemma_values_view(s: Seq<Value>)
    ensures
        values_view(s).len() == s.len(),
        forall|i: int| 0 <= i < s.len() ==> values_view(s)[i] == value_view(s[i]),
{
    lemma_values_view_prefix(s, s.len() as int);
}

/// Sequences whose elements have equal views have equal views.
pub proof fn lemma_values_view_pointwise(s1: Seq<Value>, s2: Seq<Value>, n: int)
    requires
        0 <= n <= s1.len(),
        n <= s2.len(),
        forall|i: int| 0 <= i < n ==> value_view(#[trigger] s1[i]) == value_view(s2[i]),
    ensures
        values_view_prefix(s1, n) == values_view_prefix(s2, n),
    decreases n,
{
    if n > 0 {
        lemma_values_view_pointwise(s1, s2, n - 1);
    }
}

fn clone_value_vec(vs: &Vec<Value>) -> (r: Vec<Value>)
    ensures
        r@.len() == vs@.len(),
        forall|i: int| 0 <= i < vs@.len() ==> value_view(#[trigger] r@[i]) == value_view(vs@[i]),
    decreases vs@,
{
    let mut out: Vec<Value> = Vec::new();
    let mut i: usize = 0;
    while i < vs.len()
        invariant
            0 <= i <= vs@.len(),
            out@.len() == i,
            forall|j: int| 0 <= j < i ==> value_view(#[trigger] out@[j]) == value_view(vs@[j]),
        decreases vs@.len() - i,
    {
        out.push(clone_value(&vs[i]));
        i = i + 1;
    }
    out
}

fn clone_value(v: &Value) -> (r: Value)
    ensures
        r@ == v@,
    decreases *v,
{
    match v {
        Value::Unsigned(x) => Value::Unsigned(*x),
        Value::Signed(x) => Value::Signed(*x),
        Value::Float(b) => Value::Float(*b),
        Value::Bool(b) => Value::Bool(*b),
        Value::Str(s) => Value::Str(s.clone()),
        Value::Tuple(vs) => {
            let cloned = clone_value_vec(vs);
            proof {
                lemma_values_view_pointwise(cloned@, vs@, vs@.len() as int);
            }
            Value::Tuple(cloned)
        },
    }
}

impl Clone for Value {
    /// A clone has the same view as the original.
    fn clone(&self) -> (r: Self)
        ensures
            r@ == self@,
    {
        clone_value(self)
    }
}

/// A value is well formed when no float in it is a NaN.
pub open spec fn spec_valid_value(v: ValueV) -> bool
    decreases v,
{
    match v {
        ValueV::Float(b) => !float::spec_is_nan_bits(b),
        ValueV::Tuple(vs) => spec_valid_values_prefix(vs, vs.len() as int),
        _ => true,
    }
}

/// The first `n` values of a sequence are well formed.
pub open spec fn spec_valid_values_prefix(vs: Seq<ValueV>, n: int) -> bool
    decreases vs, n,
        when n <= vs.len()
{
    n <= 0 || (spec_valid_values_prefix(vs, n - 1) && spec_valid_value(vs[n - 1]))
}

/// A float result: the bits wrapped as a value, or a fault when they encode a
/// NaN.
pub open spec fn spec_float_result(bits: u64) -> Result<ValueV, EngineError> {
    if float::spec_is_nan_bits(bits) {
        Err(EngineError::ArithmeticFault)
    } else {
        Ok(ValueV::Float(bits))
    }
}

/// Wraps float bits, rejecting a NaN.
fn float_result(bits: u64) -> (r: Result<Value, EngineError>)
    ensures
        lift_result(r) == spec_float_result(bits),
{
    if float::is_nan_bits(bits) {
        Err(EngineError::ArithmeticFault)
    } else {
        Ok(Value::Float(bits))
    }
}

/// The view of an operation's result.
pub open spec fn lift_result(r: Result<Value, EngineError>) -> Result<ValueV, EngineError> {
    match r {
        Ok(v) => Ok(value_view(v)),
        Err(e) => Err(e),
    }
}

/// The sum of two values: defined on matching numeric tags; overflow, NaN and
/// mismatched tags fault.
pub open spec fn spec_add(a: ValueV, b: ValueV) -> Result<ValueV, EngineError> {
    match (a, b) {
        (ValueV::Unsigned(x), ValueV::Unsigned(y)) => if x + y <= u128::MAX {
            Ok(ValueV::Unsigned((x + y) as u128))
        } else {
            Err(EngineError::ArithmeticFault)
        },
        (ValueV::Signed(x), ValueV::Signed(y)) => if i128::MIN <= x + y <= i128::MAX {
            Ok(ValueV::Signed((x + y) as i128))
        } else {
            Err(EngineError::ArithmeticFault)
        },
        (ValueV::Float(x), ValueV::Float(y)) => spec_float_result(float::add_bits_of(x, y)),
        _ => Err(EngineError::ArithmeticFault),
    }
}

/// The difference of two values.
pub open spec fn spec_sub(a: ValueV, b: ValueV) -> Result<ValueV, EngineError> {
    match (a, b) {
        (ValueV::Unsigned(x), ValueV::Unsigned(y)) => if x - y >= 0 {
            Ok(ValueV::Unsigned((x - y) as u128))
        } else {
            Err(EngineError::ArithmeticFault)
        },
        (ValueV::Signed(x), ValueV::Signed(y)) => if i128::MIN <= x - y <= i128::MAX {
            Ok(ValueV::Signed((x - y) as i128))
        } else {
            Err(EngineError::ArithmeticFault)
        },
        (ValueV::Float(x), ValueV::Float(y)) => spec_float_result(float::sub_bits_of(x, y)),
        _ => Err(EngineError::ArithmeticFault),
    }
}

/// The product of two values.
pub open spec fn spec_mul(a: ValueV, b: ValueV) -> Result<ValueV, EngineError> {
    match (a, b) {
        (ValueV::Unsigned(x), ValueV::Unsigned(y)) => if x * y <= u128::MAX {
            Ok(ValueV::Unsigned((x * y) as u128))
        } else {
            Err(EngineError::ArithmeticFault)
        },
        (ValueV::Signed(x), ValueV::Signed(y)) => if i128::MIN <= x * y <= i128::MAX {
            Ok(ValueV::Signed((x * y) as i128))
        } else {
            Err(EngineError::ArithmeticFault)
        },
        (ValueV::Float(x), ValueV::Float(y)) => spec_float_result(float::mul_bits_of(x, y)),
        _ => Err(EngineError::ArithmeticFault),
    }
}

/// The quotient of two values; integer division by zero faults, as does the
/// one overflowing signed case (the smallest value divided by minus one).
/// Signed division truncates toward zero, as machine division does.
pub open spec fn spec_div(a: ValueV, b: ValueV) -> Result<ValueV, EngineError> {
    match (a, b) {
        (ValueV::Unsigned(x), ValueV::Unsigned(y)) => if y == 0 {
            Err(EngineError::ArithmeticFault)
        } else {
            Ok(ValueV::Unsigned((x as int / y as int) as u128))
        },
        (ValueV::Signed(x), ValueV::Signed(y)) => match x.checked_div(y) {
            Some(v) => Ok(ValueV::Signed(v)),
            None => Err(EngineError::ArithmeticFault),
        },
        (ValueV::Float(x), ValueV::Float(y)) => spec_float_result(float::div_bits_of(x, y)),
        _ => Err(EngineError::ArithmeticFault),
    }
}

/// The remainder of two values; the failing cases are those of `spec_div`.
/// The signed remainder takes the dividend's sign, as machine remainder does.
pub open spec fn spec_rem(a: ValueV, b: ValueV) -> Result<ValueV, EngineError> {
    match (a, b) {
        (ValueV::Unsigned(x), ValueV::Unsigned(y)) => if y == 0 {
            Err(EngineError::ArithmeticFault)
        } else {
            Ok(ValueV::Unsigned((x as int % y as int) as u128))
        },
        (ValueV::Signed(x), ValueV::Signed(y)) => match x.checked_rem(y) {
            Some(v) => Ok(ValueV::Signed(v)),
            None => Err(EngineError::ArithmeticFault),
        },
        (ValueV::Float(x), ValueV::Float(y)) => spec_float_result(float::rem_bits_of(x, y)),
        _ => Err(EngineError::ArithmeticFault),
    }
}

/// Logical disjunction of two boolean values.
pub open spec fn spec_bitor(a: ValueV, b: ValueV) -> Result<ValueV, EngineError> {
    match (a, b) {
        (ValueV::Bool(x), ValueV::Bool(y)) => Ok(ValueV::Bool(x || y)),
        _ => Err(EngineError::ArithmeticFault),
    }
}

/// Logical conjunction of two boolean values.
pub open spec fn spec_bitand(a: ValueV, b: ValueV) -> Result<ValueV, EngineError> {
    match (a, b) {
        (ValueV::Bool(x), ValueV::Bool(y)) => Ok(ValueV::Bool(x && y)),
        _ => Err(EngineError::ArithmeticFault),
    }
}

/// Inversion: boolean not, signed and float negation.
pub open spec fn spec_not(a: ValueV) -> Result<ValueV, EngineError> {
    match a {
        ValueV::Bool(x) => Ok(ValueV::Bool(!x)),
        ValueV::Signed(x) => if x == i128::MIN {
            Err(EngineError::ArithmeticFault)
        } else {
            Ok(ValueV::Signed((-x) as i128))
        },
        ValueV::Float(b) => Ok(ValueV::Float(float::spec_neg_bits(b))),
        _ => Err(EngineError::ArithmeticFault),
    }
}

/// Equality of two values: matching tags compare their content, floats by
/// IEEE equality, tuples element by element; mismatched tags are unequal.
pub open spec fn spec_val_eq(a: ValueV, b: ValueV) -> bool
    decreases a,
{
    match (a, b) {
        (ValueV::Unsigned(x), ValueV::Unsigned(y)) => x == y,
        (ValueV::Signed(x), ValueV::Signed(y)) => x == y,
        (ValueV::Float(x), ValueV::Float(y)) => float::spec_eq_bits(x, y),
        (ValueV::Bool(x), ValueV::Bool(y)) => x == y,
        (ValueV::Str(x), ValueV::Str(y)) => x == y,
        (ValueV::Tuple(x), ValueV::Tuple(y)) => x.len() == y.len() && spec_vals_eq_prefix(
            x,
            y,
            x.len() as int,
        ),
        _ => false,
    }
}

/// Elementwise equality of the first `n` values of two sequences.
pub open spec fn spec_vals_eq_prefix(x: Seq<ValueV>, y: Seq<ValueV>, n: int) -> bool
    decreases x, n,
        when n <= x.len() && n <= y.len()
{
    n <= 0 || (spec_vals_eq_prefix(x, y, n - 1) && spec_val_eq(x[n - 1], y[n - 1]))
}

/// Strict order of two values: defined on matching numeric tags.
pub open spec fn spec_val_lt(a: ValueV, b: ValueV) -> Result<bool, EngineError> {
    match (a, b) {
        (ValueV::Unsigned(x), ValueV::Unsigned(y)) => Ok(x < y),
        (ValueV::Signed(x), ValueV::Signed(y)) => Ok(x < y),
        (ValueV::Float(x), ValueV::Float(y)) => Ok(float::spec_lt_bits(x, y)),
        _ => Err(EngineError::ArithmeticFault),
    }
}

/// Non-strict order of two values: defined on matching numeric tags.
pub open spec fn spec_val_le(a: ValueV, b: ValueV) -> Result<bool, EngineError> {
    match (a, b) {
        (ValueV::Unsigned(x), ValueV::Unsigned(y)) => Ok(x <= y),
        (ValueV::Signed(x), ValueV::Signed(y)) => Ok(x <= y),
        (ValueV::Float(x), ValueV::Float(y)) => Ok(float::spec_le_bits(x, y)),
        _ => Err(EngineError::ArithmeticFault),
    }
}

impl Value {
    /// The sum of two values.
    pub fn add(self, other: Value) -> (r: Result<Value, EngineError>)
        ensures
            lift_result(r) == spec_add(self@, other@),
    {
        match (self, other) {
            (Value::Unsigned(x), Value::Unsigned(y)) => match x.checked_add(y) {
                Some(v) => Ok(Value::Unsigned(v)),
                None => Err(EngineError::ArithmeticFault),
            },
            (Value::Signed(x), Value::Signed(y)) => match x.checked_add(y) {
                Some(v) => Ok(Value::Signed(v)),
                None => Err(EngineError::ArithmeticFault),
            },
            (Value::Float(x), Value::Float(y)) => float_result(float::add_bits(x, y)),
            _ => Err(EngineError::ArithmeticFault),
        }
    }

    /// The difference of two values.
    pub fn sub(self, other: Value) -> (r: Result<Value, EngineError>)
        ensures
            lift_result(r) == spec_sub(self@, other@),
    {
        match (self, other) {
            (Value::Unsigned(x), Value::Unsigned(y)) => match x.checked_sub(y) {
                Some(v) => Ok(Value::Unsigned(v)),
                None => Err(EngineError::ArithmeticFault),
            },
            (Value::Signed(x), Value::Signed(y)) => match x.checked_sub(y) {
                Some(v) => Ok(Value::Signed(v)),
                None => Err(EngineError::ArithmeticFault),
            },
            (Value::Float(x), Value::Float(y)) => float_result(float::sub_bits(x, y)),
            _ => Err(EngineError::ArithmeticFault),
        }
    }

    /// The product of two values.
    pub fn mul(self, other: Value) -> (r: Result<Value, EngineError>)
        ensures
            lift_result(r) == spec_mul(self@, other@),
    {
        match (self, other) {
            (Value::Unsigned(x), Value::Unsigned(y)) => match x.checked_mul(y) {
                Some(v) => Ok(Value::Unsigned(v)),
                None => Err(EngineError::ArithmeticFault),
            },
            (Value::Signed(x), Value::Signed(y)) => match x.checked_mul(y) {
                Some(v) => Ok(Value::Signed(v)),
                None => Err(EngineError::ArithmeticFault),
            },
            (Value::Float(x), Value::Float(y)) => float_result(float::mul_bits(x, y)),
            _ => Err(EngineError::ArithmeticFault),
        }
    }

    /// The quotient of two values.
    pub fn div(self, other: Value) -> (r: Result<Value, EngineError>)
        ensures
            lift_result(r) == spec_div(self@, other@),
    {
        match (self, other) {
            (Value::Unsigned(x), Value::Unsigned(y)) => {
                if y == 0 {
                    Err(EngineError::ArithmeticFault)
                } else {
                    Ok(Value::Unsigned(x / y))
                }
            },
            (Value::Signed(x), Value::Signed(y)) => match x.checked_div(y) {
                Some(v) => Ok(Value::Signed(v)),
                None => Err(EngineError::ArithmeticFault),
            },
            (Value::Float(x), Value::Float(y)) => float_result(float::div_bits(x, y)),
            _ => Err(EngineError::ArithmeticFault),
        }
    }

    /// The remainder of two values.
    pub fn rem(self, other: Value) -> (r: Result<Value, EngineError>)
        ensures
            lift_result(r) == spec_rem(self@, other@),
    {
        match (self, other) {
            (Value::Unsigned(x), Value::Unsigned(y)) => {
                if y == 0 {
                    Err(EngineError::ArithmeticFault)
                } else {
                    Ok(Value::Unsigned(x % y))
                }
            },
            (Value::Signed(x), Value::Signed(y)) => match x.checked_rem(y) {
                Some(v) => Ok(Value::Signed(v)),
                None => Err(EngineError::ArithmeticFault),
            },
            (Value::Float(x), Value::Float(y)) => float_result(float::rem_bits(x, y)),
            _ => Err(EngineError::ArithmeticFault),
        }
    }

    /// Logical disjunction of two boolean values.
    pub fn bitor(self, other: Value) -> (r: Result<Value, EngineError>)
        ensures
            lift_result(r) == spec_bitor(self@, other@),
    {
        match (self, other) {
            (Value::Bool(x), Value::Bool(y)) => Ok(Value::Bool(x || y)),
            _ => Err(EngineError::ArithmeticFault),
        }
    }

    /// Logical conjunction of two boolean values.
    pub fn bitand(self, other: Value) -> (r: Result<Value, EngineError>)
        ensures
            lift_result(r) == spec_bitand(self@, other@),
    {
        match (self, other) {
            (Value::Bool(x), Value::Bool(y)) => Ok(Value::Bool(x && y)),
            _ => Err(EngineError::ArithmeticFault),
        }
    }

    /// Inversion: boolean not, signed and float negation.
    pub fn not(self) -> (r: Result<Value, EngineError>)
        ensures
            lift_result(r) == spec_not(self@),
    {
        match self {
            Value::Bool(x) => Ok(Value::Bool(!x)),
            Value::Signed(x) => {
                if x == i128::MIN {
                    Err(EngineError::ArithmeticFault)
                } else {
                    Ok(Value::Signed(-x))
                }
            },
            Value::Float(b) => Ok(Value::Float(float::neg_bits(b))),
            _ => Err(EngineError::ArithmeticFault),
        }
    }

    /// Equality of two values.
    pub fn eq_val(&self, other: &Value) -> (r: bool)
        ensures
            r == spec_val_eq(self@, other@),
    {
        val_eq(self, other)
    }

    /// Strict order of two values.
    pub fn lt_val(&self, other: &Value) -> (r: Result<bool, EngineError>)
        ensures
            r == spec_val_lt(self@, other@),
    {
        match (self, other) {
            (Value::Unsigned(x), Value::Unsigned(y)) => Ok(*x < *y),
            (Value::Signed(x), Value::Signed(y)) => Ok(*x < *y),
            (Value::Float(x), Value::Float(y)) => Ok(float::lt_bits(*x, *y)),
            _ => Err(EngineError::ArithmeticFault),
        }
    }

    /// Non-strict order of two values.
    pub fn le_val(&self, other: &Value) -> (r: Result<bool, EngineError>)
        ensures
            r == spec_val_le(self@, other@),
    {
        match (self, other) {
            (Value::Unsigned(x), Value::Unsigned(y)) => Ok(*x <= *y),
            (Value::Signed(x), Value::Signed(y)) => Ok(*x <= *y),
            (Value::Float(x), Value::Float(y)) => Ok(float::le_bits(*x, *y)),
            _ => Err(EngineError::ArithmeticFault),
        }
    }
}

fn vals_eq_vec(x: &Vec<Value>, y: &Vec<Value>) -> (r: bool)
    ensures
        r == (x@.len() == y@.len() && spec_vals_eq_prefix(
            values_view(x@),
            values_view(y@),
            x@.len() as int,
        )),
    decreases x@,
{
    proof {
        lemma_values_view(x@);
        lemma_values_view(y@);
    }
    if x.len() != y.len() {
        return false;
    }
    let mut i: usize = 0;
    while i < x.len()
        invariant
            0 <= i <= x@.len(),
            x@.len() == y@.len(),
            spec_vals_eq_prefix(values_view(x@), values_view(y@), i as int),
            values_view(x@).len() == x@.len(),
            values_view(y@).len() == y@.len(),
            forall|j: int|
                0 <= j < x@.len() ==> #[trigger] values_view(x@)[j] == value_view(x@[j]),
            forall|j: int|
                0 <= j < y@.len() ==> #[trigger] values_view(y@)[j] == value_view(y@[j]),
        decreases x@.len() - i,
    {
        if !val_eq(&x[i], &y[i]) {
            proof {
                assert(!spec_val_eq(values_view(x@)[i as int], values_view(y@)[i as int]));
                lemma_vals_eq_prefix_mono(values_view(x@), values_view(y@), i as int + 1, x@.len() as int);
            }
            return false;
        }
        i = i + 1;
    }
    true
}

/// Once an elementwise comparison fails at a prefix, it fails at every longer
/// prefix.
proof fn lemma_vals_eq_prefix_mono(x: Seq<ValueV>, y: Seq<ValueV>, i: int, n: int)
    requires
        0 <= i <= n <= x.len(),
        n <= y.len(),
        !spec_vals_eq_prefix(x, y, i),
    ensures
        !spec_vals_eq_prefix(x, y, n),
    decreases n - i,
{
    if i < n {
        lemma_vals_eq_prefix_mono(x, y, i + 1, n);
    }
}

fn val_eq(a: &Value, b: &Value) -> (r: bool)
    ensures
        r == spec_val_eq(a@, b@),
    decreases *a,
{
    match (a, b) {
        (Value::Unsigned(x), Value::Unsigned(y)) => *x == *y,
        (Value::Signed(x), Value::Signed(y)) => *x == *y,
        (Value::Float(x), Value::Float(y)) => float::eq_bits(*x, *y),
        (Value::Bool(x), Value::Bool(y)) => *x == *y,
        (Value::Str(x), Value::Str(y)) => x.eq(y),
        (Value::Tuple(x), Value::Tuple(y)) => {
            proof {
                lemma_values_view(x@);
                lemma_values_view(y@);
            }
            vals_eq_vec(x, y)
        },
        _ => false,
    }
}


/// The chain of partial products `base^0, base^1, ...`: each step multiplies
/// by the base and fails once a partial product leaves `[lo, hi]`. For bases
/// of magnitude two or more the partial products grow, so this fails exactly
/// when the power itself leaves the range; bases of magnitude at most one
/// never fail.
pub open spec fn spec_pow_steps(base: int, e: nat, lo: int, hi: int) -> Option<int>
    decreases e,
{
    if e == 0 {
        Some(1)
    } else {
        match spec_pow_steps(base, (e - 1) as nat, lo, hi) {
            Some(p) => if lo <= p * base <= hi {
                Some(p * base)
            } else {
                None
            },
            None => None,
        }
    }
}

/// A failed power chain stays failed as the exponent grows.
proof fn lemma_pow_steps_absorb(base: int, i: nat, e: nat, lo: int, hi: int)
    requires
        i <= e,
        spec_pow_steps(base, i, lo, hi) is None,
    ensures
        spec_pow_steps(base, e, lo, hi) is None,
    decreases e - i,
{
    if i < e {
        lemma_pow_steps_absorb(base, (i + 1) as nat, e, lo, hi);
    }
}

/// The power chain of zero: one at exponent zero, zero afterwards.
proof fn lemma_pow_steps_zero(e: nat, lo: int, hi: int)
    requires
        lo <= 0,
        hi >= 1,
    ensures
        e == 0 ==> spec_pow_steps(0, e, lo, hi) == Some(1int),
        e > 0 ==> spec_pow_steps(0, e, lo, hi) == Some(0int),
    decreases e,
{
    if e > 0 {
        lemma_pow_steps_zero((e - 1) as nat, lo, hi);
    }
}

/// The power chain of one: always one.
proof fn lemma_pow_steps_one(e: nat, lo: int, hi: int)
    requires
        lo <= 1,
        hi >= 1,
    ensures
        spec_pow_steps(1, e, lo, hi) == Some(1int),
    decreases e,
{
    if e > 0 {
        lemma_pow_steps_one((e - 1) as nat, lo, hi);
    }
}

/// The power chain of minus one: alternating one and minus one.
proof fn lemma_pow_steps_neg_one(e: nat, lo: int, hi: int)
    requires
        lo <= -1,
        hi >= 1,
    ensures
        e % 2 == 0 ==> spec_pow_steps(-1, e, lo, hi) == Some(1int),
        e % 2 == 1 ==> spec_pow_steps(-1, e, lo, hi) == Some(-1int),
    decreases e,
{
    if e > 0 {
        lemma_pow_steps_neg_one((e - 1) as nat, lo, hi);
    }
}

/// The power of two values: defined for matching integer tags with a
/// non-negative exponent; a result outside the value's range faults, as does
/// a float base (this engine holds no float power function).
pub open spec fn spec_pow(a: ValueV, b: ValueV) -> Result<ValueV, EngineError> {
    match (a, b) {
        (ValueV::Unsigned(x), ValueV::Unsigned(e)) => match spec_pow_steps(
            x as int,
            e as nat,
            0,
            u128::MAX as int,
        ) {
            Some(p) => Ok(ValueV::Unsigned(p as u128)),
            None => Err(EngineError::ArithmeticFault),
        },
        (ValueV::Signed(x), ValueV::Signed(e)) => if e < 0 {
            Err(EngineError::ArithmeticFault)
        } else {
            match spec_pow_steps(x as int, e as nat, i128::MIN as int, i128::MAX as int) {
                Some(p) => Ok(ValueV::Signed(p as i128)),
                None => Err(EngineError::ArithmeticFault),
            }
        },
        _ => Err(EngineError::ArithmeticFault),
    }
}

impl Value {
    /// The power of two values.
    #[verifier::loop_isolation(false)]
    pub fn pow(self, other: Value) -> (r: Result<Value, EngineError>)
        ensures
            lift_result(r) == spec_pow(self@, other@),
    {
        match (self, other) {
            (Value::Unsigned(x), Value::Unsigned(e)) => {
                if x == 0 {
                    proof {
                        lemma_pow_steps_zero(e as nat, 0, u128::MAX as int);
                    }
                    if e == 0 {
                        Ok(Value::Unsigned(1))
                    } else {
                        Ok(Value::Unsigned(0))
                    }
                } else if x == 1 {
                    proof {
                        lemma_pow_steps_one(e as nat, 0, u128::MAX as int);
                    }
                    Ok(Value::Unsigned(1))
                } else {
                    let mut acc: u128 = 1;
                    let mut k: u128 = 0;
                    while k < e
                        invariant
                            0 <= k <= e,
                            spec_pow_steps(x as int, k as nat, 0, u128::MAX as int) == Some(
                                acc as int,
                            ),
                        decreases e - k,
                    {
                        acc = match acc.checked_mul(x) {
                            Some(v) => v,
                            None => {
                                proof {
                                    lemma_pow_steps_absorb(
                                        x as int,
                                        (k + 1) as nat,
                                        e as nat,
                                        0,
                                        u128::MAX as int,
                                    );
                                }
                                return Err(EngineError::ArithmeticFault);
                            },
                        };
                        k = k + 1;
                    }
                    Ok(Value::Unsigned(acc))
                }
            },
            (Value::Signed(x), Value::Signed(e)) => {
                if e < 0 {
                    Err(EngineError::ArithmeticFault)
                } else if x == 0 {
                    proof {
                        lemma_pow_steps_zero(e as nat, i128::MIN as int, i128::MAX as int);
                    }
                    if e == 0 {
                        Ok(Value::Signed(1))
                    } else {
                        Ok(Value::Signed(0))
                    }
                } else if x == 1 {
                    proof {
                        lemma_pow_steps_one(e as nat, i128::MIN as int, i128::MAX as int);
                    }
                    Ok(Value::Signed(1))
                } else if x == -1 {
                    proof {
                        lemma_pow_steps_neg_one(e as nat, i128::MIN as int, i128::MAX as int);
                    }
                    if e % 2 == 0 {
                        Ok(Value::Signed(1))
                    } else {
                        Ok(Value::Signed(-1))
                    }
                } else {
                    let mut acc: i128 = 1;
                    let mut k: i128 = 0;
                    while k < e
                        invariant
                            0 <= k <= e,
                            spec_pow_steps(
                                x as int,
                                k as nat,
                                i128::MIN as int,
                                i128::MAX as int,
                            ) == Some(acc as int),
                        decreases e - k,
                    {
                        acc = match acc.checked_mul(x) {
                            Some(v) => v,
                            None => {
                                proof {
                                    lemma_pow_steps_absorb(
                                        x as int,
                                        (k + 1) as nat,
                                        e as nat,
                                        i128::MIN as int,
                                        i128::MAX as int,
                                    );
                                }
                                return Err(EngineError::ArithmeticFault);
                            },
                        };
                        k = k + 1;
                    }
                    Ok(Value::Signed(acc))
                }
            },
            _ => Err(EngineError::ArithmeticFault),
        }
    }
}

/// Values stay free of NaN floats: a parsed cell is well formed, and every
/// operation that succeeds on well-formed values yields a well-formed value.
/// Arithmetic rejects a NaN result outright; negation of a well-formed float
/// cannot produce one.
pub proof fn lemma_values_stay_valid(a: ValueV, b: ValueV, s: Seq<char>, ty: Type)
    ensures
        spec_try_from(s, ty) matches Some(v) ==> spec_valid_value(v),
        spec_add(a, b) matches Ok(v) ==> spec_valid_value(v),
        spec_sub(a, b) matches Ok(v) ==> spec_valid_value(v),
        spec_mul(a, b) matches Ok(v) ==> spec_valid_value(v),
        spec_div(a, b) matches Ok(v) ==> spec_valid_value(v),
        spec_rem(a, b) matches Ok(v) ==> spec_valid_value(v),
        spec_pow(a, b) matches Ok(v) ==> spec_valid_value(v),
        spec_valid_value(a) && (spec_not(a) matches Ok(v)) ==> spec_valid_value(spec_not(a)->Ok_0),
{
    match a {
        ValueV::Float(bits) => {
            crate::float::lemma_neg_keeps_nan(bits);
        },
        _ => {},
    }
}

/// The value a textual cell denotes under a declared type. A type that no
/// input stream can declare (tuples, options, functions) is outside this
/// function's domain.
pub open spec fn spec_try_from(s: Seq<char>, ty: Type) -> Option<ValueV> {
    match ty {
        Type::Bool => match parse::spec_parse_bool(s) {
            Some(b) => Some(ValueV::Bool(b)),
            None => None,
        },
        Type::UInt(_) => match parse::spec_parse_unsigned(s) {
            Some(u) => Some(ValueV::Unsigned(u)),
            None => None,
        },
        Type::Int(_) => match parse::spec_parse_signed(s) {
            Some(i) => Some(ValueV::Signed(i)),
            None => None,
        },
        Type::Float(_) => match float::double_bits_of_text(s) {
            Some(b) => if float::spec_is_nan_bits(b) {
                None
            } else {
                Some(ValueV::Float(b))
            },
            None => None,
        },
        Type::String => Some(ValueV::Str(s)),
        _ => None,
    }
}

impl Value {
    /// Parses a textual cell per the declared type of its input stream.
    /// A malformed token yields `None`; a float that reads as a NaN is
    /// malformed, keeping every held float NaN-free.
    pub fn try_from(source: &str, ty: &Type) -> (r: Option<Value>)
        requires
            ty is Bool || ty is UInt || ty is Int || ty is Float || ty is String,
        ensures
            match r {
                Some(v) => spec_try_from(source@, *ty) == Some(v@),
                None => spec_try_from(source@, *ty) is None,
            },
    {
        match ty {
            Type::Bool => match parse::parse_bool(source) {
                Some(b) => Some(Value::Bool(b)),
                None => None,
            },
            Type::UInt(_) => match parse::parse_unsigned(source) {
                Some(u) => Some(Value::Unsigned(u)),
                None => None,
            },
            Type::Int(_) => match parse::parse_signed(source) {
                Some(i) => Some(Value::Signed(i)),
                None => None,
            },
            Type::Float(_) => match float::parse_double_bits(source) {
                Some(b) => {
                    if float::is_nan_bits(b) {
                        None
                    } else {
                        Some(Value::Float(b))
                    }
                },
                None => None,
            },
            Type::String => Some(Value::Str(source.to_owned())),
            _ => None,
        }
    }
}

} // verus!
