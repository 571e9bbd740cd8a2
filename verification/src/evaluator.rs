//! The expression evaluator: a pure function from an expression tree and an
//! evaluation context (current time, storage, per-stream freshness bits,
//! window accumulators) to a value. A lookup that reaches before the start of
//! the run yields "no value", which a surrounding default converts; every
//! other failure is an engine error.

use vstd::prelude::*;
use crate::error::EngineError;
use crate::float;
use crate::ir::{ArithLogOp, Constant, Expression, FloatTy, LolaIR, Offset, StreamReference, Type};
use crate::storage::StreamBuffer;
use crate::value::{
    Value, ValueV, lift_result, spec_add, spec_sub, spec_mul, spec_div, spec_rem, spec_pow,
    spec_not, spec_val_eq, spec_val_lt, spec_val_le, values_view, lemma_values_view, value_view,
};
use crate::windows::{WindowInst, spec_win_query};

verus! {

/// Whether the pattern matches the text; nothing when the pattern is not a
/// valid regular expression.
pub uninterp spec fn regex_match_of(pattern: Seq<char>, text: Seq<char>) -> Option<bool>;

/// Relies on `regex::Regex::new` and `regex::Regex::is_match`: whether the
/// pattern matches the text, `None` for an invalid pattern; the result
/// depends on the pattern and the text alone.
#[verifier::external_body]
fn regex_is_match(pattern: &str, text: &str) -> (r: Option<bool>)
    ensures
        r == regex_match_of(pattern@, text@),
{
    match regex::Regex::new(pattern) {
        Ok(re) => Some(re.is_match(text)),
        Err(_) => None,
    }
}

/// The evaluation context: the specification, the storage of every stream,
/// which streams carry a value at the current instant, the window
/// accumulators, and the current time.
pub struct Ctx<'a> {
    pub ir: &'a LolaIR,
    pub inputs: &'a Vec<StreamBuffer>,
    pub outputs: &'a Vec<StreamBuffer>,
    pub fresh_in: &'a Vec<bool>,
    pub fresh_out: &'a Vec<bool>,
    pub windows: &'a Vec<WindowInst>,
    pub time: u128,
}

/// The mathematical shape of an evaluation context: the cells and windows
/// stand as their shapes, so that a context is a plain mathematical value.
pub ghost struct CtxV {
    pub inputs: Seq<crate::storage::BufM>,
    pub outputs: Seq<crate::storage::BufM>,
    pub fresh_in: Seq<bool>,
    pub fresh_out: Seq<bool>,
    pub windows: Seq<crate::windows::WinM>,
    pub time: u128,
}

impl<'a> Ctx<'a> {
    /// The context's mathematical shape.
    pub open spec fn view_spec(&self) -> CtxV {
        CtxV {
            inputs: crate::storage::bufs_m(self.inputs@),
            outputs: crate::storage::bufs_m(self.outputs@),
            fresh_in: self.fresh_in@,
            fresh_out: self.fresh_out@,
            windows: crate::windows::wins_m(self.windows@),
            time: self.time,
        }
    }

    /// All storage cells and window accumulators are well formed, and the
    /// freshness lists pair up with the storage lists.
    pub open spec fn wf(&self) -> bool {
        &&& forall|i: int| 0 <= i < self.inputs@.len() ==> (#[trigger] self.inputs@[i]).wf()
        &&& forall|i: int| 0 <= i < self.outputs@.len() ==> (#[trigger] self.outputs@[i]).wf()
        &&& forall|i: int| 0 <= i < self.windows@.len() ==> (#[trigger] self.windows@[i]).wf()
        &&& self.fresh_in@.len() == self.inputs@.len()
        &&& self.fresh_out@.len() == self.outputs@.len()
    }
}

/// The value of a constant.
pub open spec fn const_view(c: Constant) -> ValueV {
    match c {
        Constant::Str(s) => ValueV::Str(s@),
        Constant::Bool(b) => ValueV::Bool(b),
        Constant::UInt(u) => ValueV::Unsigned(u),
        Constant::Int(i) => ValueV::Signed(i),
        Constant::Float(b) => ValueV::Float(b),
    }
}

/// Turns "no value" into a missing-value error where a value is required.
pub open spec fn spec_force(r: Result<Option<ValueV>, EngineError>) -> Result<
    ValueV,
    EngineError,
> {
    match r {
        Ok(Some(v)) => Ok(v),
        Ok(None) => Err(EngineError::MissingRequiredValue),
        Err(e) => Err(e),
    }
}

/// Wraps a value operation's outcome as an evaluation outcome.
pub open spec fn spec_some(r: Result<ValueV, EngineError>) -> Result<Option<ValueV>, EngineError> {
    match r {
        Ok(v) => Ok(Some(v)),
        Err(e) => Err(e),
    }
}

/// One operator applied to evaluated arguments. `And` and `Or` are not here:
/// they short-circuit and take their arguments unevaluated.
pub open spec fn apply_op_spec(op: ArithLogOp, vs: Seq<ValueV>) -> Result<
    Option<ValueV>,
    EngineError,
> {
    match op {
        ArithLogOp::Not | ArithLogOp::Neg => if vs.len() == 1 {
            spec_some(spec_not(vs[0]))
        } else {
            Err(EngineError::SpecLoadError)
        },
        ArithLogOp::Add => if vs.len() == 2 {
            spec_some(spec_add(vs[0], vs[1]))
        } else {
            Err(EngineError::SpecLoadError)
        },
        ArithLogOp::Sub => if vs.len() == 2 {
            spec_some(spec_sub(vs[0], vs[1]))
        } else {
            Err(EngineError::SpecLoadError)
        },
        ArithLogOp::Mul => if vs.len() == 2 {
            spec_some(spec_mul(vs[0], vs[1]))
        } else {
            Err(EngineError::SpecLoadError)
        },
        ArithLogOp::Div => if vs.len() == 2 {
            spec_some(spec_div(vs[0], vs[1]))
        } else {
            Err(EngineError::SpecLoadError)
        },
        ArithLogOp::Rem => if vs.len() == 2 {
            spec_some(spec_rem(vs[0], vs[1]))
        } else {
            Err(EngineError::SpecLoadError)
        },
        ArithLogOp::Pow => if vs.len() == 2 {
            spec_some(spec_pow(vs[0], vs[1]))
        } else {
            Err(EngineError::SpecLoadError)
        },
        ArithLogOp::Eq => if vs.len() == 2 {
            Ok(Some(ValueV::Bool(spec_val_eq(vs[0], vs[1]))))
        } else {
            Err(EngineError::SpecLoadError)
        },
        ArithLogOp::Ne => if vs.len() == 2 {
            Ok(Some(ValueV::Bool(!spec_val_eq(vs[0], vs[1]))))
        } else {
            Err(EngineError::SpecLoadError)
        },
        ArithLogOp::Lt => if vs.len() == 2 {
            match spec_val_lt(vs[0], vs[1]) {
                Ok(b) => Ok(Some(ValueV::Bool(b))),
                Err(e) => Err(e),
            }
        } else {
            Err(EngineError::SpecLoadError)
        },
        ArithLogOp::Le => if vs.len() == 2 {
            match spec_val_le(vs[0], vs[1]) {
                Ok(b) => Ok(Some(ValueV::Bool(b))),
                Err(e) => Err(e),
            }
        } else {
            Err(EngineError::SpecLoadError)
        },
        ArithLogOp::Gt => if vs.len() == 2 {
            match spec_val_lt(vs[1], vs[0]) {
                Ok(b) => Ok(Some(ValueV::Bool(b))),
                Err(e) => Err(e),
            }
        } else {
            Err(EngineError::SpecLoadError)
        },
        ArithLogOp::Ge => if vs.len() == 2 {
            match spec_val_le(vs[1], vs[0]) {
                Ok(b) => Ok(Some(ValueV::Bool(b))),
                Err(e) => Err(e),
            }
        } else {
            Err(EngineError::SpecLoadError)
        },
        ArithLogOp::And | ArithLogOp::Or => Err(EngineError::SpecLoadError),
    }
}

/// The modulus of an integer width: 2 to the width.
pub open spec fn spec_width_modulus(ty: Type) -> int {
    match ty {
        Type::UInt(crate::ir::UIntTy::U8) => 256,
        Type::UInt(crate::ir::UIntTy::U16) => 65536,
        Type::UInt(crate::ir::UIntTy::U32) => 4294967296,
        Type::UInt(crate::ir::UIntTy::U64) => 18446744073709551616,
        Type::Int(crate::ir::IntTy::I8) => 256,
        Type::Int(crate::ir::IntTy::I16) => 65536,
        Type::Int(crate::ir::IntTy::I32) => 4294967296,
        Type::Int(crate::ir::IntTy::I64) => 18446744073709551616,
        _ => 1,
    }
}

/// The integral content of a numeric value, truncated toward zero for a
/// float and read through two's complement for a signed value.
pub open spec fn spec_integral_of(v: ValueV) -> Option<int> {
    match v {
        ValueV::Unsigned(x) => Some(x as int),
        ValueV::Signed(x) => Some(x as int),
        ValueV::Float(b) => Some(float::double_bits_to_signed_of(b) as int),
        _ => None,
    }
}

/// Conversion between numeric kinds: to an unsigned or signed width through
/// two's complement modulo 2^N, to a float by rounding to nearest; a result
/// that reads as a NaN faults.
pub open spec fn spec_convert(to: Type, v: ValueV) -> Result<ValueV, EngineError> {
    match to {
        Type::UInt(_) => match spec_integral_of(v) {
            Some(x) => Ok(ValueV::Unsigned((x % spec_width_modulus(to)) as u128)),
            None => Err(EngineError::ArithmeticFault),
        },
        Type::Int(_) => match spec_integral_of(v) {
            Some(x) => {
                let m = spec_width_modulus(to);
                let t = x % m;
                Ok(
                    ValueV::Signed(
                        if t >= m / 2 {
                            (t - m) as i128
                        } else {
                            t as i128
                        },
                    ),
                )
            },
            None => Err(EngineError::ArithmeticFault),
        },
        Type::Float(FloatTy::F64) => match v {
            ValueV::Unsigned(x) => spec_float_value(float::unsigned_to_double_bits_of(x)),
            ValueV::Signed(x) => spec_float_value(float::signed_to_double_bits_of(x)),
            ValueV::Float(b) => Ok(ValueV::Float(b)),
            _ => Err(EngineError::ArithmeticFault),
        },
        Type::Float(FloatTy::F32) => match v {
            ValueV::Unsigned(x) => spec_float_value(
                float::double_bits_round_single_of(float::unsigned_to_double_bits_of(x)),
            ),
            ValueV::Signed(x) => spec_float_value(
                float::double_bits_round_single_of(float::signed_to_double_bits_of(x)),
            ),
            ValueV::Float(b) => spec_float_value(float::double_bits_round_single_of(b)),
            _ => Err(EngineError::ArithmeticFault),
        },
        _ => Err(EngineError::SpecLoadError),
    }
}

/// A float conversion outcome: the bits, or a fault when they read as a NaN.
pub open spec fn spec_float_value(bits: u64) -> Result<ValueV, EngineError> {
    if float::spec_is_nan_bits(bits) {
        Err(EngineError::ArithmeticFault)
    } else {
        Ok(ValueV::Float(bits))
    }
}

/// A lookup of a stream's storage cell at a past discrete offset.
pub open spec fn spec_offset_lookup(bufs: Seq<crate::storage::BufM>, ix: int, k: int) -> Option<
    ValueV,
> {
    if k < bufs[ix].retained() {
        Some(bufs[ix].hist[bufs[ix].hist.len() - 1 - k])
    } else {
        None
    }
}

/// The value of an expression in a context. A past lookup that reaches
/// before the start of the run, a sample-and-hold of a never-written stream,
/// and an empty average yield no value, which a surrounding default
/// converts; a synchronous lookup of an absent value is an error; an
/// expression outside this engine's features (future or real-time offsets,
/// a function besides `matches`) fails to load.
pub open spec fn eval_spec(e: Expression, c: CtxV) -> Result<Option<ValueV>, EngineError>
    decreases e,
{
    match e {
        Expression::LoadConstant(c0) => Ok(Some(const_view(c0))),
        Expression::ArithLog(op, args, _ty) => {
            if op == ArithLogOp::And || op == ArithLogOp::Or {
                if args@.len() != 2 {
                    Err(EngineError::SpecLoadError)
                } else {
                    match spec_force(eval_spec(args@[0], c)) {
                        Ok(ValueV::Bool(b0)) => {
                            if (op == ArithLogOp::And && !b0) || (op == ArithLogOp::Or && b0) {
                                Ok(Some(ValueV::Bool(b0)))
                            } else {
                                match spec_force(eval_spec(args@[1], c)) {
                                    Ok(ValueV::Bool(b1)) => Ok(Some(ValueV::Bool(b1))),
                                    Ok(_) => Err(EngineError::ArithmeticFault),
                                    Err(e2) => Err(e2),
                                }
                            }
                        },
                        Ok(_) => Err(EngineError::ArithmeticFault),
                        Err(e1) => Err(e1),
                    }
                }
            } else {
                match eval_args_spec(args, c, args@.len() as int) {
                    Ok(vs) => apply_op_spec(op, vs),
                    Err(e1) => Err(e1),
                }
            }
        },
        Expression::OffsetLookup { target, offset } => {
            match offset {
                Offset::PastDiscreteOffset(k) => {
                    match target {
                        StreamReference::InRef(ix) => if ix < c.inputs.len() {
                            Ok(spec_offset_lookup(c.inputs, ix as int, k as int))
                        } else {
                            Err(EngineError::SpecLoadError)
                        },
                        StreamReference::OutRef(ix) => if ix < c.outputs.len() {
                            Ok(spec_offset_lookup(c.outputs, ix as int, k as int))
                        } else {
                            Err(EngineError::SpecLoadError)
                        },
                    }
                },
                _ => Err(EngineError::SpecLoadError),
            }
        },
        Expression::SampleAndHoldStreamLookup(target) => {
            match target {
                StreamReference::InRef(ix) => if ix < c.inputs.len() {
                    if c.inputs[ix as int].hist.len() > 0 {
                        Ok(Some(c.inputs[ix as int].hist.last()))
                    } else {
                        Ok(None)
                    }
                } else {
                    Err(EngineError::SpecLoadError)
                },
                StreamReference::OutRef(ix) => if ix < c.outputs.len() {
                    if c.outputs[ix as int].hist.len() > 0 {
                        Ok(Some(c.outputs[ix as int].hist.last()))
                    } else {
                        Ok(None)
                    }
                } else {
                    Err(EngineError::SpecLoadError)
                },
            }
        },
        Expression::SyncStreamLookup(target) => {
            match target {
                StreamReference::InRef(ix) => if ix < c.inputs.len() && ix < c.fresh_in.len() {
                    if c.fresh_in[ix as int] && c.inputs[ix as int].hist.len() > 0 {
                        Ok(Some(c.inputs[ix as int].hist.last()))
                    } else {
                        Err(EngineError::MissingRequiredValue)
                    }
                } else {
                    Err(EngineError::SpecLoadError)
                },
                StreamReference::OutRef(ix) => if ix < c.outputs.len() && ix < c.fresh_out.len() {
                    if c.fresh_out[ix as int] && c.outputs[ix as int].hist.len() > 0 {
                        Ok(Some(c.outputs[ix as int].hist.last()))
                    } else {
                        Err(EngineError::MissingRequiredValue)
                    }
                } else {
                    Err(EngineError::SpecLoadError)
                },
            }
        },
        Expression::WindowLookup(w) => {
            if w.ix < c.windows.len() {
                let win = c.windows[w.ix as int];
                spec_win_query(
                    win.op,
                    win.ty,
                    win.times,
                    win.vals,
                    c.time as int,
                    win.duration as int,
                )
            } else {
                Err(EngineError::SpecLoadError)
            }
        },
        Expression::Ite { condition, consequence, alternative } => {
            match spec_force(eval_spec(*condition, c)) {
                Ok(ValueV::Bool(b)) => if b {
                    eval_spec(*consequence, c)
                } else {
                    eval_spec(*alternative, c)
                },
                Ok(_) => Err(EngineError::ArithmeticFault),
                Err(e1) => Err(e1),
            }
        },
        Expression::Tuple(es) => {
            match eval_args_spec(es, c, es@.len() as int) {
                Ok(vs) => Ok(Some(ValueV::Tuple(vs))),
                Err(e1) => Err(e1),
            }
        },
        Expression::Function(name, args, _ty) => {
            if name@ == "matches"@ {
                match eval_args_spec(args, c, args@.len() as int) {
                    Ok(vs) => if vs.len() == 2 {
                        match (vs[0], vs[1]) {
                            (ValueV::Str(text), ValueV::Str(pat)) => {
                                match regex_match_of(pat, text) {
                                    Some(b) => Ok(Some(ValueV::Bool(b))),
                                    None => Err(EngineError::SpecLoadError),
                                }
                            },
                            _ => Err(EngineError::ArithmeticFault),
                        }
                    } else {
                        Err(EngineError::SpecLoadError)
                    },
                    Err(e1) => Err(e1),
                }
            } else {
                Err(EngineError::SpecLoadError)
            }
        },
        Expression::Convert { from: _, to, expr } => {
            match spec_force(eval_spec(*expr, c)) {
                Ok(v) => spec_some(spec_convert(to, v)),
                Err(e1) => Err(e1),
            }
        },
        Expression::Default { expr, default } => {
            match eval_spec(*expr, c) {
                Ok(Some(v)) => Ok(Some(v)),
                Ok(None) => eval_spec(*default, c),
                Err(e1) => Err(e1),
            }
        },
    }
}

/// The values of the first `n` argument expressions, each required to carry a
/// value; the leftmost failure wins.
pub open spec fn eval_args_spec(args: Vec<Expression>, c: CtxV, n: int) -> Result<
    Seq<ValueV>,
    EngineError,
>
    decreases args@, n,
        when n <= args@.len()
{
    if n <= 0 {
        Ok(Seq::empty())
    } else {
        match eval_args_spec(args, c, n - 1) {
            Ok(vs) => match spec_force(eval_spec(args@[n - 1], c)) {
                Ok(v) => Ok(vs.push(v)),
                Err(e) => Err(e),
            },
            Err(e) => Err(e),
        }
    }
}


/// An evaluation never reports a clock violation: that error belongs to the
/// coordinator alone.
pub proof fn lemma_eval_no_clock(e: Expression, c: CtxV)
    ensures
        eval_spec(e, c) matches Err(er) ==> er != EngineError::ClockMonotonicityViolation,
    decreases e,
{
    match e {
        Expression::LoadConstant(_) => {},
        Expression::ArithLog(op, args, _ty) => {
            if op == ArithLogOp::And || op == ArithLogOp::Or {
                if args@.len() == 2 {
                    lemma_eval_no_clock(args@[0], c);
                    lemma_eval_no_clock(args@[1], c);
                }
            } else {
                lemma_eval_args_no_clock(args, c, args@.len() as int);
            }
        },
        Expression::OffsetLookup { .. } => {},
        Expression::SampleAndHoldStreamLookup(_) => {},
        Expression::SyncStreamLookup(_) => {},
        Expression::WindowLookup(w) => {
            if w.ix < c.windows.len() {
                let win = c.windows[w.ix as int];
                crate::windows::lemma_win_query_kind(
                    win.op,
                    win.ty,
                    win.times,
                    win.vals,
                    c.time as int,
                    win.duration as int,
                );
            }
        },
        Expression::Ite { condition, consequence, alternative } => {
            lemma_eval_no_clock(*condition, c);
            lemma_eval_no_clock(*consequence, c);
            lemma_eval_no_clock(*alternative, c);
        },
        Expression::Tuple(es) => {
            lemma_eval_args_no_clock(es, c, es@.len() as int);
        },
        Expression::Function(_name, args, _ty) => {
            lemma_eval_args_no_clock(args, c, args@.len() as int);
        },
        Expression::Convert { from: _, to: _, expr } => {
            lemma_eval_no_clock(*expr, c);
        },
        Expression::Default { expr, default } => {
            lemma_eval_no_clock(*expr, c);
            lemma_eval_no_clock(*default, c);
        },
    }
}

/// Argument evaluation never reports a clock violation either.
proof fn lemma_eval_args_no_clock(args: Vec<Expression>, c: CtxV, n: int)
    requires
        n <= args@.len(),
    ensures
        eval_args_spec(args, c, n) matches Err(er) ==> er
            != EngineError::ClockMonotonicityViolation,
    decreases args@, n,
{
    if n > 0 {
        lemma_eval_args_no_clock(args, c, n - 1);
        lemma_eval_no_clock(args@[n - 1], c);
    }
}

/// The view of an evaluation outcome.
pub open spec fn lift_opt(r: Result<Option<Value>, EngineError>) -> Result<
    Option<ValueV>,
    EngineError,
> {
    match r {
        Ok(Some(v)) => Ok(Some(value_view(v))),
        Ok(None) => Ok(None),
        Err(e) => Err(e),
    }
}

/// The runtime value of a constant.
fn const_to_value(c: &Constant) -> (r: Value)
    ensures
        r@ == const_view(*c),
{
    match c {
        Constant::Str(s) => Value::Str(s.clone()),
        Constant::Bool(b) => Value::Bool(*b),
        Constant::UInt(u) => Value::Unsigned(*u),
        Constant::Int(i) => Value::Signed(*i),
        Constant::Float(b) => Value::Float(*b),
    }
}

/// Whether the name is the one built-in this engine evaluates.
fn is_matches_name(name: &String) -> (r: bool)
    ensures
        r == (name@ == "matches"@),
{
    proof {
        reveal_strlit("matches");
    }
    let s = name.as_str();
    let n = s.unicode_len();
    if n == 7 && s.get_char(0) == 'm' && s.get_char(1) == 'a' && s.get_char(2) == 't'
        && s.get_char(3) == 'c' && s.get_char(4) == 'h' && s.get_char(5) == 'e' && s.get_char(6)
        == 's' {
        proof {
            assert(name@ =~= "matches"@);
        }
        true
    } else {
        proof {
            if name@ == "matches"@ {
                assert(name@.len() == 7);
                assert(name@[0] == 'm' && name@[1] == 'a' && name@[2] == 't' && name@[3] == 'c'
                    && name@[4] == 'h' && name@[5] == 'e' && name@[6] == 's');
            }
        }
        false
    }
}

/// The modulus of an integer width.
fn width_modulus(ty: &Type) -> (r: u128)
    ensures
        r == spec_width_modulus(*ty),
{
    match ty {
        Type::UInt(crate::ir::UIntTy::U8) => 256,
        Type::UInt(crate::ir::UIntTy::U16) => 65536,
        Type::UInt(crate::ir::UIntTy::U32) => 4294967296,
        Type::UInt(crate::ir::UIntTy::U64) => 18446744073709551616,
        Type::Int(crate::ir::IntTy::I8) => 256,
        Type::Int(crate::ir::IntTy::I16) => 65536,
        Type::Int(crate::ir::IntTy::I32) => 4294967296,
        Type::Int(crate::ir::IntTy::I64) => 18446744073709551616,
        _ => 1,
    }
}

/// The euclidean remainder of a signed number by a positive modulus.
fn euclid_mod_signed(x: i128, m: u128) -> (r: u128)
    requires
        1 <= m <= 18446744073709551616,
    ensures
        r == (x as int) % (m as int),
{
    if x >= 0 {
        (x as u128) % m
    } else {
        let mag: u128 = ((-(x + 1)) as u128) + 1;
        let r0 = mag % m;
        proof {
            crate::math::lemma_neg_mod(mag as int, m as int);
        }
        if r0 == 0 {
            0
        } else {
            m - r0
        }
    }
}

/// Converts a numeric value to the target numeric kind.
fn convert_value(to: &Type, v: Value) -> (r: Result<Value, EngineError>)
    ensures
        lift_result(r) == spec_convert(*to, v@),
{
    match to {
        Type::UInt(_) => {
            let m = width_modulus(to);
            match v {
                Value::Unsigned(x) => Ok(Value::Unsigned(x % m)),
                Value::Signed(x) => Ok(Value::Unsigned(euclid_mod_signed(x, m))),
                Value::Float(b) => {
                    let s = float::double_bits_to_signed(b);
                    Ok(Value::Unsigned(euclid_mod_signed(s, m)))
                },
                _ => Err(EngineError::ArithmeticFault),
            }
        },
        Type::Int(_) => {
            let m = width_modulus(to);
            let t: u128 = match v {
                Value::Unsigned(x) => x % m,
                Value::Signed(x) => euclid_mod_signed(x, m),
                Value::Float(b) => {
                    let s = float::double_bits_to_signed(b);
                    euclid_mod_signed(s, m)
                },
                _ => {
                    return Err(EngineError::ArithmeticFault);
                },
            };
            if t >= m / 2 {
                Ok(Value::Signed(-((m - t) as i128)))
            } else {
                Ok(Value::Signed(t as i128))
            }
        },
        Type::Float(FloatTy::F64) => match v {
            Value::Unsigned(x) => float_value(float::unsigned_to_double_bits(x)),
            Value::Signed(x) => float_value(float::signed_to_double_bits(x)),
            Value::Float(b) => Ok(Value::Float(b)),
            _ => Err(EngineError::ArithmeticFault),
        },
        Type::Float(FloatTy::F32) => match v {
            Value::Unsigned(x) => float_value(
                float::double_bits_round_single(float::unsigned_to_double_bits(x)),
            ),
            Value::Signed(x) => float_value(
                float::double_bits_round_single(float::signed_to_double_bits(x)),
            ),
            Value::Float(b) => float_value(float::double_bits_round_single(b)),
            _ => Err(EngineError::ArithmeticFault),
        },
        _ => Err(EngineError::SpecLoadError),
    }
}

/// Wraps converted float bits, rejecting a NaN.
fn float_value(bits: u64) -> (r: Result<Value, EngineError>)
    ensures
        lift_result(r) == spec_float_value(bits),
{
    if float::is_nan_bits(bits) {
        Err(EngineError::ArithmeticFault)
    } else {
        Ok(Value::Float(bits))
    }
}

/// A lookup into one storage cell at a past discrete offset.
#[verifier::loop_isolation(false)]
fn lookup_offset(buf: &StreamBuffer, k: u128) -> (r: Option<Value>)
    requires
        buf.wf(),
    ensures
        match r {
            Some(v) => spec_offset_lookup(seq![buf.m()], 0, k as int) == Some(v@),
            None => spec_offset_lookup(seq![buf.m()], 0, k as int) is None,
        },
{
    proof {
        assert(seq![buf.m()][0] == buf.m());
    }
    if k >= buf.values.len() as u128 {
        None
    } else {
        match buf.read_offset(k as usize) {
            Some(v) => Some(v.clone()),
            None => None,
        }
    }
}

/// One operator applied to evaluated arguments.
fn apply_op(op: ArithLogOp, vs: Vec<Value>) -> (r: Result<Option<Value>, EngineError>)
    ensures
        lift_opt(r) == apply_op_spec(op, values_view(vs@)),
{
    proof {
        lemma_values_view(vs@);
    }
    let ghost vsv = values_view(vs@);
    match op {
        ArithLogOp::Not | ArithLogOp::Neg => {
            if vs.len() == 1 {
                let mut vs = vs;
                let a = match vs.pop() {
                    Some(a) => a,
                    None => {
                        return Err(EngineError::SpecLoadError);
                    },
                };
                proof {
                    assert(a@ == vsv[0]);
                }
                match a.not() {
                    Ok(v) => Ok(Some(v)),
                    Err(e) => Err(e),
                }
            } else {
                Err(EngineError::SpecLoadError)
            }
        },
        ArithLogOp::And | ArithLogOp::Or => Err(EngineError::SpecLoadError),
        _ => {
            if vs.len() == 2 {
                let mut vs = vs;
                let b = match vs.pop() {
                    Some(b) => b,
                    None => {
                        return Err(EngineError::SpecLoadError);
                    },
                };
                let a = match vs.pop() {
                    Some(a) => a,
                    None => {
                        return Err(EngineError::SpecLoadError);
                    },
                };
                proof {
                    assert(a@ == vsv[0]);
                    assert(b@ == vsv[1]);
                }
                match op {
                    ArithLogOp::Add => match a.add(b) {
                        Ok(v) => Ok(Some(v)),
                        Err(e) => Err(e),
                    },
                    ArithLogOp::Sub => match a.sub(b) {
                        Ok(v) => Ok(Some(v)),
                        Err(e) => Err(e),
                    },
                    ArithLogOp::Mul => match a.mul(b) {
                        Ok(v) => Ok(Some(v)),
                        Err(e) => Err(e),
                    },
                    ArithLogOp::Div => match a.div(b) {
                        Ok(v) => Ok(Some(v)),
                        Err(e) => Err(e),
                    },
                    ArithLogOp::Rem => match a.rem(b) {
                        Ok(v) => Ok(Some(v)),
                        Err(e) => Err(e),
                    },
                    ArithLogOp::Pow => match a.pow(b) {
                        Ok(v) => Ok(Some(v)),
                        Err(e) => Err(e),
                    },
                    ArithLogOp::Eq => Ok(Some(Value::Bool(a.eq_val(&b)))),
                    ArithLogOp::Ne => Ok(Some(Value::Bool(!a.eq_val(&b)))),
                    ArithLogOp::Lt => match a.lt_val(&b) {
                        Ok(x) => Ok(Some(Value::Bool(x))),
                        Err(e) => Err(e),
                    },
                    ArithLogOp::Le => match a.le_val(&b) {
                        Ok(x) => Ok(Some(Value::Bool(x))),
                        Err(e) => Err(e),
                    },
                    ArithLogOp::Gt => match b.lt_val(&a) {
                        Ok(x) => Ok(Some(Value::Bool(x))),
                        Err(e) => Err(e),
                    },
                    ArithLogOp::Ge => match b.le_val(&a) {
                        Ok(x) => Ok(Some(Value::Bool(x))),
                        Err(e) => Err(e),
                    },
                    _ => Err(EngineError::SpecLoadError),
                }
            } else {
                Err(EngineError::SpecLoadError)
            }
        },
    }
}

/// Evaluates one expression in a context.
pub fn eval(e: &Expression, c: &Ctx) -> (r: Result<Option<Value>, EngineError>)
    requires
        c.wf(),
    ensures
        lift_opt(r) == eval_spec(*e, c.view_spec()),
    decreases *e,
{
    match e {
        Expression::LoadConstant(c0) => Ok(Some(const_to_value(c0))),
        Expression::ArithLog(op, args, _ty) => {
            let op = *op;
            if op == ArithLogOp::And || op == ArithLogOp::Or {
                if args.len() != 2 {
                    return Err(EngineError::SpecLoadError);
                }
                let v0 = match eval(&args[0], c) {
                    Ok(Some(v)) => v,
                    Ok(None) => {
                        return Err(EngineError::MissingRequiredValue);
                    },
                    Err(e1) => {
                        return Err(e1);
                    },
                };
                let b0 = match v0 {
                    Value::Bool(b) => b,
                    _ => {
                        return Err(EngineError::ArithmeticFault);
                    },
                };
                if (op == ArithLogOp::And && !b0) || (op == ArithLogOp::Or && b0) {
                    return Ok(Some(Value::Bool(b0)));
                }
                let v1 = match eval(&args[1], c) {
                    Ok(Some(v)) => v,
                    Ok(None) => {
                        return Err(EngineError::MissingRequiredValue);
                    },
                    Err(e1) => {
                        return Err(e1);
                    },
                };
                match v1 {
                    Value::Bool(b) => Ok(Some(Value::Bool(b))),
                    _ => Err(EngineError::ArithmeticFault),
                }
            } else {
                match eval_args(args, c) {
                    Ok(vs) => apply_op(op, vs),
                    Err(e1) => Err(e1),
                }
            }
        },
        Expression::OffsetLookup { target, offset } => {
            match offset {
                Offset::PastDiscreteOffset(k) => {
                    match target {
                        StreamReference::InRef(ix) => if *ix < c.inputs.len() {
                            proof {
                                assert(seq![c.inputs@[*ix as int].m()][0] == c.view_spec().inputs[*ix as int]);
                            }
                            match lookup_offset(&c.inputs[*ix], *k) {
                                Some(v) => Ok(Some(v)),
                                None => Ok(None),
                            }
                        } else {
                            Err(EngineError::SpecLoadError)
                        },
                        StreamReference::OutRef(ix) => if *ix < c.outputs.len() {
                            proof {
                                assert(seq![c.outputs@[*ix as int].m()][0] == c.view_spec().outputs[*ix as int]);
                            }
                            match lookup_offset(&c.outputs[*ix], *k) {
                                Some(v) => Ok(Some(v)),
                                None => Ok(None),
                            }
                        } else {
                            Err(EngineError::SpecLoadError)
                        },
                    }
                },
                _ => Err(EngineError::SpecLoadError),
            }
        },
        Expression::SampleAndHoldStreamLookup(target) => {
            match target {
                StreamReference::InRef(ix) => if *ix < c.inputs.len() {
                    match c.inputs[*ix].sample_and_hold() {
                        Some(v) => Ok(Some(v.clone())),
                        None => Ok(None),
                    }
                } else {
                    Err(EngineError::SpecLoadError)
                },
                StreamReference::OutRef(ix) => if *ix < c.outputs.len() {
                    match c.outputs[*ix].sample_and_hold() {
                        Some(v) => Ok(Some(v.clone())),
                        None => Ok(None),
                    }
                } else {
                    Err(EngineError::SpecLoadError)
                },
            }
        },
        Expression::SyncStreamLookup(target) => {
            match target {
                StreamReference::InRef(ix) => if *ix < c.inputs.len() && *ix
                    < c.fresh_in.len() {
                    if c.fresh_in[*ix] {
                        match c.inputs[*ix].sample_and_hold() {
                            Some(v) => Ok(Some(v.clone())),
                            None => Err(EngineError::MissingRequiredValue),
                        }
                    } else {
                        Err(EngineError::MissingRequiredValue)
                    }
                } else {
                    Err(EngineError::SpecLoadError)
                },
                StreamReference::OutRef(ix) => if *ix < c.outputs.len() && *ix
                    < c.fresh_out.len() {
                    if c.fresh_out[*ix] {
                        match c.outputs[*ix].sample_and_hold() {
                            Some(v) => Ok(Some(v.clone())),
                            None => Err(EngineError::MissingRequiredValue),
                        }
                    } else {
                        Err(EngineError::MissingRequiredValue)
                    }
                } else {
                    Err(EngineError::SpecLoadError)
                },
            }
        },
        Expression::WindowLookup(w) => {
            if w.ix < c.windows.len() {
                c.windows[w.ix].query(c.time)
            } else {
                Err(EngineError::SpecLoadError)
            }
        },
        Expression::Ite { condition, consequence, alternative } => {
            let v0 = match eval(condition, c) {
                Ok(Some(v)) => v,
                Ok(None) => {
                    return Err(EngineError::MissingRequiredValue);
                },
                Err(e1) => {
                    return Err(e1);
                },
            };
            match v0 {
                Value::Bool(b) => if b {
                    eval(consequence, c)
                } else {
                    eval(alternative, c)
                },
                _ => Err(EngineError::ArithmeticFault),
            }
        },
        Expression::Tuple(es) => {
            match eval_args(es, c) {
                Ok(vs) => Ok(Some(Value::Tuple(vs))),
                Err(e1) => Err(e1),
            }
        },
        Expression::Function(name, args, _ty) => {
            if is_matches_name(name) {
                match eval_args(args, c) {
                    Ok(vs) => {
                        proof {
                            lemma_values_view(vs@);
                        }
                        if vs.len() == 2 {
                            match (&vs[0], &vs[1]) {
                                (Value::Str(text), Value::Str(pat)) => {
                                    match regex_is_match(pat.as_str(), text.as_str()) {
                                        Some(b) => Ok(Some(Value::Bool(b))),
                                        None => Err(EngineError::SpecLoadError),
                                    }
                                },
                                _ => Err(EngineError::ArithmeticFault),
                            }
                        } else {
                            Err(EngineError::SpecLoadError)
                        }
                    },
                    Err(e1) => Err(e1),
                }
            } else {
                Err(EngineError::SpecLoadError)
            }
        },
        Expression::Convert { from: _, to, expr } => {
            let v0 = match eval(expr, c) {
                Ok(Some(v)) => v,
                Ok(None) => {
                    return Err(EngineError::MissingRequiredValue);
                },
                Err(e1) => {
                    return Err(e1);
                },
            };
            match convert_value(to, v0) {
                Ok(v) => Ok(Some(v)),
                Err(e1) => Err(e1),
            }
        },
        Expression::Default { expr, default } => {
            match eval(expr, c) {
                Ok(Some(v)) => Ok(Some(v)),
                Ok(None) => eval(default, c),
                Err(e1) => Err(e1),
            }
        },
    }
}

/// Evaluates the argument expressions left to right, each required to carry a
/// value.
#[verifier::loop_isolation(false)]
fn eval_args(args: &Vec<Expression>, c: &Ctx) -> (r: Result<Vec<Value>, EngineError>)
    requires
        c.wf(),
    ensures
        match r {
            Ok(vs) => eval_args_spec(*args, c.view_spec(), args@.len() as int) == Ok::<
                Seq<ValueV>,
                EngineError,
            >(values_view(vs@)),
            Err(e) => eval_args_spec(*args, c.view_spec(), args@.len() as int) == Err::<
                Seq<ValueV>,
                EngineError,
            >(e),
        },
    decreases args@,
{
    let mut vs: Vec<Value> = Vec::new();
    let mut i: usize = 0;
    proof {
        lemma_values_view(vs@);
        assert(values_view(vs@) =~= Seq::<ValueV>::empty());
    }
    while i < args.len()
        invariant
            0 <= i <= args@.len(),
            vs@.len() == i,
            eval_args_spec(*args, c.view_spec(), i as int) == Ok::<Seq<ValueV>, EngineError>(
                values_view(vs@),
            ),
        decreases args@.len() - i,
    {
        let ghost prev = vs@;
        let v = match eval(&args[i], c) {
            Ok(Some(v)) => v,
            Ok(None) => {
                proof {
                    lemma_eval_args_err(
                        *args,
                        c.view_spec(),
                        i as int + 1,
                        args@.len() as int,
                    );
                }
                return Err(EngineError::MissingRequiredValue);
            },
            Err(e1) => {
                proof {
                    lemma_eval_args_err(
                        *args,
                        c.view_spec(),
                        i as int + 1,
                        args@.len() as int,
                    );
                }
                return Err(e1);
            },
        };
        vs.push(v);
        proof {
            lemma_values_view(prev);
            lemma_values_view(vs@);
            crate::value::lemma_values_view_pointwise(vs@, prev, i as int);
            assert(values_view(vs@) =~= values_view(prev).push(value_view(vs@[i as int])));
        }
        i = i + 1;
    }
    Ok(vs)
}

/// A failed argument list stays failed as more arguments follow.
proof fn lemma_eval_args_err(args: Vec<Expression>, c: CtxV, i: int, n: int)
    requires
        0 <= i <= n <= args@.len(),
        eval_args_spec(args, c, i) is Err,
    ensures
        eval_args_spec(args, c, n) == eval_args_spec(args, c, i),
    decreases n - i,
{
    if i < n {
        lemma_eval_args_err(args, c, i + 1, n);
    }
}

} // verus!
