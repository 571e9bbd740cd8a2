use streamlab::error::EngineError;
use streamlab::ir::{IntTy, MemorizationBound, StreamReference, Type, UIntTy, WindowOperation};
use streamlab::parse::{parse_bool, parse_signed, parse_time_nanos, parse_unsigned};
use streamlab::storage::StreamBuffer;
use streamlab::value::Value;
use streamlab::windows::WindowInst;

#[test]
fn unsigned_arithmetic() {
    let v = Value::Unsigned(40).add(Value::Unsigned(2)).unwrap();
    assert_eq!(v, Value::Unsigned(42));
    let v = Value::Unsigned(40).sub(Value::Unsigned(2)).unwrap();
    assert_eq!(v, Value::Unsigned(38));
    let v = Value::Unsigned(6).mul(Value::Unsigned(7)).unwrap();
    assert_eq!(v, Value::Unsigned(42));
    let v = Value::Unsigned(85).div(Value::Unsigned(2)).unwrap();
    assert_eq!(v, Value::Unsigned(42));
    let v = Value::Unsigned(85).rem(Value::Unsigned(43)).unwrap();
    assert_eq!(v, Value::Unsigned(42));
    let v = Value::Unsigned(2).pow(Value::Unsigned(10)).unwrap();
    assert_eq!(v, Value::Unsigned(1024));
}

#[test]
fn arithmetic_faults() {
    assert_eq!(
        Value::Unsigned(u128::MAX).add(Value::Unsigned(1)),
        Err(EngineError::ArithmeticFault)
    );
    assert_eq!(Value::Unsigned(0).sub(Value::Unsigned(1)), Err(EngineError::ArithmeticFault));
    assert_eq!(Value::Signed(5).div(Value::Signed(0)), Err(EngineError::ArithmeticFault));
    assert_eq!(
        Value::Signed(i128::MIN).div(Value::Signed(-1)),
        Err(EngineError::ArithmeticFault)
    );
    assert_eq!(Value::Unsigned(1).add(Value::Signed(1)), Err(EngineError::ArithmeticFault));
    assert_eq!(Value::Signed(2).pow(Value::Signed(-1)), Err(EngineError::ArithmeticFault));
    assert_eq!(Value::Signed(2).pow(Value::Signed(127)), Err(EngineError::ArithmeticFault));
}

#[test]
fn boolean_logic_and_negation() {
    assert_eq!(Value::Bool(true).bitor(Value::Bool(false)).unwrap(), Value::Bool(true));
    assert_eq!(Value::Bool(true).bitand(Value::Bool(false)).unwrap(), Value::Bool(false));
    assert_eq!(Value::Bool(true).not().unwrap(), Value::Bool(false));
    assert_eq!(Value::Signed(-7).not().unwrap(), Value::Signed(7));
    let neg = Value::Float(1.5f64.to_bits()).not().unwrap();
    assert_eq!(neg, Value::Float((-1.5f64).to_bits()));
}

#[test]
fn float_equality_and_order_by_bits() {
    let a = Value::Float(1.5f64.to_bits());
    let b = Value::Float(1.5f64.to_bits());
    let c = Value::Float(2.5f64.to_bits());
    assert!(a.eq_val(&b));
    assert!(!a.eq_val(&c));
    assert!(a.lt_val(&c).unwrap());
    assert!(!c.lt_val(&a).unwrap());
    // The two zeros are equal and neither is below the other.
    let pz = Value::Float(0.0f64.to_bits());
    let nz = Value::Float((-0.0f64).to_bits());
    assert!(pz.eq_val(&nz));
    assert!(!pz.lt_val(&nz).unwrap());
    assert!(!nz.lt_val(&pz).unwrap());
    // Negative values order below positive ones.
    let neg = Value::Float((-3.5f64).to_bits());
    assert!(neg.lt_val(&pz).unwrap());
    assert!(neg.le_val(&neg).unwrap());
}

#[test]
fn parse_integers_and_bools() {
    assert_eq!(parse_unsigned("0"), Some(0));
    assert_eq!(parse_unsigned("+37"), Some(37));
    assert_eq!(parse_unsigned("340282366920938463463374607431768211455"), Some(u128::MAX));
    assert_eq!(parse_unsigned("340282366920938463463374607431768211456"), None);
    assert_eq!(parse_unsigned(""), None);
    assert_eq!(parse_unsigned("12a"), None);
    assert_eq!(parse_signed("-5"), Some(-5));
    assert_eq!(parse_signed("5"), Some(5));
    assert_eq!(parse_signed("-170141183460469231731687303715884105728"), Some(i128::MIN));
    assert_eq!(parse_signed("170141183460469231731687303715884105727"), Some(i128::MAX));
    assert_eq!(parse_signed("170141183460469231731687303715884105728"), None);
    assert_eq!(parse_signed("-"), None);
    assert_eq!(parse_bool("true"), Some(true));
    assert_eq!(parse_bool("false"), Some(false));
    assert_eq!(parse_bool("True"), None);
}

#[test]
fn parse_timestamps_to_nanoseconds() {
    assert_eq!(parse_time_nanos("0"), Some(0));
    assert_eq!(parse_time_nanos("24.8"), Some(24_800_000_000));
    assert_eq!(parse_time_nanos("1547627523.600536"), Some(1_547_627_523_600_536_000));
    assert_eq!(parse_time_nanos("3.000000001"), Some(3_000_000_001));
    assert_eq!(parse_time_nanos(".5"), Some(500_000_000));
    assert_eq!(parse_time_nanos("5."), Some(5_000_000_000));
    assert_eq!(parse_time_nanos("."), None);
    assert_eq!(parse_time_nanos("abc"), None);
}

#[test]
fn parse_cells_per_declared_type() {
    let v = Value::try_from("42", &Type::UInt(UIntTy::U8)).unwrap();
    assert_eq!(v, Value::Unsigned(42));
    let v = Value::try_from("-42", &Type::Int(IntTy::I64)).unwrap();
    assert_eq!(v, Value::Signed(-42));
    let v = Value::try_from("true", &Type::Bool).unwrap();
    assert_eq!(v, Value::Bool(true));
    let v = Value::try_from("-123.456", &Type::Float(streamlab::ir::FloatTy::F64)).unwrap();
    assert_eq!(v, Value::Float((-123.456f64).to_bits()));
    let v = Value::try_from("foobar", &Type::String).unwrap();
    assert_eq!(v, Value::Str("foobar".to_string()));
    assert_eq!(Value::try_from("#", &Type::Int(IntTy::I32)), None);
    // A cell that reads as a NaN is malformed: held floats are NaN-free.
    assert_eq!(Value::try_from("NaN", &Type::Float(streamlab::ir::FloatTy::F64)), None);
}

#[test]
fn ring_buffer_keeps_the_newest_values() {
    let mut buf = StreamBuffer::new(MemorizationBound::Bounded(3));
    assert!(buf.sample_and_hold().is_none());
    for k in 0..5u128 {
        buf.push(Value::Unsigned(k));
    }
    // Values 2, 3 and 4 stay readable; offset 0 is the newest.
    assert_eq!(buf.read_offset(0), Some(&Value::Unsigned(4)));
    assert_eq!(buf.read_offset(1), Some(&Value::Unsigned(3)));
    assert_eq!(buf.read_offset(2), Some(&Value::Unsigned(2)));
    assert_eq!(buf.read_offset(3), None);
    assert_eq!(buf.sample_and_hold(), Some(&Value::Unsigned(4)));
}

#[test]
fn unbounded_buffer_keeps_everything() {
    let mut buf = StreamBuffer::new(MemorizationBound::Unbounded);
    for k in 0..100u128 {
        buf.push(Value::Unsigned(k));
    }
    assert_eq!(buf.read_offset(99), Some(&Value::Unsigned(0)));
    assert_eq!(buf.read_offset(100), None);
}

#[test]
fn sliding_window_sums_the_last_duration() {
    let mut w = WindowInst::new(
        StreamReference::InRef(0),
        1_000,
        WindowOperation::Sum,
        Type::UInt(UIntTy::U64),
    );
    w.add_sample(100, Value::Unsigned(1));
    w.add_sample(600, Value::Unsigned(2));
    w.add_sample(1_500, Value::Unsigned(4));
    // At time 1600 the window [600, 1600] holds the samples at 600 and 1500.
    assert_eq!(w.query(1_600), Ok(Some(Value::Unsigned(6))));
    // At time 2400 the window [1400, 2400] holds only the sample at 1500.
    assert_eq!(w.query(2_400), Ok(Some(Value::Unsigned(4))));
    // At time 2600 every sample has aged out.
    assert_eq!(w.query(2_600), Ok(Some(Value::Unsigned(0))));
}

#[test]
fn sliding_window_integral_is_the_trapezoidal_sum() {
    let mut w = WindowInst::new(
        StreamReference::InRef(0),
        10_000_000_000,
        WindowOperation::Integral,
        Type::Float(streamlab::ir::FloatTy::F64),
    );
    // Samples one second apart: 1.0, 3.0, 5.0.
    w.add_sample(1_000_000_000, Value::Float(1.0f64.to_bits()));
    w.add_sample(2_000_000_000, Value::Float(3.0f64.to_bits()));
    w.add_sample(3_000_000_000, Value::Float(5.0f64.to_bits()));
    // Trapezoids: (1+3)/2 * 1s + (3+5)/2 * 1s = 2 + 4 = 6.
    assert_eq!(w.query(3_000_000_000), Ok(Some(Value::Float(6.0f64.to_bits()))));
    // A window reaching back two seconds keeps only the later trapezoid.
    let mut w2 = WindowInst::new(
        StreamReference::InRef(0),
        1_500_000_000,
        WindowOperation::Integral,
        Type::Float(streamlab::ir::FloatTy::F64),
    );
    w2.add_sample(1_000_000_000, Value::Float(1.0f64.to_bits()));
    w2.add_sample(2_000_000_000, Value::Float(3.0f64.to_bits()));
    w2.add_sample(3_000_000_000, Value::Float(5.0f64.to_bits()));
    assert_eq!(w2.query(3_000_000_000), Ok(Some(Value::Float(4.0f64.to_bits()))));
    // An empty or single-sample window integrates to zero.
    let mut w3 = WindowInst::new(
        StreamReference::InRef(0),
        1_000,
        WindowOperation::Integral,
        Type::Float(streamlab::ir::FloatTy::F64),
    );
    assert_eq!(w3.query(500), Ok(Some(Value::Float(0.0f64.to_bits()))));
    w3.add_sample(100, Value::Float(2.0f64.to_bits()));
    assert_eq!(w3.query(500), Ok(Some(Value::Float(0.0f64.to_bits()))));
    // An integral over a non-float element type is a malformed specification.
    let mut w4 = WindowInst::new(
        StreamReference::InRef(0),
        1_000,
        WindowOperation::Integral,
        Type::UInt(UIntTy::U64),
    );
    w4.add_sample(100, Value::Unsigned(1));
    assert_eq!(w4.query(500), Err(EngineError::SpecLoadError));
}

#[test]
fn sliding_window_counts_and_averages() {
    let mut w = WindowInst::new(
        StreamReference::InRef(0),
        1_000,
        WindowOperation::Count,
        Type::UInt(UIntTy::U64),
    );
    w.add_sample(100, Value::Unsigned(7));
    w.add_sample(200, Value::Unsigned(9));
    assert_eq!(w.query(300), Ok(Some(Value::Unsigned(2))));

    let mut avg = WindowInst::new(
        StreamReference::InRef(0),
        1_000,
        WindowOperation::Average,
        Type::Int(IntTy::I64),
    );
    assert_eq!(avg.query(300), Ok(None));
    avg.add_sample(100, Value::Signed(10));
    avg.add_sample(200, Value::Signed(20));
    assert_eq!(avg.query(300), Ok(Some(Value::Signed(15))));
}

#[test]
fn tuple_values_compare_elementwise() {
    let a = Value::Tuple(vec![Value::Unsigned(1), Value::Str("x".to_string())]);
    let b = Value::Tuple(vec![Value::Unsigned(1), Value::Str("x".to_string())]);
    let c = Value::Tuple(vec![Value::Unsigned(2), Value::Str("x".to_string())]);
    assert!(a.eq_val(&b));
    assert!(!a.eq_val(&c));
    assert!(!a.eq_val(&Value::Unsigned(1)));
}

#[test]
fn float_arithmetic_exact_cases() {
    let f = |x: f64| Value::Float(x.to_bits());
    assert_eq!(f(1.5).add(f(2.25)).unwrap(), f(3.75));
    assert_eq!(f(3.75).sub(f(1.5)).unwrap(), f(2.25));
    assert_eq!(f(1.5).mul(f(2.0)).unwrap(), f(3.0));
    assert_eq!(f(3.0).div(f(2.0)).unwrap(), f(1.5));
    assert_eq!(f(5.5).rem(f(2.0)).unwrap(), f(1.5));
    // Infinity is allowed; a NaN result is an arithmetic fault.
    assert_eq!(f(1.0).div(f(0.0)).unwrap(), f(f64::INFINITY));
    assert_eq!(f(0.0).div(f(0.0)), Err(EngineError::ArithmeticFault));
}

#[test]
fn float_average_counts_in_floats() {
    let mut avg = WindowInst::new(
        StreamReference::InRef(0),
        1_000,
        WindowOperation::Average,
        Type::Float(streamlab::ir::FloatTy::F64),
    );
    avg.add_sample(100, Value::Float(1.0f64.to_bits()));
    avg.add_sample(200, Value::Float(2.0f64.to_bits()));
    assert_eq!(avg.query(300), Ok(Some(Value::Float(1.5f64.to_bits()))));
}
