use streamlab::basics::{EvalConfig, InputSource, OutputChannel, Verbosity};
use streamlab::coordination::{Emission, Monitor};
use streamlab::value::Value;
use streamlab::error::EngineError;
use streamlab::ir::{
    Activation, ArithLogOp, Constant, EventDrivenStream, Expression, InputStream, IntTy, LolaIR,
    MemorizationBound, OutputStream, StreamReference, TimeDrivenStream, Type, UIntTy,
};
use streamlab::parse::parse_time_nanos;

fn offline_config() -> EvalConfig {
    EvalConfig::new(
        InputSource::stdin(),
        Verbosity::Progress,
        OutputChannel::StdErr,
        true,
        true,
    )
}

fn input(ix: usize, name: &str, ty: Type) -> InputStream {
    InputStream {
        name: name.to_string(),
        ty,
        dependent_streams: Vec::new(),
        dependent_windows: Vec::new(),
        layer: 0,
        memory_bound: MemorizationBound::Bounded(1),
        reference: StreamReference::InRef(ix),
    }
}

fn output(ix: usize, name: &str, ty: Type, layer: u32, expr: Expression) -> OutputStream {
    OutputStream {
        name: name.to_string(),
        ty,
        expr,
        input_dependencies: Vec::new(),
        outgoing_dependencies: Vec::new(),
        dependent_streams: Vec::new(),
        dependent_windows: Vec::new(),
        memory_bound: MemorizationBound::Bounded(1),
        layer,
        reference: StreamReference::OutRef(ix),
        ac: None,
    }
}

fn sync_in(ix: usize) -> Expression {
    Expression::SyncStreamLookup(StreamReference::InRef(ix))
}

fn sync_out(ix: usize) -> Expression {
    Expression::SyncStreamLookup(StreamReference::OutRef(ix))
}

fn event_ir(outputs: Vec<OutputStream>, inputs: Vec<InputStream>, triggers: Vec<streamlab::ir::Trigger>) -> LolaIR {
    let event_driven = outputs
        .iter()
        .map(|o| EventDrivenStream { reference: o.reference })
        .collect();
    LolaIR {
        inputs,
        outputs,
        time_driven: Vec::new(),
        event_driven,
        sliding_windows: Vec::new(),
        triggers,
        feature_flags: Vec::new(),
    }
}

fn cells(texts: &[Option<&str>]) -> Vec<Option<String>> {
    texts.iter().map(|c| c.map(|s| s.to_string())).collect()
}

fn t_of(text: &str) -> u128 {
    parse_time_nanos(text).expect("timestamp must parse")
}

/// Adding two integer streams: the trigger fires once, on the one record
/// that carries both inputs with a sum above two.
#[test]
fn add_two_i32_streams() {
    let a = input(0, "a", Type::Int(IntTy::I32));
    let b = input(1, "b", Type::Int(IntTy::I32));
    let both = Activation::Conj(vec![
        Activation::Stream(StreamReference::InRef(0)),
        Activation::Stream(StreamReference::InRef(1)),
    ]);
    let mut c = output(
        0,
        "c",
        Type::Int(IntTy::I32),
        0,
        Expression::ArithLog(ArithLogOp::Add, vec![sync_in(0), sync_in(1)], Type::Int(IntTy::I32)),
    );
    c.ac = Some(both.clone());
    let mut tr = output(
        1,
        "trigger_c",
        Type::Bool,
        1,
        Expression::ArithLog(
            ArithLogOp::Gt,
            vec![sync_out(0), Expression::LoadConstant(Constant::Int(2))],
            Type::Bool,
        ),
    );
    tr.ac = Some(both);
    let triggers = vec![streamlab::ir::Trigger {
        message: Some("c is too large".to_string()),
        reference: StreamReference::OutRef(1),
    }];
    let ir = event_ir(vec![c, tr], vec![a, b], triggers);
    let mut m = Monitor::new(ir, offline_config()).expect("monitor must build");

    let records: Vec<(&str, Option<&str>, Option<&str>)> = vec![
        ("1547627523.000536", Some("#"), Some("#")),
        ("1547627523.100536", Some("3"), Some("#")),
        ("1547627523.200536", Some("#"), Some("3")),
        ("1547627523.300536", Some("1"), Some("1")),
        ("1547627523.400536", Some("#"), Some("3")),
        ("1547627523.500536", Some("3"), Some("#")),
        ("1547627523.600536", Some("2"), Some("2")),
    ];
    for (t, ca, cb) in records {
        m.accept_event(t_of(t), &cells(&[ca, cb])).expect("event must process");
    }
    assert_eq!(m.statistics.get_num_trigger(0), 1);
}

/// A second record at the same timestamp decides afresh which inputs carry a
/// value: an input absent from that record does not count as arrived, so an
/// activation waiting on it does not fire again.
#[test]
fn duplicate_timestamp_clears_input_freshness() {
    let a = input(0, "a", Type::Int(IntTy::I32));
    let b = input(1, "b", Type::Int(IntTy::I32));
    let both = Activation::Conj(vec![
        Activation::Stream(StreamReference::InRef(0)),
        Activation::Stream(StreamReference::InRef(1)),
    ]);
    let mut c = output(
        0,
        "c",
        Type::Int(IntTy::I32),
        0,
        Expression::ArithLog(ArithLogOp::Add, vec![sync_in(0), sync_in(1)], Type::Int(IntTy::I32)),
    );
    c.ac = Some(both.clone());
    let mut tr = output(
        1,
        "trigger_c",
        Type::Bool,
        1,
        Expression::ArithLog(
            ArithLogOp::Gt,
            vec![sync_out(0), Expression::LoadConstant(Constant::Int(2))],
            Type::Bool,
        ),
    );
    tr.ac = Some(both);
    let triggers = vec![streamlab::ir::Trigger {
        message: Some("c is too large".to_string()),
        reference: StreamReference::OutRef(1),
    }];
    let ir = event_ir(vec![c, tr], vec![a, b], triggers);
    let mut m = Monitor::new(ir, offline_config()).expect("monitor must build");
    // Both inputs arrive: c = 6 and the trigger fires once.
    m.accept_event(1_000_000_000, &cells(&[Some("3"), Some("3")])).expect("event");
    assert_eq!(m.statistics.get_num_trigger(0), 1);
    assert_eq!(m.outputs[0].values.len(), 1);
    // A second record at the very same instant carries only `a`: `b` is not
    // fresh for it, so c is not recomputed and the trigger stays at one.
    m.accept_event(1_000_000_000, &cells(&[Some("9"), None])).expect("event");
    assert_eq!(m.statistics.get_num_trigger(0), 1);
    assert_eq!(m.outputs[0].values.len(), 1);
}

/// Regular-expression matching: `sub` matches the second and third record,
/// `^sub` only the third.
#[test]
fn regex_simple() {
    let a = input(0, "a", Type::String);
    let act = Activation::Stream(StreamReference::InRef(0));
    let mut x = output(
        0,
        "x",
        Type::Bool,
        0,
        Expression::Function(
            "matches".to_string(),
            vec![sync_in(0), Expression::LoadConstant(Constant::Str("sub".to_string()))],
            Type::Bool,
        ),
    );
    x.ac = Some(act.clone());
    let mut y = output(
        1,
        "y",
        Type::Bool,
        0,
        Expression::Function(
            "matches".to_string(),
            vec![sync_in(0), Expression::LoadConstant(Constant::Str("^sub".to_string()))],
            Type::Bool,
        ),
    );
    y.ac = Some(act);
    let triggers = vec![
        streamlab::ir::Trigger { message: Some("sub".to_string()), reference: StreamReference::OutRef(0) },
        streamlab::ir::Trigger { message: Some("^sub".to_string()), reference: StreamReference::OutRef(1) },
    ];
    let ir = event_ir(vec![x, y], vec![a], triggers);
    let mut m = Monitor::new(ir, offline_config()).expect("monitor must build");

    for (t, v) in [("24.8", "xub"), ("24.9", "sajhasdsub"), ("25.0", "subsub")] {
        m.accept_event(t_of(t), &cells(&[Some(v)])).expect("event must process");
    }
    assert_eq!(m.statistics.get_num_trigger(0), 2);
    assert_eq!(m.statistics.get_num_trigger(1), 1);
}

/// One record parsed under five declared types fires each equality trigger
/// exactly once.
#[test]
fn test_parse_event() {
    let ins = vec![
        input(0, "bool", Type::Bool),
        input(1, "unsigned", Type::UInt(UIntTy::U8)),
        input(2, "signed", Type::Int(IntTy::I8)),
        input(3, "float", Type::Float(streamlab::ir::FloatTy::F32)),
        input(4, "str", Type::String),
    ];
    let consts = vec![
        Constant::Bool(true),
        Constant::UInt(3),
        Constant::Int(-5),
        Constant::Float((-123.456f64).to_bits()),
        Constant::Str("foobar".to_string()),
    ];
    let mut outs = Vec::new();
    let mut triggers = Vec::new();
    for (i, k) in consts.into_iter().enumerate() {
        let mut o = output(
            i,
            &format!("t{}", i),
            Type::Bool,
            0,
            Expression::ArithLog(
                ArithLogOp::Eq,
                vec![sync_in(i), Expression::LoadConstant(k)],
                Type::Bool,
            ),
        );
        o.ac = Some(Activation::Stream(StreamReference::InRef(i)));
        outs.push(o);
        triggers.push(streamlab::ir::Trigger {
            message: None,
            reference: StreamReference::OutRef(i),
        });
    }
    let ir = event_ir(outs, ins, triggers);
    let mut m = Monitor::new(ir, offline_config()).expect("monitor must build");
    m.accept_event(
        t_of("1547627523.600536"),
        &cells(&[Some("true"), Some("3"), Some("-5"), Some("-123.456"), Some("foobar")]),
    )
    .expect("event must process");
    for i in 0..5 {
        assert_eq!(m.statistics.get_num_trigger(i), 1, "trigger {} must fire once", i);
    }
}

/// A specification with outputs at several rates runs over a long input
/// without stalling or failing: every record is accepted and the deadlines in
/// between fire in order.
#[test]
fn zero_wait_time_regression() {
    let a = input(0, "a", Type::Int(IntTy::I32));
    // Two periodic outputs at 10 Hz and 4 Hz over the held value of `a`.
    let held = Expression::Default {
        expr: Box::new(Expression::SampleAndHoldStreamLookup(StreamReference::InRef(0))),
        default: Box::new(Expression::LoadConstant(Constant::Int(0))),
    };
    let b = output(0, "b", Type::Int(IntTy::I32), 0, held.clone());
    let c = output(1, "c", Type::Int(IntTy::I32), 0, held);
    let ir = LolaIR {
        inputs: vec![a],
        outputs: vec![b, c],
        time_driven: vec![
            TimeDrivenStream { reference: StreamReference::OutRef(0), extend_rate: 100_000_000 },
            TimeDrivenStream { reference: StreamReference::OutRef(1), extend_rate: 250_000_000 },
        ],
        event_driven: Vec::new(),
        sliding_windows: Vec::new(),
        triggers: Vec::new(),
        feature_flags: Vec::new(),
    };
    let mut m = Monitor::new(ir, offline_config()).expect("monitor must build");
    // Alternating int32 values every 0.1 s for 20 seconds.
    for k in 0..200u32 {
        let t: u128 = 1_000_000_000 + (k as u128) * 100_000_000;
        let v = if k % 2 == 0 { "17" } else { "-3" };
        m.accept_event(t, &cells(&[Some(v)])).expect("event must process");
    }
}

/// An event-driven output over inputs {x, y} is not recomputed on a record
/// carrying only x: its stored value stays the previous one.
#[test]
fn activation_gates_recomputation() {
    let x = input(0, "x", Type::Int(IntTy::I32));
    let y = input(1, "y", Type::Int(IntTy::I32));
    let mut c = output(
        0,
        "c",
        Type::Int(IntTy::I32),
        0,
        Expression::ArithLog(ArithLogOp::Add, vec![sync_in(0), sync_in(1)], Type::Int(IntTy::I32)),
    );
    c.ac = Some(Activation::Conj(vec![
        Activation::Stream(StreamReference::InRef(0)),
        Activation::Stream(StreamReference::InRef(1)),
    ]));
    let ir = event_ir(vec![c], vec![x, y], Vec::new());
    let mut m = Monitor::new(ir, offline_config()).expect("monitor must build");
    m.accept_event(1_000, &cells(&[Some("1"), Some("2")])).expect("event must process");
    assert_eq!(m.outputs[0].values.len(), 1);
    // Only x arrives: c is not recomputed and keeps its stored value.
    m.accept_event(2_000, &cells(&[Some("7"), None])).expect("event must process");
    assert_eq!(m.outputs[0].values.len(), 1);
    match &m.outputs[0].values[0] {
        streamlab::value::Value::Signed(v) => assert_eq!(*v, 3),
        other => panic!("unexpected value {:?}", other),
    }
}

/// An offline timestamp that decreases ends the run.
#[test]
fn offline_time_must_not_decrease() {
    let a = input(0, "a", Type::Int(IntTy::I32));
    let ir = event_ir(Vec::new(), vec![a], Vec::new());
    let mut m = Monitor::new(ir, offline_config()).expect("monitor must build");
    m.accept_event(5_000, &cells(&[Some("1")])).expect("event must process");
    let r = m.accept_event(4_999, &cells(&[Some("1")]));
    assert_eq!(r, Err(EngineError::ClockMonotonicityViolation));
}

/// Two runs over the same specification and records emit identical trigger
/// sequences.
#[test]
fn identical_runs_emit_identically() {
    let run = || -> Vec<Emission> {
        let a = input(0, "a", Type::Int(IntTy::I32));
        let mut tr = output(
            0,
            "big",
            Type::Bool,
            0,
            Expression::ArithLog(
                ArithLogOp::Gt,
                vec![sync_in(0), Expression::LoadConstant(Constant::Int(10))],
                Type::Bool,
            ),
        );
        tr.ac = Some(Activation::Stream(StreamReference::InRef(0)));
        let triggers = vec![streamlab::ir::Trigger {
            message: Some("big".to_string()),
            reference: StreamReference::OutRef(0),
        }];
        let ir = event_ir(vec![tr], vec![a], triggers);
        let mut m = Monitor::new(ir, offline_config()).expect("monitor must build");
        let mut all = Vec::new();
        for (k, v) in [(1u128, "3"), (2, "11"), (3, "7"), (4, "250"), (5, "-4")].iter() {
            let mut em = m.accept_event(k * 1_000_000, &cells(&[Some(v)])).expect("event");
            all.append(&mut em);
        }
        all
    };
    let first = run();
    let second = run();
    assert_eq!(first, second);
    assert_eq!(first.len(), 2);
}

/// A malformed cell ends a strict run with a parse error and is skipped in a
/// lenient one.
#[test]
fn strict_and_lenient_parsing() {
    let build = |strict: bool| {
        let a = input(0, "a", Type::Int(IntTy::I32));
        let ir = event_ir(Vec::new(), vec![a], Vec::new());
        let mut cfg = offline_config();
        cfg.strict = strict;
        Monitor::new(ir, cfg).expect("monitor must build")
    };
    let mut lenient = build(false);
    lenient.accept_event(1_000, &cells(&[Some("#")])).expect("lenient run goes on");
    assert_eq!(lenient.inputs[0].values.len(), 0);

    let mut strict = build(true);
    let r = strict.accept_event(1_000, &cells(&[Some("#")]));
    assert_eq!(r, Err(EngineError::InputParseError));
}

/// A deadline and an event at distinct instants: the periodic stream fires
/// exactly `hyper_period / rate` times per hyper-period, interleaved with the
/// events.
#[test]
fn periodic_stream_fires_between_events() {
    let a = input(0, "a", Type::Int(IntTy::I32));
    let held = Expression::Default {
        expr: Box::new(Expression::SampleAndHoldStreamLookup(StreamReference::InRef(0))),
        default: Box::new(Expression::LoadConstant(Constant::Int(0))),
    };
    let mut b = output(0, "b", Type::Bool, 0, Expression::ArithLog(
        ArithLogOp::Gt,
        vec![held, Expression::LoadConstant(Constant::Int(0))],
        Type::Bool,
    ));
    b.memory_bound = MemorizationBound::Unbounded;
    let ir = LolaIR {
        inputs: vec![a],
        outputs: vec![b],
        time_driven: vec![TimeDrivenStream {
            reference: StreamReference::OutRef(0),
            extend_rate: 100_000_000,
        }],
        event_driven: Vec::new(),
        sliding_windows: Vec::new(),
        triggers: vec![streamlab::ir::Trigger {
            message: Some("positive".to_string()),
            reference: StreamReference::OutRef(0),
        }],
        feature_flags: Vec::new(),
    };
    let mut m = Monitor::new(ir, offline_config()).expect("monitor must build");
    // First event starts the deadline clock; one second later, ten deadlines
    // of the 0.1 s stream have fired, all with a positive held value.
    m.accept_event(1_000_000_000, &cells(&[Some("5")])).expect("event");
    let em = m.accept_event(2_000_000_000, &cells(&[Some("6")])).expect("event");
    assert_eq!(em.len(), 10);
    for (i, e) in em.iter().enumerate() {
        assert_eq!(e.time, 1_100_000_000 + (i as u128) * 100_000_000);
        assert_eq!(e.trigger_ix, 0);
        assert_eq!(e.message, "positive");
    }
    assert_eq!(m.statistics.get_num_trigger(0), 10);
    assert_eq!(m.outputs[0].values.len(), 10);
}

/// Advancing the clock without an event fires the due deadlines exactly as
/// an event at that time would, and a later event sees them already fired.
#[test]
fn advance_to_fires_due_deadlines() {
    let a = input(0, "a", Type::Int(IntTy::I32));
    let held = Expression::Default {
        expr: Box::new(Expression::SampleAndHoldStreamLookup(StreamReference::InRef(0))),
        default: Box::new(Expression::LoadConstant(Constant::Int(0))),
    };
    let mut b = output(0, "b", Type::Bool, 0, Expression::ArithLog(
        ArithLogOp::Gt,
        vec![held, Expression::LoadConstant(Constant::Int(0))],
        Type::Bool,
    ));
    b.memory_bound = MemorizationBound::Unbounded;
    let ir = LolaIR {
        inputs: vec![a],
        outputs: vec![b],
        time_driven: vec![TimeDrivenStream {
            reference: StreamReference::OutRef(0),
            extend_rate: 100_000_000,
        }],
        event_driven: Vec::new(),
        sliding_windows: Vec::new(),
        triggers: vec![streamlab::ir::Trigger {
            message: Some("positive".to_string()),
            reference: StreamReference::OutRef(0),
        }],
        feature_flags: Vec::new(),
    };
    let mut m = Monitor::new(ir, offline_config()).expect("monitor must build");
    // Before the first event nothing is due.
    assert_eq!(m.advance_to(5_000_000_000), Ok(Vec::new()));
    m.accept_event(1_000_000_000, &cells(&[Some("5")])).expect("event");
    // Half a second later, five deadlines of the 0.1 s stream are due.
    let em = m.advance_to(1_500_000_000).expect("advance");
    assert_eq!(em.len(), 5);
    for (i, e) in em.iter().enumerate() {
        assert_eq!(e.time, 1_100_000_000 + (i as u128) * 100_000_000);
        assert_eq!(e.trigger_ix, 0);
        assert_eq!(e.message, "positive");
    }
    // An older time is rejected; the event one second in sees only the five
    // deadlines that were not yet fired.
    assert_eq!(
        m.advance_to(1_400_000_000),
        Err(EngineError::ClockMonotonicityViolation)
    );
    let em2 = m.accept_event(2_000_000_000, &cells(&[Some("6")])).expect("event");
    assert_eq!(em2.len(), 5);
    assert_eq!(em2[0].time, 1_600_000_000);
    assert_eq!(m.statistics.get_num_trigger(0), 10);
}

/// Two time-driven streams due at one deadline evaluate in layer order: the
/// dependent stream reads the value its dependency computed at the same
/// deadline, whatever order the specification lists them in.
#[test]
fn deadline_due_streams_evaluate_in_layer_order() {
    let dependent = output(
        0,
        "dependent",
        Type::Int(IntTy::I32),
        1,
        Expression::ArithLog(
            ArithLogOp::Add,
            vec![sync_out(1), Expression::LoadConstant(Constant::Int(1))],
            Type::Int(IntTy::I32),
        ),
    );
    let base = output(1, "base", Type::Int(IntTy::I32), 0, Expression::LoadConstant(
        Constant::Int(41),
    ));
    let ir = LolaIR {
        inputs: Vec::new(),
        outputs: vec![dependent, base],
        // The dependent stream is listed first: without the layer ordering
        // it would evaluate before its dependency and miss its value.
        time_driven: vec![
            TimeDrivenStream { reference: StreamReference::OutRef(0), extend_rate: 100_000_000 },
            TimeDrivenStream { reference: StreamReference::OutRef(1), extend_rate: 100_000_000 },
        ],
        event_driven: Vec::new(),
        sliding_windows: Vec::new(),
        triggers: Vec::new(),
        feature_flags: Vec::new(),
    };
    let mut m = Monitor::new(ir, offline_config()).expect("monitor must build");
    m.accept_event(1_000_000_000, &cells(&[])).expect("event");
    m.advance_to(1_100_000_000).expect("advance");
    assert_eq!(m.outputs[1].values.last(), Some(&Value::Signed(41)));
    assert_eq!(m.outputs[0].values.last(), Some(&Value::Signed(42)));
}

/// A specification whose trigger names an input stream cannot be loaded.
#[test]
fn malformed_specification_is_rejected() {
    let a = input(0, "a", Type::Int(IntTy::I32));
    let triggers = vec![streamlab::ir::Trigger {
        message: None,
        reference: StreamReference::InRef(0),
    }];
    let ir = event_ir(Vec::new(), vec![a], triggers);
    let r = Monitor::new(ir, offline_config());
    assert!(matches!(r, Err(EngineError::SpecLoadError)));
}

/// An output that always fires but synchronously needs an absent input fails
/// with a missing-value error.
#[test]
fn missing_required_value_is_fatal() {
    let a = input(0, "a", Type::Int(IntTy::I32));
    let mut c = output(0, "c", Type::Int(IntTy::I32), 0, sync_in(0));
    c.ac = Some(Activation::True);
    let ir = event_ir(vec![c], vec![a], Vec::new());
    let mut m = Monitor::new(ir, offline_config()).expect("monitor must build");
    let r = m.accept_event(1_000, &cells(&[None]));
    assert_eq!(r, Err(EngineError::MissingRequiredValue));
}

/// Numeric conversions: a float truncates toward zero into an integer, an
/// integer rounds into a float, and a double rounds through single
/// precision.
#[test]
fn convert_between_numeric_kinds() {
    let mk = |expr: Expression| {
        let a = input(0, "a", Type::Int(IntTy::I32));
        let mut c = output(0, "c", Type::Int(IntTy::I64), 0, expr);
        c.ac = Some(Activation::True);
        let ir = event_ir(vec![c], vec![a], Vec::new());
        let mut m = Monitor::new(ir, offline_config()).expect("monitor must build");
        m.accept_event(1_000, &cells(&[None])).expect("event must process");
        m.outputs[0].values[0].clone()
    };
    let float_const = |x: f64| Expression::LoadConstant(Constant::Float(x.to_bits()));
    let to_int = mk(Expression::Convert {
        from: Type::Float(streamlab::ir::FloatTy::F64),
        to: Type::Int(IntTy::I64),
        expr: Box::new(float_const(-3.9)),
    });
    assert_eq!(to_int, streamlab::value::Value::Signed(-3));
    let to_float = mk(Expression::Convert {
        from: Type::Int(IntTy::I64),
        to: Type::Float(streamlab::ir::FloatTy::F64),
        expr: Box::new(Expression::LoadConstant(Constant::Int(7))),
    });
    assert_eq!(to_float, streamlab::value::Value::Float(7.0f64.to_bits()));
    let through_single = mk(Expression::Convert {
        from: Type::Float(streamlab::ir::FloatTy::F64),
        to: Type::Float(streamlab::ir::FloatTy::F32),
        expr: Box::new(float_const(1.1)),
    });
    assert_eq!(
        through_single,
        streamlab::value::Value::Float((((1.1f64 as f32) as f64)).to_bits())
    );
    // Narrowing an integer wraps through two's complement.
    let wrapped = mk(Expression::Convert {
        from: Type::Int(IntTy::I64),
        to: Type::Int(IntTy::I8),
        expr: Box::new(Expression::LoadConstant(Constant::Int(300))),
    });
    assert_eq!(wrapped, streamlab::value::Value::Signed(44));
}
