use std::cmp::Ordering;

use streamlab::basics::ColumnMapping;
use streamlab::ir::{
    EventDrivenStream, Expression, InputStream, IntTy, LolaIR, MemorizationBound, OutputStream,
    Stream, StreamReference, Type, UIntTy, ValSize,
};

fn small_output(ix: usize, layer: u32) -> OutputStream {
    OutputStream {
        name: format!("o{}", ix),
        ty: Type::Int(IntTy::I32),
        expr: Expression::LoadConstant(streamlab::ir::Constant::Int(0)),
        input_dependencies: Vec::new(),
        outgoing_dependencies: Vec::new(),
        dependent_streams: Vec::new(),
        dependent_windows: Vec::new(),
        memory_bound: MemorizationBound::Bounded(1),
        layer,
        reference: StreamReference::OutRef(ix),
        ac: None,
    }
}

#[test]
fn stream_references_carry_their_index() {
    let i = StreamReference::InRef(3);
    let o = StreamReference::OutRef(5);
    assert_eq!(i.in_ix(), 3);
    assert_eq!(o.out_ix(), 5);
    assert_eq!(i.ix_unchecked(), 3);
    assert_eq!(o.ix_unchecked(), 5);
}

#[test]
fn memorization_bounds_compare_and_unwrap() {
    let b2 = MemorizationBound::Bounded(2);
    let b7 = MemorizationBound::Bounded(7);
    let ub = MemorizationBound::Unbounded;
    assert_eq!(b2.partial_cmp(&b7), Some(Ordering::Less));
    assert_eq!(b7.partial_cmp(&b2), Some(Ordering::Greater));
    assert_eq!(b2.partial_cmp(&b2), Some(Ordering::Equal));
    assert_eq!(b2.partial_cmp(&ub), Some(Ordering::Less));
    assert_eq!(ub.partial_cmp(&b2), Some(Ordering::Greater));
    assert_eq!(ub.partial_cmp(&ub), None);
    assert_eq!(b7.unwrap(), 7);
    assert_eq!(ub.unwrap_or(9), 9);
    assert_eq!(b7.as_opt(), Some(7));
    assert_eq!(ub.as_opt(), None);
}

#[test]
fn type_sizes() {
    assert_eq!(Type::Bool.size(), Some(ValSize(1)));
    assert_eq!(Type::Int(IntTy::I64).size(), Some(ValSize(8)));
    assert_eq!(Type::UInt(UIntTy::U16).size(), Some(ValSize(2)));
    let tup = Type::Tuple(vec![Type::Bool, Type::Int(IntTy::I32), Type::UInt(UIntTy::U8)]);
    assert_eq!(tup.size(), Some(ValSize(6)));
    assert_eq!(ValSize::from(3u8).add(ValSize(4)), ValSize(7));
}

#[test]
fn streams_answer_through_the_stream_trait() {
    let i = InputStream {
        name: "a".to_string(),
        ty: Type::Bool,
        dependent_streams: Vec::new(),
        dependent_windows: Vec::new(),
        layer: 0,
        memory_bound: MemorizationBound::Bounded(4),
        reference: StreamReference::InRef(0),
    };
    assert!(i.is_input());
    assert_eq!(i.eval_layer(), 0);
    assert_eq!(i.values_to_memorize(), MemorizationBound::Bounded(4));
    assert_eq!(i.as_stream_ref(), StreamReference::InRef(0));
    let o = small_output(2, 5);
    assert!(!o.is_input());
    assert_eq!(o.eval_layer(), 5);
    assert_eq!(o.as_stream_ref(), StreamReference::OutRef(2));
}

#[test]
fn event_driven_layers_group_by_layer_in_order() {
    // Outputs on layers 2, 0, 2 and 5: three groups, in increasing order.
    let outputs = vec![small_output(0, 2), small_output(1, 0), small_output(2, 2), small_output(3, 5)];
    let event_driven: Vec<EventDrivenStream> = outputs
        .iter()
        .map(|o| EventDrivenStream { reference: o.reference })
        .collect();
    let ir = LolaIR {
        inputs: Vec::new(),
        outputs,
        time_driven: Vec::new(),
        event_driven,
        sliding_windows: Vec::new(),
        triggers: Vec::new(),
        feature_flags: Vec::new(),
    };
    let layers = ir.get_event_driven_layers();
    assert_eq!(layers.len(), 3);
    assert_eq!(layers[0], vec![StreamReference::OutRef(1)]);
    assert_eq!(layers[1], vec![StreamReference::OutRef(0), StreamReference::OutRef(2)]);
    assert_eq!(layers[2], vec![StreamReference::OutRef(3)]);
}

#[test]
fn ir_accessors_return_the_declared_streams() {
    let outputs = vec![small_output(0, 0), small_output(1, 1)];
    let ir = LolaIR {
        inputs: Vec::new(),
        outputs,
        time_driven: Vec::new(),
        event_driven: vec![EventDrivenStream { reference: StreamReference::OutRef(1) }],
        sliding_windows: Vec::new(),
        triggers: vec![streamlab::ir::Trigger {
            message: None,
            reference: StreamReference::OutRef(0),
        }],
        feature_flags: Vec::new(),
    };
    assert_eq!(ir.output_refs(), vec![StreamReference::OutRef(0), StreamReference::OutRef(1)]);
    assert_eq!(ir.all_streams().len(), 2);
    assert_eq!(ir.get_out(StreamReference::OutRef(1)).name, "o1");
    assert_eq!(ir.get_triggers().len(), 1);
    assert_eq!(ir.get_triggers()[0].name, "o0");
    assert_eq!(ir.get_event_driven().len(), 1);
}

#[test]
fn column_mapping_pairs_streams_and_columns() {
    let names = vec!["a".to_string(), "b".to_string()];
    let header = vec!["b".to_string(), "time".to_string(), "a".to_string()];
    let m = ColumnMapping::from_header(&names, &header, None).expect("header must map");
    assert_eq!(m.num_columns(), 3);
    assert_eq!(m.num_streams(), 2);
    assert_eq!(m.stream_ix_for_col_ix(0), Some(1));
    assert_eq!(m.stream_ix_for_col_ix(1), None);
    assert_eq!(m.stream_ix_for_col_ix(2), Some(0));
    assert_eq!(m.time_ix, Some(1));
    assert!(!m.time_is_stream());

    // A stream whose name no column carries is a load error.
    let missing = ColumnMapping::from_header(&vec!["z".to_string()], &header, None);
    assert!(missing.is_err());

    // An explicit time column wins over the named one.
    let m2 = ColumnMapping::from_header(&names, &header, Some(0)).expect("header must map");
    assert_eq!(m2.time_ix, Some(0));
    assert!(m2.time_is_stream());
}
