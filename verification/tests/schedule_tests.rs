use streamlab::ir::{
    EventDrivenStream, Expression, InputStream, LolaIR, MemorizationBound, StreamReference,
    TimeDrivenStream, Type, UIntTy,
};
use streamlab::schedule::Schedule;
use streamlab::time::{divide_durations, dur_from_parts};

fn empty_ir_with_time_driven(rates: &[u128]) -> LolaIR {
    let outputs = rates
        .iter()
        .enumerate()
        .map(|(i, _)| streamlab::ir::OutputStream {
            name: format!("o{}", i),
            ty: Type::UInt(UIntTy::U8),
            expr: Expression::LoadConstant(streamlab::ir::Constant::UInt(0)),
            input_dependencies: Vec::new(),
            outgoing_dependencies: Vec::new(),
            dependent_streams: Vec::new(),
            dependent_windows: Vec::new(),
            memory_bound: MemorizationBound::Bounded(1),
            layer: 0,
            reference: StreamReference::OutRef(i),
            ac: None,
        })
        .collect();
    let time_driven = rates
        .iter()
        .enumerate()
        .map(|(i, r)| TimeDrivenStream { reference: StreamReference::OutRef(i), extend_rate: *r })
        .collect();
    LolaIR {
        inputs: Vec::<InputStream>::new(),
        outputs,
        time_driven,
        event_driven: Vec::<EventDrivenStream>::new(),
        sliding_windows: Vec::new(),
        triggers: Vec::new(),
        feature_flags: Vec::new(),
    }
}

#[test]
fn test_divide_durations_round_down() {
    type TestDurations = ((u64, u32), (u64, u32), usize);
    let case1: TestDurations = ((1, 0), (1, 0), 1);
    let case2: TestDurations = ((1, 0), (0, 100_000_000), 10);
    let case3: TestDurations = ((1, 0), (0, 100_000), 10_000);
    let case4: TestDurations = ((1, 0), (0, 20_000), 50_000);
    let case5: TestDurations = ((0, 40_000), (0, 30_000), 1);
    let case6: TestDurations = ((3, 1_000), (3, 5_000), 0);

    let cases = [case1, case2, case3, case4, case5, case6];
    for (a, b, expected) in &cases {
        let to_dur = |(s, n)| dur_from_parts(s, n);
        let was = divide_durations(to_dur(*a), to_dur(*b), false);
        assert_eq!(was, *expected, "Expected {}, but was {}.", expected, was);
    }
}

#[test]
fn test_divide_durations_round_up() {
    type TestDurations = ((u64, u32), (u64, u32), usize);
    let case1: TestDurations = ((1, 0), (1, 0), 1);
    let case2: TestDurations = ((1, 0), (0, 100_000_000), 10);
    let case3: TestDurations = ((1, 0), (0, 100_000), 10_000);
    let case4: TestDurations = ((1, 0), (0, 20_000), 50_000);
    let case5: TestDurations = ((0, 40_000), (0, 30_000), 2);
    let case6: TestDurations = ((3, 1_000), (3, 5_000), 1);

    let cases = [case1, case2, case3, case4, case5, case6];
    for (a, b, expected) in &cases {
        let to_dur = |(s, n)| dur_from_parts(s, n);
        let was = divide_durations(to_dur(*a), to_dur(*b), true);
        assert_eq!(was, *expected, "Expected {}, but was {}.", expected, was);
    }
}

#[test]
fn gcd_and_hyper_period_of_rates() {
    // 20 ms, 25 ms and 50 ms in nanoseconds.
    let rates: Vec<u128> = vec![20_000_000, 25_000_000, 50_000_000];
    let gcd = Schedule::find_extend_period(&rates);
    let hyper = Schedule::find_hyper_period(&rates);
    assert_eq!(gcd, 5_000_000);
    assert_eq!(hyper, 100_000_000);
}

#[test]
fn schedule_for_three_rates() {
    let ms = 1_000_000u128;
    let a = StreamReference::OutRef(0);
    let b = StreamReference::OutRef(1);
    let c = StreamReference::OutRef(2);
    let ir = empty_ir_with_time_driven(&[20 * ms, 25 * ms, 50 * ms]);
    let schedule = Schedule::from(&ir);
    assert_eq!(schedule.gcd, 5 * ms);
    assert_eq!(schedule.hyper_period, 100 * ms);

    let pauses: Vec<u128> = schedule.deadlines.iter().map(|d| d.pause).collect();
    assert_eq!(pauses, vec![20 * ms, 5 * ms, 15 * ms, 10 * ms, 10 * ms, 15 * ms, 5 * ms, 20 * ms]);
    let total: u128 = pauses.iter().sum();
    assert_eq!(total, 100 * ms);

    // The 20 ms stream fires at 20, 40, 60, 80 and 100 ms; the 25 ms stream
    // at 25, 50, 75 and 100 ms; the 50 ms stream at 50 and 100 ms.
    let dues: Vec<&Vec<StreamReference>> = schedule.deadlines.iter().map(|d| &d.due).collect();
    assert!(dues[0].contains(&a) && !dues[0].contains(&b) && !dues[0].contains(&c));
    assert!(dues[1].contains(&b) && !dues[1].contains(&a));
    assert!(dues[2].contains(&a));
    assert!(dues[3].contains(&b) && dues[3].contains(&c) && !dues[3].contains(&a));
    assert!(dues[4].contains(&a));
    assert!(dues[5].contains(&b));
    assert!(dues[6].contains(&a));
    assert!(dues[7].contains(&a) && dues[7].contains(&b) && dues[7].contains(&c));

    let count_of = |r: &StreamReference| {
        schedule.deadlines.iter().filter(|d| d.due.contains(r)).count()
    };
    assert_eq!(count_of(&a), 5);
    assert_eq!(count_of(&b), 4);
    assert_eq!(count_of(&c), 2);
}

#[test]
fn gcd_of_equal_rates_is_the_rate() {
    let rates: Vec<u128> = vec![2_000, 2_000];
    assert_eq!(Schedule::find_extend_period(&rates), 2_000);
    assert_eq!(Schedule::find_hyper_period(&rates), 2_000);
}

#[test]
fn hyper_period_of_coprime_rates_is_their_product() {
    let rates: Vec<u128> = vec![3, 7];
    assert_eq!(Schedule::find_extend_period(&rates), 1);
    assert_eq!(Schedule::find_hyper_period(&rates), 21);
}
