//! The coordinator: merges the event stream and the periodic deadline stream
//! into one linearized timeline, drives the evaluator, maintains storage and
//! windows, and collects trigger notifications. The instants it processes
//! never decrease; at one instant, deadlines come before the event.

use vstd::prelude::*;
use crate::basics::{EvalConfig, Statistics};
use crate::error::EngineError;
use crate::evaluator::{Ctx, CtxV, eval, eval_spec};
use crate::ir::{Activation, LolaIR, MemorizationBound, StreamReference, Type};
use crate::math::{all_pos, gcd_seq, lcm_seq, lemma_gcd_seq_pos};
use crate::schedule::{
    Deadline, Schedule, clone_refs, cum_pause, due_in_layer_order, lemma_cum_pointwise,
    lemma_sum_pauses_pointwise, sort_due_by_layer, spec_rates, sum_pauses,
};
use crate::storage::{BufM, StreamBuffer, bufs_m};
use crate::value::{Value, ValueV, spec_try_from};
use crate::windows::{WinM, WindowInst, wins_m};

verus! {

/// One trigger notification: when it fired, which trigger, and its message.
#[derive(Debug, Clone, PartialEq)]
pub struct Emission {
    pub time: u128,
    pub trigger_ix: usize,
    pub message: String,
}

/// A sequence that never decreases.
pub open spec fn monotone(s: Seq<u128>) -> bool {
    forall|i: int, j: int| 0 <= i <= j < s.len() ==> s[i] <= s[j]
}

/// The times at which the emissions of a run fired, in emission order.
pub open spec fn emission_times(es: Seq<Emission>) -> Seq<u128> {
    Seq::new(es.len(), |i: int| es[i].time)
}

/// Extending a time-ordered emission list by notifications of one later or
/// equal instant keeps it time-ordered.
proof fn lemma_emissions_stay_monotone(old_es: Seq<Emission>, new_es: Seq<Emission>, time: u128)
    requires
        monotone(emission_times(old_es)),
        old_es.is_prefix_of(new_es),
        forall|i: int| 0 <= i < old_es.len() ==> (#[trigger] old_es[i].time) <= time,
        forall|i: int| old_es.len() <= i < new_es.len() ==> (#[trigger] new_es[i].time) == time,
    ensures
        monotone(emission_times(new_es)),
        forall|i: int| 0 <= i < new_es.len() ==> (#[trigger] new_es[i].time) <= time,
{
    assert forall|i: int, j: int|
        0 <= i <= j < emission_times(new_es).len() implies emission_times(new_es)[i]
        <= emission_times(new_es)[j] by {
        if j < old_es.len() {
            assert(new_es[i] == old_es[i] && new_es[j] == old_es[j]);
            assert(emission_times(old_es)[i] <= emission_times(old_es)[j]);
        } else if i < old_es.len() {
            assert(new_es[i] == old_es[i]);
        }
    }
    assert forall|i: int| 0 <= i < new_es.len() implies (#[trigger] new_es[i].time) <= time by {
        if i < old_es.len() {
            assert(new_es[i] == old_es[i]);
        }
    }
}

/// Appending an element at least as large as every entry keeps a sequence
/// monotone, and keeps every prefix a prefix.
pub proof fn lemma_monotone_push(s: Seq<u128>, x: u128, p: Seq<u128>)
    requires
        monotone(s),
        forall|i: int| 0 <= i < s.len() ==> (#[trigger] s[i]) <= x,
        p.is_prefix_of(s),
    ensures
        monotone(s.push(x)),
        p.is_prefix_of(s.push(x)),
{
    assert(s.push(x).subrange(0, p.len() as int) =~= s.subrange(0, p.len() as int));
}

/// Whether the activation condition holds under the given input freshness:
/// a stream condition holds when its input carries a value this instant; a
/// conjunction when all parts hold; a disjunction when any part does. An
/// output reference in an activation is a malformed specification.
pub open spec fn spec_activation(a: Activation, fresh_in: Seq<bool>) -> Result<bool, EngineError>
    decreases a,
{
    match a {
        Activation::True => Ok(true),
        Activation::Stream(r) => match r {
            StreamReference::InRef(ix) => if ix < fresh_in.len() {
                Ok(fresh_in[ix as int])
            } else {
                Err(EngineError::SpecLoadError)
            },
            StreamReference::OutRef(_) => Err(EngineError::SpecLoadError),
        },
        Activation::Conj(cs) => spec_activation_all(cs, fresh_in, cs@.len() as int),
        Activation::Disj(cs) => spec_activation_any(cs, fresh_in, cs@.len() as int),
    }
}

/// Whether the first `n` conditions all hold.
pub open spec fn spec_activation_all(cs: Vec<Activation>, fresh_in: Seq<bool>, n: int) -> Result<
    bool,
    EngineError,
>
    decreases cs@, n,
        when n <= cs@.len()
{
    if n <= 0 {
        Ok(true)
    } else {
        match spec_activation_all(cs, fresh_in, n - 1) {
            Ok(b) => match spec_activation(cs@[n - 1], fresh_in) {
                Ok(b2) => Ok(b && b2),
                Err(e) => Err(e),
            },
            Err(e) => Err(e),
        }
    }
}

/// Whether any of the first `n` conditions holds.
pub open spec fn spec_activation_any(cs: Vec<Activation>, fresh_in: Seq<bool>, n: int) -> Result<
    bool,
    EngineError,
>
    decreases cs@, n,
        when n <= cs@.len()
{
    if n <= 0 {
        Ok(false)
    } else {
        match spec_activation_any(cs, fresh_in, n - 1) {
            Ok(b) => match spec_activation(cs@[n - 1], fresh_in) {
                Ok(b2) => Ok(b || b2),
                Err(e) => Err(e),
            },
            Err(e) => Err(e),
        }
    }
}

/// Evaluates an activation condition under the given input freshness.
fn activation_active(a: &Activation, fresh_in: &Vec<bool>) -> (r: Result<bool, EngineError>)
    ensures
        r == spec_activation(*a, fresh_in@),
    decreases *a,
{
    match a {
        Activation::True => Ok(true),
        Activation::Stream(sr) => match sr {
            StreamReference::InRef(ix) => if *ix < fresh_in.len() {
                Ok(fresh_in[*ix])
            } else {
                Err(EngineError::SpecLoadError)
            },
            StreamReference::OutRef(_) => Err(EngineError::SpecLoadError),
        },
        Activation::Conj(cs) => activation_all(cs, fresh_in),
        Activation::Disj(cs) => activation_any(cs, fresh_in),
    }
}

#[verifier::loop_isolation(false)]
fn activation_all(cs: &Vec<Activation>, fresh_in: &Vec<bool>) -> (r: Result<bool, EngineError>)
    ensures
        r == spec_activation_all(*cs, fresh_in@, cs@.len() as int),
    decreases cs@,
{
    let mut acc = true;
    let mut i: usize = 0;
    while i < cs.len()
        invariant
            0 <= i <= cs@.len(),
            spec_activation_all(*cs, fresh_in@, i as int) == Ok::<bool, EngineError>(acc),
        decreases cs@.len() - i,
    {
        match activation_active(&cs[i], fresh_in) {
            Ok(b) => {
                acc = acc && b;
            },
            Err(e) => {
                proof {
                    lemma_activation_all_err(*cs, fresh_in@, i as int + 1, cs@.len() as int);
                }
                return Err(e);
            },
        }
        i = i + 1;
    }
    Ok(acc)
}

#[verifier::loop_isolation(false)]
fn activation_any(cs: &Vec<Activation>, fresh_in: &Vec<bool>) -> (r: Result<bool, EngineError>)
    ensures
        r == spec_activation_any(*cs, fresh_in@, cs@.len() as int),
    decreases cs@,
{
    let mut acc = false;
    let mut i: usize = 0;
    while i < cs.len()
        invariant
            0 <= i <= cs@.len(),
            spec_activation_any(*cs, fresh_in@, i as int) == Ok::<bool, EngineError>(acc),
        decreases cs@.len() - i,
    {
        match activation_active(&cs[i], fresh_in) {
            Ok(b) => {
                acc = acc || b;
            },
            Err(e) => {
                proof {
                    lemma_activation_any_err(*cs, fresh_in@, i as int + 1, cs@.len() as int);
                }
                return Err(e);
            },
        }
        i = i + 1;
    }
    Ok(acc)
}

/// An activation check never reports a clock violation.
proof fn lemma_activation_no_clock(a: Activation, fresh_in: Seq<bool>)
    ensures
        spec_activation(a, fresh_in) matches Err(e) ==> e
            != EngineError::ClockMonotonicityViolation,
    decreases a,
{
    match a {
        Activation::Conj(cs) => {
            lemma_activation_all_no_clock(cs, fresh_in, cs@.len() as int);
        },
        Activation::Disj(cs) => {
            lemma_activation_any_no_clock(cs, fresh_in, cs@.len() as int);
        },
        _ => {},
    }
}

proof fn lemma_activation_all_no_clock(cs: Vec<Activation>, fresh_in: Seq<bool>, n: int)
    requires
        n <= cs@.len(),
    ensures
        spec_activation_all(cs, fresh_in, n) matches Err(e) ==> e
            != EngineError::ClockMonotonicityViolation,
    decreases cs@, n,
{
    if n > 0 {
        lemma_activation_all_no_clock(cs, fresh_in, n - 1);
        lemma_activation_no_clock(cs@[n - 1], fresh_in);
    }
}

proof fn lemma_activation_any_no_clock(cs: Vec<Activation>, fresh_in: Seq<bool>, n: int)
    requires
        n <= cs@.len(),
    ensures
        spec_activation_any(cs, fresh_in, n) matches Err(e) ==> e
            != EngineError::ClockMonotonicityViolation,
    decreases cs@, n,
{
    if n > 0 {
        lemma_activation_any_no_clock(cs, fresh_in, n - 1);
        lemma_activation_no_clock(cs@[n - 1], fresh_in);
    }
}

/// A failed conjunction stays failed as conditions follow.
proof fn lemma_activation_all_err(cs: Vec<Activation>, fresh_in: Seq<bool>, i: int, n: int)
    requires
        0 <= i <= n <= cs@.len(),
        spec_activation_all(cs, fresh_in, i) is Err,
    ensures
        spec_activation_all(cs, fresh_in, n) == spec_activation_all(cs, fresh_in, i),
    decreases n - i,
{
    if i < n {
        lemma_activation_all_err(cs, fresh_in, i + 1, n);
    }
}

/// A failed disjunction stays failed as conditions follow.
proof fn lemma_activation_any_err(cs: Vec<Activation>, fresh_in: Seq<bool>, i: int, n: int)
    requires
        0 <= i <= n <= cs@.len(),
        spec_activation_any(cs, fresh_in, i) is Err,
    ensures
        spec_activation_any(cs, fresh_in, n) == spec_activation_any(cs, fresh_in, i),
    decreases n - i,
{
    if i < n {
        lemma_activation_any_err(cs, fresh_in, i + 1, n);
    }
}

/// The mathematical shape of one emitted notification.
pub ghost struct EmV {
    pub time: u128,
    pub trigger_ix: usize,
    pub message: Seq<char>,
}

/// The shape of one notification.
pub open spec fn em_v(e: Emission) -> EmV {
    EmV { time: e.time, trigger_ix: e.trigger_ix, message: e.message@ }
}

/// The shapes of a notification list, in order.
pub open spec fn ems_v(es: Seq<Emission>) -> Seq<EmV> {
    Seq::new(es.len(), |i: int| em_v(es[i]))
}

/// The mathematical shape of the monitor's mutable state: the deadline
/// clock, every storage cell and freshness bit, the window samples, the
/// run's counters, and the instant bookkeeping.
pub ghost struct StepState {
    pub cursor: usize,
    pub next_due: u128,
    pub inputs: Seq<BufM>,
    pub outputs: Seq<BufM>,
    pub fresh_in: Seq<bool>,
    pub fresh_out: Seq<bool>,
    pub windows: Seq<WinM>,
    pub num_events: u64,
    pub num_triggers: u64,
    pub per_trigger: Seq<u64>,
    pub started: bool,
    pub last_time: u128,
    pub has_instant: bool,
    pub current_instant: u128,
}

/// Writing one value at one instant: it is pushed into the stream's storage
/// cell, the stream's freshness bit is raised, and every window aggregating
/// the stream takes the value as a sample.
pub open spec fn spec_write(s: StepState, sr: StreamReference, v: ValueV, time: u128) -> StepState {
    let s1 = match sr {
        StreamReference::InRef(ix) => StepState {
            inputs: s.inputs.update(ix as int, s.inputs[ix as int].pushed(v)),
            fresh_in: if ix < s.fresh_in.len() {
                s.fresh_in.update(ix as int, true)
            } else {
                s.fresh_in
            },
            ..s
        },
        StreamReference::OutRef(ix) => StepState {
            outputs: s.outputs.update(ix as int, s.outputs[ix as int].pushed(v)),
            fresh_out: if ix < s.fresh_out.len() {
                s.fresh_out.update(ix as int, true)
            } else {
                s.fresh_out
            },
            ..s
        },
    };
    StepState {
        windows: Seq::new(
            s1.windows.len(),
            |w: int|
                if s1.windows[w].target == sr {
                    s1.windows[w].sampled(time, v)
                } else {
                    s1.windows[w]
                },
        ),
        ..s1
    }
}

/// Starting the instant `time`: when the instant is new, every freshness bit
/// clears; a repeated instant keeps the values already fresh within it.
pub open spec fn spec_begin_instant(s: StepState, time: u128) -> StepState {
    if !s.has_instant || time > s.current_instant {
        StepState {
            fresh_in: Seq::new(s.fresh_in.len(), |i: int| false),
            fresh_out: Seq::new(s.fresh_out.len(), |i: int| false),
            has_instant: true,
            current_instant: time,
            ..s
        }
    } else {
        s
    }
}

/// Starting an event's record at `time`: each record speaks for itself about
/// which inputs carry a value, so the inputs' freshness clears even when the
/// timestamp repeats; outputs computed earlier within the instant stay
/// visible to the record.
pub open spec fn spec_begin_event(s: StepState, time: u128) -> StepState {
    if !s.has_instant || time > s.current_instant {
        spec_begin_instant(s, time)
    } else {
        StepState { fresh_in: Seq::new(s.fresh_in.len(), |i: int| false), ..s }
    }
}

/// Whether the first `n` input dependencies all carry a value this instant;
/// a dependency that is no input stream in range is a malformed
/// specification.
pub open spec fn spec_deps_fresh(
    deps: Vec<StreamReference>,
    fresh_in: Seq<bool>,
    n: int,
) -> Result<bool, EngineError>
    decreases n,
{
    if n <= 0 {
        Ok(true)
    } else {
        match spec_deps_fresh(deps, fresh_in, n - 1) {
            Ok(b) => match deps@[n - 1] {
                StreamReference::InRef(ix) => if ix < fresh_in.len() {
                    Ok(b && fresh_in[ix as int])
                } else {
                    Err(EngineError::SpecLoadError)
                },
                StreamReference::OutRef(_) => Err(EngineError::SpecLoadError),
            },
            Err(e) => Err(e),
        }
    }
}

/// Whether the output evaluates this instant: its activation condition when
/// it carries one, else the freshness of all its input dependencies. A
/// deadline evaluates its due streams without this test.
pub open spec fn spec_active(ir: LolaIR, out_ix: int, fresh_in: Seq<bool>, check: bool) -> Result<
    bool,
    EngineError,
> {
    if !check {
        Ok(true)
    } else {
        match ir.outputs@[out_ix].ac {
            Some(a) => spec_activation(a, fresh_in),
            None => spec_deps_fresh(
                ir.outputs@[out_ix].input_dependencies,
                fresh_in,
                ir.outputs@[out_ix].input_dependencies@.len() as int,
            ),
        }
    }
}

/// One firing of a trigger counted; both counters saturate.
pub open spec fn spec_count_trigger(s: StepState, ti: int) -> StepState {
    StepState {
        num_triggers: if s.num_triggers < u64::MAX {
            (s.num_triggers + 1) as u64
        } else {
            s.num_triggers
        },
        per_trigger: s.per_trigger.update(
            ti,
            if s.per_trigger[ti] < u64::MAX {
                (s.per_trigger[ti] + 1) as u64
            } else {
                s.per_trigger[ti]
            },
        ),
        ..s
    }
}

/// The text of a trigger notification: the trigger's message when it has
/// one, else the name of its stream.
pub open spec fn spec_trigger_message(ir: LolaIR, out_ix: int, ti: int) -> Seq<char> {
    match ir.triggers@[ti].message {
        Some(m) => m@,
        None => ir.outputs@[out_ix].name@,
    }
}

/// One due stream at one instant: the activation test, the expression on the current
/// state, the notification when a trigger stream carries true, and the
/// write of the computed value. A reference that names no output in range
/// is a malformed specification; an absent required value is an error.
pub open spec fn spec_eval_ref(
    ir: LolaIR,
    tro: Seq<Option<usize>>,
    s: StepState,
    sr: StreamReference,
    time: u128,
    check: bool,
) -> Result<(StepState, Seq<EmV>), EngineError> {
    match sr {
        StreamReference::InRef(_) => Err(EngineError::SpecLoadError),
        StreamReference::OutRef(out_ix) => if out_ix >= s.outputs.len() {
            Err(EngineError::SpecLoadError)
        } else {
            match spec_active(ir, out_ix as int, s.fresh_in, check) {
                Err(e) => Err(e),
                Ok(false) => Ok((s, Seq::empty())),
                Ok(true) => {
                    let c = CtxV {
                        inputs: s.inputs,
                        outputs: s.outputs,
                        fresh_in: s.fresh_in,
                        fresh_out: s.fresh_out,
                        windows: s.windows,
                        time,
                    };
                    match eval_spec(ir.outputs@[out_ix as int].expr, c) {
                        Err(e) => Err(e),
                        Ok(None) => Err(EngineError::MissingRequiredValue),
                        Ok(Some(v)) => {
                            let fired = match tro[out_ix as int] {
                                Some(ti) => if v == ValueV::Bool(true) {
                                    Some(ti)
                                } else {
                                    None
                                },
                                None => None,
                            };
                            match fired {
                                Some(ti) => Ok(
                                    (
                                        spec_write(spec_count_trigger(s, ti as int), sr, v, time),
                                        seq![
                                            EmV {
                                                time,
                                                trigger_ix: ti,
                                                message: spec_trigger_message(
                                                    ir,
                                                    out_ix as int,
                                                    ti as int,
                                                ),
                                            },
                                        ],
                                    ),
                                ),
                                None => Ok((spec_write(s, sr, v, time), Seq::empty())),
                            }
                        },
                    }
                },
            }
        },
    }
}

/// The first `n` due streams of one instant, in order: each evaluates on the
/// state the previous ones left, and the notifications concatenate.
pub open spec fn spec_eval_refs(
    ir: LolaIR,
    tro: Seq<Option<usize>>,
    s: StepState,
    refs: Seq<StreamReference>,
    time: u128,
    check: bool,
    n: int,
) -> Result<(StepState, Seq<EmV>), EngineError>
    decreases n,
{
    if n <= 0 {
        Ok((s, Seq::empty()))
    } else {
        match spec_eval_refs(ir, tro, s, refs, time, check, n - 1) {
            Ok((s1, ems)) => match spec_eval_ref(ir, tro, s1, refs[n - 1], time, check) {
                Ok((s2, ems2)) => Ok((s2, ems + ems2)),
                Err(e) => Err(e),
            },
            Err(e) => Err(e),
        }
    }
}

/// A failed instant stays failed as more due streams follow.
proof fn lemma_eval_refs_err(
    ir: LolaIR,
    tro: Seq<Option<usize>>,
    s: StepState,
    refs: Seq<StreamReference>,
    time: u128,
    check: bool,
    i: int,
    n: int,
)
    requires
        0 <= i <= n,
        spec_eval_refs(ir, tro, s, refs, time, check, i) is Err,
    ensures
        spec_eval_refs(ir, tro, s, refs, time, check, n) == spec_eval_refs(
            ir,
            tro,
            s,
            refs,
            time,
            check,
            i,
        ),
    decreases n - i,
{
    if i < n {
        lemma_eval_refs_err(ir, tro, s, refs, time, check, i + 1, n);
    }
}

/// A failed dependency check stays failed as more dependencies follow.
proof fn lemma_deps_fresh_err(deps: Vec<StreamReference>, fresh_in: Seq<bool>, i: int, n: int)
    requires
        0 <= i <= n,
        spec_deps_fresh(deps, fresh_in, i) is Err,
    ensures
        spec_deps_fresh(deps, fresh_in, n) == spec_deps_fresh(deps, fresh_in, i),
    decreases n - i,
{
    if i < n {
        lemma_deps_fresh_err(deps, fresh_in, i + 1, n);
    }
}

/// Prepends already-collected notifications to a step outcome.
pub open spec fn spec_prepend(
    ems: Seq<EmV>,
    r: Result<(StepState, Seq<EmV>), EngineError>,
) -> Result<(StepState, Seq<EmV>), EngineError> {
    match r {
        Ok((s, ems2)) => Ok((s, ems + ems2)),
        Err(e) => Err(e),
    }
}

/// Every deadline due up to `t` fires, earliest first: each opens its
/// instant, evaluates its due streams without the activation test, and
/// advances the deadline clock by the pause of the following deadline; a
/// clock that cannot advance is an arithmetic fault.
pub open spec fn spec_deadlines(
    ir: LolaIR,
    tro: Seq<Option<usize>>,
    sched: Option<Schedule>,
    s: StepState,
    t: u128,
) -> Result<(StepState, Seq<EmV>), EngineError>
    decreases
            (if sched is Some && s.next_due <= t {
                t - s.next_due + 1
            } else {
                0int
            }),
        when (sched matches Some(sc) ==> {
            &&& sc.deadlines@.len() > 0
            &&& s.cursor < sc.deadlines@.len()
            &&& forall|j: int| 0 <= j < sc.deadlines@.len() ==> (#[trigger] sc.deadlines@[j].pause) > 0
        })
{
    match sched {
        None => Ok((s, Seq::empty())),
        Some(sc) => if s.next_due > t {
            Ok((s, Seq::empty()))
        } else {
            let time = s.next_due;
            let s1 = spec_begin_instant(s, time);
            match spec_eval_refs(
                ir,
                tro,
                s1,
                sc.deadlines@[s.cursor as int].due@,
                time,
                false,
                sc.deadlines@[s.cursor as int].due@.len() as int,
            ) {
                Err(e) => Err(e),
                Ok((s2, ems)) => {
                    let next_cursor: usize = if s.cursor + 1 == sc.deadlines@.len() {
                        0
                    } else {
                        (s.cursor + 1) as usize
                    };
                    let pause = sc.deadlines@[next_cursor as int].pause;
                    if time + pause > u128::MAX {
                        Err(EngineError::ArithmeticFault)
                    } else {
                        let s3 = StepState {
                            cursor: next_cursor,
                            next_due: (time + pause) as u128,
                            ..s2
                        };
                        spec_prepend(ems, spec_deadlines(ir, tro, sched, s3, t))
                    }
                },
            }
        },
    }
}

/// One event counted; the counter saturates.
pub open spec fn spec_count_event(s: StepState) -> StepState {
    StepState {
        num_events: if s.num_events < u64::MAX {
            (s.num_events + 1) as u64
        } else {
            s.num_events
        },
        ..s
    }
}

/// The first `n` cells parsed into their input streams at the instant `t`: a
/// present cell that parses under its stream's declared type is written; a
/// malformed cell ends the run when parsing is strict and counts as absent
/// otherwise; a declared type no cell can denote is a malformed
/// specification.
pub open spec fn spec_parse_cells(
    ir: LolaIR,
    strict: bool,
    s: StepState,
    cells: Seq<Option<String>>,
    t: u128,
    n: int,
) -> Result<StepState, EngineError>
    decreases n,
{
    if n <= 0 {
        Ok(s)
    } else {
        match spec_parse_cells(ir, strict, s, cells, t, n - 1) {
            Err(e) => Err(e),
            Ok(s1) => match cells[n - 1] {
                None => Ok(s1),
                Some(text) => {
                    let ty = ir.inputs@[n - 1].ty;
                    if !(ty is Bool || ty is UInt || ty is Int || ty is Float || ty is String) {
                        Err(EngineError::SpecLoadError)
                    } else {
                        match spec_try_from(text@, ty) {
                            Some(v) => Ok(
                                spec_write(s1, StreamReference::InRef((n - 1) as usize), v, t),
                            ),
                            None => if strict {
                                Err(EngineError::InputParseError)
                            } else {
                                Ok(s1)
                            },
                        }
                    }
                },
            },
        }
    }
}

/// A failed record stays failed as more cells follow.
proof fn lemma_parse_cells_err(
    ir: LolaIR,
    strict: bool,
    s: StepState,
    cells: Seq<Option<String>>,
    t: u128,
    i: int,
    n: int,
)
    requires
        0 <= i <= n,
        spec_parse_cells(ir, strict, s, cells, t, i) is Err,
    ensures
        spec_parse_cells(ir, strict, s, cells, t, n) == spec_parse_cells(
            ir,
            strict,
            s,
            cells,
            t,
            i,
        ),
    decreases n - i,
{
    if i < n {
        lemma_parse_cells_err(ir, strict, s, cells, t, i + 1, n);
    }
}

/// The first `n` event-driven layers evaluated at the instant `t`, with the
/// activation test, in evaluation order.
pub open spec fn spec_layers(
    ir: LolaIR,
    tro: Seq<Option<usize>>,
    layers: Seq<Vec<StreamReference>>,
    s: StepState,
    t: u128,
    n: int,
) -> Result<(StepState, Seq<EmV>), EngineError>
    decreases n,
{
    if n <= 0 {
        Ok((s, Seq::empty()))
    } else {
        match spec_layers(ir, tro, layers, s, t, n - 1) {
            Err(e) => Err(e),
            Ok((s1, ems)) => spec_prepend(
                ems,
                spec_eval_refs(ir, tro, s1, layers[n - 1]@, t, true, layers[n - 1]@.len() as int),
            ),
        }
    }
}

/// A failed instant stays failed as more layers follow.
proof fn lemma_layers_err(
    ir: LolaIR,
    tro: Seq<Option<usize>>,
    layers: Seq<Vec<StreamReference>>,
    s: StepState,
    t: u128,
    i: int,
    n: int,
)
    requires
        0 <= i <= n,
        spec_layers(ir, tro, layers, s, t, i) is Err,
    ensures
        spec_layers(ir, tro, layers, s, t, n) == spec_layers(ir, tro, layers, s, t, i),
    decreases n - i,
{
    if i < n {
        lemma_layers_err(ir, tro, layers, s, t, i + 1, n);
    }
}

/// What follows the deadline catch-up when an event at `t` is accepted: the
/// event's instant opens, the event counts, the cells parse and write, and
/// the event-driven layers evaluate in order; the last processed time
/// becomes `t` and the notifications concatenate, deadlines first.
pub open spec fn spec_step_rest(
    ir: LolaIR,
    tro: Seq<Option<usize>>,
    sched: Option<Schedule>,
    layers: Seq<Vec<StreamReference>>,
    strict: bool,
    s0: StepState,
    t: u128,
    cells: Seq<Option<String>>,
) -> Result<(StepState, Seq<EmV>), EngineError> {
    match spec_deadlines(ir, tro, sched, s0, t) {
        Err(e) => Err(e),
        Ok((s1, ems1)) => {
            let s2 = spec_count_event(spec_begin_event(s1, t));
            match spec_parse_cells(ir, strict, s2, cells, t, cells.len() as int) {
                Err(e) => Err(e),
                Ok(s3) => match spec_layers(ir, tro, layers, s3, t, layers.len() as int) {
                    Err(e) => Err(e),
                    Ok((s4, ems2)) => Ok((StepState { last_time: t, ..s4 }, ems1 + ems2)),
                },
            }
        },
    }
}

/// The whole effect of accepting one event on the monitor's mathematical
/// state: an event older than the last one is rejected; on the first event
/// the deadline clock starts one pause after it; then the due deadlines fire
/// and the event is processed.
pub open spec fn spec_run_step(
    ir: LolaIR,
    tro: Seq<Option<usize>>,
    sched: Option<Schedule>,
    layers: Seq<Vec<StreamReference>>,
    strict: bool,
    s: StepState,
    t: u128,
    cells: Seq<Option<String>>,
) -> Result<(StepState, Seq<EmV>), EngineError> {
    if s.started && t < s.last_time {
        Err(EngineError::ClockMonotonicityViolation)
    } else if !s.started && (sched matches Some(sc) && t + sc.deadlines@[0].pause > u128::MAX) {
        Err(EngineError::ArithmeticFault)
    } else {
        let s0 = if !s.started {
            match sched {
                Some(sc) => StepState {
                    started: true,
                    cursor: 0,
                    next_due: (t + sc.deadlines@[0].pause) as u128,
                    ..s
                },
                None => StepState { started: true, ..s },
            }
        } else {
            s
        };
        spec_step_rest(ir, tro, sched, layers, strict, s0, t, cells)
    }
}

/// Determinism: accepting an event is a mathematical function of the
/// specification, the schedule, the evaluation order, the configured
/// strictness, the monitor's state, the timestamp and the cells — and of
/// nothing else. Two monitors that agree on those process the event
/// identically: the same cells parse, the same values are written, and the
/// same notifications come back in the same order. Nothing of the machine,
/// the wall clock or the evaluator mode enters; over a whole run, equal
/// records give equal notification sequences.
pub proof fn lemma_step_deterministic(
    m1: &Monitor,
    m2: &Monitor,
    t: u128,
    cells: Seq<Option<String>>,
)
    requires
        m1.ir == m2.ir,
        m1.trigger_of_output@ == m2.trigger_of_output@,
        m1.schedule == m2.schedule,
        m1.layers@ == m2.layers@,
        m1.cfg.strict == m2.cfg.strict,
        m1.step_state() == m2.step_state(),
    ensures
        m1.spec_step(t, cells) == m2.spec_step(t, cells),
{
}

/// The running monitor: the specification, the schedule and the deadline
/// clock, per-stream storage and freshness, window accumulators, the
/// evaluation order, and the run's counters.
///
/// When the input ends, every deadline up to the last event's time has
/// already fired; deadlines beyond the input are never synthesized.
pub struct Monitor {
    pub ir: LolaIR,
    pub cfg: EvalConfig,
    /// The periodic schedule; absent when no stream is time-driven.
    pub schedule: Option<Schedule>,
    /// The index of the next deadline.
    pub cursor: usize,
    /// The absolute time of the next deadline; meaningful once started.
    pub next_due: u128,
    pub inputs: Vec<StreamBuffer>,
    pub outputs: Vec<StreamBuffer>,
    pub fresh_in: Vec<bool>,
    pub fresh_out: Vec<bool>,
    pub windows: Vec<WindowInst>,
    /// The event-driven outputs, grouped by evaluation layer.
    pub layers: Vec<Vec<StreamReference>>,
    /// For each output, the trigger it carries, if any.
    pub trigger_of_output: Vec<Option<usize>>,
    pub statistics: Statistics,
    /// Whether any event arrived yet; the deadline clock starts with the
    /// first one.
    pub started: bool,
    /// The time of the most recent event.
    pub last_time: u128,
    /// Whether any instant was processed yet.
    pub has_instant: bool,
    /// The most recent processed instant: freshness bits hold within it.
    pub current_instant: u128,
    /// The instants processed so far, deadlines and events alike, in
    /// processing order: never decreasing.
    pub instants: Ghost<Seq<u128>>,
}

impl Monitor {
    /// The monitor's mutable state, as its mathematical shape.
    pub open spec fn step_state(&self) -> StepState {
        StepState {
            cursor: self.cursor,
            next_due: self.next_due,
            inputs: bufs_m(self.inputs@),
            outputs: bufs_m(self.outputs@),
            fresh_in: self.fresh_in@,
            fresh_out: self.fresh_out@,
            windows: wins_m(self.windows@),
            num_events: self.statistics.num_events,
            num_triggers: self.statistics.num_triggers,
            per_trigger: self.statistics.per_trigger@,
            started: self.started,
            last_time: self.last_time,
            has_instant: self.has_instant,
            current_instant: self.current_instant,
        }
    }

    /// The whole effect of accepting one event, as a mathematical function
    /// of the specification, the schedule, the evaluation order, the
    /// configured strictness, the monitor's state, the timestamp and the
    /// cells — and of nothing else.
    pub open spec fn spec_step(&self, t: u128, cells: Seq<Option<String>>) -> Result<
        (StepState, Seq<EmV>),
        EngineError,
    > {
        spec_run_step(
            self.ir,
            self.trigger_of_output@,
            self.schedule,
            self.layers@,
            self.cfg.strict,
            self.step_state(),
            t,
            cells,
        )
    }

    /// The structural part of the monitor's invariant.
    pub open spec fn core_wf(&self) -> bool {
        &&& self.inputs@.len() == self.ir.inputs@.len()
        &&& self.outputs@.len() == self.ir.outputs@.len()
        &&& self.fresh_in@.len() == self.inputs@.len()
        &&& self.fresh_out@.len() == self.outputs@.len()
        &&& forall|i: int| 0 <= i < self.inputs@.len() ==> (#[trigger] self.inputs@[i]).wf()
        &&& forall|i: int| 0 <= i < self.outputs@.len() ==> (#[trigger] self.outputs@[i]).wf()
        &&& forall|w: int| 0 <= w < self.windows@.len() ==> (#[trigger] self.windows@[w]).wf()
        &&& self.trigger_of_output@.len() == self.outputs@.len()
        &&& forall|o: int|
            0 <= o < self.trigger_of_output@.len() ==> match #[trigger] self.trigger_of_output@[o] {
                Some(ti) => ti < self.statistics.per_trigger@.len() && ti < self.ir.triggers@.len(),
                None => true,
            }
        &&& self.statistics.per_trigger@.len() == self.ir.triggers@.len()
        &&& match self.schedule {
            Some(s) => {
                &&& s.deadlines@.len() > 0
                &&& self.cursor < s.deadlines@.len()
                &&& forall|k: int| 0 <= k < s.deadlines@.len() ==> (#[trigger] s.deadlines@[k].pause) > 0
                &&& sum_pauses(s.deadlines@) == s.hyper_period
                &&& s.hyper_period > 0
                &&& forall|k: int|
                    0 <= k < s.deadlines@.len() ==> due_in_layer_order(
                        &self.ir,
                        (#[trigger] s.deadlines@[k]).due@,
                    )
            },
            None => true,
        }
    }

    /// The windows hold no sample from after the given time.
    pub open spec fn windows_before(&self, t: u128) -> bool {
        forall|w: int, i: int|
            0 <= w < self.windows@.len() && 0 <= i < self.windows@[w].times@.len()
                ==> (#[trigger] self.windows@[w].times@[i]) <= t
    }

    /// The monitor's invariant between events: the structure is sound, the
    /// processed instants never decrease and never exceed the last event's
    /// time, no window sample is newer, and the deadline clock stands after
    /// the last event.
    pub open spec fn wf(&self) -> bool {
        &&& self.core_wf()
        &&& monotone(self.instants@)
        &&& forall|i: int|
            0 <= i < self.instants@.len() ==> (#[trigger] self.instants@[i]) <= self.last_time
        &&& self.windows_before(self.last_time)
        &&& (self.started && self.schedule is Some ==> self.last_time <= self.next_due)
        &&& (!self.started ==> self.instants@.len() == 0 && self.windows_before(0)
            && self.last_time == 0)
    }

    /// Processes all streams due at one instant `time`: the due outputs of a
    /// deadline, or the event-driven layers of an event. Called with the due
    /// list of references. The whole effect — the values written, the
    /// freshness raised, the samples taken, the counters and the
    /// notifications — is the mathematical fold `spec_eval_refs` of the
    /// entry state.
    #[verifier::loop_isolation(false)]
    #[verifier::rlimit(30)]
    fn eval_refs_at(
        &mut self,
        refs: &Vec<StreamReference>,
        time: u128,
        check_activation: bool,
        emissions: &mut Vec<Emission>,
    ) -> (r: Result<(), EngineError>)
        requires
            old(self).core_wf(),
            old(self).windows_before(time),
        ensures
            final(self).core_wf(),
            final(self).windows_before(time),
            final(self).ir == old(self).ir,
            final(self).cfg == old(self).cfg,
            final(self).schedule == old(self).schedule,
            final(self).cursor == old(self).cursor,
            final(self).next_due == old(self).next_due,
            final(self).started == old(self).started,
            final(self).last_time == old(self).last_time,
            final(self).has_instant == old(self).has_instant,
            final(self).current_instant == old(self).current_instant,
            final(self).instants == old(self).instants,
            final(self).layers == old(self).layers,
            final(self).trigger_of_output == old(self).trigger_of_output,
            r matches Err(e) ==> e != EngineError::ClockMonotonicityViolation,
            old(emissions)@.is_prefix_of(final(emissions)@),
            forall|i: int|
                old(emissions)@.len() <= i < final(emissions)@.len()
                    ==> (#[trigger] final(emissions)@[i].time) == time,
            forall|i: int|
                old(emissions)@.len() <= i < final(emissions)@.len()
                    ==> (#[trigger] final(emissions)@[i].trigger_ix) < old(self).ir.triggers@.len(),
            match r {
                Ok(()) => spec_eval_refs(
                    old(self).ir,
                    old(self).trigger_of_output@,
                    old(self).step_state(),
                    refs@,
                    time,
                    check_activation,
                    refs@.len() as int,
                ) == Ok::<(StepState, Seq<EmV>), EngineError>(
                    (
                        final(self).step_state(),
                        ems_v(final(emissions)@.skip(old(emissions)@.len() as int)),
                    ),
                ),
                Err(e) => spec_eval_refs(
                    old(self).ir,
                    old(self).trigger_of_output@,
                    old(self).step_state(),
                    refs@,
                    time,
                    check_activation,
                    refs@.len() as int,
                ) == Err::<(StepState, Seq<EmV>), EngineError>(e),
            },
    {
        let ghost entry_emissions = emissions@;
        let ghost s0 = old(self).step_state();
        let ghost irg = old(self).ir;
        let ghost tro = old(self).trigger_of_output@;
        let ghost n_refs = refs@.len() as int;
        proof {
            assert(entry_emissions.is_prefix_of(emissions@));
            assert(ems_v(emissions@.skip(entry_emissions.len() as int)) =~= Seq::<EmV>::empty());
        }
        let mut k: usize = 0;
        while k < refs.len()
            invariant
                self.core_wf(),
                self.windows_before(time),
                self.ir == old(self).ir,
                self.cfg == old(self).cfg,
                self.schedule == old(self).schedule,
                self.cursor == old(self).cursor,
                self.next_due == old(self).next_due,
                self.started == old(self).started,
                self.last_time == old(self).last_time,
                self.has_instant == old(self).has_instant,
                self.current_instant == old(self).current_instant,
                self.instants == old(self).instants,
                self.layers == old(self).layers,
                self.trigger_of_output == old(self).trigger_of_output,
                0 <= k <= refs@.len(),
                entry_emissions.is_prefix_of(emissions@),
                forall|i: int|
                    entry_emissions.len() <= i < emissions@.len() ==> (#[trigger] emissions@[i].time)
                        == time,
                forall|i: int|
                    entry_emissions.len() <= i < emissions@.len()
                        ==> (#[trigger] emissions@[i].trigger_ix) < self.ir.triggers@.len(),
                spec_eval_refs(irg, tro, s0, refs@, time, check_activation, k as int) == Ok::<
                    (StepState, Seq<EmV>),
                    EngineError,
                >((self.step_state(), ems_v(emissions@.skip(entry_emissions.len() as int)))),
            decreases refs@.len() - k,
        {
            let ghost s_k = self.step_state();
            let ghost ems_k = ems_v(emissions@.skip(entry_emissions.len() as int));
            let sr = refs[k];
            let out_ix = match sr {
                StreamReference::OutRef(ix) => ix,
                StreamReference::InRef(_) => {
                    proof {
                        lemma_eval_refs_err(
                            irg,
                            tro,
                            s0,
                            refs@,
                            time,
                            check_activation,
                            k as int + 1,
                            n_refs,
                        );
                    }
                    return Err(EngineError::SpecLoadError);
                },
            };
            if out_ix >= self.outputs.len() {
                proof {
                    lemma_eval_refs_err(
                        irg,
                        tro,
                        s0,
                        refs@,
                        time,
                        check_activation,
                        k as int + 1,
                        n_refs,
                    );
                }
                return Err(EngineError::SpecLoadError);
            }
            // The activation condition of an event-driven output: all its
            // required inputs carry values this instant.
            let active = if check_activation {
                match &self.ir.outputs[out_ix].ac {
                    Some(a) => match activation_active(a, &self.fresh_in) {
                        Ok(b) => b,
                        Err(e) => {
                            proof {
                                lemma_activation_no_clock(*a, self.fresh_in@);
                                lemma_eval_refs_err(
                                    irg,
                                    tro,
                                    s0,
                                    refs@,
                                    time,
                                    check_activation,
                                    k as int + 1,
                                    n_refs,
                                );
                            }
                            return Err(e);
                        },
                    },
                    None => {
                        let deps = &self.ir.outputs[out_ix].input_dependencies;
                        let mut all_fresh = true;
                        let mut d: usize = 0;
                        while d < deps.len()
                            invariant
                                0 <= d <= deps@.len(),
                                spec_deps_fresh(*deps, self.fresh_in@, d as int) == Ok::<
                                    bool,
                                    EngineError,
                                >(all_fresh),
                            decreases deps@.len() - d,
                        {
                            match deps[d] {
                                StreamReference::InRef(ix) => {
                                    if ix < self.fresh_in.len() {
                                        if !self.fresh_in[ix] {
                                            all_fresh = false;
                                        }
                                    } else {
                                        proof {
                                            lemma_deps_fresh_err(
                                                *deps,
                                                self.fresh_in@,
                                                d as int + 1,
                                                deps@.len() as int,
                                            );
                                            lemma_eval_refs_err(
                                                irg,
                                                tro,
                                                s0,
                                                refs@,
                                                time,
                                                check_activation,
                                                k as int + 1,
                                                n_refs,
                                            );
                                        }
                                        return Err(EngineError::SpecLoadError);
                                    }
                                },
                                StreamReference::OutRef(_) => {
                                    proof {
                                        lemma_deps_fresh_err(
                                            *deps,
                                            self.fresh_in@,
                                            d as int + 1,
                                            deps@.len() as int,
                                        );
                                        lemma_eval_refs_err(
                                            irg,
                                            tro,
                                            s0,
                                            refs@,
                                            time,
                                            check_activation,
                                            k as int + 1,
                                            n_refs,
                                        );
                                    }
                                    return Err(EngineError::SpecLoadError);
                                },
                            }
                            d = d + 1;
                        }
                        all_fresh
                    },
                }
            } else {
                true
            };
            proof {
                assert(spec_active(irg, out_ix as int, s_k.fresh_in, check_activation) == Ok::<
                    bool,
                    EngineError,
                >(active));
            }
            if active {
                let ghost cv = CtxV {
                    inputs: s_k.inputs,
                    outputs: s_k.outputs,
                    fresh_in: s_k.fresh_in,
                    fresh_out: s_k.fresh_out,
                    windows: s_k.windows,
                    time,
                };
                let result = {
                    let ctx = Ctx {
                        ir: &self.ir,
                        inputs: &self.inputs,
                        outputs: &self.outputs,
                        fresh_in: &self.fresh_in,
                        fresh_out: &self.fresh_out,
                        windows: &self.windows,
                        time,
                    };
                    proof {
                        assert(ctx.view_spec() == cv);
                    }
                    eval(&self.ir.outputs[out_ix].expr, &ctx)
                };
                let value = match result {
                    Ok(Some(v)) => v,
                    Ok(None) => {
                        proof {
                            lemma_eval_refs_err(
                                irg,
                                tro,
                                s0,
                                refs@,
                                time,
                                check_activation,
                                k as int + 1,
                                n_refs,
                            );
                        }
                        return Err(EngineError::MissingRequiredValue);
                    },
                    Err(e) => {
                        proof {
                            crate::evaluator::lemma_eval_no_clock(
                                self.ir.outputs@[out_ix as int].expr,
                                cv,
                            );
                            lemma_eval_refs_err(
                                irg,
                                tro,
                                s0,
                                refs@,
                                time,
                                check_activation,
                                k as int + 1,
                                n_refs,
                            );
                        }
                        return Err(e);
                    },
                };
                // A true boolean on a trigger stream fires the trigger.
                let tr_opt = self.trigger_of_output[out_ix];
                let fires = match &value {
                    Value::Bool(b) => *b,
                    _ => false,
                };
                proof {
                    assert(fires == (value@ == ValueV::Bool(true)));
                }
                let ghost fired: Option<usize> = if tr_opt is Some && fires {
                    tr_opt
                } else {
                    None
                };
                match tr_opt {
                    Some(ti) => {
                        if fires {
                            self.statistics.trigger(ti);
                            proof {
                                assert(self.step_state() == spec_count_trigger(s_k, ti as int));
                            }
                            let message = match &self.ir.triggers[ti].message {
                                Some(m) => m.clone(),
                                None => self.ir.outputs[out_ix].name.clone(),
                            };
                            proof {
                                assert(message@ == spec_trigger_message(
                                    irg,
                                    out_ix as int,
                                    ti as int,
                                ));
                            }
                            let ghost before = emissions@;
                            emissions.push(Emission { time, trigger_ix: ti, message });
                            proof {
                                assert(emissions@.subrange(0, entry_emissions.len() as int)
                                    =~= before.subrange(0, entry_emissions.len() as int));
                                assert(ems_v(emissions@.skip(entry_emissions.len() as int))
                                    =~= ems_k + seq![
                                    EmV {
                                        time,
                                        trigger_ix: ti,
                                        message: spec_trigger_message(
                                            irg,
                                            out_ix as int,
                                            ti as int,
                                        ),
                                    },
                                ]);
                            }
                        }
                    },
                    None => {},
                }
                // Commit the value: storage, freshness, and the windows that
                // aggregate this stream.
                self.write_stream(StreamReference::OutRef(out_ix), value, time);
                proof {
                    match fired {
                        Some(ti) => {
                            assert(spec_eval_ref(
                                irg,
                                tro,
                                s_k,
                                refs@[k as int],
                                time,
                                check_activation,
                            ) == Ok::<(StepState, Seq<EmV>), EngineError>(
                                (
                                    self.step_state(),
                                    seq![
                                        EmV {
                                            time,
                                            trigger_ix: ti,
                                            message: spec_trigger_message(
                                                irg,
                                                out_ix as int,
                                                ti as int,
                                            ),
                                        },
                                    ],
                                ),
                            ));
                        },
                        None => {
                            assert(ems_k + Seq::<EmV>::empty() =~= ems_k);
                            assert(spec_eval_ref(
                                irg,
                                tro,
                                s_k,
                                refs@[k as int],
                                time,
                                check_activation,
                            ) == Ok::<(StepState, Seq<EmV>), EngineError>(
                                (self.step_state(), Seq::<EmV>::empty()),
                            ));
                        },
                    }
                }
            } else {
                proof {
                    assert(spec_eval_ref(irg, tro, s_k, refs@[k as int], time, check_activation)
                        == Ok::<(StepState, Seq<EmV>), EngineError>((s_k, Seq::<EmV>::empty())));
                    assert(ems_k + Seq::<EmV>::empty() =~= ems_k);
                }
            }
            k = k + 1;
        }
        Ok(())
    }

    /// Writes one computed or parsed value: into the stream's storage cell,
    /// its freshness bit, and every window that aggregates the stream.
    #[verifier::loop_isolation(false)]
    fn write_stream(&mut self, sr: StreamReference, value: Value, time: u128)
        requires
            old(self).core_wf(),
            old(self).windows_before(time),
            sr matches StreamReference::InRef(ix) ==> ix < old(self).inputs@.len(),
            sr matches StreamReference::OutRef(ix) ==> ix < old(self).outputs@.len(),
        ensures
            final(self).core_wf(),
            final(self).windows_before(time),
            final(self).ir == old(self).ir,
            final(self).cfg == old(self).cfg,
            final(self).schedule == old(self).schedule,
            final(self).cursor == old(self).cursor,
            final(self).next_due == old(self).next_due,
            final(self).started == old(self).started,
            final(self).last_time == old(self).last_time,
            final(self).has_instant == old(self).has_instant,
            final(self).current_instant == old(self).current_instant,
            final(self).instants == old(self).instants,
            final(self).layers == old(self).layers,
            final(self).statistics == old(self).statistics,
            final(self).trigger_of_output == old(self).trigger_of_output,
            final(self).step_state() == spec_write(old(self).step_state(), sr, value@, time),
    {
        let ghost s0 = old(self).step_state();
        match sr {
            StreamReference::InRef(ix) => {
                let buf = &mut self.inputs[ix];
                buf.push(value.clone());
                if ix < self.fresh_in.len() {
                    self.fresh_in.set(ix, true);
                }
                proof {
                    assert(bufs_m(self.inputs@) =~= s0.inputs.update(
                        ix as int,
                        s0.inputs[ix as int].pushed(value@),
                    ));
                }
            },
            StreamReference::OutRef(ix) => {
                let buf = &mut self.outputs[ix];
                buf.push(value.clone());
                if ix < self.fresh_out.len() {
                    self.fresh_out.set(ix, true);
                }
                proof {
                    assert(bufs_m(self.outputs@) =~= s0.outputs.update(
                        ix as int,
                        s0.outputs[ix as int].pushed(value@),
                    ));
                }
            },
        }
        let ghost s_mid = self.step_state();
        let mut w: usize = 0;
        while w < self.windows.len()
            invariant
                self.core_wf(),
                self.windows_before(time),
                self.ir == old(self).ir,
                self.cfg == old(self).cfg,
                self.schedule == old(self).schedule,
                self.cursor == old(self).cursor,
                self.next_due == old(self).next_due,
                self.started == old(self).started,
                self.last_time == old(self).last_time,
                self.has_instant == old(self).has_instant,
                self.current_instant == old(self).current_instant,
                self.instants == old(self).instants,
                self.layers == old(self).layers,
                self.statistics == old(self).statistics,
                self.trigger_of_output == old(self).trigger_of_output,
                self.inputs == old(self).inputs || sr is InRef,
                self.outputs == old(self).outputs || sr is OutRef,
                bufs_m(self.inputs@) == s_mid.inputs,
                bufs_m(self.outputs@) == s_mid.outputs,
                self.fresh_in@ == s_mid.fresh_in,
                self.fresh_out@ == s_mid.fresh_out,
                0 <= w <= self.windows@.len(),
                self.windows@.len() == s_mid.windows.len(),
                forall|k: int|
                    0 <= k < self.windows@.len() ==> (#[trigger] self.windows@[k].m()) == (
                    if k < w && s_mid.windows[k].target == sr {
                        s_mid.windows[k].sampled(time, value@)
                    } else {
                        s_mid.windows[k]
                    }),
            decreases self.windows@.len() - w,
        {
            proof {
                assert(self.windows@[w as int].m() == s_mid.windows[w as int]);
            }
            if self.windows[w].target == sr {
                let ghost old_vals = self.windows@[w as int].vals@;
                let win = &mut self.windows[w];
                win.add_sample(time, value.clone());
                proof {
                    crate::value::lemma_values_view(old_vals);
                    crate::value::lemma_values_view(self.windows@[w as int].vals@);
                    assert(crate::value::values_view(self.windows@[w as int].vals@)
                        =~= s_mid.windows[w as int].vals.push(value@));
                    assert(self.windows@[w as int].m() == s_mid.windows[w as int].sampled(
                        time,
                        value@,
                    ));
                }
            }
            w = w + 1;
        }
        proof {
            assert(wins_m(self.windows@) =~= Seq::new(
                s_mid.windows.len(),
                |k: int|
                    if s_mid.windows[k].target == sr {
                        s_mid.windows[k].sampled(time, value@)
                    } else {
                        s_mid.windows[k]
                    },
            ));
            assert(self.step_state() == spec_write(s0, sr, value@, time));
        }
    }

    /// All fields besides the freshness bits are unchanged.
    pub open spec fn same_but_fresh(&self, other: &Monitor) -> bool {
        &&& self.ir == other.ir
        &&& self.cfg == other.cfg
        &&& self.schedule == other.schedule
        &&& self.cursor == other.cursor
        &&& self.next_due == other.next_due
        &&& self.inputs == other.inputs
        &&& self.outputs == other.outputs
        &&& self.windows == other.windows
        &&& self.layers == other.layers
        &&& self.trigger_of_output == other.trigger_of_output
        &&& self.statistics == other.statistics
        &&& self.started == other.started
        &&& self.last_time == other.last_time
        &&& self.has_instant == other.has_instant
        &&& self.current_instant == other.current_instant
        &&& self.instants == other.instants
    }

    /// Clears the inputs' freshness bits: a new record begins, and each
    /// record says for itself which inputs carry a value.
    #[verifier::loop_isolation(false)]
    fn clear_fresh_in(&mut self)
        requires
            old(self).core_wf(),
        ensures
            final(self).core_wf(),
            final(self).same_but_fresh(old(self)),
            final(self).fresh_in@ == Seq::new(old(self).fresh_in@.len(), |i: int| false),
            final(self).fresh_out == old(self).fresh_out,
    {
        let n_in = self.fresh_in.len();
        let mut i: usize = 0;
        while i < n_in
            invariant
                0 <= i <= n_in,
                self.fresh_in@.len() == n_in,
                self.fresh_out == old(self).fresh_out,
                self.same_but_fresh(old(self)),
                forall|j: int| 0 <= j < i ==> (#[trigger] self.fresh_in@[j]) == false,
            decreases n_in - i,
        {
            self.fresh_in.set(i, false);
            i = i + 1;
        }
        proof {
            assert(self.fresh_in@ =~= Seq::new(old(self).fresh_in@.len(), |i: int| false));
        }
    }

    /// Clears every freshness bit: a new instant begins.
    #[verifier::loop_isolation(false)]
    fn clear_fresh(&mut self)
        requires
            old(self).core_wf(),
        ensures
            final(self).core_wf(),
            final(self).same_but_fresh(old(self)),
            final(self).fresh_in@ == Seq::new(old(self).fresh_in@.len(), |i: int| false),
            final(self).fresh_out@ == Seq::new(old(self).fresh_out@.len(), |i: int| false),
    {
        let n_in = self.fresh_in.len();
        let mut i: usize = 0;
        while i < n_in
            invariant
                0 <= i <= n_in,
                self.fresh_in@.len() == n_in,
                self.fresh_out@.len() == old(self).fresh_out@.len(),
                self.same_but_fresh(old(self)),
                forall|j: int| 0 <= j < i ==> (#[trigger] self.fresh_in@[j]) == false,
            decreases n_in - i,
        {
            self.fresh_in.set(i, false);
            i = i + 1;
        }
        let n_out = self.fresh_out.len();
        let mut o: usize = 0;
        while o < n_out
            invariant
                0 <= o <= n_out,
                self.fresh_in@.len() == n_in,
                self.fresh_out@.len() == n_out,
                self.same_but_fresh(old(self)),
                forall|j: int| 0 <= j < n_in ==> (#[trigger] self.fresh_in@[j]) == false,
                forall|j: int| 0 <= j < o ==> (#[trigger] self.fresh_out@[j]) == false,
            decreases n_out - o,
        {
            self.fresh_out.set(o, false);
            o = o + 1;
        }
        proof {
            assert(self.fresh_in@ =~= Seq::new(old(self).fresh_in@.len(), |i: int| false));
            assert(self.fresh_out@ =~= Seq::new(old(self).fresh_out@.len(), |i: int| false));
        }
    }
}


impl crate::ir::LolaBackend for Monitor {
    /// The features this engine supports: sliding windows and unbounded
    /// memory; real-time and future offsets stay outside it.
    fn supported_feature_flags() -> Vec<crate::ir::FeatureFlag> {
        let mut flags = Vec::new();
        flags.push(crate::ir::FeatureFlag::SlidingWindows);
        flags.push(crate::ir::FeatureFlag::UnboundedMemory);
        flags
    }
}

/// The capacity a memorization bound grants a storage cell.
pub open spec fn spec_capacity_of(b: MemorizationBound) -> Option<u16> {
    match b {
        MemorizationBound::Bounded(n) => Some(n),
        MemorizationBound::Unbounded => None,
    }
}

/// Whether a window can aggregate values of the type: the scalar kinds.
pub open spec fn spec_window_type_ok(ty: Type) -> bool {
    ty is Bool || ty is Int || ty is UInt || ty is Float || ty is String
}

/// Copies a window's element type; the scalar kinds copy exactly.
fn clone_window_type(t: &Type) -> (r: Option<Type>)
    ensures
        match r {
            Some(t2) => t2 == *t && spec_window_type_ok(*t),
            None => !spec_window_type_ok(*t),
        },
{
    match t {
        Type::Bool => Some(Type::Bool),
        Type::Int(w) => Some(Type::Int(*w)),
        Type::UInt(w) => Some(Type::UInt(*w)),
        Type::Float(w) => Some(Type::Float(*w)),
        Type::String => Some(Type::String),
        _ => None,
    }
}

/// The specifications this engine loads: every trigger, event-driven and
/// time-driven entry names an output in bounds; the time-driven rates are
/// positive and one entry stands per stream; every bounded storage cell holds
/// at least one value; every window aggregates a scalar element type; and,
/// when any stream is time-driven, the hyper-period is representable and its
/// tick count addressable.
pub open spec fn spec_ir_loadable(ir: LolaIR) -> bool {
    &&& forall|j: int|
        0 <= j < ir.triggers@.len() ==> (#[trigger] ir.triggers@[j].reference) is OutRef
            && ir.triggers@[j].reference.spec_ix() < ir.outputs@.len()
    &&& forall|j: int|
        0 <= j < ir.event_driven@.len() ==> (#[trigger] ir.event_driven@[j].reference) is OutRef
            && ir.event_driven@[j].reference.spec_ix() < ir.outputs@.len()
    &&& forall|j: int, j2: int|
        0 <= j < j2 < ir.event_driven@.len() ==> (#[trigger] ir.event_driven@[j].reference)
            != (#[trigger] ir.event_driven@[j2].reference)
    &&& forall|j: int|
        0 <= j < ir.time_driven@.len() ==> (#[trigger] ir.time_driven@[j].reference) is OutRef
            && ir.time_driven@[j].reference.spec_ix() < ir.outputs@.len()
            && ir.time_driven@[j].extend_rate > 0
    &&& forall|j: int, j2: int|
        0 <= j < j2 < ir.time_driven@.len() ==> (#[trigger] ir.time_driven@[j].reference)
            != (#[trigger] ir.time_driven@[j2].reference)
    &&& (ir.time_driven@.len() > 0 ==> {
        &&& crate::math::lcm_seq(spec_rates(ir.time_driven@)) <= u128::MAX
        &&& crate::math::lcm_seq(spec_rates(ir.time_driven@)) as int / crate::math::gcd_seq(
            spec_rates(ir.time_driven@),
        ) as int <= usize::MAX
    })
    &&& forall|j: int|
        0 <= j < ir.inputs@.len() ==> ((#[trigger] ir.inputs@[j].memory_bound) matches
            MemorizationBound::Bounded(n) ==> n >= 1)
    &&& forall|j: int|
        0 <= j < ir.outputs@.len() ==> ((#[trigger] ir.outputs@[j].memory_bound) matches
            MemorizationBound::Bounded(n) ==> n >= 1)
    &&& forall|j: int|
        0 <= j < ir.sliding_windows@.len() ==> spec_window_type_ok(
            (#[trigger] ir.sliding_windows@[j]).ty,
        )
}

impl Monitor {
    /// Whether a deadline is due at or before the given time.
    fn deadline_due(&self, t: u128) -> (r: bool)
        ensures
            r == (self.schedule is Some && self.next_due <= t),
    {
        match &self.schedule {
            Some(_) => self.next_due <= t,
            None => false,
        }
    }

    /// Builds a monitor from a specification and a configuration. Every
    /// malformed specification is rejected when the monitor is built: stream
    /// and trigger references must be in bounds, bounded memory must hold at
    /// least one value, and the time-driven rates must be positive, distinct
    /// per stream, and small enough for their hyper-period to be counted.
    #[verifier::loop_isolation(false)]
    pub fn new(ir: LolaIR, cfg: EvalConfig) -> (r: Result<Monitor, EngineError>)
        ensures
            match r {
                Ok(m) => {
                    &&& m.wf()
                    &&& !m.started
                    &&& m.ir == ir
                    &&& m.cfg == cfg
                    &&& m.instants@.len() == 0
                    // The window accumulators start empty, configured
                    // exactly by the IR.
                    &&& m.windows@.len() == ir.sliding_windows@.len()
                    &&& forall|j: int|
                        0 <= j < m.windows@.len() ==> (#[trigger] m.windows@[j]).m() == (WinM {
                            target: ir.sliding_windows@[j].target,
                            duration: ir.sliding_windows@[j].duration,
                            op: ir.sliding_windows@[j].op,
                            ty: ir.sliding_windows@[j].ty,
                            times: Seq::<u128>::empty(),
                            vals: Seq::<ValueV>::empty(),
                        })
                    // Each output carries the last trigger naming it, none
                    // else.
                    &&& m.trigger_of_output@.len() == ir.outputs@.len()
                    &&& forall|o: int|
                        0 <= o < m.trigger_of_output@.len() ==> match #[trigger] m.trigger_of_output@[o] {
                            Some(t) => {
                                &&& t < ir.triggers@.len()
                                &&& ir.triggers@[t as int].reference == StreamReference::OutRef(
                                    o as usize,
                                )
                                &&& forall|t2: int|
                                    t < t2 < ir.triggers@.len() ==> (
                                    #[trigger] ir.triggers@[t2].reference)
                                        != StreamReference::OutRef(o as usize)
                            },
                            None => forall|t2: int|
                                0 <= t2 < ir.triggers@.len() ==> (
                                #[trigger] ir.triggers@[t2].reference) != StreamReference::OutRef(
                                    o as usize,
                                ),
                        }
                    // A fresh monitor: empty storage sized by the bounds, no
                    // freshness, zeroed counters, the clock unstarted.
                    &&& m.inputs@.len() == ir.inputs@.len()
                    &&& forall|j: int|
                        0 <= j < m.inputs@.len() ==> (#[trigger] m.inputs@[j]).m() == (BufM {
                            hist: Seq::<ValueV>::empty(),
                            capacity: spec_capacity_of(ir.inputs@[j].memory_bound),
                        })
                    &&& m.outputs@.len() == ir.outputs@.len()
                    &&& forall|j: int|
                        0 <= j < m.outputs@.len() ==> (#[trigger] m.outputs@[j]).m() == (BufM {
                            hist: Seq::<ValueV>::empty(),
                            capacity: spec_capacity_of(ir.outputs@[j].memory_bound),
                        })
                    &&& m.fresh_in@ == Seq::new(ir.inputs@.len(), |i: int| false)
                    &&& m.fresh_out@ == Seq::new(ir.outputs@.len(), |i: int| false)
                    &&& m.statistics.num_events == 0
                    &&& m.statistics.num_triggers == 0
                    &&& m.statistics.per_trigger@ == Seq::new(ir.triggers@.len(), |i: int| 0u64)
                    &&& m.cursor == 0
                    &&& m.next_due == 0
                    &&& m.last_time == 0
                    &&& !m.has_instant
                    &&& m.current_instant == 0
                    // The schedule exists exactly for time-driven
                    // specifications; its tick, cycle and placement follow
                    // the rates, with each due list in evaluation order
                    // (the monitor's invariant).
                    &&& (m.schedule is Some <==> ir.time_driven@.len() > 0)
                    &&& match m.schedule {
                        Some(sc) => {
                            &&& sc.gcd == gcd_seq(spec_rates(ir.time_driven@))
                            &&& sc.hyper_period == lcm_seq(spec_rates(ir.time_driven@))
                            &&& sum_pauses(sc.deadlines@) == sc.hyper_period
                            &&& forall|k: int, sx: int|
                                #![trigger sc.deadlines@[k].due@.contains(ir.time_driven@[sx].reference)]
                                0 <= k < sc.deadlines@.len() && 0 <= sx < ir.time_driven@.len()
                                    ==> (sc.deadlines@[k].due@.contains(
                                    ir.time_driven@[sx].reference,
                                ) <==> cum_pause(sc.deadlines@, k) % (
                                ir.time_driven@[sx].extend_rate as int) == 0)
                        },
                        None => true,
                    }
                },
                Err(e) => e == EngineError::SpecLoadError,
            },
            // Success is owed exactly on the loadable specifications.
            r is Ok <==> spec_ir_loadable(ir),
    {
        // Trigger references name outputs in bounds.
        let mut i: usize = 0;
        while i < ir.triggers.len()
            invariant
                0 <= i <= ir.triggers@.len(),
                forall|j: int|
                    0 <= j < i ==> (#[trigger] ir.triggers@[j].reference) is OutRef
                        && ir.triggers@[j].reference.spec_ix() < ir.outputs@.len(),
            decreases ir.triggers@.len() - i,
        {
            match ir.triggers[i].reference {
                StreamReference::OutRef(ix) => {
                    if ix >= ir.outputs.len() {
                        proof {
                            assert(!(ir.triggers@[i as int].reference.spec_ix()
                                < ir.outputs@.len()));
                        }
                        return Err(EngineError::SpecLoadError);
                    }
                },
                StreamReference::InRef(_) => {
                    proof {
                        assert(!((ir.triggers@[i as int].reference) is OutRef));
                    }
                    return Err(EngineError::SpecLoadError);
                },
            }
            i = i + 1;
        }
        // Event-driven references name outputs in bounds, one entry per
        // stream.
        let mut i2: usize = 0;
        while i2 < ir.event_driven.len()
            invariant
                0 <= i2 <= ir.event_driven@.len(),
                forall|j: int|
                    0 <= j < i2 ==> (#[trigger] ir.event_driven@[j].reference) is OutRef
                        && ir.event_driven@[j].reference.spec_ix() < ir.outputs@.len(),
                forall|j: int, j2: int|
                    0 <= j < j2 < i2 ==> (#[trigger] ir.event_driven@[j].reference)
                        != (#[trigger] ir.event_driven@[j2].reference),
            decreases ir.event_driven@.len() - i2,
        {
            match ir.event_driven[i2].reference {
                StreamReference::OutRef(ix) => {
                    if ix >= ir.outputs.len() {
                        proof {
                            assert(!(ir.event_driven@[i2 as int].reference.spec_ix()
                                < ir.outputs@.len()));
                        }
                        return Err(EngineError::SpecLoadError);
                    }
                },
                StreamReference::InRef(_) => {
                    proof {
                        assert(!((ir.event_driven@[i2 as int].reference) is OutRef));
                    }
                    return Err(EngineError::SpecLoadError);
                },
            }
            let mut j2: usize = 0;
            while j2 < i2
                invariant
                    0 <= j2 <= i2 < ir.event_driven@.len(),
                    forall|j: int|
                        0 <= j < j2 ==> (#[trigger] ir.event_driven@[j].reference)
                            != ir.event_driven@[i2 as int].reference,
                decreases i2 - j2,
            {
                if ir.event_driven[j2].reference == ir.event_driven[i2].reference {
                    proof {
                        assert(ir.event_driven@[j2 as int].reference
                            == ir.event_driven@[i2 as int].reference);
                    }
                    return Err(EngineError::SpecLoadError);
                }
                j2 = j2 + 1;
            }
            i2 = i2 + 1;
        }
        // Time-driven references name outputs in bounds, with positive rates
        // and one list entry per stream.
        let mut i3: usize = 0;
        while i3 < ir.time_driven.len()
            invariant
                0 <= i3 <= ir.time_driven@.len(),
                forall|j: int|
                    0 <= j < i3 ==> (#[trigger] ir.time_driven@[j].reference) is OutRef
                        && ir.time_driven@[j].reference.spec_ix() < ir.outputs@.len()
                        && ir.time_driven@[j].extend_rate > 0,
                forall|j: int, j2: int|
                    0 <= j < j2 < i3 ==> (#[trigger] ir.time_driven@[j].reference)
                        != (#[trigger] ir.time_driven@[j2].reference),
            decreases ir.time_driven@.len() - i3,
        {
            match ir.time_driven[i3].reference {
                StreamReference::OutRef(ix) => {
                    if ix >= ir.outputs.len() {
                        proof {
                            assert(!(ir.time_driven@[i3 as int].reference.spec_ix()
                                < ir.outputs@.len()));
                        }
                        return Err(EngineError::SpecLoadError);
                    }
                },
                StreamReference::InRef(_) => {
                    proof {
                        assert(!((ir.time_driven@[i3 as int].reference) is OutRef));
                    }
                    return Err(EngineError::SpecLoadError);
                },
            }
            if ir.time_driven[i3].extend_rate == 0 {
                proof {
                    assert(!(ir.time_driven@[i3 as int].extend_rate > 0));
                }
                return Err(EngineError::SpecLoadError);
            }
            let mut j: usize = 0;
            while j < i3
                invariant
                    0 <= j <= i3 < ir.time_driven@.len(),
                    forall|j2: int|
                        0 <= j2 < j ==> (#[trigger] ir.time_driven@[j2].reference)
                            != ir.time_driven@[i3 as int].reference,
                decreases i3 - j,
            {
                if ir.time_driven[j].reference == ir.time_driven[i3].reference {
                    proof {
                        assert(ir.time_driven@[j as int].reference
                            == ir.time_driven@[i3 as int].reference);
                    }
                    return Err(EngineError::SpecLoadError);
                }
                j = j + 1;
            }
            i3 = i3 + 1;
        }
        // The periodic schedule, when any stream is time-driven.
        let schedule: Option<Schedule> = if ir.time_driven.len() > 0 {
            let ghost tds = ir.time_driven@;
            let ghost srates = spec_rates(tds);
            proof {
                assert forall|j: int| 0 <= j < tds.len() implies (#[trigger] tds[j].extend_rate)
                    > 0 by {
                    assert(ir.time_driven@[j].reference is OutRef);
                }
            }
            let mut rates: Vec<u128> = Vec::new();
            let mut i4: usize = 0;
            proof {
                assert(rates@ =~= srates.take(0int));
            }
            while i4 < ir.time_driven.len()
                invariant
                    0 <= i4 <= ir.time_driven@.len(),
                    tds == ir.time_driven@,
                    srates == spec_rates(tds),
                    rates@ == srates.take(i4 as int),
                    forall|j: int| 0 <= j < tds.len() ==> (#[trigger] tds[j].extend_rate) > 0,
                decreases ir.time_driven@.len() - i4,
            {
                rates.push(ir.time_driven[i4].extend_rate);
                proof {
                    assert(rates@ =~= srates.take(i4 as int + 1));
                }
                i4 = i4 + 1;
            }
            proof {
                assert(srates.take(srates.len() as int) =~= srates);
                assert(all_pos(rates@));
            }
            let l = match crate::math::lcm_all_checked(&rates) {
                Some(l) => l,
                None => {
                    proof {
                        assert(!(crate::math::lcm_seq(spec_rates(ir.time_driven@))
                            <= u128::MAX));
                    }
                    return Err(EngineError::SpecLoadError);
                },
            };
            let g = crate::math::gcd_all(&rates);
            proof {
                lemma_gcd_seq_pos(rates@);
            }
            if l / g > usize::MAX as u128 {
                proof {
                    assert(!(crate::math::lcm_seq(spec_rates(ir.time_driven@)) as int
                        / crate::math::gcd_seq(spec_rates(ir.time_driven@)) as int
                        <= usize::MAX));
                }
                return Err(EngineError::SpecLoadError);
            }
            let s = Schedule::from(&ir);
            proof {
                if s.deadlines@.len() == 0 {
                    assert(sum_pauses(s.deadlines@) == 0);
                }
            }
            // Reorder each deadline's due streams by evaluation layer: a
            // deadline evaluates them in dependency order.
            let mut sorted_dls: Vec<Deadline> = Vec::new();
            let mut di: usize = 0;
            while di < s.deadlines.len()
                invariant
                    0 <= di <= s.deadlines@.len(),
                    sorted_dls@.len() == di,
                    forall|k: int|
                        0 <= k < di ==> (#[trigger] sorted_dls@[k].pause) == s.deadlines@[k].pause,
                    forall|k: int|
                        0 <= k < di ==> due_in_layer_order(&ir, (#[trigger] sorted_dls@[k]).due@),
                    forall|k: int, x: StreamReference|
                        #![trigger sorted_dls@[k].due@.contains(x)]
                        0 <= k < di ==> (sorted_dls@[k].due@.contains(x)
                            <==> s.deadlines@[k].due@.contains(x)),
                decreases s.deadlines@.len() - di,
            {
                let d = &s.deadlines[di];
                proof {
                    // Due streams are time-driven streams, whose references
                    // were checked to name outputs in bounds.
                    assert forall|ii: int| 0 <= ii < d.due@.len() implies (#[trigger] d.due@[ii]) is OutRef
                        && d.due@[ii].spec_ix() < ir.outputs@.len() by {
                        assert(s.deadlines@[di as int].due@.contains(d.due@[ii]));
                        let i = choose|i: int|
                            0 <= i < ir.time_driven@.len() && (
                            #[trigger] ir.time_driven@[i].reference) == d.due@[ii];
                        assert(ir.time_driven@[i].reference is OutRef);
                    }
                }
                let due2 = sort_due_by_layer(&ir, &d.due);
                sorted_dls.push(Deadline { pause: d.pause, due: due2 });
                di = di + 1;
            }
            proof {
                lemma_sum_pauses_pointwise(s.deadlines@, sorted_dls@);
                if sorted_dls@.len() == 0 {
                    assert(sum_pauses(sorted_dls@) == 0);
                }
                // Placement carries over the reorder: each deadline keeps
                // its members and its pause.
                assert forall|k: int, sx: int|
                    #![trigger sorted_dls@[k].due@.contains(ir.time_driven@[sx].reference)]
                    0 <= k < sorted_dls@.len() && 0 <= sx < ir.time_driven@.len() implies (
                sorted_dls@[k].due@.contains(ir.time_driven@[sx].reference) <==> cum_pause(
                    sorted_dls@,
                    k,
                ) % (ir.time_driven@[sx].extend_rate as int) == 0) by {
                    lemma_cum_pointwise(s.deadlines@, sorted_dls@, k);
                    assert(s.deadlines@[k].due@.contains(ir.time_driven@[sx].reference)
                        <==> cum_pause(s.deadlines@, k) % (ir.time_driven@[sx].extend_rate as int)
                        == 0);
                }
            }
            Some(Schedule { gcd: s.gcd, hyper_period: s.hyper_period, deadlines: sorted_dls })
        } else {
            None
        };
        // Storage cells sized by the memorization bounds.
        let mut inputs: Vec<StreamBuffer> = Vec::new();
        let mut i5: usize = 0;
        while i5 < ir.inputs.len()
            invariant
                0 <= i5 <= ir.inputs@.len(),
                inputs@.len() == i5,
                forall|j: int| 0 <= j < i5 ==> (#[trigger] inputs@[j]).wf(),
                forall|j: int|
                    0 <= j < i5 ==> ((#[trigger] ir.inputs@[j].memory_bound) matches
                        MemorizationBound::Bounded(n) ==> n >= 1),
                forall|j: int|
                    0 <= j < i5 ==> (#[trigger] inputs@[j]).m() == (BufM {
                        hist: Seq::<ValueV>::empty(),
                        capacity: spec_capacity_of(ir.inputs@[j].memory_bound),
                    }),
            decreases ir.inputs@.len() - i5,
        {
            let bound = ir.inputs[i5].memory_bound;
            match bound {
                MemorizationBound::Bounded(n) => {
                    if n == 0 {
                        proof {
                            assert(ir.inputs@[i5 as int].memory_bound
                                == MemorizationBound::Bounded(0u16));
                        }
                        return Err(EngineError::SpecLoadError);
                    }
                },
                MemorizationBound::Unbounded => {},
            }
            inputs.push(StreamBuffer::new(bound));
            i5 = i5 + 1;
        }
        let mut outputs: Vec<StreamBuffer> = Vec::new();
        let mut i6: usize = 0;
        while i6 < ir.outputs.len()
            invariant
                0 <= i6 <= ir.outputs@.len(),
                outputs@.len() == i6,
                forall|j: int| 0 <= j < i6 ==> (#[trigger] outputs@[j]).wf(),
                forall|j: int|
                    0 <= j < i6 ==> ((#[trigger] ir.outputs@[j].memory_bound) matches
                        MemorizationBound::Bounded(n) ==> n >= 1),
                forall|j: int|
                    0 <= j < i6 ==> (#[trigger] outputs@[j]).m() == (BufM {
                        hist: Seq::<ValueV>::empty(),
                        capacity: spec_capacity_of(ir.outputs@[j].memory_bound),
                    }),
            decreases ir.outputs@.len() - i6,
        {
            let bound = ir.outputs[i6].memory_bound;
            match bound {
                MemorizationBound::Bounded(n) => {
                    if n == 0 {
                        proof {
                            assert(ir.outputs@[i6 as int].memory_bound
                                == MemorizationBound::Bounded(0u16));
                        }
                        return Err(EngineError::SpecLoadError);
                    }
                },
                MemorizationBound::Unbounded => {},
            }
            outputs.push(StreamBuffer::new(bound));
            i6 = i6 + 1;
        }
        // Freshness bits.
        let mut fresh_in: Vec<bool> = Vec::new();
        while fresh_in.len() < inputs.len()
            invariant
                fresh_in@.len() <= inputs@.len(),
                forall|j: int| 0 <= j < fresh_in@.len() ==> (#[trigger] fresh_in@[j]) == false,
            decreases inputs@.len() - fresh_in@.len(),
        {
            fresh_in.push(false);
        }
        let mut fresh_out: Vec<bool> = Vec::new();
        while fresh_out.len() < outputs.len()
            invariant
                fresh_out@.len() <= outputs@.len(),
                forall|j: int| 0 <= j < fresh_out@.len() ==> (#[trigger] fresh_out@[j]) == false,
            decreases outputs@.len() - fresh_out@.len(),
        {
            fresh_out.push(false);
        }
        // Window accumulators, empty, configured exactly by the IR.
        let mut windows: Vec<WindowInst> = Vec::new();
        let mut i7: usize = 0;
        while i7 < ir.sliding_windows.len()
            invariant
                0 <= i7 <= ir.sliding_windows@.len(),
                windows@.len() == i7,
                forall|j: int|
                    0 <= j < i7 ==> (#[trigger] windows@[j]).wf() && windows@[j].times@.len()
                        == 0,
                forall|j: int|
                    0 <= j < i7 ==> (#[trigger] windows@[j]).m() == (WinM {
                        target: ir.sliding_windows@[j].target,
                        duration: ir.sliding_windows@[j].duration,
                        op: ir.sliding_windows@[j].op,
                        ty: ir.sliding_windows@[j].ty,
                        times: Seq::<u128>::empty(),
                        vals: Seq::<crate::value::ValueV>::empty(),
                    }),
                forall|j: int|
                    0 <= j < i7 ==> spec_window_type_ok((#[trigger] ir.sliding_windows@[j]).ty),
            decreases ir.sliding_windows@.len() - i7,
        {
            let sw = &ir.sliding_windows[i7];
            let ty = match clone_window_type(&sw.ty) {
                Some(ty) => ty,
                None => {
                    proof {
                        assert(!spec_window_type_ok(ir.sliding_windows@[i7 as int].ty));
                    }
                    return Err(EngineError::SpecLoadError);
                },
            };
            windows.push(WindowInst::new(sw.target, sw.duration, sw.op, ty));
            i7 = i7 + 1;
        }
        // The evaluation order of the event-driven outputs.
        let layers = ir.get_event_driven_layers();
        // For each output, the trigger it carries.
        let mut trigger_of_output: Vec<Option<usize>> = Vec::new();
        while trigger_of_output.len() < outputs.len()
            invariant
                trigger_of_output@.len() <= outputs@.len(),
                forall|o: int| 0 <= o < trigger_of_output@.len() ==> (#[trigger] trigger_of_output@[o]) is None,
            decreases outputs@.len() - trigger_of_output@.len(),
        {
            trigger_of_output.push(None);
        }
        let mut ti: usize = 0;
        while ti < ir.triggers.len()
            invariant
                0 <= ti <= ir.triggers@.len(),
                trigger_of_output@.len() == outputs@.len(),
                outputs@.len() == ir.outputs@.len(),
                forall|j: int|
                    0 <= j < ir.triggers@.len() ==> (#[trigger] ir.triggers@[j].reference) is OutRef
                        && ir.triggers@[j].reference.spec_ix() < ir.outputs@.len(),
                forall|o: int|
                    0 <= o < trigger_of_output@.len() ==> match #[trigger] trigger_of_output@[o] {
                        Some(t) => {
                            &&& t < ti
                            &&& ir.triggers@[t as int].reference == StreamReference::OutRef(
                                o as usize,
                            )
                            &&& forall|t2: int|
                                t < t2 < ti ==> (#[trigger] ir.triggers@[t2].reference)
                                    != StreamReference::OutRef(o as usize)
                        },
                        None => forall|t2: int|
                            0 <= t2 < ti ==> (#[trigger] ir.triggers@[t2].reference)
                                != StreamReference::OutRef(o as usize),
                    },
            decreases ir.triggers@.len() - ti,
        {
            let out_ix = ir.triggers[ti].reference.out_ix();
            trigger_of_output.set(out_ix, Some(ti));
            ti = ti + 1;
        }
        let statistics = Statistics::new(ir.triggers.len());
        proof {
            assert(fresh_in@ =~= Seq::new(ir.inputs@.len(), |i: int| false));
            assert(fresh_out@ =~= Seq::new(ir.outputs@.len(), |i: int| false));
            assert(statistics.per_trigger@ =~= Seq::new(ir.triggers@.len(), |i: int| 0u64));
        }
        Ok(
            Monitor {
                ir,
                cfg,
                schedule,
                cursor: 0,
                next_due: 0,
                inputs,
                outputs,
                fresh_in,
                fresh_out,
                windows,
                layers,
                trigger_of_output,
                statistics,
                started: false,
                last_time: 0,
                has_instant: false,
                current_instant: 0,
                instants: Ghost(Seq::empty()),
            },
        )
    }
}


impl Monitor {
    /// Fires every deadline due at or before `t`, earliest first: the whole
    /// effect is the mathematical fold `spec_deadlines` of the entry state.
    #[verifier::loop_isolation(false)]
    #[verifier::rlimit(100)]
    fn fire_due_deadlines(&mut self, t: u128, emissions: &mut Vec<Emission>) -> (r: Result<
        (),
        EngineError,
    >)
        requires
            old(self).core_wf(),
            old(self).started,
            monotone(old(self).instants@),
            forall|i: int|
                0 <= i < old(self).instants@.len() ==> (#[trigger] old(self).instants@[i]) <= t,
            old(self).schedule is Some ==> forall|i: int|
                0 <= i < old(self).instants@.len() ==> (#[trigger] old(self).instants@[i]) <= old(
                    self,
                ).next_due,
            old(self).schedule is Some ==> old(self).windows_before(old(self).next_due),
            old(self).windows_before(t),
            monotone(emission_times(old(emissions)@)),
            forall|i: int|
                0 <= i < old(emissions)@.len() ==> (#[trigger] old(emissions)@[i].time) <= t,
            forall|i: int|
                0 <= i < old(emissions)@.len() ==> (#[trigger] old(emissions)@[i].trigger_ix)
                    < old(self).ir.triggers@.len(),
            old(self).schedule is Some ==> forall|i: int|
                0 <= i < old(emissions)@.len() ==> (#[trigger] old(emissions)@[i].time) <= old(
                    self,
                ).next_due,
        ensures
            final(self).core_wf(),
            final(self).started,
            final(self).ir == old(self).ir,
            final(self).cfg == old(self).cfg,
            final(self).schedule == old(self).schedule,
            final(self).layers == old(self).layers,
            final(self).trigger_of_output == old(self).trigger_of_output,
            final(self).last_time == old(self).last_time,
            monotone(final(self).instants@),
            old(self).instants@.is_prefix_of(final(self).instants@),
            forall|i: int|
                0 <= i < final(self).instants@.len() ==> (#[trigger] final(self).instants@[i]) <= t,
            final(self).windows_before(t),
            old(emissions)@.is_prefix_of(final(emissions)@),
            monotone(emission_times(final(emissions)@)),
            forall|i: int|
                0 <= i < final(emissions)@.len() ==> (#[trigger] final(emissions)@[i].time) <= t,
            forall|i: int|
                0 <= i < final(emissions)@.len() ==> (#[trigger] final(emissions)@[i].trigger_ix)
                    < old(self).ir.triggers@.len(),
            r is Ok ==> (final(self).schedule is Some ==> final(self).next_due > t),
            r matches Err(e) ==> e != EngineError::ClockMonotonicityViolation,
            match r {
                Ok(()) => spec_deadlines(
                    old(self).ir,
                    old(self).trigger_of_output@,
                    old(self).schedule,
                    old(self).step_state(),
                    t,
                ) == Ok::<(StepState, Seq<EmV>), EngineError>(
                    (
                        final(self).step_state(),
                        ems_v(final(emissions)@.skip(old(emissions)@.len() as int)),
                    ),
                ),
                Err(e) => spec_deadlines(
                    old(self).ir,
                    old(self).trigger_of_output@,
                    old(self).schedule,
                    old(self).step_state(),
                    t,
                ) == Err::<(StepState, Seq<EmV>), EngineError>(e),
            },
    {
        let ghost irg = old(self).ir;
        let ghost tro = old(self).trigger_of_output@;
        let ghost sched = old(self).schedule;
        let ghost s_init = old(self).step_state();
        let ghost entry_instants = old(self).instants@;
        let ghost entry_emissions = emissions@;
        proof {
            assert(entry_instants.is_prefix_of(self.instants@));
            assert(ems_v(emissions@.skip(entry_emissions.len() as int)) =~= Seq::<EmV>::empty());
            let r0 = spec_deadlines(irg, tro, sched, s_init, t);
            match r0 {
                Ok((sx, emsx)) => {
                    assert(Seq::<EmV>::empty() + emsx =~= emsx);
                },
                Err(_) => {},
            }
            assert(spec_prepend(ems_v(emissions@.skip(entry_emissions.len() as int)), r0) == r0);
        }
        while self.deadline_due(t)
            invariant
                self.core_wf(),
                self.ir == old(self).ir,
                self.cfg == old(self).cfg,
                self.started,
                self.last_time == old(self).last_time,
                monotone(self.instants@),
                entry_instants.is_prefix_of(self.instants@),
                forall|i: int| 0 <= i < self.instants@.len() ==> (#[trigger] self.instants@[i]) <= t,
                self.schedule is Some ==> forall|i: int|
                    0 <= i < self.instants@.len() ==> (#[trigger] self.instants@[i])
                        <= self.next_due,
                self.schedule is Some ==> self.windows_before(self.next_due),
                self.windows_before(t),
                self.schedule == old(self).schedule,
                self.layers == old(self).layers,
                self.trigger_of_output == old(self).trigger_of_output,
                entry_emissions.is_prefix_of(emissions@),
                monotone(emission_times(emissions@)),
                forall|i: int| 0 <= i < emissions@.len() ==> (#[trigger] emissions@[i].time) <= t,
                forall|i: int|
                    0 <= i < emissions@.len() ==> (#[trigger] emissions@[i].trigger_ix)
                        < self.ir.triggers@.len(),
                self.schedule is Some ==> forall|i: int|
                    0 <= i < emissions@.len() ==> (#[trigger] emissions@[i].time) <= self.next_due,
                spec_prepend(
                    ems_v(emissions@.skip(entry_emissions.len() as int)),
                    spec_deadlines(irg, tro, sched, self.step_state(), t),
                ) == spec_deadlines(irg, tro, sched, s_init, t),
            decreases (if self.next_due <= t { t - self.next_due + 1 } else { 0int }),
        {
            let ghost s_c = self.step_state();
            let time = self.next_due;
            // A new instant begins unless the previous one had this time.
            if !self.has_instant || time > self.current_instant {
                self.clear_fresh();
                self.has_instant = true;
                self.current_instant = time;
            }
            proof {
                assert(self.step_state() == spec_begin_instant(s_c, time));
            }
            let due = match &self.schedule {
                Some(s) => clone_refs(&s.deadlines[self.cursor].due),
                None => Vec::new(),
            };
            proof {
                assert(self.windows_before(time));
            }
            let ghost pre_emissions = emissions@;
            match self.eval_refs_at(&due, time, false, &mut *emissions) {
                Ok(()) => {},
                Err(e) => {
                    proof {
                        assert(spec_deadlines(irg, tro, sched, s_c, t) == Err::<
                            (StepState, Seq<EmV>),
                            EngineError,
                        >(e));
                        lemma_emissions_stay_monotone(pre_emissions, emissions@, time);
                        assert(entry_emissions.is_prefix_of(emissions@)) by {
                            assert(emissions@.subrange(0, entry_emissions.len() as int)
                                =~= pre_emissions.subrange(0, entry_emissions.len() as int));
                        }
                        assert forall|i: int|
                            0 <= i < emissions@.len() implies (#[trigger] emissions@[i].trigger_ix)
                            < self.ir.triggers@.len() by {
                            if i < pre_emissions.len() {
                                assert(emissions@[i] == pre_emissions[i]);
                            }
                        }
                    }
                    return Err(e);
                },
            }
            let ghost new_ems = ems_v(emissions@.skip(pre_emissions.len() as int));
            proof {
                lemma_emissions_stay_monotone(pre_emissions, emissions@, time);
                assert forall|i: int|
                    0 <= i < emissions@.len() implies (#[trigger] emissions@[i].trigger_ix)
                    < self.ir.triggers@.len() by {
                    if i < pre_emissions.len() {
                        assert(emissions@[i] == pre_emissions[i]);
                    }
                }
                assert(entry_emissions.is_prefix_of(emissions@)) by {
                    assert(emissions@.subrange(0, entry_emissions.len() as int)
                        =~= pre_emissions.subrange(0, entry_emissions.len() as int));
                }
            }
            proof {
                assert forall|w: int, i: int|
                    0 <= w < self.windows@.len() && 0 <= i < self.windows@[w].times@.len()
                        implies (#[trigger] self.windows@[w].times@[i]) <= t by {
                    assert(self.windows@[w].times@[i] <= time);
                }
                lemma_monotone_push(self.instants@, time, entry_instants);
                self.instants@ = self.instants@.push(time);
            }
            let ghost s_evaled = self.step_state();
            // Advance the deadline clock.
            let (pause, len) = match &self.schedule {
                Some(s) => {
                    let len = s.deadlines.len();
                    let next_cursor = if self.cursor + 1 == len {
                        0
                    } else {
                        self.cursor + 1
                    };
                    (s.deadlines[next_cursor].pause, len)
                },
                None => (1, 1),
            };
            self.cursor = if self.cursor + 1 == len {
                0
            } else {
                self.cursor + 1
            };
            self.next_due = match time.checked_add(pause) {
                Some(v) => v,
                None => {
                    proof {
                        assert(spec_deadlines(irg, tro, sched, s_c, t) == Err::<
                            (StepState, Seq<EmV>),
                            EngineError,
                        >(EngineError::ArithmeticFault));
                    }
                    return Err(EngineError::ArithmeticFault);
                },
            };
            proof {
                assert(self.step_state() == (StepState {
                    cursor: self.cursor,
                    next_due: self.next_due,
                    ..s_evaled
                }));
                assert(spec_deadlines(irg, tro, sched, s_c, t) == spec_prepend(
                    new_ems,
                    spec_deadlines(irg, tro, sched, self.step_state(), t),
                ));
                let acc_pre = ems_v(pre_emissions.skip(entry_emissions.len() as int));
                match spec_deadlines(irg, tro, sched, self.step_state(), t) {
                    Ok((sf, rest)) => {
                        assert(ems_v(emissions@.skip(entry_emissions.len() as int)) =~= acc_pre
                            + new_ems);
                        assert(ems_v(emissions@.skip(entry_emissions.len() as int)) + rest
                            =~= acc_pre + (new_ems + rest));
                    },
                    Err(_) => {},
                }
            }
        }
        proof {
            let acc = ems_v(emissions@.skip(entry_emissions.len() as int));
            assert(spec_deadlines(irg, tro, sched, self.step_state(), t) == Ok::<
                (StepState, Seq<EmV>),
                EngineError,
            >((self.step_state(), Seq::<EmV>::empty())));
            assert(acc + Seq::<EmV>::empty() =~= acc);
        }
        Ok(())
    }

    /// Parses the event's cells into the input streams at the instant `t`:
    /// the whole effect is the mathematical fold `spec_parse_cells` of the
    /// entry state.
    #[verifier::loop_isolation(false)]
    #[verifier::rlimit(100)]
    fn parse_event_cells(&mut self, t: u128, cells: &Vec<Option<String>>) -> (r: Result<
        (),
        EngineError,
    >)
        requires
            old(self).core_wf(),
            cells@.len() == old(self).ir.inputs@.len(),
            old(self).windows_before(t),
        ensures
            final(self).core_wf(),
            final(self).windows_before(t),
            final(self).ir == old(self).ir,
            final(self).cfg == old(self).cfg,
            final(self).schedule == old(self).schedule,
            final(self).cursor == old(self).cursor,
            final(self).next_due == old(self).next_due,
            final(self).started == old(self).started,
            final(self).last_time == old(self).last_time,
            final(self).has_instant == old(self).has_instant,
            final(self).current_instant == old(self).current_instant,
            final(self).instants == old(self).instants,
            final(self).layers == old(self).layers,
            final(self).trigger_of_output == old(self).trigger_of_output,
            final(self).statistics == old(self).statistics,
            r matches Err(e) ==> e != EngineError::ClockMonotonicityViolation,
            match r {
                Ok(()) => spec_parse_cells(
                    old(self).ir,
                    old(self).cfg.strict,
                    old(self).step_state(),
                    cells@,
                    t,
                    cells@.len() as int,
                ) == Ok::<StepState, EngineError>(final(self).step_state()),
                Err(e) => spec_parse_cells(
                    old(self).ir,
                    old(self).cfg.strict,
                    old(self).step_state(),
                    cells@,
                    t,
                    cells@.len() as int,
                ) == Err::<StepState, EngineError>(e),
            },
    {
        let ghost irg = old(self).ir;
        let ghost strict = old(self).cfg.strict;
        let ghost s_ev = old(self).step_state();
        let n_in = self.inputs.len();
        let mut ci: usize = 0;
        while ci < n_in
            invariant
                self.core_wf(),
                self.ir == old(self).ir,
                self.cfg == old(self).cfg,
                n_in == self.inputs@.len(),
                cells@.len() == self.ir.inputs@.len(),
                0 <= ci <= n_in,
                self.windows_before(t),
                self.schedule == old(self).schedule,
                self.cursor == old(self).cursor,
                self.next_due == old(self).next_due,
                self.started == old(self).started,
                self.last_time == old(self).last_time,
                self.has_instant == old(self).has_instant,
                self.current_instant == old(self).current_instant,
                self.instants == old(self).instants,
                self.layers == old(self).layers,
                self.trigger_of_output == old(self).trigger_of_output,
                self.statistics == old(self).statistics,
                spec_parse_cells(irg, strict, s_ev, cells@, t, ci as int) == Ok::<
                    StepState,
                    EngineError,
                >(self.step_state()),
            decreases n_in - ci,
        {
            match &cells[ci] {
                None => {},
                Some(text) => {
                    let ty = &self.ir.inputs[ci].ty;
                    let parseable = match ty {
                        crate::ir::Type::Bool => true,
                        crate::ir::Type::UInt(_) => true,
                        crate::ir::Type::Int(_) => true,
                        crate::ir::Type::Float(_) => true,
                        crate::ir::Type::String => true,
                        _ => false,
                    };
                    if !parseable {
                        proof {
                            lemma_parse_cells_err(
                                irg,
                                strict,
                                s_ev,
                                cells@,
                                t,
                                ci as int + 1,
                                cells@.len() as int,
                            );
                        }
                        return Err(EngineError::SpecLoadError);
                    }
                    match Value::try_from(text.as_str(), ty) {
                        Some(v) => {
                            self.write_stream(StreamReference::InRef(ci), v, t);
                        },
                        None => {
                            // A malformed cell: fatal when strict, absent
                            // for this tick when lenient.
                            if self.cfg.strict {
                                proof {
                                    lemma_parse_cells_err(
                                        irg,
                                        strict,
                                        s_ev,
                                        cells@,
                                        t,
                                        ci as int + 1,
                                        cells@.len() as int,
                                    );
                                }
                                return Err(EngineError::InputParseError);
                            }
                        },
                    }
                },
            }
            ci = ci + 1;
        }
        Ok(())
    }

    /// Evaluates the event-driven layers at the instant `t`, in evaluation
    /// order: the whole effect is the mathematical fold `spec_layers` of the
    /// entry state.
    #[verifier::loop_isolation(false)]
    #[verifier::rlimit(100)]
    fn eval_event_layers(&mut self, t: u128, emissions: &mut Vec<Emission>) -> (r: Result<
        (),
        EngineError,
    >)
        requires
            old(self).core_wf(),
            old(self).windows_before(t),
            monotone(emission_times(old(emissions)@)),
            forall|i: int|
                0 <= i < old(emissions)@.len() ==> (#[trigger] old(emissions)@[i].time) <= t,
            forall|i: int|
                0 <= i < old(emissions)@.len() ==> (#[trigger] old(emissions)@[i].trigger_ix)
                    < old(self).ir.triggers@.len(),
        ensures
            final(self).core_wf(),
            final(self).windows_before(t),
            final(self).ir == old(self).ir,
            final(self).cfg == old(self).cfg,
            final(self).schedule == old(self).schedule,
            final(self).cursor == old(self).cursor,
            final(self).next_due == old(self).next_due,
            final(self).started == old(self).started,
            final(self).last_time == old(self).last_time,
            final(self).has_instant == old(self).has_instant,
            final(self).current_instant == old(self).current_instant,
            final(self).instants == old(self).instants,
            final(self).layers == old(self).layers,
            final(self).trigger_of_output == old(self).trigger_of_output,
            old(emissions)@.is_prefix_of(final(emissions)@),
            monotone(emission_times(final(emissions)@)),
            forall|i: int|
                0 <= i < final(emissions)@.len() ==> (#[trigger] final(emissions)@[i].time) <= t,
            forall|i: int|
                0 <= i < final(emissions)@.len() ==> (#[trigger] final(emissions)@[i].trigger_ix)
                    < old(self).ir.triggers@.len(),
            r matches Err(e) ==> e != EngineError::ClockMonotonicityViolation,
            match r {
                Ok(()) => spec_layers(
                    old(self).ir,
                    old(self).trigger_of_output@,
                    old(self).layers@,
                    old(self).step_state(),
                    t,
                    old(self).layers@.len() as int,
                ) == Ok::<(StepState, Seq<EmV>), EngineError>(
                    (
                        final(self).step_state(),
                        ems_v(final(emissions)@.skip(old(emissions)@.len() as int)),
                    ),
                ),
                Err(e) => spec_layers(
                    old(self).ir,
                    old(self).trigger_of_output@,
                    old(self).layers@,
                    old(self).step_state(),
                    t,
                    old(self).layers@.len() as int,
                ) == Err::<(StepState, Seq<EmV>), EngineError>(e),
            },
    {
        let ghost irg = old(self).ir;
        let ghost tro = old(self).trigger_of_output@;
        let ghost layersg = old(self).layers@;
        let ghost s_parsed = old(self).step_state();
        let ghost entry_emissions = emissions@;
        let n_layers = self.layers.len();
        let mut k: usize = 0;
        proof {
            assert(ems_v(emissions@.skip(entry_emissions.len() as int)) =~= Seq::<EmV>::empty());
        }
        while k < n_layers
            invariant
                self.core_wf(),
                self.ir == old(self).ir,
                self.cfg == old(self).cfg,
                n_layers == self.layers@.len(),
                0 <= k <= n_layers,
                self.windows_before(t),
                self.schedule == old(self).schedule,
                self.cursor == old(self).cursor,
                self.next_due == old(self).next_due,
                self.started == old(self).started,
                self.last_time == old(self).last_time,
                self.has_instant == old(self).has_instant,
                self.current_instant == old(self).current_instant,
                self.instants == old(self).instants,
                self.layers == old(self).layers,
                self.trigger_of_output == old(self).trigger_of_output,
                entry_emissions.is_prefix_of(emissions@),
                monotone(emission_times(emissions@)),
                forall|i: int| 0 <= i < emissions@.len() ==> (#[trigger] emissions@[i].time) <= t,
                forall|i: int|
                    0 <= i < emissions@.len() ==> (#[trigger] emissions@[i].trigger_ix)
                        < self.ir.triggers@.len(),
                spec_layers(irg, tro, layersg, s_parsed, t, k as int) == Ok::<
                    (StepState, Seq<EmV>),
                    EngineError,
                >((self.step_state(), ems_v(emissions@.skip(entry_emissions.len() as int)))),
            decreases n_layers - k,
        {
            let ghost ems_acc = ems_v(emissions@.skip(entry_emissions.len() as int));
            let group = clone_refs(&self.layers[k]);
            let ghost pre_emissions = emissions@;
            match self.eval_refs_at(&group, t, true, &mut *emissions) {
                Ok(()) => {},
                Err(e) => {
                    proof {
                        lemma_layers_err(
                            irg,
                            tro,
                            layersg,
                            s_parsed,
                            t,
                            k as int + 1,
                            layersg.len() as int,
                        );
                        lemma_emissions_stay_monotone(pre_emissions, emissions@, t);
                        assert(entry_emissions.is_prefix_of(emissions@)) by {
                            assert(emissions@.subrange(0, entry_emissions.len() as int)
                                =~= pre_emissions.subrange(0, entry_emissions.len() as int));
                        }
                        assert forall|i: int|
                            0 <= i < emissions@.len() implies (#[trigger] emissions@[i].trigger_ix)
                            < self.ir.triggers@.len() by {
                            if i < pre_emissions.len() {
                                assert(emissions@[i] == pre_emissions[i]);
                            }
                        }
                    }
                    return Err(e);
                },
            }
            proof {
                lemma_emissions_stay_monotone(pre_emissions, emissions@, t);
                assert forall|i: int|
                    0 <= i < emissions@.len() implies (#[trigger] emissions@[i].trigger_ix)
                    < self.ir.triggers@.len() by {
                    if i < pre_emissions.len() {
                        assert(emissions@[i] == pre_emissions[i]);
                    }
                }
                assert(entry_emissions.is_prefix_of(emissions@)) by {
                    assert(emissions@.subrange(0, entry_emissions.len() as int)
                        =~= pre_emissions.subrange(0, entry_emissions.len() as int));
                }
                let new_ems = ems_v(emissions@.skip(pre_emissions.len() as int));
                assert(ems_v(emissions@.skip(entry_emissions.len() as int)) =~= ems_acc
                    + new_ems);
            }
            k = k + 1;
        }
        Ok(())
    }

    /// Advances the clock to `t` without an event: every deadline due at or
    /// before `t` fires, earliest first, exactly as it would had an event
    /// arrived at `t`, and the notifications come back. An online runner
    /// calls this when the wall clock passes a due time between events.
    /// Before the first event the deadline clock has not started and nothing
    /// is due. A time older than the last processed event is rejected, and
    /// rejected exactly then.
    #[verifier::rlimit(100)]
    pub fn advance_to(&mut self, t: u128) -> (r: Result<Vec<Emission>, EngineError>)
        requires
            old(self).wf(),
        ensures
            (old(self).started && t < old(self).last_time) <==> r == Err::<
                Vec<Emission>,
                EngineError,
            >(EngineError::ClockMonotonicityViolation),
            !old(self).started ==> (r matches Ok(es) && es@.len() == 0 && *final(self) == *old(
                self,
            )),
            r is Ok ==> {
                &&& final(self).wf()
                &&& final(self).ir == old(self).ir
                &&& final(self).cfg == old(self).cfg
                &&& final(self).started == old(self).started
                &&& old(self).instants@.is_prefix_of(final(self).instants@)
                &&& monotone(final(self).instants@)
            },
            r matches Ok(es) ==> monotone(emission_times(es@)) && (forall|i: int|
                0 <= i < es@.len() ==> (#[trigger] es@[i].time) <= t) && (forall|i: int|
                0 <= i < es@.len() ==> (#[trigger] es@[i].trigger_ix) < old(self).ir.triggers@.len()),
            old(self).started ==> match r {
                Ok(es) => spec_deadlines(
                    old(self).ir,
                    old(self).trigger_of_output@,
                    old(self).schedule,
                    old(self).step_state(),
                    t,
                ) matches Ok((s1, ems)) && final(self).step_state() == (StepState {
                    last_time: t,
                    ..s1
                }) && ems_v(es@) == ems,
                Err(e) => t >= old(self).last_time ==> spec_deadlines(
                    old(self).ir,
                    old(self).trigger_of_output@,
                    old(self).schedule,
                    old(self).step_state(),
                    t,
                ) == Err::<(StepState, Seq<EmV>), EngineError>(e),
            },
    {
        if self.started && t < self.last_time {
            return Err(EngineError::ClockMonotonicityViolation);
        }
        if !self.started {
            return Ok(Vec::new());
        }
        let mut emissions: Vec<Emission> = Vec::new();
        let ghost entry_instants = self.instants@;
        proof {
            assert forall|w: int, i: int|
                0 <= w < self.windows@.len() && 0 <= i < self.windows@[w].times@.len()
                    implies (#[trigger] self.windows@[w].times@[i]) <= t by {
                assert(self.windows@[w].times@[i] <= self.last_time);
            }
        }
        match self.fire_due_deadlines(t, &mut emissions) {
            Ok(()) => {},
            Err(e) => {
                return Err(e);
            },
        }
        self.last_time = t;
        proof {
            assert(emissions@.skip(0) =~= emissions@);
        }
        Ok(emissions)
    }

    /// Accepts one event: a timestamp and one optional textual cell per input
    /// stream (in declaration order). All deadlines due up to the event's
    /// time fire first, earliest first; a deadline at the very instant of the
    /// event fires before it. Then the event's cells are parsed and written,
    /// the event-driven layers are evaluated in order, and the triggers that
    /// fired are returned.
    ///
    /// The instants the monitor processes never decrease: an event older
    /// than its predecessor is rejected, and rejected exactly then.
    ///
    /// The whole effect — which cells are parsed and written, which outputs
    /// evaluate to which values, which windows sample them, and which
    /// notifications come back, in which order — is the mathematical step
    /// function `spec_step` of the entry state, the timestamp and the cells.
    #[verifier::loop_isolation(false)]
    #[verifier::rlimit(100)]
    pub fn accept_event(&mut self, t: u128, cells: &Vec<Option<String>>) -> (r: Result<
        Vec<Emission>,
        EngineError,
    >)
        requires
            old(self).wf(),
            cells@.len() == old(self).ir.inputs@.len(),
        ensures
            (old(self).started && t < old(self).last_time) <==> r == Err::<
                Vec<Emission>,
                EngineError,
            >(EngineError::ClockMonotonicityViolation),
            r is Ok ==> {
                &&& final(self).wf()
                &&& final(self).started
                &&& final(self).last_time == t
                &&& final(self).ir == old(self).ir
                &&& final(self).cfg == old(self).cfg
                &&& old(self).instants@.is_prefix_of(final(self).instants@)
                &&& monotone(final(self).instants@)
            },
            r matches Ok(es) ==> monotone(emission_times(es@)) && (forall|i: int|
                0 <= i < es@.len() ==> (#[trigger] es@[i].time) <= t) && (forall|i: int|
                0 <= i < es@.len() ==> (#[trigger] es@[i].trigger_ix) < old(self).ir.triggers@.len()),
            match r {
                Ok(es) => old(self).spec_step(t, cells@) == Ok::<
                    (StepState, Seq<EmV>),
                    EngineError,
                >((final(self).step_state(), ems_v(es@))),
                Err(e) => old(self).spec_step(t, cells@) == Err::<
                    (StepState, Seq<EmV>),
                    EngineError,
                >(e),
            },
    {
        let ghost irg = old(self).ir;
        let ghost tro = old(self).trigger_of_output@;
        let ghost sched = old(self).schedule;
        let ghost layersg = old(self).layers@;
        let ghost strict = old(self).cfg.strict;
        if self.started && t < self.last_time {
            return Err(EngineError::ClockMonotonicityViolation);
        }
        if !self.started {
            self.started = true;
            let pause0: Option<u128> = match &self.schedule {
                Some(s) => Some(s.deadlines[0].pause),
                None => None,
            };
            match pause0 {
                Some(p) => {
                    self.next_due = match t.checked_add(p) {
                        Some(v) => v,
                        None => {
                            proof {
                                assert(old(self).spec_step(t, cells@) == Err::<
                                    (StepState, Seq<EmV>),
                                    EngineError,
                                >(EngineError::ArithmeticFault));
                            }
                            return Err(EngineError::ArithmeticFault);
                        },
                    };
                    self.cursor = 0;
                },
                None => {},
            }
        }
        let ghost s_init = self.step_state();
        proof {
            assert(old(self).spec_step(t, cells@) == spec_step_rest(
                irg,
                tro,
                sched,
                layersg,
                strict,
                s_init,
                t,
                cells@,
            ));
        }
        let mut emissions: Vec<Emission> = Vec::new();
        let ghost entry_instants = self.instants@;
        proof {
            // The deadline catch-up starts from a state whose window samples
            // all lie at or before the clock and the next deadline.
            assert forall|w: int, i: int|
                0 <= w < self.windows@.len() && 0 <= i < self.windows@[w].times@.len()
                    implies (#[trigger] self.windows@[w].times@[i]) <= t by {
                if old(self).started {
                    assert(self.windows@[w].times@[i] <= self.last_time);
                } else {
                    assert(self.windows@[w].times@[i] <= 0);
                }
            }
            if self.schedule is Some {
                assert forall|w: int, i: int|
                    0 <= w < self.windows@.len() && 0 <= i < self.windows@[w].times@.len()
                        implies (#[trigger] self.windows@[w].times@[i]) <= self.next_due by {
                    if old(self).started {
                        assert(self.windows@[w].times@[i] <= self.last_time);
                    } else {
                        assert(self.windows@[w].times@[i] <= 0);
                    }
                }
            }
        }
        match self.fire_due_deadlines(t, &mut emissions) {
            Ok(()) => {},
            Err(e) => {
                proof {
                    assert(spec_deadlines(irg, tro, sched, s_init, t) == Err::<
                        (StepState, Seq<EmV>),
                        EngineError,
                    >(e));
                }
                return Err(e);
            },
        }
        let ghost s_dl = self.step_state();
        let ghost dl_emissions = emissions@;
        let ghost ems1 = ems_v(emissions@);
        let ghost n1 = emissions@.len();
        proof {
            assert(emissions@.skip(0) =~= emissions@);
            assert(spec_deadlines(irg, tro, sched, s_init, t) == Ok::<
                (StepState, Seq<EmV>),
                EngineError,
            >((s_dl, ems1)));
        }
        // The event itself: the record decides afresh which inputs carry a
        // value, also on a repeated timestamp.
        if !self.has_instant || t > self.current_instant {
            self.clear_fresh();
            self.has_instant = true;
            self.current_instant = t;
        } else {
            self.clear_fresh_in();
        }
        proof {
            assert(self.step_state() == spec_begin_event(s_dl, t));
        }
        self.statistics.new_event();
        let ghost s_ev = self.step_state();
        proof {
            assert(s_ev == spec_count_event(spec_begin_event(s_dl, t)));
        }
        match self.parse_event_cells(t, cells) {
            Ok(()) => {},
            Err(e) => {
                proof {
                    assert(spec_step_rest(irg, tro, sched, layersg, strict, s_init, t, cells@)
                        == Err::<(StepState, Seq<EmV>), EngineError>(e));
                }
                return Err(e);
            },
        }
        let ghost s_parsed = self.step_state();
        match self.eval_event_layers(t, &mut emissions) {
            Ok(()) => {},
            Err(e) => {
                proof {
                    assert(spec_step_rest(irg, tro, sched, layersg, strict, s_init, t, cells@)
                        == Err::<(StepState, Seq<EmV>), EngineError>(e));
                }
                return Err(e);
            },
        }
        let ghost s_run = self.step_state();
        let ghost ems2 = ems_v(emissions@.skip(n1 as int));
        proof {
            lemma_monotone_push(self.instants@, t, entry_instants);
            self.instants@ = self.instants@.push(t);
        }
        self.last_time = t;
        proof {
            assert(self.step_state() == (StepState { last_time: t, ..s_run }));
            assert(emissions@.take(n1 as int) =~= dl_emissions);
            assert(ems_v(emissions@) =~= ems1 + ems2);
            assert(spec_step_rest(irg, tro, sched, layersg, strict, s_init, t, cells@) == Ok::<
                (StepState, Seq<EmV>),
                EngineError,
            >((self.step_state(), ems_v(emissions@))));
        }
        Ok(emissions)
    }
}

} // verus!
