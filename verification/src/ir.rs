//! The intermediate representation of a specification, as the engine consumes
//! it: streams with resolved types and memory bounds, expression trees,
//! time-driven and event-driven stream lists, sliding windows and triggers.

use vstd::prelude::*;

verus! {

/// Bit widths of signed integer stream types.
#[derive(Debug, Clone, Copy, PartialEq, Eq, Structural)]
pub enum IntTy {
    I8,
    I16,
    I32,
    I64,
}

/// Bit widths of unsigned integer stream types.
#[derive(Debug, Clone, Copy, PartialEq, Eq, Structural)]
pub enum UIntTy {
    U8,
    U16,
    U32,
    U64,
}

/// Bit widths of floating-point stream types.
#[derive(Debug, Clone, Copy, PartialEq, Eq, Structural)]
pub enum FloatTy {
    F32,
    F64,
}

/// A value type of a stream or an expression.
#[derive(Debug, PartialEq, Eq)]
pub enum Type {
    Bool,
    Int(IntTy),
    UInt(UIntTy),
    Float(FloatTy),
    String,
    Tuple(Vec<Type>),
    /// An optional value type, as the result of an offset lookup.
    Option(Box<Type>),
    /// The type of a function; resolves ambiguities in polymorphic calls.
    Function(Vec<Type>, Box<Type>),
}

/// The size of a value in bytes.
#[derive(Debug, Clone, Copy, PartialEq, Eq, Structural)]
pub struct ValSize(pub u32);

impl ValSize {
    /// The combined size of two values laid side by side.
    pub fn add(self, rhs: ValSize) -> (r: ValSize)
        requires
            self.0 + rhs.0 <= u32::MAX,
        ensures
            r.0 == self.0 + rhs.0,
    {
        ValSize(self.0 + rhs.0)
    }
}

impl From<u8> for ValSize {
    /// A byte count is a size.
    fn from(val: u8) -> (r: ValSize)
        ensures
            r == ValSize(val as u32),
    {
        ValSize(val as u32)
    }
}

impl vstd::std_specs::convert::FromSpecImpl<u8> for ValSize {
    open spec fn obeys_from_spec() -> bool {
        true
    }

    open spec fn from_spec(val: u8) -> ValSize {
        ValSize(val as u32)
    }
}

/// How many past values of a stream must stay readable.
#[derive(Debug, Clone, Copy, PartialEq, Eq, Structural)]
pub enum MemorizationBound {
    /// Every value since the start of the run stays readable.
    Unbounded,
    /// Only the given number of most recent values stay readable.
    Bounded(u16),
}

impl MemorizationBound {
    /// The bound of a `Bounded` value.
    pub fn unwrap(self) -> (r: u16)
        requires
            self is Bounded,
        ensures
            self == MemorizationBound::Bounded(r),
    {
        match self {
            MemorizationBound::Bounded(b) => b,
            MemorizationBound::Unbounded => 0,
        }
    }

    /// The bound of a `Bounded` value, or `dft` when unbounded.
    pub fn unwrap_or(self, dft: u16) -> (r: u16)
        ensures
            self is Bounded ==> self == MemorizationBound::Bounded(r),
            self is Unbounded ==> r == dft,
    {
        match self {
            MemorizationBound::Bounded(b) => b,
            MemorizationBound::Unbounded => dft,
        }
    }

    /// The bound of a `Bounded` value as an optional number.
    pub fn as_opt(self) -> (r: Option<u16>)
        ensures
            match self {
                MemorizationBound::Bounded(b) => r == Some(b),
                MemorizationBound::Unbounded => r is None,
            },
    {
        match self {
            MemorizationBound::Bounded(b) => Some(b),
            MemorizationBound::Unbounded => None,
        }
    }
}

impl PartialOrd for MemorizationBound {
    /// Bounds compare by their number; `Unbounded` is above every bound and
    /// incomparable to itself.
    fn partial_cmp(&self, other: &Self) -> (r: Option<core::cmp::Ordering>) {
        match (self, other) {
            (MemorizationBound::Unbounded, MemorizationBound::Unbounded) => None,
            (MemorizationBound::Bounded(_), MemorizationBound::Unbounded) => Some(
                core::cmp::Ordering::Less,
            ),
            (MemorizationBound::Unbounded, MemorizationBound::Bounded(_)) => Some(
                core::cmp::Ordering::Greater,
            ),
            (MemorizationBound::Bounded(b1), MemorizationBound::Bounded(b2)) => if b1 < b2 {
                Some(core::cmp::Ordering::Less)
            } else if b1 == b2 {
                Some(core::cmp::Ordering::Equal)
            } else {
                Some(core::cmp::Ordering::Greater)
            },
        }
    }
}

impl vstd::std_specs::cmp::PartialOrdSpecImpl for MemorizationBound {
    open spec fn obeys_partial_cmp_spec() -> bool {
        true
    }

    open spec fn partial_cmp_spec(&self, other: &Self) -> Option<core::cmp::Ordering> {
        match (*self, *other) {
            (MemorizationBound::Unbounded, MemorizationBound::Unbounded) => None,
            (MemorizationBound::Bounded(_), MemorizationBound::Unbounded) => Some(
                core::cmp::Ordering::Less,
            ),
            (MemorizationBound::Unbounded, MemorizationBound::Bounded(_)) => Some(
                core::cmp::Ordering::Greater,
            ),
            (MemorizationBound::Bounded(b1), MemorizationBound::Bounded(b2)) => if b1 < b2 {
                Some(core::cmp::Ordering::Less)
            } else if b1 == b2 {
                Some(core::cmp::Ordering::Equal)
            } else {
                Some(core::cmp::Ordering::Greater)
            },
        }
    }
}

/// A reference to a stream of the specification. Input and output streams
/// index two separate lists; the two kinds never compare by bare index.
#[derive(Debug, Clone, Copy, Hash, PartialEq, Eq, Structural)]
pub enum StreamReference {
    InRef(usize),
    OutRef(usize),
}

impl StreamReference {
    /// The bare index, at the specification level.
    pub open spec fn spec_ix(self) -> int {
        match self {
            StreamReference::InRef(ix) => ix as int,
            StreamReference::OutRef(ix) => ix as int,
        }
    }

    /// The index of an output reference.
    pub fn out_ix(&self) -> (r: usize)
        requires
            self is OutRef,
        ensures
            *self == StreamReference::OutRef(r),
    {
        match self {
            StreamReference::InRef(_) => 0,
            StreamReference::OutRef(ix) => *ix,
        }
    }

    /// The index of an input reference.
    pub fn in_ix(&self) -> (r: usize)
        requires
            self is InRef,
        ensures
            *self == StreamReference::InRef(r),
    {
        match self {
            StreamReference::OutRef(_) => 0,
            StreamReference::InRef(ix) => *ix,
        }
    }

    /// The bare index, forgetting which kind of stream it names.
    pub fn ix_unchecked(&self) -> (r: usize)
        ensures
            *self == StreamReference::InRef(r) || *self == StreamReference::OutRef(r),
    {
        match self {
            StreamReference::InRef(ix) | StreamReference::OutRef(ix) => *ix,
        }
    }
}

/// A reference to a sliding-window instance.
#[derive(Debug, Clone, Copy, PartialEq, Eq, Structural)]
pub struct WindowReference {
    pub ix: usize,
}

/// What a dependent stream needs retained of the stream it tracks.
#[derive(Debug, Clone, Copy, PartialEq)]
pub enum Tracking {
    /// Every value of the tracked stream stays.
    All(StreamReference),
    /// The last `num` values stay, one per `rate` nanoseconds.
    Bounded { trackee: StreamReference, num: u128, rate: u128 },
}

/// An offset in a lookup expression.
#[derive(Debug, Clone, Copy, PartialEq)]
pub enum Offset {
    /// A strictly positive discrete offset.
    FutureDiscreteOffset(u128),
    /// A non-negative discrete offset into the past.
    PastDiscreteOffset(u128),
    /// A positive real-time offset, in nanoseconds.
    FutureRealTimeOffset(u128),
    /// A non-negative real-time offset into the past, in nanoseconds.
    PastRealTimeOffset(u128),
}

/// The aggregation applied over a sliding window.
#[derive(Debug, Clone, Copy, PartialEq, Eq, Structural)]
pub enum WindowOperation {
    Sum,
    Product,
    Average,
    Count,
    Integral,
}

/// Arithmetic, logical and comparison operators of expressions.
#[derive(Debug, Clone, Copy, PartialEq, Eq, Structural)]
pub enum ArithLogOp {
    Not,
    Neg,
    Add,
    Sub,
    Mul,
    Div,
    Rem,
    Pow,
    And,
    Or,
    Eq,
    Lt,
    Le,
    Ne,
    Ge,
    Gt,
}

/// A constant value in an expression. A float constant carries the bit
/// pattern of its IEEE 754 double representation.
#[derive(Debug, PartialEq)]
pub enum Constant {
    Str(String),
    Bool(bool),
    UInt(u128),
    Int(i128),
    Float(u64),
}

/// The activation condition of an event-driven output: which inputs must have
/// arrived in the current event for the output to fire.
#[derive(Debug, PartialEq)]
pub enum Activation {
    /// Fires when all conditions fire.
    Conj(Vec<Activation>),
    /// Fires when any condition fires.
    Disj(Vec<Activation>),
    /// Fires when the named input carries a value.
    Stream(StreamReference),
    /// Always fires.
    True,
}

/// An expression tree of the intermediate representation.
#[derive(Debug, PartialEq)]
pub enum Expression {
    /// A literal value.
    LoadConstant(Constant),
    /// An operator applied to evaluated arguments, with its monomorphic type.
    ArithLog(ArithLogOp, Vec<Expression>, Type),
    /// A lookup of another stream at a past offset; yields no value when the
    /// offset reaches before the start of the run, which a surrounding
    /// `Default` converts.
    OffsetLookup { target: StreamReference, offset: Offset },
    /// A lookup of the most recent value another stream ever produced.
    SampleAndHoldStreamLookup(StreamReference),
    /// A lookup of another stream at the current instant.
    SyncStreamLookup(StreamReference),
    /// The aggregated value of a sliding window at the current instant.
    WindowLookup(WindowReference),
    /// An if-then-else; only the chosen branch is evaluated.
    Ite { condition: Box<Expression>, consequence: Box<Expression>, alternative: Box<Expression> },
    /// A tuple of evaluated components.
    Tuple(Vec<Expression>),
    /// A call of a named built-in function, with its monomorphic type.
    Function(String, Vec<Expression>, Type),
    /// A conversion between numeric types.
    Convert { from: Type, to: Type, expr: Box<Expression> },
    /// Replaces the missing value of an offset lookup by a default.
    Default { expr: Box<Expression>, default: Box<Expression> },
}

/// An input stream: an external observation.
#[derive(Debug, Clone, PartialEq)]
pub struct InputStream {
    pub name: String,
    pub ty: Type,
    pub dependent_streams: Vec<Tracking>,
    pub dependent_windows: Vec<WindowReference>,
    pub layer: u32,
    pub memory_bound: MemorizationBound,
    pub reference: StreamReference,
}

/// An output stream: a derived expression.
#[derive(Debug, Clone, PartialEq)]
pub struct OutputStream {
    pub name: String,
    pub ty: Type,
    pub expr: Expression,
    pub input_dependencies: Vec<StreamReference>,
    pub outgoing_dependencies: Vec<Dependency>,
    pub dependent_streams: Vec<Tracking>,
    pub dependent_windows: Vec<WindowReference>,
    pub memory_bound: MemorizationBound,
    pub layer: u32,
    pub reference: StreamReference,
    pub ac: Option<Activation>,
}

/// A stream that fires periodically, every `extend_rate` nanoseconds.
#[derive(Debug, Clone, Copy, PartialEq, Eq, Structural)]
pub struct TimeDrivenStream {
    pub reference: StreamReference,
    pub extend_rate: u128,
}

/// A stream that fires with the events that carry its dependencies.
#[derive(Debug, Clone, Copy, PartialEq, Eq, Structural)]
pub struct EventDrivenStream {
    pub reference: StreamReference,
}

/// A trigger: a Boolean output whose true value produces a notification.
#[derive(Debug, Clone, PartialEq)]
pub struct Trigger {
    pub message: Option<String>,
    pub reference: StreamReference,
}

/// A dependency of one stream on another, with the offsets it uses.
#[derive(Debug, Clone, PartialEq)]
pub struct Dependency {
    pub stream: StreamReference,
    pub offsets: Vec<Offset>,
}

/// An instance of a sliding window.
#[derive(Debug, Clone, PartialEq)]
pub struct SlidingWindow {
    pub target: StreamReference,
    /// Window length in nanoseconds.
    pub duration: u128,
    pub op: WindowOperation,
    pub reference: WindowReference,
    pub ty: Type,
}

/// A language feature that a specification requires of its back end.
#[derive(Debug, Clone, Copy, PartialEq, Eq, Structural)]
pub enum FeatureFlag {
    DiscreteFutureOffset,
    RealTimeOffset,
    RealTimeFutureOffset,
    SlidingWindows,
    DiscreteWindows,
    UnboundedMemory,
}

/// A back end that evaluates lowered specifications: it names the language
/// features it supports, so that a specification demanding more is rejected.
pub trait LolaBackend {
    fn supported_feature_flags() -> Vec<FeatureFlag>;
}

/// Any kind of stream, input or output.
pub trait Stream {
    /// The evaluation layer, as a specification-level number.
    spec fn spec_layer(&self) -> u32;

    /// Whether this is an input stream, as a specification-level fact.
    spec fn spec_is_input(&self) -> bool;

    /// The memory bound, as a specification-level value.
    spec fn spec_memory_bound(&self) -> MemorizationBound;

    /// The stream's own reference, as a specification-level value.
    spec fn spec_reference(&self) -> StreamReference;

    fn eval_layer(&self) -> (r: u32)
        ensures
            r == self.spec_layer(),
    ;

    fn is_input(&self) -> (r: bool)
        ensures
            r == self.spec_is_input(),
    ;

    fn values_to_memorize(&self) -> (r: MemorizationBound)
        ensures
            r == self.spec_memory_bound(),
    ;

    fn as_stream_ref(&self) -> (r: StreamReference)
        ensures
            r == self.spec_reference(),
    ;
}

impl Stream for InputStream {
    open spec fn spec_layer(&self) -> u32 {
        self.layer
    }

    open spec fn spec_is_input(&self) -> bool {
        true
    }

    open spec fn spec_memory_bound(&self) -> MemorizationBound {
        self.memory_bound
    }

    open spec fn spec_reference(&self) -> StreamReference {
        self.reference
    }

    fn eval_layer(&self) -> u32 {
        self.layer
    }

    fn is_input(&self) -> bool {
        true
    }

    fn values_to_memorize(&self) -> MemorizationBound {
        self.memory_bound
    }

    fn as_stream_ref(&self) -> StreamReference {
        self.reference
    }
}

impl Stream for OutputStream {
    open spec fn spec_layer(&self) -> u32 {
        self.layer
    }

    open spec fn spec_is_input(&self) -> bool {
        false
    }

    open spec fn spec_memory_bound(&self) -> MemorizationBound {
        self.memory_bound
    }

    open spec fn spec_reference(&self) -> StreamReference {
        self.reference
    }

    fn eval_layer(&self) -> u32 {
        self.layer
    }

    fn is_input(&self) -> bool {
        false
    }

    fn values_to_memorize(&self) -> MemorizationBound {
        self.memory_bound
    }

    fn as_stream_ref(&self) -> StreamReference {
        self.reference
    }
}

/// The intermediate representation of one specification.
#[derive(Debug, Clone, PartialEq)]
pub struct LolaIR {
    /// All input streams.
    pub inputs: Vec<InputStream>,
    /// All output streams.
    pub outputs: Vec<OutputStream>,
    /// References to all time-driven streams.
    pub time_driven: Vec<TimeDrivenStream>,
    /// References to all event-driven streams.
    pub event_driven: Vec<EventDrivenStream>,
    /// All sliding windows.
    pub sliding_windows: Vec<SlidingWindow>,
    /// All triggers.
    pub triggers: Vec<Trigger>,
    /// The features this specification requires.
    pub feature_flags: Vec<FeatureFlag>,
}

impl LolaIR {
    /// The references of all input streams, in declaration order.
    pub fn input_refs(&self) -> (r: Vec<StreamReference>)
        ensures
            r@ == Seq::new(self.inputs@.len(), |i: int| self.inputs@[i].reference),
    {
        let mut refs: Vec<StreamReference> = Vec::new();
        let mut i: usize = 0;
        while i < self.inputs.len()
            invariant
                0 <= i <= self.inputs@.len(),
                refs@ == Seq::new(i as nat, |j: int| self.inputs@[j].reference),
            decreases self.inputs@.len() - i,
        {
            refs.push(self.inputs[i].reference);
            proof {
                assert(refs@ =~= Seq::new(i as nat + 1, |j: int| self.inputs@[j].reference));
            }
            i = i + 1;
        }
        refs
    }

    /// The references of all output streams, in declaration order.
    pub fn output_refs(&self) -> (r: Vec<StreamReference>)
        ensures
            r@ == Seq::new(self.outputs@.len(), |i: int| self.outputs@[i].reference),
    {
        let mut refs: Vec<StreamReference> = Vec::new();
        let mut i: usize = 0;
        while i < self.outputs.len()
            invariant
                0 <= i <= self.outputs@.len(),
                refs@ == Seq::new(i as nat, |j: int| self.outputs@[j].reference),
            decreases self.outputs@.len() - i,
        {
            refs.push(self.outputs[i].reference);
            proof {
                assert(refs@ =~= Seq::new(i as nat + 1, |j: int| self.outputs@[j].reference));
            }
            i = i + 1;
        }
        refs
    }

    /// The input stream that an input reference names.
    pub fn get_in(&self, reference: StreamReference) -> (r: &InputStream)
        requires
            reference is InRef,
            reference.spec_ix() < self.inputs@.len(),
        ensures
            *r == self.inputs@[reference.spec_ix() as int],
    {
        match reference {
            StreamReference::InRef(ix) => &self.inputs[ix],
            StreamReference::OutRef(_) => &self.inputs[0],
        }
    }

    /// The output stream that an output reference names.
    pub fn get_out(&self, reference: StreamReference) -> (r: &OutputStream)
        requires
            reference is OutRef,
            reference.spec_ix() < self.outputs@.len(),
        ensures
            *r == self.outputs@[reference.spec_ix() as int],
    {
        match reference {
            StreamReference::InRef(_) => &self.outputs[0],
            StreamReference::OutRef(ix) => &self.outputs[ix],
        }
    }

    /// The references of all streams: inputs first, then outputs.
    pub fn all_streams(&self) -> (r: Vec<StreamReference>)
        ensures
            r@ == Seq::new(self.inputs@.len(), |i: int| self.inputs@[i].reference) + Seq::new(
                self.outputs@.len(),
                |i: int| self.outputs@[i].reference,
            ),
    {
        let mut refs = self.input_refs();
        let mut out_refs = self.output_refs();
        refs.append(&mut out_refs);
        refs
    }

    /// The output streams the triggers refer to, in trigger order.
    pub fn get_triggers(&self) -> (r: Vec<&OutputStream>)
        requires
            self.trigger_refs_valid(),
        ensures
            r@.len() == self.triggers@.len(),
            forall|i: int|
                0 <= i < r@.len() ==> *#[trigger] r@[i] == self.outputs@[self.triggers@[i].reference.spec_ix()
                    as int],
    {
        let mut streams: Vec<&OutputStream> = Vec::new();
        let mut i: usize = 0;
        while i < self.triggers.len()
            invariant
                0 <= i <= self.triggers@.len(),
                self.trigger_refs_valid(),
                streams@.len() == i,
                forall|j: int|
                    0 <= j < i ==> *#[trigger] streams@[j] == self.outputs@[self.triggers@[j].reference.spec_ix()
                        as int],
            decreases self.triggers@.len() - i,
        {
            streams.push(self.get_out(self.triggers[i].reference));
            i = i + 1;
        }
        streams
    }

    /// The output streams that fire with events, in list order.
    pub fn get_event_driven(&self) -> (r: Vec<&OutputStream>)
        requires
            self.event_driven_refs_valid(),
        ensures
            r@.len() == self.event_driven@.len(),
            forall|i: int|
                0 <= i < r@.len() ==> *#[trigger] r@[i] == self.outputs@[self.event_driven@[i].reference.spec_ix()
                    as int],
    {
        let mut streams: Vec<&OutputStream> = Vec::new();
        let mut i: usize = 0;
        while i < self.event_driven.len()
            invariant
                0 <= i <= self.event_driven@.len(),
                self.event_driven_refs_valid(),
                streams@.len() == i,
                forall|j: int|
                    0 <= j < i ==> *#[trigger] streams@[j] == self.outputs@[self.event_driven@[j].reference.spec_ix()
                        as int],
            decreases self.event_driven@.len() - i,
        {
            streams.push(self.get_out(self.event_driven[i].reference));
            i = i + 1;
        }
        streams
    }

    /// The output streams that fire periodically, in list order.
    pub fn get_time_driven(&self) -> (r: Vec<&OutputStream>)
        requires
            self.time_driven_refs_valid(),
        ensures
            r@.len() == self.time_driven@.len(),
            forall|i: int|
                0 <= i < r@.len() ==> *#[trigger] r@[i] == self.outputs@[self.time_driven@[i].reference.spec_ix()
                    as int],
    {
        let mut streams: Vec<&OutputStream> = Vec::new();
        let mut i: usize = 0;
        while i < self.time_driven.len()
            invariant
                0 <= i <= self.time_driven@.len(),
                self.time_driven_refs_valid(),
                streams@.len() == i,
                forall|j: int|
                    0 <= j < i ==> *#[trigger] streams@[j] == self.outputs@[self.time_driven@[j].reference.spec_ix()
                        as int],
            decreases self.time_driven@.len() - i,
        {
            streams.push(self.get_out(self.time_driven[i].reference));
            i = i + 1;
        }
        streams
    }

    /// The sliding window a window reference names.
    pub fn get_window(&self, window: WindowReference) -> (r: &SlidingWindow)
        requires
            window.ix < self.sliding_windows@.len(),
        ensures
            *r == self.sliding_windows@[window.ix as int],
    {
        &self.sliding_windows[window.ix]
    }

    /// All trigger references name outputs in bounds.
    pub open spec fn trigger_refs_valid(&self) -> bool {
        forall|i: int|
            0 <= i < self.triggers@.len() ==> (#[trigger] self.triggers@[i].reference) is OutRef
                && self.triggers@[i].reference.spec_ix() < self.outputs@.len()
    }

    /// All event-driven references name outputs in bounds.
    pub open spec fn event_driven_refs_valid(&self) -> bool {
        forall|i: int|
            0 <= i < self.event_driven@.len() ==> (#[trigger] self.event_driven@[i].reference) is OutRef
                && self.event_driven@[i].reference.spec_ix() < self.outputs@.len()
    }

    /// All time-driven references name outputs in bounds.
    pub open spec fn time_driven_refs_valid(&self) -> bool {
        forall|i: int|
            0 <= i < self.time_driven@.len() ==> (#[trigger] self.time_driven@[i].reference) is OutRef
                && self.time_driven@[i].reference.spec_ix() < self.outputs@.len()
    }

    /// One event-driven entry per stream.
    pub open spec fn event_driven_refs_distinct(&self) -> bool {
        forall|i: int, j: int|
            0 <= i < j < self.event_driven@.len() ==> (
            #[trigger] self.event_driven@[i].reference) != (
            #[trigger] self.event_driven@[j].reference)
    }
}

/// The list names no stream twice.
pub open spec fn no_dups(s: Seq<StreamReference>) -> bool {
    forall|i: int, j: int| 0 <= i < j < s.len() ==> s[i] != s[j]
}

/// A list that names no stream twice and not the pushed one still names no
/// stream twice after the push.
pub proof fn lemma_no_dups_push(s: Seq<StreamReference>, x: StreamReference)
    requires
        no_dups(s),
        !s.contains(x),
    ensures
        no_dups(s.push(x)),
{
    assert forall|i: int, j: int| 0 <= i < j < s.push(x).len() implies s.push(x)[i] != s.push(
        x,
    )[j] by {
        if j < s.len() {
            assert(s.push(x)[i] == s[i] && s.push(x)[j] == s[j]);
        } else {
            assert(s.push(x)[j] == x);
            assert(s.push(x)[i] == s[i]);
            if s[i] == x {
                assert(s.contains(x));
            }
        }
    }
}

/// The byte size of a value of type `t`; meaningful only for sized types.
pub open spec fn spec_size(t: Type) -> nat
    decreases t,
{
    match t {
        Type::Bool => 1,
        Type::Int(IntTy::I8) => 1,
        Type::Int(IntTy::I16) => 2,
        Type::Int(IntTy::I32) => 4,
        Type::Int(IntTy::I64) => 8,
        Type::UInt(UIntTy::U8) => 1,
        Type::UInt(UIntTy::U16) => 2,
        Type::UInt(UIntTy::U32) => 4,
        Type::UInt(UIntTy::U64) => 8,
        Type::Float(FloatTy::F32) => 4,
        Type::Float(FloatTy::F64) => 8,
        Type::Tuple(ts) => spec_size_sum(ts@, ts@.len() as int),
        _ => 0,
    }
}

/// The summed byte size of the first `n` types of a sequence.
pub open spec fn spec_size_sum(ts: Seq<Type>, n: int) -> nat
    decreases ts, n,
        when n <= ts.len()
{
    if n <= 0 {
        0
    } else {
        spec_size_sum(ts, n - 1) + spec_size(ts[n - 1])
    }
}

/// Whether a type has a well-defined byte size: scalars do, and tuples of
/// sized types do.
pub open spec fn spec_sized(t: Type) -> bool
    decreases t,
{
    match t {
        Type::Bool => true,
        Type::Int(_) => true,
        Type::UInt(_) => true,
        Type::Float(_) => true,
        Type::Tuple(ts) => spec_all_sized(ts@, ts@.len() as int),
        _ => false,
    }
}

/// Whether the first `n` types of a sequence are all sized.
pub open spec fn spec_all_sized(ts: Seq<Type>, n: int) -> bool
    decreases ts, n,
        when n <= ts.len()
{
    if n <= 0 {
        true
    } else {
        spec_all_sized(ts, n - 1) && spec_sized(ts[n - 1])
    }
}

/// Partial size sums grow with their length.
proof fn lemma_size_sum_le(ts: Seq<Type>, i: int, n: int)
    requires
        0 <= i <= n <= ts.len(),
    ensures
        spec_size_sum(ts, i) <= spec_size_sum(ts, n),
    decreases n - i,
{
    if i < n {
        lemma_size_sum_le(ts, i, n - 1);
    }
}

/// Sums the byte sizes of a list of sized types.
fn size_sum_vec(ts: &Vec<Type>) -> (r: u32)
    requires
        spec_all_sized(ts@, ts@.len() as int),
        spec_size_sum(ts@, ts@.len() as int) <= u32::MAX,
    ensures
        r == spec_size_sum(ts@, ts@.len() as int),
    decreases ts@,
{
    let mut total: u32 = 0;
    let mut i: usize = 0;
    while i < ts.len()
        invariant
            0 <= i <= ts@.len(),
            spec_all_sized(ts@, ts@.len() as int),
            spec_size_sum(ts@, ts@.len() as int) <= u32::MAX,
            total == spec_size_sum(ts@, i as int),
        decreases ts@.len() - i,
    {
        proof {
            lemma_all_sized_at(ts@, i as int, ts@.len() as int);
            lemma_size_sum_le(ts@, i as int + 1, ts@.len() as int);
        }
        let elem = match (&ts[i]).size() {
            Some(v) => v,
            None => ValSize(0),
        };
        total = total + elem.0;
        i = i + 1;
    }
    total
}

impl Type {
    /// The byte size of a value of this type: defined for scalars and tuples
    /// of them, and `None` for a function type, which occupies no storage.
    pub fn size(&self) -> (r: Option<ValSize>)
        requires
            spec_sized(*self) || *self is Function,
            spec_size(*self) <= u32::MAX,
        ensures
            spec_sized(*self) ==> r == Some(ValSize(spec_size(*self) as u32)),
            *self is Function ==> r is None,
        decreases *self,
    {
        match self {
            Type::Bool => Some(ValSize(1)),
            Type::Int(IntTy::I8) => Some(ValSize(1)),
            Type::Int(IntTy::I16) => Some(ValSize(2)),
            Type::Int(IntTy::I32) => Some(ValSize(4)),
            Type::Int(IntTy::I64) => Some(ValSize(8)),
            Type::UInt(UIntTy::U8) => Some(ValSize(1)),
            Type::UInt(UIntTy::U16) => Some(ValSize(2)),
            Type::UInt(UIntTy::U32) => Some(ValSize(4)),
            Type::UInt(UIntTy::U64) => Some(ValSize(8)),
            Type::Float(FloatTy::F32) => Some(ValSize(4)),
            Type::Float(FloatTy::F64) => Some(ValSize(8)),
            Type::Tuple(ts) => {
                proof {
                    lemma_size_sum_le(ts@, 0, 0);
                }
                Some(ValSize(size_sum_vec(ts)))
            },
            Type::Option(_) => None,
            Type::String => None,
            Type::Function(_, _) => None,
        }
    }
}

/// Every position below `n` of an all-sized prefix is sized.
proof fn lemma_all_sized_at(ts: Seq<Type>, i: int, n: int)
    requires
        0 <= i < n <= ts.len(),
        spec_all_sized(ts, n),
    ensures
        spec_sized(ts[i]),
    decreases n,
{
    if i < n - 1 {
        lemma_all_sized_at(ts, i, n - 1);
    }
}


/// Whether a reference stands in the event-driven list.
pub open spec fn spec_is_event_driven(ir: &LolaIR, x: StreamReference) -> bool {
    exists|i: int| 0 <= i < ir.event_driven@.len() && (#[trigger] ir.event_driven@[i].reference)
        == x
}

/// The evaluation layer of an output reference.
pub open spec fn spec_out_layer(ir: &LolaIR, x: StreamReference) -> int {
    ir.outputs@[x.spec_ix()].layer as int
}

impl LolaIR {
    /// Groups the event-driven outputs by their evaluation layer: one group
    /// per non-empty layer, in increasing layer order; within a group the
    /// order is free. Each reference stands in exactly one place: the
    /// flattened groups are a permutation of the event-driven references.
    pub fn get_event_driven_layers(&self) -> (r: Vec<Vec<StreamReference>>)
        requires
            self.event_driven_refs_valid(),
            self.event_driven_refs_distinct(),
        ensures
            forall|k: int| 0 <= k < r@.len() ==> (#[trigger] r@[k]@).len() > 0,
            forall|k: int, x: StreamReference|
                0 <= k < r@.len() && (#[trigger] r@[k]@.contains(x)) ==> spec_is_event_driven(
                    self,
                    x,
                ),
            forall|k: int, x: StreamReference, y: StreamReference|
                0 <= k < r@.len() && #[trigger] r@[k]@.contains(x) && #[trigger] r@[k]@.contains(y)
                    ==> spec_out_layer(self, x) == spec_out_layer(self, y),
            forall|k1: int, k2: int, x: StreamReference, y: StreamReference|
                0 <= k1 < k2 < r@.len() && #[trigger] r@[k1]@.contains(x) && #[trigger] r@[k2]@.contains(
                    y,
                ) ==> spec_out_layer(self, x) < spec_out_layer(self, y),
            forall|i: int|
                0 <= i < self.event_driven@.len() ==> exists|k: int|
                    0 <= k < r@.len() && (#[trigger] r@[k]@).contains(
                        #[trigger] self.event_driven@[i].reference,
                    ),
            forall|k: int| 0 <= k < r@.len() ==> no_dups(#[trigger] r@[k]@),
            forall|k1: int, k2: int, x: StreamReference|
                0 <= k1 < k2 < r@.len() && #[trigger] r@[k1]@.contains(x) ==> !(
                #[trigger] r@[k2]@.contains(x)),
    {
        let n = self.event_driven.len();
        if n == 0 {
            return Vec::new();
        }
        // The greatest layer of any event-driven output.
        let mut max_layer: u32 = 0;
        let mut i: usize = 0;
        while i < n
            invariant
                n == self.event_driven@.len(),
                0 <= i <= n,
                self.event_driven_refs_valid(),
                forall|j: int|
                    0 <= j < i ==> spec_out_layer(self, #[trigger] self.event_driven@[j].reference)
                        <= max_layer,
            decreases n - i,
        {
            let s = self.get_out(self.event_driven[i].reference);
            if s.layer > max_layer {
                max_layer = s.layer;
            }
            i = i + 1;
        }
        let mut layers: Vec<Vec<StreamReference>> = Vec::new();
        let ghost mut group_layers: Seq<int> = Seq::empty();
        let mut l: u64 = 0;
        while l <= max_layer as u64
            invariant
                n == self.event_driven@.len(),
                self.event_driven_refs_valid(),
                self.event_driven_refs_distinct(),
                0 <= l <= max_layer as u64 + 1,
                forall|j: int|
                    0 <= j < n ==> spec_out_layer(self, #[trigger] self.event_driven@[j].reference)
                        <= max_layer,
                group_layers.len() == layers@.len(),
                forall|k: int| 0 <= k < layers@.len() ==> (#[trigger] layers@[k]@).len() > 0,
                forall|k: int| 0 <= k < layers@.len() ==> no_dups(#[trigger] layers@[k]@),
                forall|k: int| 0 <= k < group_layers.len() ==> (#[trigger] group_layers[k]) < l,
                forall|k1: int, k2: int|
                    0 <= k1 < k2 < group_layers.len() ==> (#[trigger] group_layers[k1])
                        < (#[trigger] group_layers[k2]),
                forall|k: int, x: StreamReference|
                    0 <= k < layers@.len() && (#[trigger] layers@[k]@.contains(x))
                        ==> spec_is_event_driven(self, x) && spec_out_layer(self, x)
                        == group_layers[k],
                forall|j: int|
                    0 <= j < n && spec_out_layer(self, #[trigger] self.event_driven@[j].reference)
                        < l ==> exists|k: int|
                        0 <= k < layers@.len() && (#[trigger] layers@[k]@).contains(
                            #[trigger] self.event_driven@[j].reference,
                        ),
            decreases max_layer as u64 + 1 - l,
        {
            let mut in_layer: Vec<StreamReference> = Vec::new();
            let mut j: usize = 0;
            while j < n
                invariant
                    n == self.event_driven@.len(),
                    self.event_driven_refs_valid(),
                    self.event_driven_refs_distinct(),
                    0 <= j <= n,
                    forall|x: StreamReference| #[trigger]
                        in_layer@.contains(x) ==> spec_is_event_driven(self, x) && spec_out_layer(
                            self,
                            x,
                        ) == l,
                    forall|t: int|
                        0 <= t < j && spec_out_layer(
                            self,
                            #[trigger] self.event_driven@[t].reference,
                        ) == l ==> in_layer@.contains(self.event_driven@[t].reference),
                    forall|x: StreamReference| #[trigger]
                        in_layer@.contains(x) ==> exists|t: int|
                            0 <= t < j && (#[trigger] self.event_driven@[t].reference) == x,
                    no_dups(in_layer@),
                decreases n - j,
            {
                let rref = self.event_driven[j].reference;
                let s = self.get_out(rref);
                if s.layer as u64 == l {
                    let ghost prev = in_layer@;
                    proof {
                        // A reference already collected would stand twice in
                        // the event-driven list.
                        assert(!prev.contains(rref)) by {
                            if prev.contains(rref) {
                                let t = choose|t: int|
                                    0 <= t < j && (#[trigger] self.event_driven@[t].reference)
                                        == rref;
                                assert(self.event_driven@[t].reference == self.event_driven@[
                                    j as int
                                ].reference);
                            }
                        }
                        lemma_no_dups_push(prev, rref);
                    }
                    in_layer.push(rref);
                    proof {
                        assert(in_layer@.last() == rref);
                        assert forall|x: StreamReference| #[trigger]
                            in_layer@.contains(x) implies exists|t: int|
                            0 <= t < j + 1 && (#[trigger] self.event_driven@[t].reference)
                                == x by {
                            if x == rref {
                                assert(self.event_driven@[j as int].reference == x);
                            } else {
                                let w = choose|w: int|
                                    0 <= w < in_layer@.len() && in_layer@[w] == x;
                                assert(prev[w] == x);
                                assert(prev.contains(x));
                            }
                        }
                        assert(self.event_driven@[j as int].reference == rref);
                        assert(spec_is_event_driven(self, rref));
                        assert(spec_out_layer(self, rref) == l);
                        assert forall|x: StreamReference| #[trigger]
                            in_layer@.contains(x) implies spec_is_event_driven(self, x)
                            && spec_out_layer(self, x) == l by {
                            if x == rref {
                            } else {
                                let w = choose|w: int|
                                    0 <= w < in_layer@.len() && in_layer@[w] == x;
                                assert(prev[w] == x);
                                assert(prev.contains(x));
                            }
                        }
                        assert forall|t: int|
                            0 <= t < j + 1 && spec_out_layer(
                                self,
                                #[trigger] self.event_driven@[t].reference,
                            ) == l implies in_layer@.contains(
                            self.event_driven@[t].reference,
                        ) by {
                            if t < j {
                                let x = self.event_driven@[t].reference;
                                let w = choose|w: int| 0 <= w < prev.len() && prev[w] == x;
                                assert(in_layer@[w] == x);
                            }
                        }
                    }
                } else {
                    proof {
                        assert forall|t: int|
                            0 <= t < j + 1 && spec_out_layer(
                                self,
                                #[trigger] self.event_driven@[t].reference,
                            ) == l implies in_layer@.contains(
                            self.event_driven@[t].reference,
                        ) by {
                            if t == j {
                                assert(spec_out_layer(self, self.event_driven@[t].reference)
                                    != l);
                            }
                        }
                    }
                }
                j = j + 1;
            }
            let ghost in_layer_v = in_layer@;
            let ghost prev_layers = layers@;
            let ghost prev_group_layers = group_layers;
            if in_layer.len() > 0 {
                layers.push(in_layer);
                proof {
                    group_layers = group_layers.push(l as int);
                    assert(layers@.drop_last() =~= prev_layers);
                    assert(layers@.last()@ == in_layer_v);
                    assert forall|k: int| 0 <= k < layers@.len() implies no_dups(
                        #[trigger] layers@[k]@,
                    ) by {
                        if k < prev_layers.len() {
                            assert(layers@[k]@ == prev_layers[k]@);
                        } else {
                            assert(layers@[k]@ == in_layer_v);
                        }
                    }
                }
            }
            proof {
                assert forall|k: int, x: StreamReference|
                    0 <= k < layers@.len() && (#[trigger] layers@[k]@.contains(x))
                        implies spec_is_event_driven(self, x) && spec_out_layer(self, x)
                        == group_layers[k] by {
                    if k < prev_layers.len() {
                        assert(layers@[k]@ == prev_layers[k]@);
                        assert(group_layers[k] == prev_group_layers[k]);
                    } else {
                        assert(layers@[k]@ == in_layer_v);
                        assert(group_layers[k] == l as int);
                    }
                }
                assert forall|j2: int|
                    0 <= j2 < n && spec_out_layer(
                        self,
                        #[trigger] self.event_driven@[j2].reference,
                    ) < l + 1 implies exists|k: int|
                    0 <= k < layers@.len() && (#[trigger] layers@[k]@).contains(
                        #[trigger] self.event_driven@[j2].reference,
                    ) by {
                    let x = self.event_driven@[j2].reference;
                    if spec_out_layer(self, x) < l {
                        let k = choose|k: int|
                            0 <= k < prev_layers.len() && (#[trigger] prev_layers[k]@).contains(x);
                        assert(layers@[k]@ == prev_layers[k]@);
                        assert((layers@[k]@).contains(x));
                    } else {
                        assert(in_layer_v.contains(x));
                        assert(in_layer_v.len() > 0);
                        let k = layers@.len() - 1;
                        assert((layers@[k]@).contains(x));
                    }
                }
            }
            l = l + 1;
        }
        proof {
            assert forall|i2: int| 0 <= i2 < n implies exists|k: int|
                0 <= k < layers@.len() && (#[trigger] layers@[k]@).contains(
                    #[trigger] self.event_driven@[i2].reference,
                ) by {
                assert(spec_out_layer(self, self.event_driven@[i2].reference) < l);
            }
            assert forall|k1: int, k2: int, x: StreamReference, y: StreamReference|
                0 <= k1 < k2 < layers@.len() && #[trigger] layers@[k1]@.contains(x)
                    && #[trigger] layers@[k2]@.contains(y) implies spec_out_layer(self, x)
                < spec_out_layer(self, y) by {
                assert(group_layers[k1] < group_layers[k2]);
            }
            // A reference in two groups would have two distinct layers.
            assert forall|k1: int, k2: int, x: StreamReference|
                0 <= k1 < k2 < layers@.len() && #[trigger] layers@[k1]@.contains(x) implies !(
            #[trigger] layers@[k2]@.contains(x)) by {
                if layers@[k2]@.contains(x) {
                    assert(group_layers[k1] < group_layers[k2]);
                    assert(spec_out_layer(self, x) == group_layers[k1]);
                    assert(spec_out_layer(self, x) == group_layers[k2]);
                }
            }
        }
        layers
    }
}

fn clone_type_vec(ts: &Vec<Type>) -> (r: Vec<Type>)
    decreases ts@,
{
    let mut out: Vec<Type> = Vec::new();
    let mut i: usize = 0;
    while i < ts.len()
        invariant
            0 <= i <= ts@.len(),
        decreases ts@.len() - i,
    {
        out.push(clone_type(&ts[i]));
        i = i + 1;
    }
    out
}

fn clone_type(t: &Type) -> (r: Type)
    decreases *t,
{
    match t {
        Type::Bool => Type::Bool,
        Type::Int(i) => Type::Int(*i),
        Type::UInt(u) => Type::UInt(*u),
        Type::Float(f) => Type::Float(*f),
        Type::String => Type::String,
        Type::Tuple(ts) => Type::Tuple(clone_type_vec(ts)),
        Type::Option(inner) => Type::Option(Box::new(clone_type(inner))),
        Type::Function(args, ret) => Type::Function(
            clone_type_vec(args),
            Box::new(clone_type(ret)),
        ),
    }
}

impl Clone for Type {
    fn clone(&self) -> Self {
        clone_type(self)
    }
}

fn clone_activation_vec(cs: &Vec<Activation>) -> (r: Vec<Activation>)
    decreases cs@,
{
    let mut out: Vec<Activation> = Vec::new();
    let mut i: usize = 0;
    while i < cs.len()
        invariant
            0 <= i <= cs@.len(),
        decreases cs@.len() - i,
    {
        out.push(clone_activation(&cs[i]));
        i = i + 1;
    }
    out
}

fn clone_activation(a: &Activation) -> (r: Activation)
    decreases *a,
{
    match a {
        Activation::Conj(cs) => Activation::Conj(clone_activation_vec(cs)),
        Activation::Disj(cs) => Activation::Disj(clone_activation_vec(cs)),
        Activation::Stream(s) => Activation::Stream(*s),
        Activation::True => Activation::True,
    }
}

impl Clone for Activation {
    fn clone(&self) -> Self {
        clone_activation(self)
    }
}

fn clone_constant(c: &Constant) -> (r: Constant)
    ensures
        r == *c,
{
    match c {
        Constant::Str(s) => Constant::Str(s.clone()),
        Constant::Bool(b) => Constant::Bool(*b),
        Constant::UInt(u) => Constant::UInt(*u),
        Constant::Int(i) => Constant::Int(*i),
        Constant::Float(f) => Constant::Float(*f),
    }
}

impl Clone for Constant {
    /// A clone equals the original.
    fn clone(&self) -> (r: Self)
        ensures
            r == *self,
    {
        clone_constant(self)
    }
}

fn clone_expression_vec(es: &Vec<Expression>) -> (r: Vec<Expression>)
    decreases es@,
{
    let mut out: Vec<Expression> = Vec::new();
    let mut i: usize = 0;
    while i < es.len()
        invariant
            0 <= i <= es@.len(),
        decreases es@.len() - i,
    {
        out.push(clone_expression(&es[i]));
        i = i + 1;
    }
    out
}

fn clone_expression(e: &Expression) -> (r: Expression)
    decreases *e,
{
    match e {
        Expression::LoadConstant(c) => Expression::LoadConstant(c.clone()),
        Expression::ArithLog(op, args, ty) => Expression::ArithLog(
            *op,
            clone_expression_vec(args),
            ty.clone(),
        ),
        Expression::OffsetLookup { target, offset } => Expression::OffsetLookup {
            target: *target,
            offset: *offset,
        },
        Expression::SampleAndHoldStreamLookup(s) => Expression::SampleAndHoldStreamLookup(*s),
        Expression::SyncStreamLookup(s) => Expression::SyncStreamLookup(*s),
        Expression::WindowLookup(w) => Expression::WindowLookup(*w),
        Expression::Ite { condition, consequence, alternative } => Expression::Ite {
            condition: Box::new(clone_expression(condition)),
            consequence: Box::new(clone_expression(consequence)),
            alternative: Box::new(clone_expression(alternative)),
        },
        Expression::Tuple(es) => Expression::Tuple(clone_expression_vec(es)),
        Expression::Function(name, args, ty) => Expression::Function(
            name.clone(),
            clone_expression_vec(args),
            ty.clone(),
        ),
        Expression::Convert { from, to, expr } => Expression::Convert {
            from: from.clone(),
            to: to.clone(),
            expr: Box::new(clone_expression(expr)),
        },
        Expression::Default { expr, default } => Expression::Default {
            expr: Box::new(clone_expression(expr)),
            default: Box::new(clone_expression(default)),
        },
    }
}

impl Clone for Expression {
    fn clone(&self) -> Self {
        clone_expression(self)
    }
}

} // verus!
