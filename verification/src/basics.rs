//! Run configuration, verbosity, statistics counters, and the mapping from
//! input columns to streams. Reading and printing stay outside the engine;
//! these types carry the decisions.

use vstd::prelude::*;
use crate::error::EngineError;

verus! {

/// Where the monitor's reports go.
#[derive(Debug, Clone, PartialEq)]
pub enum OutputChannel {
    StdOut,
    StdErr,
    File(String),
}

/// Where the monitor's records come from.
#[derive(Debug, Clone, PartialEq)]
pub enum InputSource {
    StdIn,
    File { path: String, reading_delay: Option<u128>, time_col: Option<usize> },
}

impl InputSource {
    /// Records come from a file, with an optional explicit time column.
    pub fn for_file(path: String, time_col: Option<usize>) -> (r: InputSource)
        ensures
            r == (InputSource::File { path, reading_delay: None::<u128>, time_col }),
    {
        InputSource::File { path, reading_delay: None, time_col }
    }

    /// Records come from a file, with a delay in nanoseconds between reads.
    pub fn with_delay(path: String, delay: u128, time_col: Option<usize>) -> (r: InputSource)
        ensures
            r == (InputSource::File { path, reading_delay: Some(delay), time_col }),
    {
        InputSource::File { path, reading_delay: Some(delay), time_col }
    }

    /// Records come from the standard input.
    pub fn stdin() -> (r: InputSource)
        ensures
            r == InputSource::StdIn,
    {
        InputSource::StdIn
    }
}

/// How much the monitor reports.
#[derive(Debug, Clone, Copy, PartialEq, Eq, Structural)]
pub enum Verbosity {
    /// Every detail of the run.
    Debug,
    /// Every output value.
    Outputs,
    /// Every trigger violation.
    Triggers,
    /// Runtime warnings only.
    WarningsOnly,
    /// Progress reports only.
    Progress,
    /// Nothing.
    Silent,
}

/// The rank of a verbosity: higher ranks say more.
pub open spec fn spec_verbosity_rank(v: Verbosity) -> int {
    match v {
        Verbosity::Debug => 5,
        Verbosity::Outputs => 4,
        Verbosity::Triggers => 3,
        Verbosity::WarningsOnly => 2,
        Verbosity::Progress => 1,
        Verbosity::Silent => 0,
    }
}

/// Whether a message of kind `kind` is printed under the configured
/// verbosity: exactly the kinds of rank at most the configured rank.
pub fn should_emit(kind: Verbosity, configured: Verbosity) -> (r: bool)
    ensures
        r == (spec_verbosity_rank(kind) <= spec_verbosity_rank(configured)),
{
    let k: u32 = match kind {
        Verbosity::Debug => 5,
        Verbosity::Outputs => 4,
        Verbosity::Triggers => 3,
        Verbosity::WarningsOnly => 2,
        Verbosity::Progress => 1,
        Verbosity::Silent => 0,
    };
    let c: u32 = match configured {
        Verbosity::Debug => 5,
        Verbosity::Outputs => 4,
        Verbosity::Triggers => 3,
        Verbosity::WarningsOnly => 2,
        Verbosity::Progress => 1,
        Verbosity::Silent => 0,
    };
    k <= c
}

/// The engine's configuration.
#[derive(Debug, Clone, PartialEq)]
pub struct EvalConfig {
    pub source: InputSource,
    pub verbosity: Verbosity,
    pub output_channel: OutputChannel,
    /// Kept for compatibility: both evaluator modes produce identical
    /// results, and this engine serves both with one evaluator.
    pub closure_based_evaluator: bool,
    /// Whether time comes from the input records rather than a wall clock.
    pub offline: bool,
    /// Whether an unparseable input cell ends the run; when lenient, the cell
    /// counts as absent for its tick.
    pub strict: bool,
}

impl EvalConfig {
    /// A configuration; parsing of input cells is lenient.
    pub fn new(
        source: InputSource,
        verbosity: Verbosity,
        output_channel: OutputChannel,
        closure_based_evaluator: bool,
        offline: bool,
    ) -> (r: EvalConfig)
        ensures
            r == (EvalConfig {
                source,
                verbosity,
                output_channel,
                closure_based_evaluator,
                offline,
                strict: false,
            }),
    {
        EvalConfig { source, verbosity, output_channel, closure_based_evaluator, offline, strict: false }
    }

    /// The same configuration with the given cell-parsing strictness.
    pub fn with_strictness(self, strict: bool) -> (r: EvalConfig)
        ensures
            r == (EvalConfig { strict, ..self }),
    {
        EvalConfig { strict, ..self }
    }
}

/// Counters of a run: events seen, triggers fired, and per-trigger counts.
/// Events and triggers count separately.
#[derive(Debug, Clone, PartialEq)]
pub struct Statistics {
    pub num_events: u64,
    pub num_triggers: u64,
    pub per_trigger: Vec<u64>,
}

impl Statistics {
    /// Fresh counters for a specification with the given number of triggers.
    pub fn new(num_trigger_streams: usize) -> (r: Statistics)
        ensures
            r.num_events == 0,
            r.num_triggers == 0,
            r.per_trigger@.len() == num_trigger_streams,
            forall|i: int| 0 <= i < num_trigger_streams ==> r.per_trigger@[i] == 0,
    {
        let mut per_trigger: Vec<u64> = Vec::new();
        let mut i: usize = 0;
        while i < num_trigger_streams
            invariant
                0 <= i <= num_trigger_streams,
                per_trigger@.len() == i,
                forall|j: int| 0 <= j < i ==> per_trigger@[j] == 0,
            decreases num_trigger_streams - i,
        {
            per_trigger.push(0);
            i = i + 1;
        }
        Statistics { num_events: 0, num_triggers: 0, per_trigger }
    }

    /// Counts one event; the count saturates at the counter's width.
    pub fn new_event(&mut self)
        ensures
            final(self).num_events == if old(self).num_events < u64::MAX {
                old(self).num_events + 1
            } else {
                old(self).num_events as int
            },
            final(self).num_triggers == old(self).num_triggers,
            final(self).per_trigger == old(self).per_trigger,
    {
        if self.num_events < u64::MAX {
            self.num_events = self.num_events + 1;
        }
    }

    /// Counts one firing of the given trigger; the counts saturate at the
    /// counter's width.
    pub fn trigger(&mut self, trigger_ix: usize)
        requires
            trigger_ix < old(self).per_trigger@.len(),
        ensures
            final(self).num_triggers == if old(self).num_triggers < u64::MAX {
                old(self).num_triggers + 1
            } else {
                old(self).num_triggers as int
            },
            final(self).per_trigger@ == old(self).per_trigger@.update(
                trigger_ix as int,
                if old(self).per_trigger@[trigger_ix as int] < u64::MAX {
                    (old(self).per_trigger@[trigger_ix as int] + 1) as u64
                } else {
                    old(self).per_trigger@[trigger_ix as int]
                },
            ),
            final(self).num_events == old(self).num_events,
            final(self).per_trigger@.len() == old(self).per_trigger@.len(),
    {
        if self.num_triggers < u64::MAX {
            self.num_triggers = self.num_triggers + 1;
        }
        let current = self.per_trigger[trigger_ix];
        if current < u64::MAX {
            self.per_trigger.set(trigger_ix, current + 1);
        } else {
            proof {
                assert(self.per_trigger@ =~= old(self).per_trigger@.update(
                    trigger_ix as int,
                    old(self).per_trigger@[trigger_ix as int],
                ));
            }
        }
    }

    /// How often the given trigger fired.
    pub fn get_num_trigger(&self, trigger_ix: usize) -> (r: u64)
        requires
            trigger_ix < self.per_trigger@.len(),
        ensures
            r == self.per_trigger@[trigger_ix as int],
    {
        self.per_trigger[trigger_ix]
    }
}

/// The mapping between input columns and input streams, read once from the
/// header of the record source.
#[derive(Debug, Clone, PartialEq)]
pub struct ColumnMapping {
    /// For each input stream, its column.
    pub str2col: Vec<usize>,
    /// For each column, its input stream, if any.
    pub col2str: Vec<Option<usize>>,
    /// The column carrying time, if any.
    pub time_ix: Option<usize>,
}

/// The stream names are pairwise distinct.
pub open spec fn spec_names_distinct(names: Seq<String>) -> bool {
    forall|i: int, j: int|
        0 <= i < j < names.len() ==> (#[trigger] names[i]@) != (#[trigger] names[j]@)
}

/// Whether the text names the time column: exactly `time`, `timestamp` or
/// `ts`.
pub open spec fn spec_is_time_name(s: Seq<char>) -> bool {
    s == "time"@ || s == "timestamp"@ || s == "ts"@
}

/// The header is usable: the names are distinct, every one names a column,
/// and an explicit time column is in range.
pub open spec fn spec_header_well_formed(
    names: Seq<String>,
    header: Seq<String>,
    explicit_time: Option<usize>,
) -> bool {
    &&& spec_names_distinct(names)
    &&& forall|i: int|
        0 <= i < names.len() ==> exists|c: int|
            0 <= c < header.len() && (#[trigger] header[c]@) == (#[trigger] names[i]@)
    &&& match explicit_time {
        Some(tc) => tc < header.len(),
        None => true,
    }
}

impl ColumnMapping {
    /// The mapping is a pair of inverse partial maps within bounds.
    pub open spec fn wf(&self) -> bool {
        &&& forall|i: int|
            0 <= i < self.str2col@.len() ==> (#[trigger] self.str2col@[i]) < self.col2str@.len()
                && self.col2str@[self.str2col@[i] as int] == Some(i as usize)
        &&& forall|c: int|
            0 <= c < self.col2str@.len() ==> match #[trigger] self.col2str@[c] {
                Some(s) => s < self.str2col@.len() && self.str2col@[s as int] == c,
                None => true,
            }
        &&& match self.time_ix {
            Some(t) => t < self.col2str@.len(),
            None => true,
        }
    }

    /// Builds the mapping from the header: every stream name must name a
    /// column; the time column is the explicit index if one is configured,
    /// else the first column named `time`, `timestamp` or `ts`.
    #[verifier::loop_isolation(false)]
    pub fn from_header(
        names: &Vec<String>,
        header: &Vec<String>,
        explicit_time: Option<usize>,
    ) -> (r: Result<ColumnMapping, EngineError>)
        ensures
            match r {
                Ok(m) => {
                    &&& m.wf()
                    &&& m.str2col@.len() == names@.len()
                    &&& m.col2str@.len() == header@.len()
                    &&& m.time_ix == explicit_time || explicit_time is None
                    &&& forall|i: int|
                        0 <= i < names@.len() ==> header@[#[trigger] m.str2col@[i] as int]@
                            == names@[i]@
                    // Each stream takes the first column bearing its name.
                    &&& forall|i: int, c: int|
                        #![trigger header@[c], m.str2col@[i]]
                        0 <= i < names@.len() && 0 <= c < m.str2col@[i] ==> header@[c]@
                            != names@[i]@
                    // Without an explicit index, the time column is the first
                    // one named `time`, `timestamp` or `ts`, or none at all.
                    &&& (explicit_time is None ==> match m.time_ix {
                        Some(c) => c < header@.len() && spec_is_time_name(header@[c as int]@)
                            && (forall|j: int|
                            0 <= j < c ==> !spec_is_time_name(#[trigger] header@[j]@)),
                        None => forall|j: int|
                            0 <= j < header@.len() ==> !spec_is_time_name(#[trigger] header@[j]@),
                    })
                },
                Err(e) => e == EngineError::SpecLoadError,
            },
            // Success is owed on a usable header.
            spec_header_well_formed(names@, header@, explicit_time) ==> (r is Ok),
    {
        let mut str2col: Vec<usize> = Vec::new();
        let mut i: usize = 0;
        while i < names.len()
            invariant
                0 <= i <= names@.len(),
                str2col@.len() == i,
                forall|j: int|
                    0 <= j < i ==> (#[trigger] str2col@[j]) < header@.len() && header@[str2col@[j] as int]@
                        == names@[j]@,
                forall|j: int, c: int|
                    #![trigger header@[c], str2col@[j]]
                    0 <= j < i && 0 <= c < str2col@[j] ==> header@[c]@ != names@[j]@,
            decreases names@.len() - i,
        {
            let mut found: Option<usize> = None;
            let mut c: usize = 0;
            while c < header.len()
                invariant
                    0 <= c <= header@.len(),
                    0 <= i < names@.len(),
                    match found {
                        Some(f) => f < header@.len() && header@[f as int]@ == names@[i as int]@
                            && (forall|k: int|
                            0 <= k < f ==> (#[trigger] header@[k]@) != names@[i as int]@),
                        None => forall|k: int| 0 <= k < c ==> (#[trigger] header@[k]@) != names@[i as int]@,
                    },
                decreases header@.len() - c,
            {
                if found.is_none() && header[c].eq(&names[i]) {
                    found = Some(c);
                }
                c = c + 1;
            }
            match found {
                Some(f) => {
                    str2col.push(f);
                },
                None => {
                    proof {
                        // No column carries this name, so the header is not
                        // usable and no success is owed.
                        assert(!spec_header_well_formed(names@, header@, explicit_time)) by {
                            if spec_header_well_formed(names@, header@, explicit_time) {
                                let w = choose|c2: int|
                                    0 <= c2 < header@.len() && (#[trigger] header@[c2]@) == (
                                    #[trigger] names@[i as int]@);
                                assert(header@[w]@ != names@[i as int]@);
                            }
                        }
                    }
                    return Err(EngineError::SpecLoadError);
                },
            }
            i = i + 1;
        }
        let mut col2str: Vec<Option<usize>> = Vec::new();
        let mut c: usize = 0;
        while c < header.len()
            invariant
                0 <= c <= header@.len(),
                col2str@.len() == c,
                str2col@.len() == names@.len(),
                forall|j: int| 0 <= j < names@.len() ==> (#[trigger] str2col@[j]) < header@.len(),
                forall|k: int|
                    0 <= k < c ==> match #[trigger] col2str@[k] {
                        Some(s) => s < str2col@.len() && str2col@[s as int] == k,
                        None => forall|s: int| 0 <= s < str2col@.len() ==> str2col@[s] != k,
                    },
            decreases header@.len() - c,
        {
            let mut owner: Option<usize> = None;
            let mut s: usize = 0;
            while s < str2col.len()
                invariant
                    0 <= s <= str2col@.len(),
                    match owner {
                        Some(o) => o < str2col@.len() && str2col@[o as int] == c,
                        None => forall|t: int| 0 <= t < s ==> str2col@[t] != c,
                    },
                decreases str2col@.len() - s,
            {
                if owner.is_none() && str2col[s] == c {
                    owner = Some(s);
                }
                s = s + 1;
            }
            col2str.push(owner);
            c = c + 1;
        }
        // A stream's column always maps back to some stream (possibly an
        // earlier one with the same name); for a well-formed header the names
        // are distinct and the maps invert each other. Reject the mapping
        // when they do not.
        let ghost distinct = spec_names_distinct(names@);
        let mut i2: usize = 0;
        while i2 < str2col.len()
            invariant
                0 <= i2 <= str2col@.len(),
                col2str@.len() == header@.len(),
                forall|j: int| 0 <= j < str2col@.len() ==> (#[trigger] str2col@[j]) < header@.len(),
                forall|k: int|
                    0 <= k < col2str@.len() ==> match #[trigger] col2str@[k] {
                        Some(s) => s < str2col@.len() && str2col@[s as int] == k,
                        None => forall|s: int| 0 <= s < str2col@.len() ==> str2col@[s] != k,
                    },
                forall|j: int|
                    0 <= j < i2 ==> col2str@[#[trigger] str2col@[j] as int] == Some(j as usize),
            decreases str2col@.len() - i2,
        {
            let col = str2col[i2];
            let back = col2str[col];
            match back {
                Some(s) => {
                    if s != i2 {
                        proof {
                            // With distinct names, two streams never share a
                            // column: the names of both equal the column's.
                            if distinct {
                                assert(header@[col as int]@ == names@[i2 as int]@);
                                assert(header@[str2col@[s as int] as int]@ == names@[s as int]@);
                                assert(names@[s as int]@ == names@[i2 as int]@);
                                assert(false);
                            }
                        }
                        return Err(EngineError::SpecLoadError);
                    }
                },
                None => {
                    proof {
                        assert(str2col@[i2 as int] == col);
                    }
                    return Err(EngineError::SpecLoadError);
                },
            }
            i2 = i2 + 1;
        }
        // The time column.
        let time_ix: Option<usize> = match explicit_time {
            Some(t) => {
                if t < header.len() {
                    Some(t)
                } else {
                    return Err(EngineError::SpecLoadError);
                }
            },
            None => {
                let mut found: Option<usize> = None;
                let mut c3: usize = 0;
                while c3 < header.len()
                    invariant
                        0 <= c3 <= header@.len(),
                        match found {
                            Some(f) => f < header@.len() && spec_is_time_name(header@[f as int]@)
                                && (forall|j: int|
                                0 <= j < f ==> !spec_is_time_name(#[trigger] header@[j]@)),
                            None => forall|j: int|
                                0 <= j < c3 ==> !spec_is_time_name(#[trigger] header@[j]@),
                        },
                    decreases header@.len() - c3,
                {
                    if found.is_none() && (is_lit_time(&header[c3]) || is_lit_timestamp(
                        &header[c3],
                    ) || is_lit_ts(&header[c3])) {
                        found = Some(c3);
                    }
                    c3 = c3 + 1;
                }
                found
            },
        };
        Ok(ColumnMapping { str2col, col2str, time_ix })
    }

    /// The input stream a column feeds, if any.
    pub fn stream_ix_for_col_ix(&self, col_ix: usize) -> (r: Option<usize>)
        requires
            col_ix < self.col2str@.len(),
        ensures
            r == self.col2str@[col_ix as int],
    {
        self.col2str[col_ix]
    }

    /// Whether the time column doubles as an input stream.
    pub fn time_is_stream(&self) -> (r: bool)
        requires
            self.wf(),
        ensures
            r == match self.time_ix {
                Some(c) => self.col2str@[c as int] is Some,
                None => false,
            },
    {
        match self.time_ix {
            None => false,
            Some(col_ix) => self.col2str[col_ix].is_some(),
        }
    }

    /// How many columns the records have.
    pub fn num_columns(&self) -> (r: usize)
        ensures
            r == self.col2str@.len(),
    {
        self.col2str.len()
    }

    /// How many input streams the mapping covers.
    pub fn num_streams(&self) -> (r: usize)
        ensures
            r == self.str2col@.len(),
    {
        self.str2col.len()
    }
}

/// Whether the text is exactly `time`.
fn is_lit_time(s: &String) -> (r: bool)
    ensures
        r == (s@ == "time"@),
{
    proof {
        reveal_strlit("time");
    }
    let t = s.as_str();
    let n = t.unicode_len();
    if n == 4 && t.get_char(0) == 't' && t.get_char(1) == 'i' && t.get_char(2) == 'm'
        && t.get_char(3) == 'e' {
        proof {
            assert(s@ =~= "time"@);
        }
        true
    } else {
        proof {
            if s@ == "time"@ {
                assert(s@.len() == 4);
                assert(s@[0] == 't' && s@[1] == 'i' && s@[2] == 'm' && s@[3] == 'e');
            }
        }
        false
    }
}

/// Whether the text is exactly `timestamp`.
fn is_lit_timestamp(s: &String) -> (r: bool)
    ensures
        r == (s@ == "timestamp"@),
{
    proof {
        reveal_strlit("timestamp");
    }
    let t = s.as_str();
    let n = t.unicode_len();
    if n == 9 && t.get_char(0) == 't' && t.get_char(1) == 'i' && t.get_char(2) == 'm'
        && t.get_char(3) == 'e' && t.get_char(4) == 's' && t.get_char(5) == 't' && t.get_char(6)
        == 'a' && t.get_char(7) == 'm' && t.get_char(8) == 'p' {
        proof {
            assert(s@ =~= "timestamp"@);
        }
        true
    } else {
        proof {
            if s@ == "timestamp"@ {
                assert(s@.len() == 9);
                assert(s@[0] == 't' && s@[1] == 'i' && s@[2] == 'm' && s@[3] == 'e' && s@[4] == 's'
                    && s@[5] == 't' && s@[6] == 'a' && s@[7] == 'm' && s@[8] == 'p');
            }
        }
        false
    }
}

/// Whether the text is exactly `ts`.
fn is_lit_ts(s: &String) -> (r: bool)
    ensures
        r == (s@ == "ts"@),
{
    proof {
        reveal_strlit("ts");
    }
    let t = s.as_str();
    let n = t.unicode_len();
    if n == 2 && t.get_char(0) == 't' && t.get_char(1) == 's' {
        proof {
            assert(s@ =~= "ts"@);
        }
        true
    } else {
        proof {
            if s@ == "ts"@ {
                assert(s@.len() == 2);
                assert(s@[0] == 't' && s@[1] == 's');
            }
        }
        false
    }
}

} // verus!
