//! Per-stream storage: a bounded buffer that keeps exactly the most recent
//! values the memorization bound asks for, readable by discrete offset into
//! the past, with sample-and-hold access to the latest value ever written.

use vstd::prelude::*;
use crate::ir::MemorizationBound;
use crate::value::{Value, ValueV, value_view, values_view, lemma_values_view};

verus! {

/// The mathematical shape of one storage cell: every value ever written, in
/// write order, and the declared capacity.
pub ghost struct BufM {
    pub hist: Seq<ValueV>,
    pub capacity: Option<u16>,
}

impl BufM {
    /// How many of the written values are still readable: all of them, or at
    /// most the capacity.
    pub open spec fn retained(&self) -> int {
        match self.capacity {
            Some(c) => if self.hist.len() <= c {
                self.hist.len() as int
            } else {
                c as int
            },
            None => self.hist.len() as int,
        }
    }

    /// The shape after one more value.
    pub open spec fn pushed(&self, v: ValueV) -> BufM {
        BufM { hist: self.hist.push(v), capacity: self.capacity }
    }
}

/// The shapes of a list of cells.
pub open spec fn bufs_m(s: Seq<StreamBuffer>) -> Seq<BufM> {
    Seq::new(s.len(), |i: int| s[i].m())
}

/// The storage cell of one stream.
pub struct StreamBuffer {
    /// The retained values, oldest first.
    pub values: Vec<Value>,
    /// How many values stay readable; `None` retains everything.
    pub capacity: Option<u16>,
    /// The views of every value ever written, in write order.
    pub hist: Ghost<Seq<ValueV>>,
}

impl StreamBuffer {
    /// The cell's mathematical shape.
    pub open spec fn m(&self) -> BufM {
        BufM { hist: self.hist@, capacity: self.capacity }
    }

    /// How many of the written values are still readable: all of them, or at
    /// most the capacity.
    pub open spec fn spec_retained(&self) -> int {
        match self.capacity {
            Some(c) => if self.hist@.len() <= c {
                self.hist@.len() as int
            } else {
                c as int
            },
            None => self.hist@.len() as int,
        }
    }

    /// The buffer retains exactly the newest `spec_retained()` values, in
    /// write order.
    pub open spec fn wf(&self) -> bool {
        &&& match self.capacity {
            Some(c) => c >= 1,
            None => true,
        }
        &&& self.values@.len() == self.spec_retained()
        &&& values_view(self.values@) == self.hist@.skip(
            self.hist@.len() - self.spec_retained(),
        )
    }

    /// The declared capacity, as a specification value.
    pub open spec fn spec_capacity(&self) -> Option<u16> {
        self.capacity
    }

    /// An empty buffer for a stream with the given memorization bound.
    pub fn new(bound: MemorizationBound) -> (r: StreamBuffer)
        requires
            bound matches MemorizationBound::Bounded(n) ==> n >= 1,
        ensures
            r.wf(),
            r.hist@ == Seq::<ValueV>::empty(),
            r.spec_capacity() == (match bound {
                MemorizationBound::Bounded(n) => Some(n),
                MemorizationBound::Unbounded => None,
            }),
    {
        let capacity = match bound {
            MemorizationBound::Bounded(n) => Some(n),
            MemorizationBound::Unbounded => None,
        };
        let r = StreamBuffer { values: Vec::new(), capacity, hist: Ghost(Seq::empty()) };
        proof {
            assert(values_view(r.values@) =~= r.hist@.skip(0));
        }
        r
    }

    /// Appends a value; when the buffer is full the oldest value leaves.
    pub fn push(&mut self, v: Value)
        requires
            old(self).wf(),
        ensures
            final(self).wf(),
            final(self).hist@ == old(self).hist@.push(v@),
            final(self).spec_capacity() == old(self).spec_capacity(),
    {
        let ghost old_vals = self.values@;
        let ghost old_hist = self.hist@;
        proof {
            lemma_values_view(old_vals);
        }
        let full = match self.capacity {
            Some(c) => self.values.len() == c as usize,
            None => false,
        };
        if full {
            self.values.remove(0);
        }
        self.values.push(v);
        proof {
            self.hist@ = self.hist@.push(v@);
            lemma_values_view(self.values@);
            let d_old = old_hist.len() - old(self).spec_retained();
            let d_new = self.hist@.len() - self.spec_retained();
            assert forall|j: int| 0 <= j < self.values@.len() implies values_view(self.values@)[j]
                == self.hist@.skip(d_new)[j] by {
                if full {
                    if j < self.values@.len() - 1 {
                        assert(self.values@[j] == old_vals[j + 1]);
                        assert(values_view(old_vals)[j + 1] == old_hist.skip(d_old)[j + 1]);
                    }
                } else {
                    if j < self.values@.len() - 1 {
                        assert(self.values@[j] == old_vals[j]);
                        assert(values_view(old_vals)[j] == old_hist.skip(d_old)[j]);
                    }
                }
            }
            assert(values_view(self.values@) =~= self.hist@.skip(d_new));
        }
    }

    /// The value written `offset` ticks ago, when it is still retained. This
    /// is the offset-lookup of the engine: present exactly for offsets below
    /// both the number of values written and the capacity.
    pub fn read_offset(&self, offset: usize) -> (r: Option<&Value>)
        requires
            self.wf(),
        ensures
            offset < self.spec_retained() ==> match r {
                Some(v) => v@ == self.hist@[self.hist@.len() - 1 - offset],
                None => false,
            },
            offset >= self.spec_retained() ==> r is None,
    {
        proof {
            lemma_values_view(self.values@);
        }
        if offset < self.values.len() {
            proof {
                let j = self.values@.len() - 1 - offset;
                assert(values_view(self.values@)[j] == value_view(self.values@[j]));
                assert(self.hist@.skip(self.hist@.len() - self.spec_retained())[j]
                    == self.hist@[self.hist@.len() - 1 - offset]);
            }
            Some(&self.values[self.values.len() - 1 - offset])
        } else {
            None
        }
    }

    /// The most recent value ever written, regardless of age: sample-and-hold
    /// access. Present exactly when anything was ever written.
    pub fn sample_and_hold(&self) -> (r: Option<&Value>)
        requires
            self.wf(),
        ensures
            self.hist@.len() > 0 ==> match r {
                Some(v) => v@ == self.hist@.last(),
                None => false,
            },
            self.hist@.len() == 0 ==> r is None,
    {
        proof {
            lemma_values_view(self.values@);
        }
        if self.values.len() > 0 {
            proof {
                let j = self.values@.len() - 1;
                assert(values_view(self.values@)[j] == value_view(self.values@[j]));
                assert(self.hist@.skip(self.hist@.len() - self.spec_retained())[j]
                    == self.hist@[self.hist@.len() - 1]);
            }
            Some(&self.values[self.values.len() - 1])
        } else {
            None
        }
    }

}

} // verus!
