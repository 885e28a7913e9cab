use vstd::prelude::*;

verus! {

/// Whether an event opens or closes a span. A closing event carries the
/// span's duration in microseconds.
#[derive(Clone, Copy, Debug, PartialEq, Eq, Structural)]
pub enum Phase {
    Start,
    Finish(u64),
}

impl Phase {
    /// The Chrome trace phase letter: `B` for a start, `E` for a finish.
    pub open spec fn code(self) -> char {
        match self {
            Phase::Start => 'B',
            Phase::Finish(_) => 'E',
        }
    }

    pub fn to_string(&self) -> (r: String)
        ensures
            r@ == seq![self.code()],
    {
        proof {
            reveal_strlit("B");
            reveal_strlit("E");
        }
        match self {
            Phase::Start => String::from_str("B"),
            Phase::Finish(_) => String::from_str("E"),
        }
    }
}

/// One instrumentation point: the function's name, the time in microseconds
/// since the Unix epoch, and the phase.
#[derive(Debug)]
pub struct TraceRecord {
    pub function_name: String,
    pub timestamp: u128,
    pub phase: Phase,
}

/// The name that older parts of the interface use for a span event.
pub type Hop = TraceRecord;

impl Clone for TraceRecord {
    fn clone(&self) -> (r: Self)
        ensures
            r == *self,
    {
        TraceRecord {
            function_name: self.function_name.clone(),
            timestamp: self.timestamp,
            phase: self.phase,
        }
    }
}

/// The durations, in order, of the finish events named `name`.
pub open spec fn durations_of(events: Seq<TraceRecord>, name: Seq<char>) -> Seq<u64>
    decreases events.len(),
{
    if events.len() == 0 {
        Seq::empty()
    } else {
        let rest = durations_of(events.drop_last(), name);
        let e = events.last();
        match e.phase {
            Phase::Finish(d) => if e.function_name@ == name {
                rest.push(d)
            } else {
                rest
            },
            Phase::Start => rest,
        }
    }
}

/// An append-only queue of events that a consumer empties in one step.
pub struct RecordBuffer {
    data: Vec<TraceRecord>,
}

impl View for RecordBuffer {
    type V = Seq<TraceRecord>;

    closed spec fn view(&self) -> Seq<TraceRecord> {
        self.data@
    }
}

impl RecordBuffer {
    pub fn new() -> (r: RecordBuffer)
        ensures
            r@ == Seq::<TraceRecord>::empty(),
    {
        RecordBuffer { data: Vec::new() }
    }

    pub fn add(&mut self, record: TraceRecord)
        ensures
            final(self)@ == old(self)@.push(record),
    {
        self.data.push(record);
    }

    /// Removes every queued event and hands them over in arrival order.
    pub fn drain(&mut self) -> (r: Vec<TraceRecord>)
        ensures
            r@ == old(self)@,
            final(self)@ == Seq::<TraceRecord>::empty(),
    {
        let mut taken: Vec<TraceRecord> = Vec::new();
        std::mem::swap(&mut self.data, &mut taken);
        taken
    }
}

/// An ordered set of sinks; each collected event goes to every one of them.
pub struct TraceCollectorChain {
    pub buffers: Vec<RecordBuffer>,
}

impl TraceCollectorChain {
    pub open spec fn sinks(&self) -> Seq<Seq<TraceRecord>> {
        self.buffers@.map_values(|b: RecordBuffer| b@)
    }

    pub fn new() -> (r: TraceCollectorChain)
        ensures
            r.sinks() == Seq::<Seq<TraceRecord>>::empty(),
    {
        TraceCollectorChain { buffers: Vec::new() }
    }

    /// Adds a sink after the existing ones; returns the chain so that calls
    /// can follow one another.
    pub fn chain_output(&mut self, buffer: RecordBuffer) -> (r: &mut TraceCollectorChain)
        ensures
            r.sinks() == old(self).sinks().push(buffer@),
            *final(self) == *final(r),
    {
        self.buffers.push(buffer);
        proof {
            assert(self.sinks() =~= old(self).sinks().push(buffer@));
        }
        self
    }

    /// Hands a copy of `record` to every sink, in the order the sinks were added.
    pub fn collect(&mut self, record: &TraceRecord)
        ensures
            final(self).sinks().len() == old(self).sinks().len(),
            forall|i: int|
                0 <= i < old(self).sinks().len() ==> #[trigger] final(self).sinks()[i]
                    == old(self).sinks()[i].push(*record),
    {
        let n = self.buffers.len();
        let mut i: usize = 0;
        while i < n
            invariant
                n == old(self).buffers@.len(),
                self.buffers@.len() == n,
                0 <= i <= n,
                forall|j: int| 0 <= j < i ==> #[trigger] self.buffers@[j]@ == old(self).buffers@[j]@.push(*record),
                forall|j: int| i <= j < n ==> #[trigger] self.buffers@[j] == old(self).buffers@[j],
            decreases n - i,
        {
            let copy = record.clone();
            let ghost pre = self.buffers@;
            self.buffers[i].add(copy);
            assert forall|j: int| 0 <= j < i + 1 implies #[trigger] self.buffers@[j]@ == old(self).buffers@[j]@.push(*record) by {
                if j < i {
                    assert(self.buffers@[j] == pre[j]);
                }
            }
            i += 1;
        }
    }

    /// Empties the sink at `index` and returns what it held.
    pub fn drain_output(&mut self, index: usize) -> (r: Vec<TraceRecord>)
        requires
            index < old(self).sinks().len(),
        ensures
            r@ == old(self).sinks()[index as int],
            final(self).sinks() == old(self).sinks().update(index as int, Seq::<TraceRecord>::empty()),
    {
        let r = self.buffers[index].drain();
        proof {
            assert(self.sinks() =~= old(self).sinks().update(index as int, Seq::<TraceRecord>::empty()));
        }
        r
    }
}

} // verus!
