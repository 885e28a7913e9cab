use vstd::prelude::*;
use vstd::string::*;

use crate::chrome_trace::{self, array_text, joined_text};
use crate::error::TimedError;
use crate::interface::{Hop, Phase, TraceCollectorChain, TraceRecord};
use crate::statistics::{self, table_of};

verus! {

struct Session {
    name: String,
    records: Vec<TraceRecord>,
}

/// The sessions that are being captured, each with the events collected
/// since it was registered, and the outputs installed once by
/// `init_tracing`.
pub struct Registry {
    sessions: Vec<Session>,
    outputs: Option<TraceCollectorChain>,
}

/// The bucket of `name` in `sessions`, if it is registered there.
spec fn bucket_in(sessions: Seq<Session>, name: Seq<char>) -> Option<Seq<TraceRecord>> {
    if exists|i: int| 0 <= i < sessions.len() && (#[trigger] sessions[i]).name@ == name {
        let i = choose|i: int| 0 <= i < sessions.len() && (#[trigger] sessions[i]).name@ == name;
        Some(sessions[i].records@)
    } else {
        None
    }
}

spec fn distinct_names(sessions: Seq<Session>) -> bool {
    forall|i: int, j: int|
        0 <= i < sessions.len() && 0 <= j < sessions.len() && i != j ==> (#[trigger] sessions[i]).name@
            != (#[trigger] sessions[j]).name@
}

proof fn lemma_bucket_at(sessions: Seq<Session>, i: int)
    requires
        distinct_names(sessions),
        0 <= i < sessions.len(),
    ensures
        bucket_in(sessions, sessions[i].name@) == Some(sessions[i].records@),
{
    let name = sessions[i].name@;
    assert(0 <= i < sessions.len() && sessions[i].name@ == name);
    let k = choose|k: int| 0 <= k < sessions.len() && (#[trigger] sessions[k]).name@ == name;
    assert(k == i);
}

proof fn lemma_bucket_absent(sessions: Seq<Session>, name: Seq<char>)
    requires
        forall|i: int| 0 <= i < sessions.len() ==> (#[trigger] sessions[i]).name@ != name,
    ensures
        bucket_in(sessions, name) == None::<Seq<TraceRecord>>,
{
}

impl Registry {
    pub closed spec fn wf(&self) -> bool {
        distinct_names(self.sessions@)
    }

    /// The events collected for `name` since it was last registered, or
    /// `None` when it is not registered.
    pub closed spec fn bucket(&self, name: Seq<char>) -> Option<Seq<TraceRecord>> {
        bucket_in(self.sessions@, name)
    }

    /// What each installed output sink holds, or `None` before `init_tracing`.
    pub closed spec fn outputs(&self) -> Option<Seq<Seq<TraceRecord>>> {
        match self.outputs {
            Some(chain) => Some(chain.sinks()),
            None => None,
        }
    }

    pub fn new() -> (r: Registry)
        ensures
            r.wf(),
            forall|name: Seq<char>| r.bucket(name) == None::<Seq<TraceRecord>>,
            r.outputs() == None::<Seq<Seq<TraceRecord>>>,
    {
        Registry { sessions: Vec::new(), outputs: None }
    }

    fn index_of(&self, name: &str) -> (r: Option<usize>)
        ensures
            match r {
                Some(i) => i < self.sessions@.len() && self.sessions@[i as int].name@ == name@,
                None => forall|i: int| 0 <= i < self.sessions@.len() ==> (#[trigger] self.sessions@[i]).name@ != name@,
            },
    {
        let key = String::from_str(name);
        let n = self.sessions.len();
        let mut i: usize = 0;
        while i < n
            invariant
                n == self.sessions@.len(),
                key@ == name@,
                0 <= i <= n,
                forall|k: int| 0 <= k < i ==> (#[trigger] self.sessions@[k]).name@ != name@,
            decreases n - i,
        {
            if self.sessions[i].name == key {
                return Some(i);
            }
            i += 1;
        }
        None
    }

    /// Installs the output sinks that receive every collected event. Only
    /// the first call succeeds; a later one changes nothing.
    pub fn init_tracing(&mut self, chain: TraceCollectorChain) -> (r: Result<(), TimedError>)
        requires
            old(self).wf(),
        ensures
            final(self).wf(),
            old(self).outputs() is Some ==> r == Err::<(), TimedError>(TimedError::TracingInitializationFailed)
                && *final(self) == *old(self),
            old(self).outputs() is None ==> r is Ok && final(self).outputs() == Some(chain.sinks())
                && forall|name: Seq<char>| final(self).bucket(name) == old(self).bucket(name),
    {
        if self.outputs.is_some() {
            return Err(TimedError::TracingInitializationFailed);
        }
        self.outputs = Some(chain);
        Ok(())
    }

    /// Starts capturing under `name`, with an empty bucket; a bucket that
    /// `name` already had is emptied.
    pub fn register(&mut self, name: &str)
        requires
            old(self).wf(),
        ensures
            final(self).wf(),
            final(self).bucket(name@) == Some(Seq::<TraceRecord>::empty()),
            forall|other: Seq<char>| other != name@ ==> #[trigger] final(self).bucket(other) == old(self).bucket(other),
            final(self).outputs() == old(self).outputs(),
    {
        let ghost pre = self.sessions@;
        match self.index_of(name) {
            Some(i) => {
                self.sessions[i].records = Vec::new();
                proof {
                    assert forall|k: int| 0 <= k < self.sessions@.len() && k != i implies self.sessions@[k] == pre[k] by {}
                    lemma_bucket_at(self.sessions@, i as int);
                    assert forall|other: Seq<char>| other != name@ implies #[trigger] self.bucket(other) == old(self).bucket(other) by {
                        if exists|k: int| 0 <= k < pre.len() && (#[trigger] pre[k]).name@ == other {
                            let k = choose|k: int| 0 <= k < pre.len() && (#[trigger] pre[k]).name@ == other;
                            lemma_bucket_at(pre, k);
                            lemma_bucket_at(self.sessions@, k);
                        } else {
                            assert forall|k: int| 0 <= k < self.sessions@.len() implies (#[trigger] self.sessions@[k]).name@ != other by {
                                assert(self.sessions@[k].name@ == pre[k].name@);
                            }
                        }
                    }
                }
            },
            None => {
                let fresh = Session { name: String::from_str(name), records: Vec::new() };
                self.sessions.push(fresh);
                proof {
                    let post = self.sessions@;
                    assert forall|a: int, b: int| 0 <= a < post.len() && 0 <= b < post.len() && a != b implies
                        (#[trigger] post[a]).name@ != (#[trigger] post[b]).name@ by {
                        if a < pre.len() && b < pre.len() {
                            assert(post[a] == pre[a] && post[b] == pre[b]);
                        }
                    }
                    lemma_bucket_at(post, pre.len() as int);
                    assert forall|other: Seq<char>| other != name@ implies #[trigger] self.bucket(other) == old(self).bucket(other) by {
                        if exists|k: int| 0 <= k < pre.len() && (#[trigger] pre[k]).name@ == other {
                            let k = choose|k: int| 0 <= k < pre.len() && (#[trigger] pre[k]).name@ == other;
                            lemma_bucket_at(pre, k);
                            assert(post[k] == pre[k]);
                            lemma_bucket_at(post, k);
                        } else {
                            assert forall|k: int| 0 <= k < post.len() implies (#[trigger] post[k]).name@ != other by {
                                if k < pre.len() {
                                    assert(post[k] == pre[k]);
                                }
                            }
                        }
                    }
                }
            },
        }
    }

    /// Collects `hop` into the bucket of every registered session and into
    /// every installed output sink.
    pub fn record(&mut self, hop: Hop)
        requires
            old(self).wf(),
        ensures
            final(self).wf(),
            forall|name: Seq<char>| #[trigger] final(self).bucket(name) == match old(self).bucket(name) {
                Some(b) => Some(b.push(hop)),
                None => None,
            },
            final(self).outputs() == match old(self).outputs() {
                Some(sinks) => Some(sinks.map_values(|s: Seq<TraceRecord>| s.push(hop))),
                None => None,
            },
    {
        match &mut self.outputs {
            Some(chain) => {
                chain.collect(&hop);
                proof {
                    let f = |s: Seq<TraceRecord>| s.push(hop);
                    assert(chain.sinks() =~= old(self).outputs().unwrap().map_values(f));
                }
            },
            None => {},
        }
        let ghost outs = self.outputs;
        let ghost pre = self.sessions@;
        let n = self.sessions.len();
        let mut i: usize = 0;
        while i < n
            invariant
                n == pre.len(),
                self.sessions@.len() == n,
                0 <= i <= n,
                distinct_names(pre),
                pre == old(self).sessions@,
                self.outputs == outs,
                forall|j: int| 0 <= j < n ==> (#[trigger] self.sessions@[j]).name@ == pre[j].name@,
                forall|j: int| 0 <= j < i ==> (#[trigger] self.sessions@[j]).records@ == pre[j].records@.push(hop),
                forall|j: int| i <= j < n ==> (#[trigger] self.sessions@[j]).records@ == pre[j].records@,
            decreases n - i,
        {
            let copy = hop.clone();
            let ghost mid = self.sessions@;
            self.sessions[i].records.push(copy);
            assert forall|j: int| 0 <= j < n && j != i implies #[trigger] self.sessions@[j] == mid[j] by {}
            i += 1;
        }
        proof {
            let post = self.sessions@;
            assert(distinct_names(post)) by {
                assert forall|a: int, b: int| 0 <= a < post.len() && 0 <= b < post.len() && a != b implies
                    (#[trigger] post[a]).name@ != (#[trigger] post[b]).name@ by {
                    assert(pre[a].name@ != pre[b].name@);
                }
            }
            assert forall|name: Seq<char>| #[trigger] self.bucket(name) == match old(self).bucket(name) {
                Some(b) => Some(b.push(hop)),
                None => None,
            } by {
                if exists|k: int| 0 <= k < pre.len() && (#[trigger] pre[k]).name@ == name {
                    let k = choose|k: int| 0 <= k < pre.len() && (#[trigger] pre[k]).name@ == name;
                    lemma_bucket_at(pre, k);
                    lemma_bucket_at(post, k);
                } else {
                    assert forall|k: int| 0 <= k < post.len() implies (#[trigger] post[k]).name@ != name by {
                        assert(post[k].name@ == pre[k].name@);
                    }
                }
            }
        }
    }

    /// Adds `hop` to the bucket of `name` alone; does nothing when `name` is
    /// not registered.
    fn add_to(&mut self, name: &str, hop: Hop)
        requires
            old(self).wf(),
        ensures
            final(self).wf(),
            final(self).bucket(name@) == match old(self).bucket(name@) {
                Some(b) => Some(b.push(hop)),
                None => None,
            },
            forall|other: Seq<char>| other != name@ ==> #[trigger] final(self).bucket(other) == old(self).bucket(other),
            final(self).outputs() == old(self).outputs(),
    {
        let ghost pre = self.sessions@;
        match self.index_of(name) {
            Some(i) => {
                self.sessions[i].records.push(hop);
                proof {
                    let post = self.sessions@;
                    assert forall|k: int| 0 <= k < post.len() && k != i implies post[k] == pre[k] by {}
                    assert(distinct_names(post)) by {
                        assert forall|a: int, b: int| 0 <= a < post.len() && 0 <= b < post.len() && a != b implies
                            (#[trigger] post[a]).name@ != (#[trigger] post[b]).name@ by {
                            assert(pre[a].name@ != pre[b].name@);
                        }
                    }
                    lemma_bucket_at(pre, i as int);
                    lemma_bucket_at(post, i as int);
                    assert forall|other: Seq<char>| other != name@ implies #[trigger] self.bucket(other) == old(self).bucket(other) by {
                        if exists|k: int| 0 <= k < pre.len() && (#[trigger] pre[k]).name@ == other {
                            let k = choose|k: int| 0 <= k < pre.len() && (#[trigger] pre[k]).name@ == other;
                            lemma_bucket_at(pre, k);
                            lemma_bucket_at(post, k);
                        } else {
                            assert forall|k: int| 0 <= k < post.len() implies (#[trigger] post[k]).name@ != other by {
                                assert(post[k].name@ == pre[k].name@);
                            }
                        }
                    }
                }
            },
            None => {
                proof {
                    lemma_bucket_absent(pre, name@);
                }
            },
        }
    }

    /// Takes every event collected for `name` and leaves its bucket empty;
    /// `None` when `name` is not registered.
    pub fn drain(&mut self, name: &str) -> (r: Option<Vec<TraceRecord>>)
        requires
            old(self).wf(),
        ensures
            final(self).wf(),
            match old(self).bucket(name@) {
                Some(b) => r is Some && r.unwrap()@ == b && final(self).bucket(name@) == Some(Seq::<TraceRecord>::empty()),
                None => r is None && final(self).bucket(name@) == None::<Seq<TraceRecord>>,
            },
            forall|other: Seq<char>| other != name@ ==> #[trigger] final(self).bucket(other) == old(self).bucket(other),
            final(self).outputs() == old(self).outputs(),
    {
        let ghost pre = self.sessions@;
        match self.index_of(name) {
            Some(i) => {
                let mut taken: Vec<TraceRecord> = Vec::new();
                std::mem::swap(&mut self.sessions[i].records, &mut taken);
                proof {
                    let post = self.sessions@;
                    assert forall|k: int| 0 <= k < post.len() && k != i implies post[k] == pre[k] by {}
                    assert(distinct_names(post)) by {
                        assert forall|a: int, b: int| 0 <= a < post.len() && 0 <= b < post.len() && a != b implies
                            (#[trigger] post[a]).name@ != (#[trigger] post[b]).name@ by {
                            assert(pre[a].name@ != pre[b].name@);
                        }
                    }
                    lemma_bucket_at(pre, i as int);
                    lemma_bucket_at(post, i as int);
                    assert forall|other: Seq<char>| other != name@ implies #[trigger] self.bucket(other) == old(self).bucket(other) by {
                        if exists|k: int| 0 <= k < pre.len() && (#[trigger] pre[k]).name@ == other {
                            let k = choose|k: int| 0 <= k < pre.len() && (#[trigger] pre[k]).name@ == other;
                            lemma_bucket_at(pre, k);
                            lemma_bucket_at(post, k);
                        } else {
                            assert forall|k: int| 0 <= k < post.len() implies (#[trigger] post[k]).name@ != other by {
                                assert(post[k].name@ == pre[k].name@);
                            }
                        }
                    }
                }
                Some(taken)
            },
            None => {
                proof {
                    lemma_bucket_absent(pre, name@);
                }
                None
            },
        }
    }

    /// Whether `init_tracing` has installed the outputs.
    pub fn is_initialized(&self) -> (r: bool)
        ensures
            r == self.outputs() is Some,
    {
        self.outputs.is_some()
    }

    /// The events collected for `name`, if it is registered.
    fn records_of(&self, name: &str) -> (r: Option<&Vec<TraceRecord>>)
        requires
            self.wf(),
        ensures
            match self.bucket(name@) {
                Some(b) => r is Some && r.unwrap()@ == b,
                None => r is None,
            },
    {
        match self.index_of(name) {
            Some(i) => {
                proof {
                    lemma_bucket_at(self.sessions@, i as int);
                }
                Some(&self.sessions[i].records)
            },
            None => {
                proof {
                    lemma_bucket_absent(self.sessions@, name@);
                }
                None
            },
        }
    }

    /// Registers `name` unless it already is, keeping what it holds.
    fn ensure_registered(&mut self, name: &str)
        requires
            old(self).wf(),
        ensures
            final(self).wf(),
            final(self).bucket(name@) == Some(
                match old(self).bucket(name@) {
                    Some(b) => b,
                    None => Seq::<TraceRecord>::empty(),
                },
            ),
            forall|other: Seq<char>| other != name@ ==> #[trigger] final(self).bucket(other) == old(self).bucket(other),
            final(self).outputs() == old(self).outputs(),
    {
        match self.records_of(name) {
            Some(_) => {},
            None => self.register(name),
        }
    }

    /// Takes what the output sink at `index` holds; `None` before
    /// `init_tracing` or when there is no such sink.
    pub fn drain_output(&mut self, index: usize) -> (r: Option<Vec<TraceRecord>>)
        requires
            old(self).wf(),
        ensures
            final(self).wf(),
            forall|name: Seq<char>| #[trigger] final(self).bucket(name) == old(self).bucket(name),
            match old(self).outputs() {
                Some(sinks) => if index < sinks.len() {
                    r is Some && r.unwrap()@ == sinks[index as int] && final(self).outputs() == Some(
                        sinks.update(index as int, Seq::<TraceRecord>::empty()),
                    )
                } else {
                    r is None && final(self).outputs() == old(self).outputs()
                },
                None => r is None && final(self).outputs() == old(self).outputs(),
            },
    {
        match &mut self.outputs {
            Some(chain) => {
                if index < chain.buffers.len() {
                    Some(chain.drain_output(index))
                } else {
                    None
                }
            },
            None => None,
        }
    }
}

/// An event collected while two sessions are registered reaches both: after
/// the collection each of their buckets ends with it.
pub proof fn lemma_broadcast_reaches_both(before: Registry, after: Registry, e: Hop, a: Seq<char>, b: Seq<char>)
    requires
        before.bucket(a) is Some,
        before.bucket(b) is Some,
        forall|name: Seq<char>| #[trigger] after.bucket(name) == match before.bucket(name) {
            Some(x) => Some(x.push(e)),
            None => None,
        },
    ensures
        after.bucket(a) is Some && after.bucket(a).unwrap().contains(e) && after.bucket(a).unwrap().last() == e,
        after.bucket(b) is Some && after.bucket(b).unwrap().contains(e) && after.bucket(b).unwrap().last() == e,
{
    let x = after.bucket(a).unwrap();
    let y = after.bucket(b).unwrap();
    assert(x[x.len() - 1] == e);
    assert(y[y.len() - 1] == e);
}

/// The length of a span from `start` to `end`, in microseconds: zero when
/// the clock went backwards, and at most `u64::MAX`.
pub open spec fn span_micros(start: u128, end: u128) -> u64 {
    if end <= start {
        0
    } else if end - start > u64::MAX {
        u64::MAX
    } else {
        (end - start) as u64
    }
}

/// Whether `h` closes the span `name` that began at `start`, at time `end`.
pub open spec fn is_end_hop(h: Hop, name: Seq<char>, start: u128, end: u128) -> bool {
    &&& h.function_name@ == name
    &&& h.timestamp == end
    &&& h.phase == Phase::Finish(span_micros(start, end))
}

/// Whether `after` is `before` with `h` collected: added to the end of every
/// registered bucket and of every output sink.
pub open spec fn collected(before: Registry, after: Registry, h: Hop) -> bool {
    &&& forall|name: Seq<char>| #[trigger] after.bucket(name) == match before.bucket(name) {
        Some(b) => Some(b.push(h)),
        None => None,
    }
    &&& after.outputs() == match before.outputs() {
        Some(sinks) => Some(sinks.map_values(|s: Seq<TraceRecord>| s.push(h))),
        None => None,
    }
}

/// The batch that finishing the session `name` takes: its bucket with the
/// end event `h` added.
pub open spec fn closing_batch(before: Registry, name: Seq<char>, h: Hop) -> Seq<TraceRecord> {
    before.bucket(name).unwrap().push(h)
}

/// Whether `t` can be finished in `reg`: it is not finished yet, tracing is
/// initialized, and its name is registered.
pub open spec fn can_finish(t: Trace, reg: Registry) -> bool {
    &&& !t.is_finished()
    &&& reg.outputs() is Some
    &&& reg.bucket(t.name()) is Some
}

/// What an attempt to finish `before_t` in `before` leaves: it succeeds
/// (`ok`) exactly when the session can be finished, and then the session is
/// finished and its bucket empty; when it fails, nothing changed. Other
/// buckets and the outputs never change.
pub open spec fn finish_effect(before_t: Trace, after_t: Trace, before: Registry, after: Registry, ok: bool) -> bool {
    &&& after_t.name() == before_t.name()
    &&& after_t.start() == before_t.start()
    &&& ok == can_finish(before_t, before)
    &&& ok ==> after_t.is_finished() && after.bucket(before_t.name()) == Some(Seq::<TraceRecord>::empty())
    &&& !ok ==> after_t == before_t && after == before
    &&& forall|other: Seq<char>| other != before_t.name() ==> #[trigger] after.bucket(other) == before.bucket(other)
    &&& after.outputs() == before.outputs()
}

/// Whether `after` is `before` once the session `name` was registered and
/// its start event, stamped `now`, collected.
pub open spec fn started(before: Registry, after: Registry, name: Seq<char>, now: u128) -> bool {
    exists|h: Hop|
        h.function_name@ == name && h.timestamp == now && h.phase == Phase::Start && after.bucket(name) == Some(
            seq![h],
        ) && forall|other: Seq<char>|
            other != name ==> #[trigger] after.bucket(other) == match before.bucket(other) {
                Some(b) => Some(b.push(h)),
                None => None,
            }
}

/// Relies on std's `SystemTime::now` and `duration_since(UNIX_EPOCH)`: the
/// time of the call in microseconds since the Unix epoch, or zero for a
/// clock set before it.
#[verifier::external_body]
fn now_micros() -> (r: u128) {
    match std::time::SystemTime::now().duration_since(std::time::UNIX_EPOCH) {
        Ok(since_epoch) => since_epoch.as_micros(),
        Err(_) => 0,
    }
}

impl Registry {
    /// Collects the start of a call of `name`, stamped with the current time.
    pub fn begin(&mut self, name: &str)
        requires
            old(self).wf(),
        ensures
            final(self).wf(),
            exists|h: Hop|
                h.function_name@ == name@ && h.phase == Phase::Start && #[trigger] collected(*old(self), *final(self), h),
    {
        let hop = TraceRecord { function_name: String::from_str(name), timestamp: now_micros(), phase: Phase::Start };
        let ghost h = hop;
        self.record(hop);
        assert(collected(*old(self), *self, h));
    }

    /// Collects the end of a call of `name` that lasted `elapsed` microseconds,
    /// stamped with the current time.
    pub fn end(&mut self, name: &str, elapsed: u64)
        requires
            old(self).wf(),
        ensures
            final(self).wf(),
            exists|h: Hop|
                h.function_name@ == name@ && h.phase == Phase::Finish(elapsed) && #[trigger] collected(
                    *old(self),
                    *final(self),
                    h,
                ),
    {
        let hop = TraceRecord {
            function_name: String::from_str(name),
            timestamp: now_micros(),
            phase: Phase::Finish(elapsed),
        };
        let ghost h = hop;
        self.record(hop);
        assert(collected(*old(self), *self, h));
    }
}

/// A capture session: registered under its name when created, it sees every
/// event collected until it is finished, once.
pub struct Trace {
    id: String,
    start_timestamp: u128,
    finished: bool,
}

impl Trace {
    pub closed spec fn name(&self) -> Seq<char> {
        self.id@
    }

    pub closed spec fn start(&self) -> u128 {
        self.start_timestamp
    }

    pub closed spec fn is_finished(&self) -> bool {
        self.finished
    }

    /// Registers the session `id` in `registry` and collects its start event,
    /// stamped `now`.
    pub fn new_at(registry: &mut Registry, id: &str, now: u128) -> (r: Trace)
        requires
            old(registry).wf(),
        ensures
            final(registry).wf(),
            r.name() == id@,
            r.start() == now,
            !r.is_finished(),
            started(*old(registry), *final(registry), id@, now),
    {
        registry.register(id);
        let hop = TraceRecord { function_name: String::from_str(id), timestamp: now, phase: Phase::Start };
        let ghost h = hop;
        registry.record(hop);
        proof {
            assert(seq![].push(h) =~= seq![h]);
            assert(registry.bucket(id@) == Some(seq![h]));
            assert(started(*old(registry), *registry, id@, now));
        }
        Trace { id: String::from_str(id), start_timestamp: now, finished: false }
    }

    /// Registers the session `id` and collects its start event, stamped with
    /// the current time.
    pub fn new(registry: &mut Registry, id: &str) -> (r: Trace)
        requires
            old(registry).wf(),
        ensures
            final(registry).wf(),
            r.name() == id@,
            !r.is_finished(),
            started(*old(registry), *final(registry), id@, r.start()),
    {
        let now = now_micros();
        Trace::new_at(registry, id, now)
    }

    /// The event that closes this session at time `end`.
    pub fn generate_current_end_hop(&self, end: u128) -> (h: Hop)
        ensures
            is_end_hop(h, self.name(), self.start(), end),
    {
        let duration: u64 = if end <= self.start_timestamp {
            0
        } else if end - self.start_timestamp > u64::MAX as u128 {
            u64::MAX
        } else {
            (end - self.start_timestamp) as u64
        };
        TraceRecord { function_name: self.id.clone(), timestamp: end, phase: Phase::Finish(duration) }
    }

    /// Closes the session at time `end`: adds its end event to its bucket,
    /// then takes the bucket. It fails, changing nothing, when the session is
    /// already finished, tracing is not initialized, or the session is no
    /// longer registered.
    pub fn finish_at(&mut self, registry: &mut Registry, end: u128) -> (r: Result<Vec<TraceRecord>, TimedError>)
        requires
            old(registry).wf(),
        ensures
            final(registry).wf(),
            finish_effect(*old(self), *final(self), *old(registry), *final(registry), r is Ok),
            r is Ok ==> exists|h: Hop|
                #[trigger] is_end_hop(h, old(self).name(), old(self).start(), end) && r.unwrap()@ == closing_batch(
                    *old(registry),
                    old(self).name(),
                    h,
                ),
    {
        if self.finished {
            return Err(TimedError::TracingFinishFailed(String::from_str("the session is already finished")));
        }
        if !registry.is_initialized() {
            return Err(TimedError::TracingFinishFailed(String::from_str("tracing is not initialized")));
        }
        if registry.records_of(self.id.as_str()).is_none() {
            return Err(TimedError::TracingFinishFailed(String::from_str("the session is not registered")));
        }
        let hop = self.generate_current_end_hop(end);
        registry.add_to(self.id.as_str(), hop);
        match registry.drain(self.id.as_str()) {
            Some(records) => {
                self.finished = true;
                Ok(records)
            },
            None => Err(TimedError::TracingFinishFailed(String::from_str("the session is not registered"))),
        }
    }

    /// As `finish_at`, stamped with the current time.
    pub fn finish(&mut self, registry: &mut Registry) -> (r: Result<Vec<TraceRecord>, TimedError>)
        requires
            old(registry).wf(),
        ensures
            final(registry).wf(),
            finish_effect(*old(self), *final(self), *old(registry), *final(registry), r is Ok),
            r is Ok ==> exists|end: u128, h: Hop|
                #[trigger] is_end_hop(h, old(self).name(), old(self).start(), end) && r.unwrap()@ == closing_batch(
                    *old(registry),
                    old(self).name(),
                    h,
                ),
    {
        let now = now_micros();
        self.finish_at(registry, now)
    }

    /// Finishes the session at time `end`, as `finish_at` does, and returns
    /// what it captured as a compact Chrome trace.
    pub fn chrome_tracing_at(&mut self, registry: &mut Registry, end: u128) -> (r: Result<String, TimedError>)
        requires
            old(registry).wf(),
        ensures
            final(registry).wf(),
            finish_effect(*old(self), *final(self), *old(registry), *final(registry), r is Ok),
            r is Ok ==> exists|h: Hop|
                #[trigger] is_end_hop(h, old(self).name(), old(self).start(), end) && r.unwrap()@ == joined_text(
                    closing_batch(*old(registry), old(self).name(), h),
                ),
    {
        match self.finish_at(registry, end) {
            Ok(batch) => Ok(chrome_trace::from(batch.as_slice())),
            Err(e) => Err(e),
        }
    }

    /// As `chrome_tracing_at`, stamped with the current time.
    pub fn chrome_tracing(&mut self, registry: &mut Registry) -> (r: Result<String, TimedError>)
        requires
            old(registry).wf(),
        ensures
            final(registry).wf(),
            finish_effect(*old(self), *final(self), *old(registry), *final(registry), r is Ok),
            r is Ok ==> exists|end: u128, h: Hop|
                #[trigger] is_end_hop(h, old(self).name(), old(self).start(), end) && r.unwrap()@ == joined_text(
                    closing_batch(*old(registry), old(self).name(), h),
                ),
    {
        let now = now_micros();
        self.chrome_tracing_at(registry, now)
    }

    /// Finishes the session at time `end`, as `finish_at` does, and returns
    /// the statistics of what it captured as a text table.
    pub fn statistics_at(&mut self, registry: &mut Registry, end: u128) -> (r: Result<String, TimedError>)
        requires
            old(registry).wf(),
        ensures
            final(registry).wf(),
            finish_effect(*old(self), *final(self), *old(registry), *final(registry), r is Ok),
            r is Ok ==> exists|h: Hop|
                #[trigger] is_end_hop(h, old(self).name(), old(self).start(), end) && table_of(
                    closing_batch(*old(registry), old(self).name(), h),
                    r.unwrap()@,
                ),
    {
        match self.finish_at(registry, end) {
            Ok(batch) => Ok(statistics::from(batch.as_slice())),
            Err(e) => Err(e),
        }
    }

    /// As `statistics_at`, stamped with the current time.
    pub fn statistics(&mut self, registry: &mut Registry) -> (r: Result<String, TimedError>)
        requires
            old(registry).wf(),
        ensures
            final(registry).wf(),
            finish_effect(*old(self), *final(self), *old(registry), *final(registry), r is Ok),
            r is Ok ==> exists|end: u128, h: Hop|
                #[trigger] is_end_hop(h, old(self).name(), old(self).start(), end) && table_of(
                    closing_batch(*old(registry), old(self).name(), h),
                    r.unwrap()@,
                ),
    {
        let now = now_micros();
        self.statistics_at(registry, now)
    }
}

/// A request to the registry, in the form that instrumented code sends it.
pub enum Action {
    /// Start capturing under a name.
    Init(String),
    /// Ask for what a name captured, as a Chrome trace array.
    Dump(String),
    /// Collect an event into every capture.
    Collect(TraceRecord),
}

/// What a dump of `b` shows: nothing for an empty bucket, else its Chrome
/// trace array.
pub open spec fn dump_text(b: Seq<TraceRecord>) -> Seq<char> {
    if b.len() == 0 {
        Seq::empty()
    } else {
        array_text(b)
    }
}

/// Carries out `action` on `registry`; a dump returns its text, the other
/// actions an empty string.
pub fn collect(registry: &mut Registry, action: Action) -> (r: String)
    requires
        old(registry).wf(),
    ensures
        final(registry).wf(),
        action is Collect ==> final(registry).outputs() == match old(registry).outputs() {
            Some(sinks) => Some(sinks.map_values(|s: Seq<TraceRecord>| s.push(action->Collect_0))),
            None => None,
        },
        !(action is Collect) ==> final(registry).outputs() == old(registry).outputs(),
        match action {
            Action::Init(id) => r@ == Seq::<char>::empty() && final(registry).bucket(id@) == Some(Seq::<TraceRecord>::empty())
                && forall|other: Seq<char>| other != id@ ==> #[trigger] final(registry).bucket(other) == old(registry).bucket(other),
            Action::Dump(id) => {
                let b = match old(registry).bucket(id@) {
                    Some(b) => b,
                    None => Seq::<TraceRecord>::empty(),
                };
                &&& r@ == dump_text(b)
                &&& final(registry).bucket(id@) == Some(b)
                &&& forall|other: Seq<char>| other != id@ ==> #[trigger] final(registry).bucket(other) == old(registry).bucket(other)
            },
            Action::Collect(h) => r@ == Seq::<char>::empty() && forall|name: Seq<char>| #[trigger] final(registry).bucket(name)
                == match old(registry).bucket(name) {
                Some(b) => Some(b.push(h)),
                None => None,
            },
        },
{
    match action {
        Action::Init(id) => {
            registry.register(id.as_str());
            String::new()
        },
        Action::Dump(id) => {
            registry.ensure_registered(id.as_str());
            match registry.records_of(id.as_str()) {
                Some(records) => {
                    if records.len() == 0 {
                        String::new()
                    } else {
                        let batch = chrome_trace::ChromeTraceResult::new(records.clone());
                        batch.to_chrome_trace()
                    }
                },
                None => String::new(),
            }
        },
        Action::Collect(h) => {
            registry.record(h);
            String::new()
        },
    }
}

} // verus!
