use vstd::prelude::*;
use vstd::relations::{sorted_by, total_ordering};
use vstd::seq_lib::{group_to_multiset_ensures, lemma_sorted_unique};

use crate::interface::{durations_of, Hop, Phase, RecordBuffer, TraceRecord};
use crate::text::{
    decimal, free_of_escape, lemma_decimal_free_of_escape, lemma_visible_free_of_escape, push_decimal,
    push_visible, visible,
};
use vstd::string::*;

verus! {

/// The order in which durations are ranked: ascending.
pub open spec fn shorter_or_equal() -> spec_fn(u64, u64) -> bool {
    |a: u64, b: u64| a <= b
}

/// The durations of `s` sorted ascending.
pub open spec fn ascending(s: Seq<u64>) -> Seq<u64> {
    s.sort_by(shorter_or_equal())
}

/// The sum of the durations of `s`.
pub open spec fn total(s: Seq<u64>) -> int
    decreases s.len(),
{
    if s.len() == 0 {
        0
    } else {
        total(s.drop_last()) + s.last()
    }
}

/// The index into `n` ascending durations that the `percent`-th percentile
/// reads: `percent * n / 100` rounded half up, less one when above zero, and
/// kept below `n`.
pub open spec fn percentile_index(percent: nat, n: nat) -> int {
    let rounded = (percent * n + 50) / 100;
    let lowered = if rounded > 0 {
        rounded - 1
    } else {
        0
    };
    if lowered >= n {
        n - 1
    } else {
        lowered
    }
}

proof fn lemma_ascending_order()
    ensures
        total_ordering(shorter_or_equal()),
{
}

proof fn lemma_ascending(s: Seq<u64>)
    ensures
        total_ordering(shorter_or_equal()),
        sorted_by(ascending(s), shorter_or_equal()),
        ascending(s).to_multiset() == s.to_multiset(),
        ascending(s).len() == s.len(),
        forall|x: u64| ascending(s).contains(x) <==> s.contains(x),
{
    broadcast use group_to_multiset_ensures;

    s.lemma_sort_by_ensures(shorter_or_equal());
    assert(ascending(s).to_multiset().len() == s.to_multiset().len());
    assert forall|x: u64| ascending(s).contains(x) <==> s.contains(x) by {
        assert(ascending(s).to_multiset().count(x) == s.to_multiset().count(x));
    }
}

proof fn lemma_total_bound(s: Seq<u64>)
    ensures
        0 <= total(s) <= s.len() * (u64::MAX as int),
    decreases s.len(),
{
    if s.len() > 0 {
        lemma_total_bound(s.drop_last());
        assert(s.len() * (u64::MAX as int) == (s.len() - 1) * (u64::MAX as int) + u64::MAX) by (nonlinear_arith);
    }
}

/// The calls of one function: its name, each duration in arrival order, the
/// same durations sorted ascending, and their sum.
#[derive(Debug)]
pub struct StatisticsRecord {
    name: String,
    calls: Vec<u64>,
    sorted: Vec<u64>,
    overall_time: u128,
}

impl StatisticsRecord {
    pub closed spec fn label(&self) -> Seq<char> {
        self.name@
    }

    /// The recorded durations, in arrival order.
    pub closed spec fn durations(&self) -> Seq<u64> {
        self.calls@
    }

    pub closed spec fn wf(&self) -> bool {
        &&& self.sorted@ == ascending(self.calls@)
        &&& self.overall_time == total(self.calls@)
    }

    pub fn new(name: String) -> (r: StatisticsRecord)
        ensures
            r.wf(),
            r.label() == name@,
            r.durations() == Seq::<u64>::empty(),
    {
        let r = StatisticsRecord { name, calls: Vec::new(), sorted: Vec::new(), overall_time: 0 };
        proof {
            let e = Seq::<u64>::empty();
            lemma_ascending(e);
            assert(ascending(e) =~= e);
        }
        r
    }

    /// Records one more call of `duration` microseconds.
    pub fn add_call(&mut self, duration: u64)
        requires
            old(self).wf(),
        ensures
            final(self).wf(),
            final(self).label() == old(self).label(),
            final(self).durations() == old(self).durations().push(duration),
    {
        let count = self.calls.len();
        proof {
            lemma_total_bound(self.calls@);
            let t = total(self.calls@);
            assert(t + u64::MAX <= u128::MAX) by (nonlinear_arith)
                requires
                    0 <= t <= count * (u64::MAX as int),
                    count <= usize::MAX,
            ;
        }
        let n = self.sorted.len();
        let mut pos: usize = 0;
        while pos < n && self.sorted[pos] <= duration
            invariant
                n == self.sorted@.len(),
                self.wf(),
                *self == *old(self),
                0 <= pos <= n,
                forall|a: int| 0 <= a < pos ==> self.sorted@[a] <= duration,
            decreases n - pos,
        {
            pos += 1;
        }
        let ghost before = self.sorted@;
        self.sorted.insert(pos, duration);
        self.calls.push(duration);
        self.overall_time = self.overall_time + duration as u128;
        proof {
            let leq = shorter_or_equal();
            lemma_ascending_order();
            broadcast use group_to_multiset_ensures;
            old(self).calls@.lemma_sort_by_ensures(leq);
            self.calls@.lemma_sort_by_ensures(leq);
            assert(sorted_by(before, leq));
            let after = self.sorted@;
            assert(after == before.insert(pos as int, duration));
            assert forall|i: int, j: int| 0 <= i < j < after.len() implies #[trigger] leq(after[i], after[j]) by {
                if j < pos {
                    assert(leq(before[i], before[j]));
                } else if j == pos {
                } else if i < pos {
                    assert(before[j - 1] >= duration ==> after[i] <= after[j]);
                    if pos < n {
                        assert(leq(before[pos as int], before[j - 1]) || pos == j - 1);
                    }
                } else if i == pos {
                    assert(leq(before[pos as int], before[j - 1]) || pos == j - 1);
                } else {
                    assert(leq(before[i - 1], before[j - 1]));
                }
            }
            assert(after.to_multiset() == before.to_multiset().insert(duration));
            assert(self.calls@ == old(self).calls@.push(duration));
            lemma_sorted_unique(after, ascending(self.calls@), leq);
            assert(self.calls@.drop_last() == old(self).calls@);
        }
    }

    pub closed spec fn overall(&self) -> u128 {
        self.overall_time
    }

    pub fn name(&self) -> (r: &String)
        ensures
            r@ == self.label(),
    {
        &self.name
    }

    /// How many calls were recorded.
    pub fn call_count(&self) -> (r: usize)
        ensures
            r == self.durations().len(),
    {
        self.calls.len()
    }

    /// The sum of the recorded durations, in microseconds.
    pub fn overall_time(&self) -> (r: u128)
        requires
            self.wf(),
        ensures
            r == total(self.durations()),
    {
        self.overall_time
    }

    /// The mean duration, rounded down.
    pub fn avg(&self) -> (r: u64)
        requires
            self.wf(),
            self.durations().len() > 0,
        ensures
            r == total(self.durations()) / (self.durations().len() as int),
    {
        proof {
            lemma_total_bound(self.calls@);
            let n = self.calls@.len() as int;
            let t = total(self.calls@);
            assert(t / n <= u64::MAX) by (nonlinear_arith)
                requires
                    0 <= t <= n * (u64::MAX as int),
                    n > 0,
            ;
        }
        (self.overall_time / self.calls.len() as u128) as u64
    }

    /// The duration at the `percent`-th percentile of the recorded calls,
    /// or `None` when there are none.
    pub fn nth_percentile_time(&self, percent: u32) -> (r: Option<u64>)
        requires
            self.wf(),
        ensures
            self.durations().len() == 0 ==> r == None::<u64>,
            self.durations().len() > 0 ==> r == Some(
                ascending(self.durations())[percentile_index(percent as nat, self.durations().len())],
            ),
    {
        let n = self.sorted.len();
        proof {
            lemma_ascending(self.calls@);
        }
        if n == 0 {
            return None;
        }
        assert(percent as u128 * n as u128 + 50 <= u128::MAX) by (nonlinear_arith)
            requires
                percent <= u32::MAX,
                n <= usize::MAX,
        ;
        let rounded: u128 = (percent as u128 * n as u128 + 50) / 100;
        let lowered: u128 = if rounded > 0 {
            rounded - 1
        } else {
            0
        };
        let index: usize = if lowered >= n as u128 {
            n - 1
        } else {
            lowered as usize
        };
        Some(self.sorted[index])
    }
}

/// Whether `stats` reports `events`: one record for each function with at
/// least one finished call, holding that function's durations in arrival
/// order, the records ordered from the largest overall time down.
pub open spec fn is_report(stats: Seq<StatisticsRecord>, events: Seq<TraceRecord>) -> bool {
    &&& forall|j: int|
        0 <= j < stats.len() ==> (#[trigger] stats[j]).wf() && stats[j].durations() == durations_of(
            events,
            stats[j].label(),
        )
    &&& forall|j: int, k: int|
        0 <= j < k < stats.len() ==> (#[trigger] stats[j]).label() != (#[trigger] stats[k]).label()
    &&& forall|name: Seq<char>|
        (#[trigger] durations_of(events, name)).len() > 0 <==> exists|j: int|
            0 <= j < stats.len() && (#[trigger] stats[j]).label() == name
    &&& forall|j: int, k: int|
        0 <= j < k < stats.len() ==> total((#[trigger] stats[j]).durations()) >= total(
            (#[trigger] stats[k]).durations(),
        )
}

fn position_of(stats: &Vec<StatisticsRecord>, name: &String) -> (r: Option<usize>)
    ensures
        match r {
            Some(j) => j < stats@.len() && stats@[j as int].label() == name@,
            None => forall|j: int| 0 <= j < stats@.len() ==> (#[trigger] stats@[j]).label() != name@,
        },
{
    let n = stats.len();
    let mut j: usize = 0;
    while j < n
        invariant
            n == stats@.len(),
            0 <= j <= n,
            forall|k: int| 0 <= k < j ==> (#[trigger] stats@[k]).label() != name@,
        decreases n - j,
    {
        if stats[j].name == *name {
            return Some(j);
        }
        j += 1;
    }
    None
}

proof fn lemma_durations_step(events: Seq<TraceRecord>, i: int, name: Seq<char>)
    requires
        0 <= i < events.len(),
    ensures
        durations_of(events.take(i + 1), name) == match events[i].phase {
            Phase::Finish(d) => if events[i].function_name@ == name {
                durations_of(events.take(i), name).push(d)
            } else {
                durations_of(events.take(i), name)
            },
            Phase::Start => durations_of(events.take(i), name),
        },
{
    assert(events.take(i + 1).drop_last() =~= events.take(i));
}

/// Groups the finished calls of `records` by function name, in order of
/// first appearance.
fn group_by_name(records: &[TraceRecord]) -> (r: Vec<StatisticsRecord>)
    ensures
        forall|j: int|
            0 <= j < r@.len() ==> (#[trigger] r@[j]).wf() && r@[j].durations() == durations_of(
                records@,
                r@[j].label(),
            ),
        forall|j: int, k: int|
            0 <= j < k < r@.len() ==> (#[trigger] r@[j]).label() != (#[trigger] r@[k]).label(),
        forall|name: Seq<char>|
            (#[trigger] durations_of(records@, name)).len() > 0 <==> exists|j: int|
                0 <= j < r@.len() && (#[trigger] r@[j]).label() == name,
{
    let mut stats: Vec<StatisticsRecord> = Vec::new();
    let n = records.len();
    let mut i: usize = 0;
    while i < n
        invariant
            n == records@.len(),
            0 <= i <= n,
            forall|j: int|
                0 <= j < stats@.len() ==> (#[trigger] stats@[j]).wf() && stats@[j].durations()
                    == durations_of(records@.take(i as int), stats@[j].label()),
            forall|j: int, k: int|
                0 <= j < k < stats@.len() ==> (#[trigger] stats@[j]).label() != (#[trigger] stats@[k]).label(),
            forall|name: Seq<char>|
                (#[trigger] durations_of(records@.take(i as int), name)).len() > 0 <==> exists|j: int|
                    0 <= j < stats@.len() && (#[trigger] stats@[j]).label() == name,
        decreases n - i,
    {
        let ghost pre = stats@;
        let ghost before = records@.take(i as int);
        let ghost after = records@.take(i + 1);
        proof {
            assert forall|name: Seq<char>| #[trigger] durations_of(after, name) == match records@[i as int].phase {
                Phase::Finish(d) => if records@[i as int].function_name@ == name {
                    durations_of(before, name).push(d)
                } else {
                    durations_of(before, name)
                },
                Phase::Start => durations_of(before, name),
            } by {
                lemma_durations_step(records@, i as int, name);
            }
        }
        match records[i].phase {
            Phase::Finish(d) => {
                let name = &records[i].function_name;
                match position_of(&stats, name) {
                    Some(j) => {
                        stats[j].add_call(d);
                        proof {
                            assert forall|k: int| 0 <= k < stats@.len() && k != j implies stats@[k] == pre[k] by {}
                            assert forall|m: Seq<char>|
                                (#[trigger] durations_of(after, m)).len() > 0 <==> exists|k: int|
                                    0 <= k < stats@.len() && (#[trigger] stats@[k]).label() == m by {
                                if durations_of(before, m).len() > 0 {
                                    let k = choose|k: int| 0 <= k < pre.len() && (#[trigger] pre[k]).label() == m;
                                    assert(stats@[k].label() == m);
                                }
                                if exists|k: int| 0 <= k < stats@.len() && (#[trigger] stats@[k]).label() == m {
                                    let k = choose|k: int| 0 <= k < stats@.len() && (#[trigger] stats@[k]).label() == m;
                                    assert(pre[k].label() == m);
                                }
                            }
                        }
                    },
                    None => {
                        let mut fresh = StatisticsRecord::new(name.clone());
                        fresh.add_call(d);
                        stats.push(fresh);
                        proof {
                            assert(durations_of(before, name@).len() == 0);
                            assert(fresh.durations() =~= durations_of(before, name@).push(d));
                            assert forall|m: Seq<char>|
                                (#[trigger] durations_of(after, m)).len() > 0 <==> exists|k: int|
                                    0 <= k < stats@.len() && (#[trigger] stats@[k]).label() == m by {
                                if durations_of(before, m).len() > 0 {
                                    let k = choose|k: int| 0 <= k < pre.len() && (#[trigger] pre[k]).label() == m;
                                    assert(stats@[k].label() == m);
                                }
                                if m == name@ {
                                    assert(stats@[pre.len() as int].label() == m);
                                }
                                if exists|k: int| 0 <= k < stats@.len() && (#[trigger] stats@[k]).label() == m {
                                    let k = choose|k: int| 0 <= k < stats@.len() && (#[trigger] stats@[k]).label() == m;
                                    if k < pre.len() {
                                        assert(pre[k].label() == m);
                                    }
                                }
                            }
                        }
                    },
                }
            },
            Phase::Start => {},
        }
        i += 1;
    }
    proof {
        assert(records@.take(n as int) =~= records@);
    }
    stats
}

/// How the records placed so far relate to `g`: `out[p]` is `g[src[p]]`,
/// `g[q]` sits at `dst[q]` for each `q` from `m` on, and `out` runs from the
/// largest overall time down.
spec fn placed(
    g: Seq<StatisticsRecord>,
    m: int,
    out: Seq<StatisticsRecord>,
    src: Seq<int>,
    dst: Seq<int>,
) -> bool {
    &&& 0 <= m <= g.len()
    &&& out.len() + m == g.len()
    &&& src.len() == out.len()
    &&& dst.len() == g.len()
    &&& forall|p: int|
        0 <= p < out.len() ==> m <= #[trigger] src[p] < g.len() && out[p] == g[src[p]] && dst[src[p]] == p
    &&& forall|q: int| m <= q < g.len() ==> 0 <= #[trigger] dst[q] < out.len() && src[dst[q]] == q
    &&& forall|j: int, k: int|
        0 <= j < k < out.len() ==> (#[trigger] out[j]).overall() >= (#[trigger] out[k]).overall()
}

proof fn lemma_place(
    g: Seq<StatisticsRecord>,
    m: int,
    out: Seq<StatisticsRecord>,
    src: Seq<int>,
    dst: Seq<int>,
    pos: int,
) -> (maps: (Seq<int>, Seq<int>))
    requires
        placed(g, m, out, src, dst),
        m > 0,
        0 <= pos <= out.len(),
        forall|a: int| 0 <= a < pos ==> (#[trigger] out[a]).overall() >= g[m - 1].overall(),
        pos < out.len() ==> out[pos].overall() < g[m - 1].overall(),
    ensures
        placed(g, m - 1, out.insert(pos, g[m - 1]), maps.0, maps.1),
{
    let x = g[m - 1];
    let post = out.insert(pos, x);
    let src2 = src.insert(pos, m - 1);
    let dst2 = Seq::new(
        dst.len(),
        |q: int|
            if q == m - 1 {
                pos
            } else if dst[q] >= pos {
                dst[q] + 1
            } else {
                dst[q]
            },
    );
    assert forall|p: int| 0 <= p < post.len() implies m - 1 <= #[trigger] src2[p] < g.len() && post[p]
        == g[src2[p]] && dst2[src2[p]] == p by {
        if p < pos {
            assert(src2[p] == src[p]);
        } else if p > pos {
            assert(src2[p] == src[p - 1]);
        }
    }
    assert forall|q: int| m - 1 <= q < g.len() implies 0 <= #[trigger] dst2[q] < post.len() && src2[dst2[q]] == q by {
        if q >= m {
            assert(src[dst[q]] == q);
        }
    }
    assert forall|j: int, k: int| 0 <= j < k < post.len() implies (#[trigger] post[j]).overall() >= (
    #[trigger] post[k]).overall() by {
        if j == pos {
            assert(post[k] == out[k - 1]);
            if pos < out.len() {
                assert(out[pos].overall() >= out[k - 1].overall() || k - 1 == pos);
            }
        } else if k == pos {
            assert(post[j] == out[j]);
        } else {
            let jj = if j < pos { j } else { j - 1 };
            let kk = if k < pos { k } else { k - 1 };
            assert(post[j] == out[jj]);
            assert(post[k] == out[kk]);
        }
    }
    (src2, dst2)
}

/// Orders the groups of `events` from the largest overall time down.
fn order_by_overall(grouped: Vec<StatisticsRecord>, Ghost(events): Ghost<Seq<TraceRecord>>) -> (r: Vec<
    StatisticsRecord,
>)
    requires
        forall|j: int|
            0 <= j < grouped@.len() ==> (#[trigger] grouped@[j]).wf() && grouped@[j].durations()
                == durations_of(events, grouped@[j].label()),
        forall|j: int, k: int|
            0 <= j < k < grouped@.len() ==> (#[trigger] grouped@[j]).label() != (#[trigger] grouped@[k]).label(),
        forall|name: Seq<char>|
            (#[trigger] durations_of(events, name)).len() > 0 <==> exists|j: int|
                0 <= j < grouped@.len() && (#[trigger] grouped@[j]).label() == name,
    ensures
        is_report(r@, events),
{
    let ghost g = grouped@;
    let mut rest = grouped;
    let mut out: Vec<StatisticsRecord> = Vec::new();
    let ghost mut src: Seq<int> = Seq::empty();
    let ghost mut dst: Seq<int> = Seq::new(g.len(), |q: int| 0);
    while rest.len() > 0
        invariant
            rest@ == g.take(rest@.len() as int),
            placed(g, rest@.len() as int, out@, src, dst),
        decreases rest@.len(),
    {
        let ghost m = rest@.len() as int;
        let x = match rest.pop() {
            Some(x) => x,
            None => {
                return out;
            },
        };
        assert(x == g[m - 1]);
        assert(rest@ =~= g.take(m - 1));
        let n = out.len();
        let mut pos: usize = 0;
        while pos < n && out[pos].overall_time >= x.overall_time
            invariant
                n == out@.len(),
                0 <= pos <= n,
                forall|a: int| 0 <= a < pos ==> (#[trigger] out@[a]).overall() >= x.overall(),
            decreases n - pos,
        {
            pos += 1;
        }
        proof {
            let maps = lemma_place(g, m, out@, src, dst, pos as int);
            src = maps.0;
            dst = maps.1;
        }
        out.insert(pos, x);
    }
    proof {
        assert forall|j: int| 0 <= j < out@.len() implies (#[trigger] out@[j]).wf() && out@[j].durations()
            == durations_of(events, out@[j].label()) by {
            assert(out@[j] == g[src[j]]);
        }
        assert forall|j: int, k: int| 0 <= j < k < out@.len() implies (#[trigger] out@[j]).label() != (
        #[trigger] out@[k]).label() by {
            assert(out@[j] == g[src[j]]);
            assert(out@[k] == g[src[k]]);
            assert(dst[src[j]] == j && dst[src[k]] == k);
            if src[j] < src[k] {
                assert(g[src[j]].label() != g[src[k]].label());
            } else {
                assert(g[src[k]].label() != g[src[j]].label());
            }
        }
        assert forall|name: Seq<char>|
            (#[trigger] durations_of(events, name)).len() > 0 <==> exists|j: int|
                0 <= j < out@.len() && (#[trigger] out@[j]).label() == name by {
            if durations_of(events, name).len() > 0 {
                let q = choose|q: int| 0 <= q < g.len() && (#[trigger] g[q]).label() == name;
                assert(src[dst[q]] == q);
                assert(out@[dst[q]].label() == name);
            }
            if exists|j: int| 0 <= j < out@.len() && (#[trigger] out@[j]).label() == name {
                let j = choose|j: int| 0 <= j < out@.len() && (#[trigger] out@[j]).label() == name;
                assert(out@[j] == g[src[j]]);
                assert(g[src[j]].label() == name);
            }
        }
        assert forall|j: int, k: int| 0 <= j < k < out@.len() implies total((#[trigger] out@[j]).durations())
            >= total((#[trigger] out@[k]).durations()) by {
            assert(out@[j] == g[src[j]]);
            assert(out@[k] == g[src[k]]);
        }
    }
    out
}

/// Per-function statistics of the finished calls in `records`, the function
/// with the largest overall time first.
pub fn collect_statistics(records: &[TraceRecord]) -> (r: Vec<StatisticsRecord>)
    ensures
        is_report(r@, records@),
{
    let grouped = group_by_name(records);
    order_by_overall(grouped, Ghost(records@))
}

/// A duration in microseconds, as it stands in a report cell.
pub open spec fn micros_text(n: int) -> Seq<char> {
    decimal(n as nat) + "us"@
}

/// The duration at the `percent`-th percentile of `d`.
pub open spec fn percentile_of(d: Seq<u64>, percent: nat) -> u64 {
    ascending(d)[percentile_index(percent, d.len())]
}

pub open spec fn header_cells() -> Seq<Seq<char>> {
    seq![
        "function name"@,
        "calls"@,
        "overall time"@,
        "avg time"@,
        "max time"@,
        "p90 time"@,
        "p50 time"@,
        "p10 time"@,
    ]
}

/// The cells of one report row: name (escape characters written `^[`), number of calls, overall time, mean,
/// and the 100th, 90th, 50th and 10th percentiles.
pub open spec fn row_cells(s: StatisticsRecord) -> Seq<Seq<char>> {
    let d = s.durations();
    seq![
        visible(s.label()),
        decimal(d.len()),
        micros_text(total(d)),
        micros_text(total(d) / (d.len() as int)),
        micros_text(percentile_of(d, 100) as int),
        micros_text(percentile_of(d, 90) as int),
        micros_text(percentile_of(d, 50) as int),
        micros_text(percentile_of(d, 10) as int),
    ]
}

/// A header row, then one row for each record, in order.
pub open spec fn report_rows(stats: Seq<StatisticsRecord>) -> Seq<Seq<Seq<char>>> {
    seq![header_cells()] + stats.map_values(|s: StatisticsRecord| row_cells(s))
}

/// What the table renderer prints for the given rows of cells.
pub uninterp spec fn table_text(rows: Seq<Seq<Seq<char>>>) -> Seq<char>;

/// Relies on prettytable's `Table::from` and its `Display` impl: the rows are
/// laid out as a text table whose layout depends on the cells alone. A cell
/// holding an escape character can make `Cell::new` fail an assertion while
/// measuring its width, so none may hold one.
#[verifier::external_body]
fn render_table(rows: &Vec<Vec<String>>) -> (r: String)
    requires
        forall|i: int, j: int|
            0 <= i < rows.deep_view().len() && 0 <= j < rows.deep_view()[i].len() ==> free_of_escape(
                #[trigger] rows.deep_view()[i][j],
            ),
    ensures
        r@ == table_text(rows.deep_view()),
{
    prettytable::Table::from(rows).to_string()
}

fn micros_cell(n: u128) -> (r: String)
    ensures
        r@ == micros_text(n as int),
{
    let mut out = String::new();
    push_decimal(&mut out, n);
    out.append("us");
    out
}

fn header_row() -> (r: Vec<String>)
    ensures
        r.deep_view() == header_cells(),
{
    let mut row: Vec<String> = Vec::new();
    row.push(String::from_str("function name"));
    row.push(String::from_str("calls"));
    row.push(String::from_str("overall time"));
    row.push(String::from_str("avg time"));
    row.push(String::from_str("max time"));
    row.push(String::from_str("p90 time"));
    row.push(String::from_str("p50 time"));
    row.push(String::from_str("p10 time"));
    assert(row.deep_view() =~= header_cells());
    row
}

fn report_row(s: &StatisticsRecord) -> (r: Vec<String>)
    requires
        s.wf(),
        s.durations().len() > 0,
    ensures
        r.deep_view() == row_cells(*s),
{
    let mut row: Vec<String> = Vec::new();
    let mut name = String::new();
    push_visible(&mut name, s.name.as_str());
    row.push(name);
    let mut calls = String::new();
    push_decimal(&mut calls, s.calls.len() as u128);
    row.push(calls);
    row.push(micros_cell(s.overall_time));
    row.push(micros_cell(s.avg() as u128));
    let percents: [u32; 4] = [100, 90, 50, 10];
    let mut k: usize = 0;
    while k < 4
        invariant
            s.wf(),
            s.durations().len() > 0,
            0 <= k <= 4,
            percents@ == seq![100u32, 90u32, 50u32, 10u32],
            row@.len() == 4 + k,
            forall|c: int| 0 <= c < 4 + k ==> (#[trigger] row@[c])@ == row_cells(*s)[c],
        decreases 4 - k,
    {
        let value = match s.nth_percentile_time(percents[k]) {
            Some(v) => v,
            None => 0,
        };
        row.push(micros_cell(value as u128));
        k += 1;
    }
    assert(row.deep_view() =~= row_cells(*s));
    row
}

/// The rows of a report on `stats`: a header, then one row per record.
pub fn report_rows_of(stats: &Vec<StatisticsRecord>) -> (r: Vec<Vec<String>>)
    requires
        forall|j: int| 0 <= j < stats@.len() ==> (#[trigger] stats@[j]).wf() && stats@[j].durations().len() > 0,
    ensures
        r.deep_view() == report_rows(stats@),
{
    let mut rows: Vec<Vec<String>> = Vec::new();
    rows.push(header_row());
    let n = stats.len();
    let mut j: usize = 0;
    while j < n
        invariant
            n == stats@.len(),
            0 <= j <= n,
            forall|k: int| 0 <= k < stats@.len() ==> (#[trigger] stats@[k]).wf() && stats@[k].durations().len() > 0,
            rows.deep_view() == report_rows(stats@.take(j as int)),
        decreases n - j,
    {
        let ghost pre = rows.deep_view();
        let row = report_row(&stats[j]);
        rows.push(row);
        proof {
            let f = |s: StatisticsRecord| row_cells(s);
            assert(stats@.take(j + 1) =~= stats@.take(j as int).push(stats@[j as int]));
            assert(stats@.take(j + 1).map_values(f) =~= stats@.take(j as int).map_values(f).push(row_cells(stats@[j as int])));
            assert(rows.deep_view() =~= pre.push(row_cells(stats@[j as int])));
            assert(rows.deep_view() =~= report_rows(stats@.take(j + 1)));
        }
        j += 1;
    }
    assert(stats@.take(n as int) =~= stats@);
    rows
}

proof fn lemma_report_free_of_escape(stats: Seq<StatisticsRecord>)
    ensures
        forall|i: int, j: int|
            0 <= i < report_rows(stats).len() && 0 <= j < report_rows(stats)[i].len() ==> free_of_escape(
                #[trigger] report_rows(stats)[i][j],
            ),
{
    reveal_strlit("us");
    reveal_strlit("function name");
    reveal_strlit("calls");
    reveal_strlit("overall time");
    reveal_strlit("avg time");
    reveal_strlit("max time");
    reveal_strlit("p90 time");
    reveal_strlit("p50 time");
    reveal_strlit("p10 time");
    assert forall|n: int| #![trigger micros_text(n)] free_of_escape(micros_text(n)) by {
        lemma_decimal_free_of_escape(n as nat);
    }
    assert forall|j: int| 0 <= j < header_cells().len() implies free_of_escape(#[trigger] header_cells()[j]) by {}
    assert forall|k: int, j: int| 0 <= k < stats.len() && 0 <= j < 8 implies free_of_escape(
        #[trigger] row_cells(stats[k])[j],
    ) by {
        lemma_visible_free_of_escape(stats[k].label());
        lemma_decimal_free_of_escape(stats[k].durations().len());
    }
    assert forall|i: int, j: int|
        0 <= i < report_rows(stats).len() && 0 <= j < report_rows(stats)[i].len() implies free_of_escape(
        #[trigger] report_rows(stats)[i][j],
    ) by {
        if i > 0 {
            assert(report_rows(stats)[i] == row_cells(stats[i - 1]));
        }
    }
}

/// Renders `stats` as a text table.
pub fn statistics_table(stats: &Vec<StatisticsRecord>) -> (r: String)
    requires
        forall|j: int| 0 <= j < stats@.len() ==> (#[trigger] stats@[j]).wf() && stats@[j].durations().len() > 0,
    ensures
        r@ == table_text(report_rows(stats@)),
{
    let rows = report_rows_of(stats);
    proof {
        lemma_report_free_of_escape(stats@);
    }
    render_table(&rows)
}

proof fn lemma_report_rows_ready(stats: Seq<StatisticsRecord>, events: Seq<TraceRecord>)
    requires
        is_report(stats, events),
    ensures
        forall|j: int| 0 <= j < stats.len() ==> (#[trigger] stats[j]).wf() && stats[j].durations().len() > 0,
{
    assert forall|j: int| 0 <= j < stats.len() implies (#[trigger] stats[j]).wf() && stats[j].durations().len() > 0 by {
        let name = stats[j].label();
        assert(exists|k: int| 0 <= k < stats.len() && (#[trigger] stats[k]).label() == name);
        assert(durations_of(events, name).len() > 0);
    }
}

/// Whether `text` is the table of a statistics report of `events`.
pub open spec fn table_of(events: Seq<TraceRecord>, text: Seq<char>) -> bool {
    exists|stats: Seq<StatisticsRecord>| is_report(stats, events) && text == table_text(report_rows(stats))
}

/// The statistics of `hops` as a text table, the function with the largest
/// overall time first.
pub fn from(hops: &[Hop]) -> (r: String)
    ensures
        table_of(hops@, r@),
{
    let stats = collect_statistics(hops);
    proof {
        lemma_report_rows_ready(stats@, hops@);
    }
    statistics_table(&stats)
}

/// Drains a buffer into per-function statistics.
pub trait StatisticsExt {
    spec fn queued(&self) -> Seq<TraceRecord>;

    fn get_statistics(&mut self) -> (r: Vec<StatisticsRecord>)
        ensures
            is_report(r@, old(self).queued()),
            final(self).queued() == Seq::<TraceRecord>::empty(),
    ;
}

impl StatisticsExt for RecordBuffer {
    open spec fn queued(&self) -> Seq<TraceRecord> {
        self@
    }

    fn get_statistics(&mut self) -> (r: Vec<StatisticsRecord>) {
        let records = self.drain();
        collect_statistics(records.as_slice())
    }
}

/// Whether `e` is a finish event of the function `name`.
pub open spec fn finishes(e: TraceRecord, name: Seq<char>) -> bool {
    e.function_name@ == name && e.phase is Finish
}

/// How many finish events of the function `name` are in `events`.
pub open spec fn finish_count(events: Seq<TraceRecord>, name: Seq<char>) -> nat {
    events.filter(|e: TraceRecord| finishes(e, name)).len()
}

proof fn lemma_durations_count(events: Seq<TraceRecord>, name: Seq<char>)
    ensures
        durations_of(events, name).len() == finish_count(events, name),
    decreases events.len(),
{
    if events.len() > 0 {
        let rest = events.drop_last();
        lemma_durations_count(rest, name);
        assert(events == rest.push(events.last()));
        rest.lemma_filter_push(events.last(), |e: TraceRecord| finishes(e, name));
    }
}

/// In a statistics report, the number of calls of each function is the
/// number of its finish events, and a function with no finish event has no
/// record.
pub proof fn lemma_call_count(stats: Seq<StatisticsRecord>, events: Seq<TraceRecord>)
    requires
        is_report(stats, events),
    ensures
        forall|j: int|
            0 <= j < stats.len() ==> (#[trigger] stats[j]).durations().len() == finish_count(events, stats[j].label()),
        forall|name: Seq<char>|
            (forall|j: int| 0 <= j < stats.len() ==> (#[trigger] stats[j]).label() != name) ==> #[trigger] finish_count(
                events,
                name,
            ) == 0,
{
    assert forall|j: int| 0 <= j < stats.len() implies (#[trigger] stats[j]).durations().len() == finish_count(
        events,
        stats[j].label(),
    ) by {
        lemma_durations_count(events, stats[j].label());
    }
    assert forall|name: Seq<char>|
        (forall|j: int| 0 <= j < stats.len() ==> (#[trigger] stats[j]).label() != name) implies #[trigger] finish_count(
        events,
        name,
    ) == 0 by {
        lemma_durations_count(events, name);
        if durations_of(events, name).len() > 0 {
            let j = choose|j: int| 0 <= j < stats.len() && (#[trigger] stats[j]).label() == name;
        }
    }
}

/// The 100th percentile of non-empty durations is the longest of them and
/// the 0th percentile the shortest.
pub proof fn lemma_extreme_percentiles(d: Seq<u64>)
    requires
        d.len() > 0,
    ensures
        d.contains(percentile_of(d, 100)),
        forall|i: int| 0 <= i < d.len() ==> #[trigger] d[i] <= percentile_of(d, 100),
        d.contains(percentile_of(d, 0)),
        forall|i: int| 0 <= i < d.len() ==> percentile_of(d, 0) <= #[trigger] d[i],
{
    let n = d.len();
    assert((100 * n + 50) / 100 == n) by (nonlinear_arith);
    assert(percentile_index(100, n) == n - 1);
    assert(percentile_index(0, n) == 0);
    let a = ascending(d);
    lemma_ascending(d);
    assert(a.contains(a[n - 1]));
    assert(a.contains(a[0]));
    assert forall|i: int| 0 <= i < n implies #[trigger] d[i] <= percentile_of(d, 100) && percentile_of(d, 0) <= d[i] by {
        assert(d.contains(d[i]));
        let k = choose|k: int| 0 <= k < n && a[k] == d[i];
        if k < n - 1 {
            assert(shorter_or_equal()(a[k], a[n - 1]));
        }
        if k > 0 {
            assert(shorter_or_equal()(a[0], a[k]));
        }
    }
}

} // verus!
