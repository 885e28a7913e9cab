use vstd::prelude::*;
use vstd::string::*;

use crate::interface::{Hop, RecordBuffer, TraceRecord};
use crate::text::{decimal, json_escape, push_decimal, push_json_escaped};

verus! {

/// One event as a Trace Event Format object, its name escaped as JSON asks.
pub open spec fn record_text(r: TraceRecord) -> Seq<char> {
    "{ \"pid\": 0, \"ts\": "@ + decimal(r.timestamp as nat) + ", \"ph\": \""@ + seq![r.phase.code()]
        + "\", \"name\": \""@ + json_escape(r.function_name@) + "\" }"@
}

/// The first `i` lines of a trace array: each object indented, followed by a
/// comma unless it is the last of `rs`.
pub open spec fn array_lines(rs: Seq<TraceRecord>, i: int) -> Seq<char>
    decreases i,
{
    if i <= 0 {
        Seq::empty()
    } else {
        array_lines(rs, i - 1) + "    "@ + record_text(rs[i - 1]) + (if i == rs.len() {
            Seq::empty()
        } else {
            ","@
        }) + "\n"@
    }
}

/// The whole export of `rs`: a JSON array with one object per event, in order.
pub open spec fn array_text(rs: Seq<TraceRecord>) -> Seq<char> {
    "[\n"@ + array_lines(rs, rs.len() as int) + "]"@
}

/// The objects of the first `i` events, tab-indented and joined by a comma
/// and a newline.
pub open spec fn joined_lines(rs: Seq<TraceRecord>, i: int) -> Seq<char>
    decreases i,
{
    if i <= 0 {
        Seq::empty()
    } else if i == 1 {
        "\t"@ + record_text(rs[0])
    } else {
        joined_lines(rs, i - 1) + ",\n\t"@ + record_text(rs[i - 1])
    }
}

/// The compact export used by sessions: the joined objects between brackets
/// on lines of their own.
pub open spec fn joined_text(rs: Seq<TraceRecord>) -> Seq<char> {
    "[\n"@ + joined_lines(rs, rs.len() as int) + "\n]"@
}

/// Renders one event as a Trace Event Format object.
pub trait ChromeTraceRecordExt {
    spec fn chrome_text(&self) -> Seq<char>;

    fn to_chrome_trace(&self) -> (r: String)
        ensures
            r@ == self.chrome_text(),
    ;
}

impl ChromeTraceRecordExt for TraceRecord {
    open spec fn chrome_text(&self) -> Seq<char> {
        record_text(*self)
    }

    fn to_chrome_trace(&self) -> (r: String) {
        let mut out = String::from_str("{ \"pid\": 0, \"ts\": ");
        push_decimal(&mut out, self.timestamp);
        out.append(", \"ph\": \"");
        let code = self.phase.to_string();
        out.append(code.as_str());
        out.append("\", \"name\": \"");
        push_json_escaped(&mut out, self.function_name.as_str());
        out.append("\" }");
        out
    }
}

/// Renders `hops`, in the order given, as a compact Chrome trace array.
pub fn from(hops: &[Hop]) -> (r: String)
    ensures
        r@ == joined_text(hops@),
{
    let mut out = String::from_str("[\n");
    let n = hops.len();
    let mut i: usize = 0;
    while i < n
        invariant
            n == hops@.len(),
            0 <= i <= n,
            out@ == "[\n"@ + joined_lines(hops@, i as int),
        decreases n - i,
    {
        if i > 0 {
            out.append(",\n\t");
        } else {
            out.append("\t");
        }
        let line = hops[i].to_chrome_trace();
        out.append(line.as_str());
        assert(out@ =~= "[\n"@ + joined_lines(hops@, i + 1));
        i += 1;
    }
    out.append("\n]");
    out
}

/// A drained batch of events, ready for export.
pub struct ChromeTraceResult {
    records: Vec<TraceRecord>,
}

impl View for ChromeTraceResult {
    type V = Seq<TraceRecord>;

    closed spec fn view(&self) -> Seq<TraceRecord> {
        self.records@
    }
}

impl ChromeTraceResult {
    pub fn new(records: Vec<TraceRecord>) -> (r: ChromeTraceResult)
        ensures
            r@ == records@,
    {
        ChromeTraceResult { records }
    }

    /// The events as a JSON array, one object per line, in arrival order.
    pub fn to_chrome_trace(&self) -> (r: String)
        ensures
            r@ == array_text(self@),
    {
        let mut out = String::from_str("[\n");
        let n = self.records.len();
        let mut i: usize = 0;
        while i < n
            invariant
                n == self@.len(),
                0 <= i <= n,
                out@ == "[\n"@ + array_lines(self@, i as int),
            decreases n - i,
        {
            out.append("    ");
            let line = self.records[i].to_chrome_trace();
            out.append(line.as_str());
            if i + 1 < n {
                out.append(",");
            }
            out.append("\n");
            assert(out@ =~= "[\n"@ + array_lines(self@, i + 1));
            i += 1;
        }
        out.append("]");
        out
    }
}

/// Drains a buffer into a batch ready for Chrome trace export.
pub trait ChromeTraceExt {
    spec fn pending(&self) -> Seq<TraceRecord>;

    fn get_chrome_trace(&mut self) -> (r: ChromeTraceResult)
        ensures
            r@ == old(self).pending(),
            final(self).pending() == Seq::<TraceRecord>::empty(),
    ;
}

impl ChromeTraceExt for RecordBuffer {
    open spec fn pending(&self) -> Seq<TraceRecord> {
        self@
    }

    fn get_chrome_trace(&mut self) -> (r: ChromeTraceResult) {
        ChromeTraceResult::new(self.drain())
    }
}

/// A JSON string holding `s`.
pub open spec fn json_string(s: Seq<char>) -> Seq<char> {
    "\""@ + json_escape(s) + "\""@
}

/// A member of a JSON object.
pub open spec fn json_member(key: Seq<char>, value: Seq<char>) -> Seq<char> {
    json_string(key) + ": "@ + value
}

/// `items` separated by `sep`.
pub open spec fn join(items: Seq<Seq<char>>, sep: Seq<char>) -> Seq<char>
    decreases items.len(),
{
    if items.len() == 0 {
        Seq::empty()
    } else if items.len() == 1 {
        items[0]
    } else {
        join(items.drop_last(), sep) + sep + items.last()
    }
}

/// A JSON object with the given members, on one line.
pub open spec fn json_object(members: Seq<Seq<char>>) -> Seq<char> {
    "{ "@ + join(members, ", "@) + " }"@
}

/// The first `i` element lines of a JSON array: each element indented and
/// followed by a comma unless it is the last one.
pub open spec fn json_array_lines(elements: Seq<Seq<char>>, i: int) -> Seq<char>
    decreases i,
{
    if i <= 0 {
        Seq::empty()
    } else {
        json_array_lines(elements, i - 1) + "    "@ + elements[i - 1] + (if i == elements.len() {
            Seq::empty()
        } else {
            ","@
        }) + "\n"@
    }
}

/// A JSON array of `elements`, one per line.
pub open spec fn json_array(elements: Seq<Seq<char>>) -> Seq<char> {
    "[\n"@ + json_array_lines(elements, elements.len() as int) + "]"@
}

/// The Trace Event Format object of an event of process 0.
pub open spec fn event_object(ts: nat, ph: char, name: Seq<char>) -> Seq<char> {
    json_object(
        seq![
            json_member("pid"@, "0"@),
            json_member("ts"@, decimal(ts)),
            json_member("ph"@, json_string(seq![ph])),
            json_member("name"@, json_string(name)),
        ],
    )
}

proof fn lemma_plain_unescaped(s: Seq<char>)
    requires
        forall|i: int| 0 <= i < s.len() ==> 'a' <= #[trigger] s[i] <= 'z',
    ensures
        json_escape(s) == s,
    decreases s.len(),
{
    if s.len() > 0 {
        lemma_plain_unescaped(s.drop_last());
        assert(s =~= s.drop_last().push(s.last()));
    }
}

proof fn lemma_join_four(a: Seq<char>, b: Seq<char>, c: Seq<char>, d: Seq<char>, sep: Seq<char>)
    ensures
        join(seq![a, b, c, d], sep) == a + sep + b + sep + c + sep + d,
{
    let m = seq![a, b, c, d];
    assert(m.drop_last() =~= seq![a, b, c]);
    assert(m.drop_last().drop_last() =~= seq![a, b]);
    assert(m.drop_last().drop_last().drop_last() =~= seq![a]);
    assert(join(seq![a], sep) == a);
    assert(join(seq![a, b], sep) == a + sep + b);
    assert(join(seq![a, b, c], sep) == a + sep + b + sep + c);
}

proof fn lemma_record_is_event_object(r: TraceRecord)
    ensures
        record_text(r) == event_object(r.timestamp as nat, r.phase.code(), r.function_name@),
{
    let q = "\""@;
    let d = decimal(r.timestamp as nat);
    let p = seq![r.phase.code()];
    let n = json_escape(r.function_name@);
    let sep = ", "@;
    reveal_strlit("{ \"pid\": 0, \"ts\": ");
    reveal_strlit(", \"ph\": \"");
    reveal_strlit("\", \"name\": \"");
    reveal_strlit("\" }");
    reveal_strlit("\"");
    reveal_strlit(": ");
    reveal_strlit(", ");
    reveal_strlit("{ ");
    reveal_strlit(" }");
    reveal_strlit("pid");
    reveal_strlit("0");
    reveal_strlit("ts");
    reveal_strlit("ph");
    reveal_strlit("name");
    reveal_strlit("B");
    reveal_strlit("E");
    let p_text = json_escape(p);
    assert(p.drop_last() =~= Seq::<char>::empty());
    assert(json_escape(p) == json_escape(Seq::<char>::empty()) + crate::text::escaped_char(r.phase.code()));
    assert(p_text =~= p);
    lemma_plain_unescaped("pid"@);
    lemma_plain_unescaped("ts"@);
    lemma_plain_unescaped("ph"@);
    lemma_plain_unescaped("name"@);
    let head = "{ "@ + q + "pid"@ + q + ": "@ + "0"@ + sep + q + "ts"@ + q + ": "@;
    let before_ph = sep + q + "ph"@ + q + ": "@ + q;
    let before_name = q + sep + q + "name"@ + q + ": "@ + q;
    let tail = q + " }"@;
    assert(head =~= "{ \"pid\": 0, \"ts\": "@);
    assert(before_ph =~= ", \"ph\": \""@);
    assert(before_name =~= "\", \"name\": \""@);
    assert(tail =~= "\" }"@);
    let m0 = json_member("pid"@, "0"@);
    let m1 = json_member("ts"@, d);
    let m2 = json_member("ph"@, json_string(p));
    let m3 = json_member("name"@, json_string(r.function_name@));
    lemma_join_four(m0, m1, m2, m3, sep);
    let e = event_object(r.timestamp as nat, r.phase.code(), r.function_name@);
    assert(e == "{ "@ + (m0 + sep + m1 + sep + m2 + sep + m3) + " }"@);
    assert(json_string(p) == q + p + q);
    assert(json_string(r.function_name@) == q + n + q);
    assert(e =~= head + d + before_ph + p + before_name + n + tail);
}

/// The Chrome trace export of `rs` is a JSON array whose elements are, in
/// order, the objects `{"pid": 0, "ts", "ph", "name"}` of the events of `rs`,
/// each name a JSON string that holds it.
pub proof fn lemma_export_is_json_array(rs: Seq<TraceRecord>)
    ensures
        array_text(rs) == json_array(
            rs.map_values(|r: TraceRecord| event_object(r.timestamp as nat, r.phase.code(), r.function_name@)),
        ),
{
    let elements = rs.map_values(|r: TraceRecord| event_object(r.timestamp as nat, r.phase.code(), r.function_name@));
    lemma_lines_match(rs, elements, rs.len() as int);
}

proof fn lemma_lines_match(rs: Seq<TraceRecord>, elements: Seq<Seq<char>>, i: int)
    requires
        elements == rs.map_values(|r: TraceRecord| event_object(r.timestamp as nat, r.phase.code(), r.function_name@)),
        0 <= i <= rs.len(),
    ensures
        array_lines(rs, i) == json_array_lines(elements, i),
    decreases i,
{
    if i > 0 {
        lemma_lines_match(rs, elements, i - 1);
        lemma_record_is_event_object(rs[i - 1]);
    }
}

} // verus!
