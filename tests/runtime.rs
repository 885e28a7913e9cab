use timed::chrome_trace;
use timed::statistics::{self, collect_statistics, statistics_table};
use timed::trace::collect;
use timed::{
    Action, ChromeTraceRecordExt, ChromeTraceResult, Phase, RecordBuffer, Registry, StatisticsRecord,
    TimedError, Trace, TraceCollectorChain, TraceRecord,
};

fn hop(name: &str, timestamp: u128, phase: Phase) -> TraceRecord {
    TraceRecord { function_name: name.to_string(), timestamp, phase }
}

fn record_of(durations: &[u64]) -> StatisticsRecord {
    let mut r = StatisticsRecord::new("f".to_string());
    for d in durations {
        r.add_call(*d);
    }
    r
}

#[test]
fn buffer_drains_in_arrival_order() {
    let mut buffer = RecordBuffer::new();
    buffer.add(hop("a", 1, Phase::Start));
    buffer.add(hop("b", 2, Phase::Start));
    let batch = buffer.drain();
    assert_eq!(batch.len(), 2);
    assert_eq!(batch[0].function_name, "a");
    assert_eq!(batch[1].function_name, "b");
    assert!(buffer.drain().is_empty());
}

#[test]
fn chain_copies_to_every_sink() {
    let mut chain = TraceCollectorChain::new();
    chain.chain_output(RecordBuffer::new()).chain_output(RecordBuffer::new());
    chain.collect(&hop("f", 3, Phase::Start));
    let first = chain.drain_output(0);
    assert_eq!(first.len(), 1);
    chain.collect(&hop("g", 4, Phase::Start));
    assert_eq!(chain.drain_output(0).len(), 1);
    let second = chain.drain_output(1);
    assert_eq!(second.len(), 2);
    assert_eq!(second[1].function_name, "g");
}

#[test]
fn single_call_scenario() {
    let t0: u128 = 1_700_000_000_000_000;
    let records = vec![hop("f", t0, Phase::Start), hop("f", t0 + 100_000, Phase::Finish(100_000))];
    let stats = collect_statistics(&records);
    assert_eq!(stats.len(), 1);
    assert_eq!(stats[0].name(), "f");
    assert_eq!(stats[0].call_count(), 1);
    assert_eq!(stats[0].overall_time(), 100_000);
    assert_eq!(stats[0].avg(), 100_000);
    assert_eq!(stats[0].nth_percentile_time(50), Some(100_000));

    let text = ChromeTraceResult::new(records).to_chrome_trace();
    assert_eq!(
        text,
        "[\n    { \"pid\": 0, \"ts\": 1700000000000000, \"ph\": \"B\", \"name\": \"f\" },\n    { \"pid\": 0, \"ts\": 1700000000100000, \"ph\": \"E\", \"name\": \"f\" }\n]"
    );
}

#[test]
fn ninetieth_percentile_of_ten_calls() {
    let r = record_of(&[4000, 1000, 7000, 10000, 2000, 9000, 3000, 8000, 5000, 6000]);
    assert_eq!(r.nth_percentile_time(90), Some(9000));
    assert_eq!(r.nth_percentile_time(50), Some(5000));
    assert_eq!(r.nth_percentile_time(10), Some(1000));
}

#[test]
fn extreme_percentiles_are_max_and_min() {
    let r = record_of(&[30, 10, 20]);
    assert_eq!(r.nth_percentile_time(100), Some(30));
    assert_eq!(r.nth_percentile_time(0), Some(10));
    assert_eq!(r.nth_percentile_time(250), Some(30));
    assert_eq!(record_of(&[]).nth_percentile_time(50), None);
}

#[test]
fn average_rounds_down() {
    let r = record_of(&[1, 2]);
    assert_eq!(r.overall_time(), 3);
    assert_eq!(r.avg(), 1);
    let big = record_of(&[u64::MAX, u64::MAX, 1]);
    assert_eq!(big.overall_time(), 2 * (u64::MAX as u128) + 1);
    assert_eq!(big.avg(), ((2 * (u64::MAX as u128) + 1) / 3) as u64);
}

#[test]
fn call_count_counts_finish_events_only() {
    let records = vec![
        hop("f", 1, Phase::Start),
        hop("f", 2, Phase::Finish(1)),
        hop("g", 3, Phase::Start),
        hop("f", 4, Phase::Start),
        hop("f", 9, Phase::Finish(5)),
    ];
    let stats = collect_statistics(&records);
    assert_eq!(stats.len(), 1);
    assert_eq!(stats[0].call_count(), 2);
    assert!(collect_statistics(&[]).is_empty());
}

#[test]
fn report_is_ordered_by_overall_time() {
    let records = vec![
        hop("fast", 1, Phase::Finish(5)),
        hop("slow", 2, Phase::Finish(50)),
        hop("mid", 3, Phase::Finish(20)),
        hop("fast", 4, Phase::Finish(5)),
    ];
    let stats = collect_statistics(&records);
    let names: Vec<&str> = stats.iter().map(|s| s.name().as_str()).collect();
    assert_eq!(names, vec!["slow", "mid", "fast"]);
    assert_eq!(stats[2].overall_time(), 10);
}

#[test]
fn statistics_table_lists_every_function() {
    let records = vec![hop("alpha", 1, Phase::Finish(1500)), hop("beta", 2, Phase::Finish(20))];
    let text = statistics::from(&records);
    assert!(text.contains("function name"));
    assert!(text.contains("alpha"));
    assert!(text.contains("1500us"));
    assert!(text.contains("+-"));
    let stats = collect_statistics(&records);
    assert_eq!(statistics_table(&stats), text);
}

#[test]
fn compact_chrome_trace() {
    let records = vec![hop("f", 12, Phase::Start), hop("f", 30, Phase::Finish(18))];
    assert_eq!(
        chrome_trace::from(&records),
        "[\n\t{ \"pid\": 0, \"ts\": 12, \"ph\": \"B\", \"name\": \"f\" },\n\t{ \"pid\": 0, \"ts\": 30, \"ph\": \"E\", \"name\": \"f\" }\n]"
    );
    assert_eq!(chrome_trace::from(&[]), "[\n\n]");
    assert_eq!(ChromeTraceResult::new(vec![]).to_chrome_trace(), "[\n]");
}

#[test]
fn orphaned_events_are_exported_as_they_are() {
    let records = vec![hop("g", 0, Phase::Finish(3)), hop("h", 340282366920938463463374607431768211455, Phase::Start)];
    let text = ChromeTraceResult::new(records).to_chrome_trace();
    assert_eq!(
        text,
        "[\n    { \"pid\": 0, \"ts\": 0, \"ph\": \"E\", \"name\": \"g\" },\n    { \"pid\": 0, \"ts\": 340282366920938463463374607431768211455, \"ph\": \"B\", \"name\": \"h\" }\n]"
    );
    assert_eq!(hop("x", 7, Phase::Start).to_chrome_trace(), "{ \"pid\": 0, \"ts\": 7, \"ph\": \"B\", \"name\": \"x\" }");
}

#[test]
fn second_init_is_refused() {
    let mut registry = Registry::new();
    assert!(registry.init_tracing(TraceCollectorChain::new()).is_ok());
    match registry.init_tracing(TraceCollectorChain::new()) {
        Err(e) => {
            assert!(matches!(e, TimedError::TracingInitializationFailed));
            assert_eq!(e.message(), "Tracing can only be initialized once");
        },
        Ok(()) => panic!("second init accepted"),
    }
}

fn initialized_registry() -> Registry {
    let mut registry = Registry::new();
    registry.init_tracing(TraceCollectorChain::new()).unwrap();
    registry
}

#[test]
fn finishing_twice_is_refused() {
    let mut registry = initialized_registry();
    let mut trace = Trace::new_at(&mut registry, "S", 100);
    registry.record(hop("f", 110, Phase::Start));
    let batch = trace.finish_at(&mut registry, 200).unwrap();
    assert_eq!(batch.len(), 3);
    assert_eq!(batch[0].phase, Phase::Start);
    assert_eq!(batch[2].function_name, "S");
    assert_eq!(batch[2].phase, Phase::Finish(100));
    registry.record(hop("g", 210, Phase::Start));
    match trace.finish_at(&mut registry, 300) {
        Err(TimedError::TracingFinishFailed(why)) => assert!(!why.is_empty()),
        _ => panic!("second finish accepted"),
    }
    assert_eq!(registry.drain("S").unwrap().len(), 1);
}

#[test]
fn finishing_before_init_fails() {
    let mut registry = Registry::new();
    let mut trace = Trace::new_at(&mut registry, "S", 100);
    assert!(matches!(trace.finish_at(&mut registry, 150), Err(TimedError::TracingFinishFailed(_))));
    registry.init_tracing(TraceCollectorChain::new()).unwrap();
    assert_eq!(trace.finish_at(&mut registry, 160).unwrap().len(), 2);
}

#[test]
fn finishing_an_unregistered_session_fails() {
    let mut registry = initialized_registry();
    let mut trace = Trace::new_at(&mut registry, "S", 100);
    let mut other = initialized_registry();
    let r = trace.finish_at(&mut other, 150);
    assert!(matches!(r, Err(TimedError::TracingFinishFailed(_))));
    let message = r.err().unwrap().message();
    assert!(message.starts_with("Tracing finish failed: "));
}

#[test]
fn events_reach_every_active_session() {
    let mut registry = initialized_registry();
    let mut a = Trace::new_at(&mut registry, "A", 1);
    let mut b = Trace::new_at(&mut registry, "B", 2);
    registry.record(hop("e", 3, Phase::Start));
    let from_a = a.finish_at(&mut registry, 4).unwrap();
    let from_b = b.finish_at(&mut registry, 5).unwrap();
    assert!(from_a.iter().any(|r| r.function_name == "e"));
    assert!(from_b.iter().any(|r| r.function_name == "e"));
    assert_eq!(from_a.len(), 4);
    assert_eq!(from_b.len(), 3);
}

#[test]
fn clock_end_before_start_gives_zero_duration() {
    let mut registry = Registry::new();
    let trace = Trace::new_at(&mut registry, "S", 500);
    let end = trace.generate_current_end_hop(400);
    assert_eq!(end.phase, Phase::Finish(0));
    assert_eq!(end.timestamp, 400);
}

#[test]
fn chrome_tracing_finishes_the_session() {
    let mut registry = initialized_registry();
    let mut trace = Trace::new_at(&mut registry, "S", 10);
    let text = trace.chrome_tracing_at(&mut registry, 25).unwrap();
    assert_eq!(
        text,
        "[\n\t{ \"pid\": 0, \"ts\": 10, \"ph\": \"B\", \"name\": \"S\" },\n\t{ \"pid\": 0, \"ts\": 25, \"ph\": \"E\", \"name\": \"S\" }\n]"
    );
    assert!(registry.drain("S").unwrap().is_empty());
    assert!(matches!(trace.chrome_tracing_at(&mut registry, 30), Err(TimedError::TracingFinishFailed(_))));
    assert!(matches!(trace.statistics_at(&mut registry, 30), Err(TimedError::TracingFinishFailed(_))));
    assert!(registry.drain("S").unwrap().is_empty());
}

#[test]
fn statistics_finish_the_session() {
    let mut registry = initialized_registry();
    let mut trace = Trace::new_at(&mut registry, "S", 10);
    let table = trace.statistics_at(&mut registry, 55).unwrap();
    assert!(table.contains("S"));
    assert!(table.contains("45us"));
    assert!(registry.drain("S").unwrap().is_empty());
    assert!(trace.statistics_at(&mut registry, 60).is_err());
    assert!(trace.finish_at(&mut registry, 60).is_err());
}

#[test]
fn names_are_escaped_in_chrome_traces() {
    let record = hop("a\"b\\c\nd\u{1}", 1, Phase::Start);
    assert_eq!(
        record.to_chrome_trace(),
        "{ \"pid\": 0, \"ts\": 1, \"ph\": \"B\", \"name\": \"a\\\"b\\\\c\\u000ad\\u0001\" }"
    );
    let text = ChromeTraceResult::new(vec![hop("\u{1f}\u{e9}", 2, Phase::Finish(1))]).to_chrome_trace();
    assert_eq!(text, "[\n    { \"pid\": 0, \"ts\": 2, \"ph\": \"E\", \"name\": \"\\u001f\u{e9}\" }\n]");
}

#[test]
fn escape_characters_are_shown_in_tables() {
    let name = "\u{1b}[\u{644}\u{627}\u{644}\u{627}";
    let text = statistics::from(&[hop(name, 1, Phase::Finish(7))]);
    assert!(text.contains("^[[\u{644}\u{627}\u{644}\u{627}"));
    assert!(!text.contains('\u{1b}'));
}

#[test]
fn registry_begin_and_end_read_the_clock() {
    let mut registry = Registry::new();
    registry.register("R");
    registry.begin("f");
    registry.end("f", 12);
    let batch = registry.drain("R").unwrap();
    assert_eq!(batch.len(), 2);
    assert_eq!(batch[0].phase, Phase::Start);
    assert_eq!(batch[1].phase, Phase::Finish(12));
    assert!(batch[0].timestamp > 1_500_000_000_000_000);
}

#[test]
fn sessions_read_the_clock() {
    let mut registry = initialized_registry();
    let mut trace = Trace::new(&mut registry, "clocked");
    let batch = trace.finish(&mut registry).unwrap();
    assert_eq!(batch.len(), 2);
    assert!(batch[0].timestamp > 1_500_000_000_000_000);
    assert!(batch[1].timestamp >= batch[0].timestamp);
}

#[test]
fn actions_drive_the_registry() {
    let mut registry = Registry::new();
    assert_eq!(collect(&mut registry, Action::Init("T".to_string())), "");
    assert_eq!(collect(&mut registry, Action::Dump("T".to_string())), "");
    collect(&mut registry, Action::Collect(hop("f", 8, Phase::Start)));
    assert_eq!(
        collect(&mut registry, Action::Dump("T".to_string())),
        "[\n    { \"pid\": 0, \"ts\": 8, \"ph\": \"B\", \"name\": \"f\" }\n]"
    );
    assert_eq!(collect(&mut registry, Action::Dump("U".to_string())), "");
}

#[test]
fn registering_again_resets_the_bucket() {
    let mut registry = Registry::new();
    registry.register("R");
    registry.record(hop("f", 1, Phase::Start));
    registry.register("R");
    assert_eq!(registry.drain("R").unwrap().len(), 0);
    assert!(registry.drain("missing").is_none());
    assert!(registry.drain_output(0).is_none());
}

#[test]
fn phase_letters() {
    assert_eq!(Phase::Start.to_string(), "B");
    assert_eq!(Phase::Finish(4).to_string(), "E");
}
