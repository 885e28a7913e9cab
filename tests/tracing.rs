use timed::statistics::statistics_table;
use timed::{
    ChromeTraceExt, Phase, RecordBuffer, Registry, StatisticsExt, TraceCollectorChain, TraceRecord,
};

fn hop(name: &str, timestamp: u128, phase: Phase) -> TraceRecord {
    TraceRecord { function_name: name.to_string(), timestamp, phase }
}

fn inner_sleep(registry: &mut Registry, now: &mut u128) {
    registry.record(hop("inner_sleep", *now, Phase::Start));
    *now += 10_000;
    registry.record(hop("inner_sleep", *now, Phase::Finish(10_000)));
}

fn outer_sleep(registry: &mut Registry, now: &mut u128) {
    let start = *now;
    registry.record(hop("outer_sleep", start, Phase::Start));
    *now += 10_000;
    inner_sleep(registry, now);
    registry.record(hop("outer_sleep", *now, Phase::Finish((*now - start) as u64)));
}

fn traced_registry() -> Registry {
    let mut registry = Registry::new();
    let mut chain = TraceCollectorChain::new();
    chain.chain_output(RecordBuffer::new());
    registry.init_tracing(chain).unwrap();
    registry
}

#[test]
fn test_tracing_statistics() {
    let mut registry = traced_registry();

    println!("Running main");
    let mut now: u128 = 1_000_000;
    outer_sleep(&mut registry, &mut now);

    let mut statistics = RecordBuffer::new();
    for record in registry.drain_output(0).unwrap() {
        statistics.add(record);
    }
    let stats = statistics.get_statistics();
    println!("{}", statistics_table(&stats));

    assert_eq!(stats.len(), 2);
    assert_eq!(stats[0].name(), "outer_sleep");
    assert_eq!(stats[0].call_count(), 1);
    assert_eq!(stats[0].overall_time(), 20_000);
    assert_eq!(stats[1].name(), "inner_sleep");
    assert_eq!(stats[1].overall_time(), 10_000);
}

#[test]
fn test_tracing_chrome_trace() {
    let mut registry = traced_registry();

    println!("Running main");
    let mut now: u128 = 1_000_000;
    outer_sleep(&mut registry, &mut now);

    let mut chrome_trace = RecordBuffer::new();
    for record in registry.drain_output(0).unwrap() {
        chrome_trace.add(record);
    }
    let text = chrome_trace.get_chrome_trace().to_chrome_trace();
    println!("{}", text);

    let expected = "[\n".to_string()
        + "    { \"pid\": 0, \"ts\": 1000000, \"ph\": \"B\", \"name\": \"outer_sleep\" },\n"
        + "    { \"pid\": 0, \"ts\": 1010000, \"ph\": \"B\", \"name\": \"inner_sleep\" },\n"
        + "    { \"pid\": 0, \"ts\": 1020000, \"ph\": \"E\", \"name\": \"inner_sleep\" },\n"
        + "    { \"pid\": 0, \"ts\": 1020000, \"ph\": \"E\", \"name\": \"outer_sleep\" }\n"
        + "]";
    assert_eq!(text, expected);
}

#[test]
fn it_works() {
    assert_eq!(2 + 2, 4);
}

#[test]
fn work2() {
    println!("Calling function add2 by its name");
    let mut registry = Registry::new();
    registry.register("work2");
    registry.record(hop("add2", 5, Phase::Start));
    let sum = 2 + 3;
    registry.record(hop("add2", 7, Phase::Finish(2)));
    assert_eq!(sum, 5);
    let batch = registry.drain("work2").unwrap();
    assert_eq!(batch.len(), 2);
    assert_eq!(batch[1].phase, Phase::Finish(2));
}
