use exercises::logs::{LogEntry, LogLevel};
use exercises::pipeline::{
    mark_processed, passes_filter, produce_entry, producer_level, producer_message, transform_entry, Batcher,
    BATCH_SIZE, ENTRIES_PER_PRODUCER,
};

#[test]
fn producers_cycle_through_levels() {
    let levels: Vec<LogLevel> = (0..7).map(producer_level).collect();
    assert_eq!(
        levels,
        vec![
            LogLevel::Trace,
            LogLevel::Debug,
            LogLevel::Info,
            LogLevel::Warn,
            LogLevel::Error,
            LogLevel::Trace,
            LogLevel::Debug
        ]
    );
}

#[test]
fn producer_messages() {
    assert_eq!(producer_message(2, 17), "producer 2 entry 17");
    assert_eq!(producer_message(-3, 0), "producer -3 entry 0");
    let e = produce_entry(1, 3, 9, 5);
    assert_eq!(e.id(), 9);
    assert_eq!(e.level(), LogLevel::Warn);
    assert_eq!(e.message(), "producer 1 entry 9");
    assert_eq!(e.timestamp_ms(), 5);
}

#[test]
fn filter_drops_trace_and_debug() {
    let keep = |l| passes_filter(&LogEntry::new(0, l, String::new(), 0));
    assert!(!keep(LogLevel::Trace));
    assert!(!keep(LogLevel::Debug));
    assert!(keep(LogLevel::Info));
    assert!(keep(LogLevel::Warn));
    assert!(keep(LogLevel::Error));
}

#[test]
fn transform_uppercases_and_marks() {
    let mut e = LogEntry::new(4, LogLevel::Info, "producer 1 entry 4".to_string(), 8);
    transform_entry(&mut e);
    assert_eq!(e.message(), "PRODUCER 1 ENTRY 4 [processed]");
    assert_eq!(e.id(), 4);
    assert_eq!(e.timestamp_ms(), 8);
}

#[test]
fn batcher_sends_full_batches_and_the_rest() {
    let mut b = Batcher::new();
    let mut sent = Vec::new();
    for i in 0..12u64 {
        if let Some(batch) = b.push(LogEntry::new(i, LogLevel::Info, String::new(), 0)) {
            sent.push(batch);
        }
    }
    assert_eq!(b.pending_len(), 2);
    assert_eq!(sent.len(), 2);
    assert!(sent.iter().all(|s| s.len() == BATCH_SIZE));
    let rest = b.finish().unwrap();
    assert_eq!(rest.len(), 2);
    let ids: Vec<u64> = sent.iter().flatten().chain(rest.iter()).map(|e| e.id()).collect();
    assert_eq!(ids, (0..12).collect::<Vec<u64>>());
    assert!(Batcher::new().finish().is_none());
}

#[test]
fn produced_equals_dropped_plus_written() {
    let mut next_id = 0u64;
    let mut produced = 0usize;
    let mut dropped = 0usize;
    let mut written = 0usize;
    let mut batcher = Batcher::new();
    for thread_id in 1..=3 {
        for log in 0..ENTRIES_PER_PRODUCER {
            let mut e = produce_entry(thread_id, log, next_id, 0);
            next_id += 1;
            produced += 1;
            if passes_filter(&e) {
                transform_entry(&mut e);
                if let Some(batch) = batcher.push(e) {
                    written += batch.len();
                }
            } else {
                dropped += 1;
            }
        }
    }
    if let Some(batch) = batcher.finish() {
        written += batch.len();
    }
    assert_eq!(produced, 60);
    assert_eq!(dropped, 24);
    assert_eq!(written, 36);
    assert_eq!(produced, dropped + written);
}

#[test]
fn mark_processed_appends_the_suffix() {
    let mut e = LogEntry::new(4, LogLevel::Info, "old".to_string(), 8);
    mark_processed(&mut e, "NEW".to_string());
    assert_eq!(e.message(), "NEW [processed]");
    assert_eq!(e.id(), 4);
}
