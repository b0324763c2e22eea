use rkui::kafka::assignment::{Assignment, PartitionSelection, StartOffset, Watermarks};
use rkui::kafka::reader::{PollEvent, RawRecord, RecordTimestamp};
use rkui::kafka::service::{render_timestamp, EngineError, Step};
use rkui::kafka::{Kafka, KafkaConfig, MessageType, UiMessage};
use std::collections::VecDeque;

fn reader(partition: Option<&str>, start_offset: Option<i64>, start_from: Option<&str>) -> Kafka {
    let mut cfg = KafkaConfig::default();
    cfg.topic = "events".to_string();
    cfg.message_type = MessageType::Text;
    cfg.partition = partition.map(|s| s.to_string());
    cfg.start_offset = start_offset;
    cfg.start_from = start_from.map(|s| s.to_string());
    match Kafka::new(cfg, None) {
        Ok(k) => k,
        Err(e) => panic!("reader not built: {}", e.message()),
    }
}

fn marks(list: &[(i32, i64, i64)]) -> Vec<Watermarks> {
    list.iter().map(|&(partition, low, high)| Watermarks { partition, low, high }).collect()
}

fn plan(k: &mut Kafka, list: &[(i32, i64, i64)]) -> Vec<Assignment> {
    match k.ensure_assigned(&marks(list)) {
        Ok(Some(a)) => a,
        Ok(None) => panic!("a plan was installed already"),
        Err(e) => panic!("no plan: {}", e.message()),
    }
}

fn rec(partition: i32, offset: i64, ts: i64) -> PollEvent {
    PollEvent::Record(RawRecord {
        partition,
        offset,
        key: Some(format!("k{}", offset).into_bytes()),
        value: Some(format!("v{}-{}", partition, offset).into_bytes()),
        timestamp: RecordTimestamp::CreateTime(ts),
    })
}

/// Runs one batch against a script of poll results; once the script is used up every poll
/// is idle. Returns the answer and the number of polls made.
fn drive(k: &mut Kafka, limit: usize, script: &mut VecDeque<PollEvent>) -> (Step, usize) {
    let mut polls = 0usize;
    let mut step = k.consume_next(limit);
    loop {
        match step {
            Step::Poll => {
                polls += 1;
                assert!(polls < 10_000, "the batch does not end");
                let event = script.pop_front().unwrap_or(PollEvent::Idle);
                step = k.on_poll(event);
            }
            other => return (other, polls),
        }
    }
}

fn batch(step: Step) -> Vec<UiMessage> {
    match step {
        Step::Batch(v) => v,
        Step::Failed(e) => panic!("the batch failed: {}", e.message()),
        Step::Assign => panic!("no plan"),
        Step::Poll => unreachable!(),
    }
}

fn ids(v: &[UiMessage]) -> Vec<String> {
    v.iter().map(|m| m.id.clone()).collect()
}

#[test]
fn merge_oldest_orders_two_partitions_by_timestamp() {
    let mut k = reader(Some("all"), None, Some("oldest"));
    plan(&mut k, &[(0, 0, 3), (1, 0, 3)]);
    let mut script: VecDeque<PollEvent> = vec![
        rec(0, 0, 10),
        rec(0, 1, 30),
        rec(0, 2, 50),
        rec(1, 0, 20),
        rec(1, 1, 40),
        rec(1, 2, 60),
    ]
    .into();
    let (step, _) = drive(&mut k, 6, &mut script);
    let out = batch(step);
    assert_eq!(ids(&out), vec!["0-0", "1-0", "0-1", "1-1", "0-2", "1-2"]);
    let parts: Vec<i32> = out.iter().map(|m| m.partition).collect();
    assert_eq!(parts, vec![0, 1, 0, 1, 0, 1]);
}

#[test]
fn merge_oldest_breaks_ties_by_partition_then_offset() {
    let mut k = reader(None, None, None);
    plan(&mut k, &[(1, 0, 2), (0, 0, 2)]);
    let mut script: VecDeque<PollEvent> =
        vec![rec(1, 0, 7), rec(1, 1, 7), rec(0, 0, 7), rec(0, 1, 7)].into();
    let (step, _) = drive(&mut k, 10, &mut script);
    assert_eq!(ids(&batch(step)), vec!["0-0", "0-1", "1-0", "1-1"]);
}

#[test]
fn records_without_time_sort_last() {
    let mut k = reader(Some("all"), None, None);
    plan(&mut k, &[(0, 0, 1), (1, 0, 1)]);
    let untimed = PollEvent::Record(RawRecord {
        partition: 0,
        offset: 0,
        key: None,
        value: None,
        timestamp: RecordTimestamp::NotAvailable,
    });
    let mut script: VecDeque<PollEvent> = vec![untimed, rec(1, 0, 5)].into();
    let (step, _) = drive(&mut k, 10, &mut script);
    let out = batch(step);
    assert_eq!(ids(&out), vec!["1-0", "0-0"]);
    assert_eq!(out[1].timestamp, "");
    assert_eq!(out[1].key, "");
    assert_eq!(out[1].message, "");
}

#[test]
fn batch_ends_at_the_watermark_and_the_next_is_empty() {
    let mut k = reader(Some("0"), None, None);
    plan(&mut k, &[(0, 0, 3)]);
    let mut script: VecDeque<PollEvent> = vec![rec(0, 0, 1), rec(0, 1, 2), rec(0, 2, 3)].into();
    let (step, polls) = drive(&mut k, 10, &mut script);
    let out = batch(step);
    assert_eq!(ids(&out), vec!["0-0", "0-1", "0-2"]);
    assert_eq!(polls, 3);
    assert!(k.partitions[0].done);
    let (step, polls) = drive(&mut k, 10, &mut script);
    assert!(batch(step).is_empty());
    assert_eq!(polls, 0);
}

#[test]
fn record_past_the_window_is_dropped_and_marks_done() {
    let mut k = reader(Some("0"), None, None);
    plan(&mut k, &[(0, 0, 2)]);
    let mut script: VecDeque<PollEvent> = vec![rec(0, 0, 1), rec(0, 5, 2), rec(0, 1, 3)].into();
    let (step, polls) = drive(&mut k, 10, &mut script);
    assert_eq!(ids(&batch(step)), vec!["0-0"]);
    assert_eq!(polls, 2);
    assert!(k.partitions[0].done);
}

#[test]
fn record_before_the_window_or_of_another_partition_is_dropped() {
    let mut k = reader(Some("0"), Some(5), None);
    let a = plan(&mut k, &[(0, 0, 8)]);
    assert!(matches!(a[0].offset, StartOffset::Offset(5)));
    let mut script: VecDeque<PollEvent> = vec![rec(0, 4, 1), rec(3, 6, 1), rec(0, 5, 2)].into();
    let (step, polls) = drive(&mut k, 1, &mut script);
    assert_eq!(ids(&batch(step)), vec!["0-5"]);
    assert_eq!(polls, 3);
}

#[test]
fn sequential_batch_gives_up_after_twenty_idle_polls() {
    let mut k = reader(Some("0"), None, None);
    plan(&mut k, &[(0, 0, 100)]);
    let mut script: VecDeque<PollEvent> = vec![rec(0, 0, 1)].into();
    let (step, polls) = drive(&mut k, 10, &mut script);
    assert_eq!(ids(&batch(step)), vec!["0-0"]);
    assert_eq!(polls, 21);
}

#[test]
fn sequential_idle_budget_counts_polls_in_a_row() {
    let mut k = reader(Some("0"), None, None);
    plan(&mut k, &[(0, 0, 30)]);
    let mut script: VecDeque<PollEvent> = VecDeque::new();
    for i in 0..30 {
        script.push_back(PollEvent::Idle);
        script.push_back(rec(0, i, i));
    }
    let (step, polls) = drive(&mut k, 30, &mut script);
    let got = ids(&batch(step));
    let want: Vec<String> = (0..30).map(|i| format!("0-{}", i)).collect();
    assert_eq!(got, want);
    assert_eq!(polls, 60);
}

#[test]
fn sequential_idle_run_ends_the_batch_after_a_record() {
    let mut k = reader(Some("0"), None, None);
    plan(&mut k, &[(0, 0, 100)]);
    let mut script: VecDeque<PollEvent> = VecDeque::new();
    for _ in 0..19 {
        script.push_back(PollEvent::Idle);
    }
    script.push_back(rec(0, 0, 1));
    for _ in 0..20 {
        script.push_back(PollEvent::Idle);
    }
    script.push_back(rec(0, 1, 2));
    let (step, polls) = drive(&mut k, 10, &mut script);
    assert_eq!(ids(&batch(step)), vec!["0-0"]);
    assert_eq!(polls, 40);
}

#[test]
fn sequential_batch_stops_at_the_limit() {
    let mut k = reader(Some("0"), None, None);
    plan(&mut k, &[(0, 0, 100)]);
    let mut script: VecDeque<PollEvent> = (0..10).map(|i| rec(0, i, i)).collect();
    let (step, polls) = drive(&mut k, 4, &mut script);
    assert_eq!(ids(&batch(step)), vec!["0-0", "0-1", "0-2", "0-3"]);
    assert_eq!(polls, 4);
    let (step, _) = drive(&mut k, 3, &mut script);
    assert_eq!(ids(&batch(step)), vec!["0-4", "0-5", "0-6"]);
}

#[test]
fn source_error_surfaces_when_every_poll_fails() {
    let mut k = reader(Some("0"), None, None);
    plan(&mut k, &[(0, 0, 100)]);
    let mut script: VecDeque<PollEvent> =
        (0..30).map(|i| PollEvent::Failed(format!("broker down {}", i))).collect();
    let (step, polls) = drive(&mut k, 5, &mut script);
    assert_eq!(polls, 20);
    match step {
        Step::Failed(EngineError::Source(e)) => assert_eq!(e, "broker down 19"),
        _ => panic!("the source error was not surfaced"),
    }
}

#[test]
fn failed_polls_count_as_idle_when_some_poll_succeeds() {
    let mut k = reader(Some("0"), None, None);
    plan(&mut k, &[(0, 0, 100)]);
    let mut script: VecDeque<PollEvent> =
        vec![PollEvent::Failed("hiccup".to_string()), PollEvent::Idle].into();
    let (step, polls) = drive(&mut k, 5, &mut script);
    assert!(batch(step).is_empty());
    assert_eq!(polls, 20);
}

#[test]
fn merge_fills_heads_then_refills_the_emptied_partition() {
    let mut k = reader(Some("all"), None, None);
    plan(&mut k, &[(0, 0, 10), (1, 0, 10)]);
    // Heads arrive, then nothing: the fill ends, 0-0 is handed out, partition 0 is waited
    // for during five idle polls, then 1-0 is handed out and partition 1 is waited for.
    let mut script: VecDeque<PollEvent> = vec![rec(0, 0, 1), rec(1, 0, 2)].into();
    let (step, polls) = drive(&mut k, 10, &mut script);
    assert_eq!(ids(&batch(step)), vec!["0-0", "1-0"]);
    assert_eq!(polls, 2 + 5 + 5 + 20);
}

#[test]
fn merge_keeps_buffered_records_for_the_next_batch() {
    let mut k = reader(Some("all"), None, None);
    plan(&mut k, &[(0, 0, 2), (1, 0, 2)]);
    let mut script: VecDeque<PollEvent> =
        vec![rec(0, 0, 10), rec(0, 1, 30), rec(1, 0, 20), rec(1, 1, 40)].into();
    let (step, _) = drive(&mut k, 1, &mut script);
    assert_eq!(ids(&batch(step)), vec!["0-0"]);
    let (step, _) = drive(&mut k, 10, &mut script);
    assert_eq!(ids(&batch(step)), vec!["1-0", "0-1", "1-1"]);
    let (step, polls) = drive(&mut k, 10, &mut script);
    assert!(batch(step).is_empty());
    assert_eq!(polls, 0);
}

#[test]
fn merge_newest_hands_out_newest_first() {
    let mut k = reader(Some("all"), None, Some("Newest"));
    plan(&mut k, &[(0, 0, 3), (1, 0, 3)]);
    let mut script: VecDeque<PollEvent> = vec![
        rec(0, 0, 10),
        rec(1, 0, 20),
        rec(0, 1, 30),
        rec(1, 1, 40),
        rec(0, 2, 50),
        rec(1, 2, 60),
    ]
    .into();
    let (step, polls) = drive(&mut k, 4, &mut script);
    assert_eq!(polls, 6);
    assert_eq!(ids(&batch(step)), vec!["1-2", "0-2", "1-1", "0-1"]);
    let (step, polls) = drive(&mut k, 4, &mut script);
    assert_eq!(polls, 0);
    assert_eq!(ids(&batch(step)), vec!["1-0", "0-0"]);
    let (step, _) = drive(&mut k, 4, &mut script);
    assert!(batch(step).is_empty());
}

#[test]
fn draining_gives_up_after_forty_idle_polls() {
    let mut many = reader(Some("all"), None, Some("newest"));
    plan(&mut many, &[(0, 0, 3), (1, 0, 3)]);
    let mut script: VecDeque<PollEvent> = vec![rec(0, 0, 10)].into();
    let (step, polls) = drive(&mut many, 4, &mut script);
    assert_eq!(polls, 41);
    assert_eq!(ids(&batch(step)), vec!["0-0"]);

    let mut one = reader(Some("0"), None, Some("newest"));
    plan(&mut one, &[(0, 0, 3)]);
    let mut script: VecDeque<PollEvent> = vec![rec(0, 0, 10), rec(0, 1, 5)].into();
    let (step, polls) = drive(&mut one, 4, &mut script);
    assert_eq!(polls, 42);
    // Within a partition the newest record is the one that arrived last, whatever its time.
    assert_eq!(ids(&batch(step)), vec!["0-1", "0-0"]);
}

#[test]
fn newest_window_is_clamped_to_the_back_window() {
    let mut k = reader(Some("all"), None, Some("newest"));
    let a = plan(&mut k, &[(0, 0, 100_000), (1, 99_500, 100_000), (2, 0, 1500)]);
    assert!(matches!(a[0].offset, StartOffset::Offset(98_000)));
    assert!(matches!(a[1].offset, StartOffset::Offset(99_500)));
    assert!(matches!(a[2].offset, StartOffset::Offset(0)));
    assert_eq!(k.partitions[0].start, 98_000);
    assert_eq!(k.partitions[0].end, 100_000);
    assert_eq!(rkui::kafka::assignment::BACK_WINDOW, 2000);
    assert_eq!(
        rkui::kafka::assignment::start_of(
            true,
            PartitionSelection::All,
            None,
            Watermarks { partition: 0, low: 0, high: 100_000 }
        ),
        98_000
    );
}

#[test]
fn start_offset_is_ignored_for_all_partitions_and_clamped_for_one() {
    let mut all = reader(Some("all"), Some(7), None);
    let a = plan(&mut all, &[(0, 3, 10), (1, 4, 10)]);
    assert!(matches!(a[0].offset, StartOffset::Beginning));
    assert!(matches!(a[1].offset, StartOffset::Beginning));
    assert_eq!(all.partitions[0].start, 3);
    assert_eq!(all.partitions[1].start, 4);

    let mut empty = reader(Some(""), Some(7), None);
    let a = plan(&mut empty, &[(0, 3, 10)]);
    assert!(matches!(a[0].offset, StartOffset::Beginning));

    let mut one = reader(Some("1"), Some(2), None);
    let a = plan(&mut one, &[(1, 4, 10)]);
    assert!(matches!(a[0].offset, StartOffset::Offset(4)));
    assert_eq!(a[0].partition, 1);

    let mut later = reader(Some("1"), Some(6), None);
    let a = plan(&mut later, &[(1, 4, 10)]);
    assert!(matches!(a[0].offset, StartOffset::Offset(6)));

    let mut plain = reader(Some("1"), None, None);
    let a = plan(&mut plain, &[(1, 4, 10)]);
    assert!(matches!(a[0].offset, StartOffset::Beginning));
    assert_eq!(plain.partitions[0].start, 4);
}

#[test]
fn partition_setting_is_read_as_all_or_a_number() {
    assert!(matches!(reader(None, None, None).partition_selection(), Ok(PartitionSelection::All)));
    assert!(matches!(
        reader(Some("all"), None, None).partition_selection(),
        Ok(PartitionSelection::All)
    ));
    assert!(matches!(
        reader(Some(""), None, None).partition_selection(),
        Ok(PartitionSelection::All)
    ));
    assert!(matches!(
        reader(Some("12"), None, None).partition_selection(),
        Ok(PartitionSelection::Single(12))
    ));
    assert!(matches!(
        reader(Some("-3"), None, None).partition_selection(),
        Ok(PartitionSelection::Single(-3))
    ));
    assert!(matches!(
        reader(Some("+007"), None, None).partition_selection(),
        Ok(PartitionSelection::Single(7))
    ));
    assert!(matches!(
        reader(Some("-2147483648"), None, None).partition_selection(),
        Ok(PartitionSelection::Single(i32::MIN))
    ));
    assert!(reader(Some("All"), None, None).partition_selection().is_err());
    assert!(reader(Some(" 1"), None, None).partition_selection().is_err());
    assert!(reader(Some("2147483648"), None, None).partition_selection().is_err());
    assert!(reader(Some("-"), None, None).partition_selection().is_err());
    match reader(Some("seven"), None, None).partition_selection() {
        Err(EngineError::Config(text)) => {
            assert_eq!(text, "Invalid partition id 'seven': invalid digit found in string")
        }
        _ => panic!("a partition id that is no number was accepted"),
    }
    match reader(Some("99999999999"), None, None).partition_selection() {
        Err(e) => assert!(e.message().starts_with("Invalid partition id '99999999999': ")),
        Ok(_) => panic!("a partition id that does not fit was accepted"),
    }
}

#[test]
fn plan_is_refused_when_watermarks_do_not_fit() {
    let mut k = reader(Some("2"), None, None);
    match k.ensure_assigned(&marks(&[(1, 0, 5)])) {
        Err(EngineError::Internal(text)) => {
            assert_eq!(text, "watermarks do not match the selected partitions")
        }
        _ => panic!("watermarks of another partition were accepted"),
    }
    assert!(!k.assigned);
    let mut twice = reader(Some("all"), None, None);
    assert!(twice.ensure_assigned(&marks(&[(1, 0, 5), (1, 0, 5)])).is_err());
    let mut bad = reader(Some("x"), None, None);
    assert!(matches!(bad.ensure_assigned(&marks(&[(1, 0, 5)])), Err(EngineError::Config(_))));
    let mut ok = reader(Some("1"), None, None);
    plan(&mut ok, &[(1, 0, 5)]);
    assert!(matches!(ok.ensure_assigned(&marks(&[(1, 0, 9)])), Ok(None)));
    assert_eq!(ok.partitions[0].end, 5);
}

#[test]
fn batch_needs_a_plan_and_polls_need_a_batch() {
    let mut k = reader(Some("0"), None, None);
    assert!(matches!(k.consume_next(5), Step::Assign));
    match k.on_poll(PollEvent::Idle) {
        Step::Failed(EngineError::Internal(text)) => assert_eq!(text, "no batch is in progress"),
        _ => panic!("a poll without a batch was accepted"),
    }
    plan(&mut k, &[(0, 0, 5)]);
    assert!(matches!(k.consume_next(5), Step::Poll));
    match k.consume_next(5) {
        Step::Failed(EngineError::Internal(text)) => {
            assert_eq!(text, "a batch is already in progress")
        }
        _ => panic!("a second batch was begun"),
    }
}

#[test]
fn filters_discard_the_plan_and_what_was_buffered() {
    let mut k = reader(Some("all"), None, Some("oldest"));
    plan(&mut k, &[(0, 0, 5), (1, 0, 5)]);
    let mut script: VecDeque<PollEvent> =
        vec![rec(0, 0, 10), rec(0, 1, 11), rec(1, 0, 12), rec(1, 1, 13)].into();
    let (step, _) = drive(&mut k, 1, &mut script);
    assert_eq!(ids(&batch(step)), vec!["0-0"]);
    assert!(k.partitions.iter().any(|p| !p.buffer.is_empty()));

    k.apply_filters_mut(Some("1".to_string()), Some(3), None);
    assert!(!k.assigned);
    assert!(k.partitions.is_empty());
    assert!(k.batch.is_none());
    assert_eq!(k.config.partition.as_deref(), Some("1"));
    assert_eq!(k.config.start_offset, Some(3));
    assert_eq!(k.config.start_from.as_deref(), Some("oldest"));
    assert!(matches!(k.consume_next(5), Step::Assign));

    let a = plan(&mut k, &[(1, 0, 5)]);
    assert!(matches!(a[0].offset, StartOffset::Offset(3)));
    let mut script: VecDeque<PollEvent> = vec![rec(0, 2, 20), rec(1, 3, 21), rec(1, 4, 22)].into();
    let (step, _) = drive(&mut k, 5, &mut script);
    assert_eq!(ids(&batch(step)), vec!["1-3", "1-4"]);

    k.apply_filters_mut(None, None, Some("newest".to_string()));
    assert_eq!(k.config.start_from.as_deref(), Some("newest"));
    assert!(k.config.partition.is_none());
}

#[test]
fn offsets_of_a_partition_rise_over_all_batches() {
    let mut k = reader(Some("all"), None, None);
    plan(&mut k, &[(0, 10, 16), (1, 0, 4)]);
    let mut script: VecDeque<PollEvent> = VecDeque::new();
    for i in 0..6 {
        script.push_back(rec(0, 10 + i, 100 - i));
        if i < 4 {
            script.push_back(rec(1, i, 50 + i));
        }
    }
    let mut seen: Vec<UiMessage> = Vec::new();
    loop {
        let (step, _) = drive(&mut k, 3, &mut script);
        let out = batch(step);
        if out.is_empty() {
            break;
        }
        assert!(out.len() <= 3);
        seen.extend(out);
    }
    let first: Vec<i64> = seen.iter().filter(|m| m.partition == 0).map(|m| m.offset).collect();
    let second: Vec<i64> = seen.iter().filter(|m| m.partition == 1).map(|m| m.offset).collect();
    assert_eq!(first, vec![10, 11, 12, 13, 14, 15]);
    assert_eq!(second, vec![0, 1, 2, 3]);
    let mut all_ids = ids(&seen);
    all_ids.sort();
    all_ids.dedup();
    assert_eq!(all_ids.len(), 10);
}

#[test]
fn message_is_built_from_the_record() {
    let mut k = reader(Some("0"), None, None);
    plan(&mut k, &[(0, 0, 5)]);
    let event = PollEvent::Record(RawRecord {
        partition: 0,
        offset: 4,
        key: Some(vec![0x6B, 0xFF]),
        value: Some("{\"a\": 1}".as_bytes().to_vec()),
        timestamp: RecordTimestamp::LogAppendTime(1_700_000_000_123),
    });
    let mut script: VecDeque<PollEvent> = vec![event].into();
    let (step, _) = drive(&mut k, 5, &mut script);
    let out = batch(step);
    assert_eq!(out.len(), 1);
    assert_eq!(out[0].id, "0-4");
    assert_eq!(out[0].partition, 0);
    assert_eq!(out[0].offset, 4);
    assert_eq!(out[0].key, "k\u{FFFD}");
    assert_eq!(out[0].message, "{\"a\": 1}");
    assert_eq!(out[0].timestamp, "2023-11-14T22:13:20.123+00:00");
    assert!(out[0].decoding_error.is_none());
}

#[test]
fn timestamp_is_rendered_or_left_empty() {
    assert_eq!(render_timestamp(RecordTimestamp::NotAvailable), (i64::MAX, String::new()));
    assert_eq!(
        render_timestamp(RecordTimestamp::CreateTime(0)),
        (0, "1970-01-01T00:00:00+00:00".to_string())
    );
    assert_eq!(render_timestamp(RecordTimestamp::CreateTime(i64::MAX)), (i64::MAX, String::new()));
    assert_eq!(
        render_timestamp(RecordTimestamp::LogAppendTime(-1)),
        (-1, "1969-12-31T23:59:59.999+00:00".to_string())
    );
    assert_eq!(rkui::kafka::service::make_record_id(-2, 17), "-2-17");
}

#[test]
fn engine_decodes_by_message_type() {
    let k = reader(None, None, None);
    let (key, value, error) = k.decode(Some(b"key"), Some(b"value"));
    assert_eq!((key.as_str(), value.as_str()), ("key", "value"));
    assert!(error.is_none());
    let (key, value, error) = k.decode(None, None);
    assert_eq!((key.as_str(), value.as_str()), ("", ""));
    assert!(error.is_none());
}

#[test]
fn protobuf_reader_needs_schema_and_decoder() {
    let mut cfg = KafkaConfig::default();
    cfg.message_type = MessageType::Protobuf;
    match Kafka::new(cfg.clone(), None) {
        Err(EngineError::Config(text)) => {
            assert_eq!(text, "Protobuf message_type selected but no proto_schema_path provided")
        }
        _ => panic!("a protobuf reader without schema was built"),
    }
    cfg.proto_schema_path = Some("schema.proto".to_string());
    assert!(matches!(Kafka::new(cfg, None), Err(EngineError::Config(_))));
    assert_eq!(EngineError::NotConfigured.message(), "Kafka is not configured");
}
