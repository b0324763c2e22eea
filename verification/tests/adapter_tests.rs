use rkui::kafka::assignment::Watermarks;
use rkui::kafka::reader::{PollEvent, RawRecord, RecordTimestamp};
use rkui::kafka::{Kafka, KafkaConfig, MessageType};
use rkui::kafka_adapter::{
    eval_jq_bool, json_path_get, matches_filters, parse_path, FilterMode, FilteredLoad, LoadStep,
    PathStep, StartFilteredLoadArgs,
};
use serde_json::Value;

fn json(text: &str) -> Value {
    serde_json::from_str(text).expect("the test text is JSON")
}

fn planned(list: &[(i32, i64, i64)]) -> Kafka {
    let mut cfg = KafkaConfig::default();
    cfg.message_type = MessageType::Json;
    let mut k = Kafka::new(cfg, None).expect("a reader for JSON needs no schema");
    let marks: Vec<Watermarks> =
        list.iter().map(|&(partition, low, high)| Watermarks { partition, low, high }).collect();
    assert!(matches!(k.ensure_assigned(&marks), Ok(Some(_))));
    k
}

fn rec(partition: i32, offset: i64, key: &str, value: &str) -> PollEvent {
    PollEvent::Record(RawRecord {
        partition,
        offset,
        key: Some(key.as_bytes().to_vec()),
        value: Some(value.as_bytes().to_vec()),
        timestamp: RecordTimestamp::CreateTime(1_000),
    })
}

fn args(
    limit: Option<usize>,
    key: Option<&str>,
    message: Option<&str>,
    mode: Option<FilterMode>,
) -> StartFilteredLoadArgs {
    StartFilteredLoadArgs {
        limit,
        key_filter: key.map(|s| s.to_string()),
        message_filter: message.map(|s| s.to_string()),
        message_filter_mode: mode,
    }
}

#[test]
fn path_alone_holds_when_the_value_is_true() {
    assert_eq!(eval_jq_bool(".a", &json("{\"a\": true}")), Ok(true));
    assert_eq!(eval_jq_bool(".a", &json("{\"a\": false}")), Ok(false));
    assert_eq!(eval_jq_bool(".a", &json("{\"a\": \"true\"}")), Ok(false));
    assert_eq!(eval_jq_bool("  .a.b  ", &json("{\"a\": {\"b\": true}}")), Ok(true));
}

#[test]
fn comparison_holds_when_value_equals_literal() {
    assert_eq!(eval_jq_bool(".a == 1", &json("{\"a\": 1}")), Ok(true));
    assert_eq!(eval_jq_bool(".a == 2", &json("{\"a\": 1}")), Ok(false));
    assert_eq!(eval_jq_bool(".a==1", &json("{\"a\": 1}")), Ok(true));
    assert_eq!(eval_jq_bool(".a ==== 1", &json("{\"a\": 1}")), Ok(true));
    assert_eq!(eval_jq_bool(".a == 1.0", &json("{\"a\": 1}")), Ok(false));
    assert_eq!(eval_jq_bool(".a == null", &json("{\"a\": null}")), Ok(true));
    assert_eq!(eval_jq_bool(".a == [1, 2]", &json("{\"a\": [1,2]}")), Ok(true));
    assert_eq!(eval_jq_bool(".a == {\"y\":2,\"x\":1}", &json("{\"a\": {\"x\":1,\"y\":2}}")), Ok(true));
}

#[test]
fn comparison_reaches_into_arrays() {
    let v = json("{\"a\":[{\"b\":\"x\"}]}");
    assert_eq!(eval_jq_bool(".a[0].b == \"x\"", &v), Ok(true));
    assert_eq!(eval_jq_bool(".a[0].b == x", &v), Ok(true));
    assert_eq!(eval_jq_bool(".a[0].b == \"y\"", &v), Ok(false));
    assert_eq!(eval_jq_bool(".a[1].b == \"x\"", &v), Ok(false));
}

#[test]
fn missing_path_does_not_hold() {
    assert_eq!(eval_jq_bool(".missing", &json("{}")), Ok(false));
    assert_eq!(eval_jq_bool(".a.b", &json("{\"a\": 1}")), Ok(false));
    assert_eq!(eval_jq_bool(".missing == 1", &json("{}")), Ok(false));
}

#[test]
fn true_holds_and_other_expressions_do_not() {
    assert_eq!(eval_jq_bool("true", &json("{}")), Ok(true));
    assert_eq!(eval_jq_bool(" true\n", &json("[]")), Ok(true));
    assert_eq!(eval_jq_bool("\u{a0}true\u{2003}\u{3000}", &json("[]")), Ok(true));
    assert_eq!(eval_jq_bool("\u{200b}true", &json("[]")), Ok(false));
    assert_eq!(eval_jq_bool("false", &json("{}")), Ok(false));
    assert_eq!(eval_jq_bool("", &json("{}")), Ok(false));
    assert_eq!(eval_jq_bool("select(.a)", &json("{}")), Ok(false));
    assert_eq!(eval_jq_bool("foo", &json("{\"foo\": true}")), Ok(false));
    assert_eq!(eval_jq_bool(".a[3] == 1", &json("{\"a\": [1]}")), Ok(false));
    assert_eq!(eval_jq_bool("a == 1", &json("{\"a\":1}")), Ok(false));
}

#[test]
fn path_is_read_into_steps() {
    let steps = parse_path(".a.b[0].c").expect("a well-formed path");
    assert_eq!(steps.len(), 4);
    assert!(matches!(&steps[0], PathStep::Key(k) if k == "a"));
    assert!(matches!(&steps[1], PathStep::Key(k) if k == "b"));
    assert!(matches!(&steps[2], PathStep::Index(0)));
    assert!(matches!(&steps[3], PathStep::Key(k) if k == "c"));
    assert_eq!(parse_path(".").map(|s| s.len()), Some(0));
    assert_eq!(parse_path(".a[12][3]").map(|s| s.len()), Some(3));
    assert_eq!(parse_path("..a").map(|s| s.len()), Some(1));
    assert_eq!(parse_path(".\u{e9}t\u{e9}[1]").map(|s| s.len()), Some(2));
    assert!(parse_path("a.b").is_none());
    assert!(parse_path("").is_none());
    assert!(parse_path(".a[").is_none());
    assert!(parse_path(".a[]").is_none());
    assert!(parse_path(".a[1").is_none());
    assert!(parse_path(".a[x]").is_none());
    assert!(parse_path(".a[-1]").is_none());
    assert!(parse_path(".a[99999999999999999999999]").is_none());
}

#[test]
fn path_leads_to_the_value() {
    let v = json("{\"a\": {\"b\": [10, {\"c\": \"deep\"}]}, \"n\": null}");
    assert_eq!(json_path_get(&v, ".a.b[0]"), Some(&json("10")));
    assert_eq!(json_path_get(&v, ".a.b[1].c"), Some(&json("\"deep\"")));
    assert_eq!(json_path_get(&v, ".n"), Some(&Value::Null));
    assert_eq!(json_path_get(&v, "."), Some(&v));
    assert_eq!(json_path_get(&v, ".a.b[2]"), None);
    assert_eq!(json_path_get(&v, ".a[0]"), None);
    assert_eq!(json_path_get(&v, ".a.b.c"), None);
    assert_eq!(json_path_get(&v, "a"), None);
}

#[test]
fn filters_match_without_regard_to_case() {
    let none: Option<String> = None;
    assert!(matches_filters("Order-17", "Hello World", &none, &none));
    assert!(matches_filters("Order-17", "Hello World", &Some("order".to_string()), &none));
    assert!(matches_filters("Order-17", "Hello World", &Some("".to_string()), &Some("".to_string())));
    assert!(matches_filters("Order-17", "Hello World", &Some("ORDER".to_string()), &Some("lo wo".to_string())));
    assert!(!matches_filters("Order-17", "Hello World", &Some("invoice".to_string()), &none));
    assert!(!matches_filters("Order-17", "Hello World", &none, &Some("bye".to_string())));
    assert!(matches_filters("k", "STRASSE \u{c4}", &none, &Some("\u{e4}".to_string())));
}

#[test]
fn filtered_load_hands_out_matches_until_the_limit() {
    let k = planned(&[(0, 0, 100)]);
    let mut load = FilteredLoad::start(&k, args(Some(2), Some("keep"), None, None), &vec![]);
    assert_eq!(load.limit, 2);
    assert!(matches!(load.mode, FilterMode::Plain));
    assert!(matches!(load.begin_turn(false), LoadStep::Poll));
    let t = load.on_poll(&k, rec(0, 0, "drop-1", "a"));
    assert!(t.message.is_none() && t.done.is_none());
    let t = load.on_poll(&k, PollEvent::Idle);
    assert!(t.message.is_none() && t.done.is_none());
    let t = load.on_poll(&k, rec(0, 1, "KEEP-1", "b"));
    assert_eq!(t.message.map(|m| m.id), Some("0-1".to_string()));
    assert!(t.done.is_none());
    assert!(matches!(load.begin_turn(false), LoadStep::Poll));
    let t = load.on_poll(&k, rec(0, 2, "keep-2", "c"));
    let m = t.message.expect("the second match");
    assert_eq!((m.key.as_str(), m.message.as_str()), ("keep-2", "c"));
    assert_eq!(m.timestamp, "1970-01-01T00:00:01+00:00");
    assert_eq!(t.done, Some(2));
    assert!(matches!(load.begin_turn(false), LoadStep::Done(2)));
    let t = load.on_poll(&k, rec(0, 3, "keep-3", "d"));
    assert!(t.message.is_none() && t.done.is_none());
}

#[test]
fn session_hands_out_no_more_than_its_limit_and_only_matches() {
    let k = planned(&[(0, 0, 1000)]);
    let mut load = FilteredLoad::start(&k, args(Some(3), Some("keep"), None, None), &vec![]);
    let mut handed: Vec<String> = Vec::new();
    for i in 0..40 {
        let step = load.begin_turn(false);
        let key = if i % 2 == 0 { format!("keep-{}", i) } else { format!("drop-{}", i) };
        let turn = load.on_poll(&k, rec(0, i, &key, "v"));
        match turn.message {
            Some(m) => handed.push(m.key),
            None => {}
        }
        if handed.len() < 3 {
            assert!(matches!(step, LoadStep::Poll));
            assert!(!load.over);
        }
        assert_eq!(load.emitted, handed.len());
    }
    assert_eq!(handed, vec!["keep-0", "keep-2", "keep-4"]);
    assert!(load.over);
    assert!(matches!(load.begin_turn(false), LoadStep::Done(3)));
}

#[test]
fn filtered_load_ends_when_every_partition_is_done() {
    let k = planned(&[(0, 0, 2), (1, 5, 5)]);
    let marks = vec![
        Watermarks { partition: 0, low: 0, high: 2 },
        Watermarks { partition: 1, low: 5, high: 5 },
    ];
    let mut load = FilteredLoad::start(&k, args(None, None, None, None), &marks);
    assert_eq!(load.limit, 200);
    assert!(!load.parts[0].done);
    assert!(load.parts[1].done);
    assert!(matches!(load.begin_turn(false), LoadStep::Poll));
    assert!(load.on_poll(&k, rec(0, 0, "a", "x")).message.is_some());
    assert!(load.on_poll(&k, rec(7, 0, "a", "x")).message.is_none());
    assert!(matches!(load.begin_turn(false), LoadStep::Poll));
    assert!(load.on_poll(&k, rec(0, 1, "b", "y")).message.is_some());
    assert!(matches!(load.begin_turn(false), LoadStep::Done(2)));
}

#[test]
fn filtered_load_marks_done_past_the_window() {
    let k = planned(&[(0, 0, 2)]);
    let mut load = FilteredLoad::start(&k, args(None, None, None, None), &vec![]);
    assert!(load.on_poll(&k, rec(0, 2, "a", "x")).message.is_none());
    assert!(load.parts[0].done);
    assert!(matches!(load.begin_turn(false), LoadStep::Done(0)));
}

#[test]
fn filtered_load_stops_when_cancelled() {
    let k = planned(&[(0, 0, 100)]);
    let mut load = FilteredLoad::start(&k, args(None, None, None, None), &vec![]);
    assert!(matches!(load.begin_turn(false), LoadStep::Poll));
    assert!(load.on_poll(&k, rec(0, 0, "a", "x")).message.is_some());
    assert!(matches!(load.begin_turn(true), LoadStep::Cancelled));
    assert!(load.over);
    assert!(load.on_poll(&k, rec(0, 1, "b", "y")).message.is_none());
    assert_eq!(load.emitted, 1);
    assert!(!matches!(load.begin_turn(false), LoadStep::Poll));
}

#[test]
fn cancelled_load_stays_cancelled() {
    let k = planned(&[(0, 0, 100)]);
    let mut load = FilteredLoad::start(&k, args(None, None, None, None), &vec![]);
    assert!(!load.cancelled);
    assert!(matches!(load.begin_turn(false), LoadStep::Poll));
    assert!(load.on_poll(&k, rec(0, 0, "a", "x")).message.is_some());
    assert!(matches!(load.begin_turn(true), LoadStep::Cancelled));
    assert!(load.cancelled);
    assert!(matches!(load.begin_turn(false), LoadStep::Cancelled));
    assert!(matches!(load.begin_turn(true), LoadStep::Cancelled));
    assert_eq!(load.emitted, 1);
}

#[test]
fn finished_load_stays_done() {
    let k = planned(&[(0, 0, 1)]);
    let marks = vec![Watermarks { partition: 0, low: 0, high: 1 }];
    let mut load = FilteredLoad::start(&k, args(None, None, None, None), &marks);
    assert!(matches!(load.begin_turn(false), LoadStep::Poll));
    assert!(load.on_poll(&k, rec(0, 0, "a", "x")).message.is_some());
    assert!(matches!(load.begin_turn(false), LoadStep::Done(1)));
    assert!(!load.cancelled);
    assert!(matches!(load.begin_turn(true), LoadStep::Done(1)));
    assert!(matches!(load.begin_turn(false), LoadStep::Done(1)));
}

#[test]
fn filtered_load_without_partitions_runs_until_cancelled() {
    let k = planned(&[]);
    let mut load = FilteredLoad::start(&k, args(None, None, None, None), &vec![]);
    assert!(matches!(load.begin_turn(false), LoadStep::Poll));
    assert!(matches!(load.begin_turn(false), LoadStep::Poll));
    assert!(matches!(load.begin_turn(true), LoadStep::Cancelled));
}

#[test]
fn filtered_load_evaluates_expressions_on_json_messages() {
    let k = planned(&[(0, 0, 100)]);
    let mut load =
        FilteredLoad::start(&k, args(None, None, Some(".kind == \"order\""), Some(FilterMode::Jq)), &vec![]);
    assert!(load.admits("k", "{\"kind\": \"order\"}"));
    assert!(!load.admits("k", "{\"kind\": \"invoice\"}"));
    assert!(!load.admits("k", "{\"other\": 1}"));
    assert!(!load.admits("k", "no json here"));
    assert!(load.on_poll(&k, rec(0, 0, "k", "{\"kind\":\"order\",\"n\":1}")).message.is_some());
    assert!(load.on_poll(&k, rec(0, 1, "k", "kind order")).message.is_none());
    let plain = FilteredLoad::start(&k, args(None, None, Some("ORDER"), None), &vec![]);
    assert!(plain.admits("k", "kind order"));
    let empty = FilteredLoad::start(&k, args(None, None, Some(""), Some(FilterMode::Jq)), &vec![]);
    assert!(empty.admits("k", "no json here"));
    assert!(matches!(FilterMode::default(), FilterMode::Plain));
}
