use dsh_usage::attempts::AttemptSample;
use dsh_usage::entry::{
    calculate_dsh_cost, missing_dsh_pricing, model_name, provider_model, AttemptFacts, CostSource,
    PricingLookup, WrittenTime,
};
use dsh_usage::fields::{file_timestamp, step_key, string_at, timestamp_at, Route, StepKey, TimestampMs};
use dsh_usage::json::{parse_json, Json};
use dsh_usage::session::{read_records, read_session};
use dsh_usage::usage::{
    parsed_total_tokens, stream_usage, total_tokens, usage_from_value, ParsedUsage, TokenUsageRaw,
};
use dsh_usage::{
    read_session_file, session_entries, to_loaded_entry, CostMode, FilePath, LoadedEntry, PathPart,
    ReadError,
};

fn file(name: &str) -> FilePath {
    FilePath {
        parts: vec![PathPart::Normal(name.as_bytes().to_vec())],
    }
}

fn fallback() -> TimestampMs {
    TimestampMs::from_millis(7)
}

fn entries_of(name: &str, bytes: &[u8]) -> Vec<LoadedEntry> {
    match read_session_file(&file(name), bytes, fallback()).unwrap() {
        Some(session) => {
            let facts = session
                .samples
                .iter()
                .map(|sample| AttemptFacts {
                    written: WrittenTime {
                        timestamp: format!("t{}", sample.timestamp.millis),
                        date: "2026-05-28".to_string(),
                    },
                    pricing: None,
                })
                .collect();
            session_entries(session, facts, CostMode::Display)
        }
        None => Vec::new(),
    }
}

fn json(text: &str) -> Json {
    parse_json(text.as_bytes()).unwrap()
}

fn number(n: u64) -> Json {
    Json::Number {
        unsigned: Some(n),
        signed: i64::try_from(n).ok(),
    }
}

#[test]
fn v0_final_message_replaces_its_stream_usage() {
    let log = [
        r#"{"type":"session","version":0,"id":"s","createdAt":1780000000000,"cwd":"/work"}"#,
        r#"{"type":"request/context","time":1780000000001,"data":{"provider":"deepseek","model":"deepseek-v4-pro"}}"#,
        r#"{"type":"step/start","time":1780000000002,"data":{"turn":1,"step":2}}"#,
        r#"{"type":"assistant/chunk","time":1780000000003,"data":{"turn":1,"step":2,"chunk":{"type":"usage","usage":{"inputTokens":10,"outputTokens":2}}}}"#,
        r#"{"type":"assistant/message","time":1780000000004,"data":{"turn":1,"step":2,"usage":{"inputTokens":12,"outputTokens":3,"cacheReadTokens":4,"cacheWriteTokens":1},"message":{"source":{"provider":"deepseek","model":"deepseek-v4-pro"}}}}"#,
    ]
    .join("\n");

    let entries = entries_of("session.jsonl", log.as_bytes());

    assert_eq!(entries.len(), 1);
    assert_eq!(entries[0].data.message.usage.input_tokens, 12);
    assert_eq!(entries[0].data.message.usage.cache_read_input_tokens, 4);
    assert_eq!(entries[0].data.message.id.as_deref(), Some("dsh:s:1:2:0"));
}

#[test]
fn v3_uses_explicit_usage_instead_of_counting_embedded_stream_twice() {
    let log = [
        r#"{"type":"session","version":3,"id":"s3","createdAt":1780000000000,"cwd":"/work"}"#,
        r#"{"type":"step/start","time":1780000000001,"data":{"turn":4,"step":5}}"#,
        r#"{"type":"assistant/message","time":1780000000002,"data":{"turn":4,"step":5,"stream":[{"chunk":{"type":"usage","usage":{"inputTokens":20,"outputTokens":4}}}],"usage":{"inputTokens":20,"outputTokens":4,"totalTokens":24},"message":{"source":{"provider":"ada-provider","model":"kr-gpt-5.6-luna"}}}}"#,
    ]
    .join("\n");

    let entries = entries_of("session.v3.jsonl", log.as_bytes());

    assert_eq!(entries.len(), 1);
    assert_eq!(entries[0].data.message.usage.input_tokens, 20);
    assert_eq!(entries[0].model.as_deref(), Some("kr-gpt-5.6-luna"));
}

#[test]
fn retry_attempts_with_usage_are_billed_separately() {
    let log = [
        r#"{"type":"session","version":3,"id":"retry","createdAt":1780000000000,"cwd":"/work"}"#,
        r#"{"type":"request/context","time":1780000000001,"data":{"provider":"deepseek","model":"deepseek-v4-pro"}}"#,
        r#"{"type":"step/start","time":1780000000002,"data":{"turn":1,"step":1}}"#,
        r#"{"type":"assistant/attempt","time":1780000000003,"data":{"turn":1,"step":1,"stream":[{"chunk":{"type":"usage","usage":{"inputTokens":5,"outputTokens":1}}}]}}"#,
        r#"{"type":"llm/retry","time":1780000000004,"data":{"turn":1,"step":1}}"#,
        r#"{"type":"llm/retry-started","time":1780000000005,"data":{"turn":1,"step":1}}"#,
        r#"{"type":"assistant/message","time":1780000000006,"data":{"turn":1,"step":1,"usage":{"inputTokens":7,"outputTokens":2},"message":{"source":{"provider":"deepseek","model":"deepseek-v4-pro"}}}}"#,
    ]
    .join("\n");

    let entries = entries_of("session.v3.jsonl", log.as_bytes());

    assert_eq!(entries.len(), 2);
    assert_eq!(entries[0].data.message.usage.input_tokens, 5);
    assert_eq!(entries[1].data.message.usage.input_tokens, 7);
    assert_eq!(
        entries[0].data.message.id.as_deref(),
        Some("dsh:retry:1:1:0")
    );
    assert_eq!(
        entries[1].data.message.id.as_deref(),
        Some("dsh:retry:1:1:1")
    );
}

#[test]
fn skips_a_filename_and_header_generation_mismatch() {
    let log = r#"{"type":"session","version":2,"id":"s","createdAt":1780000000000}"#;

    let entries = entries_of("session.v3.jsonl", log.as_bytes());

    assert!(entries.is_empty());
    assert!(
        read_session_file(&file("session.v3.jsonl"), log.as_bytes(), fallback())
            .unwrap()
            .is_none()
    );
    assert!(
        read_session_file(&file("session.v2.jsonl"), log.as_bytes(), fallback())
            .unwrap()
            .is_some()
    );
}

#[test]
fn preserves_an_exact_total_when_optional_cache_buckets_are_undisclosed() {
    let log = [
        r#"{"type":"session","version":3,"id":"total","createdAt":1780000000000}"#,
        r#"{"type":"step/start","time":1780000000001,"data":{"turn":1,"step":1}}"#,
        r#"{"type":"assistant/message","time":1780000000002,"data":{"turn":1,"step":1,"usage":{"inputTokens":20,"outputTokens":4,"totalTokens":30},"message":{"source":{"provider":"p","model":"m"}}}}"#,
    ]
    .join("\n");

    let entries = entries_of("session.v3.jsonl", log.as_bytes());

    assert_eq!(entries.len(), 1);
    assert_eq!(entries[0].extra_total_tokens, 6);
}

#[test]
fn invalid_explicit_usage_does_not_fall_back_to_stream_or_chunk_usage() {
    let log = [
        r#"{"type":"session","version":3,"id":"invalid","createdAt":1780000000000}"#,
        r#"{"type":"step/start","time":1780000000001,"data":{"turn":1,"step":1}}"#,
        r#"{"type":"assistant/chunk","time":1780000000002,"data":{"turn":1,"step":1,"chunk":{"type":"usage","usage":{"inputTokens":9,"outputTokens":2}}}}"#,
        r#"{"type":"assistant/message","time":1780000000003,"data":{"turn":1,"step":1,"stream":[{"type":"usage","usage":{"inputTokens":10,"outputTokens":2}}],"usage":{"inputTokens":10,"outputTokens":2,"cacheReadTokens":"bad"},"message":{"source":{"provider":"p","model":"m"}}}}"#,
    ]
    .join("\n");

    let entries = entries_of("session.v3.jsonl", log.as_bytes());

    assert!(entries.is_empty());
}

#[test]
fn rejects_malformed_optional_token_fields() {
    let usage = Json::Object(vec![
        ("inputTokens".to_string(), number(10)),
        ("outputTokens".to_string(), number(2)),
        ("totalTokens".to_string(), Json::Text("12".to_string())),
    ]);

    assert!(usage_from_value(Some(&usage)).is_none());
}

#[test]
fn reads_concatenated_zstd_frames() {
    let header =
        b"{\"type\":\"session\",\"version\":3,\"id\":\"z\",\"createdAt\":1780000000000}\n";
    let events = b"{\"type\":\"step/start\",\"time\":1780000000001,\"data\":{\"turn\":1,\"step\":1}}\n{\"type\":\"assistant/message\",\"time\":1780000000002,\"data\":{\"turn\":1,\"step\":1,\"usage\":{\"inputTokens\":3,\"outputTokens\":1},\"message\":{\"source\":{\"provider\":\"p\",\"model\":\"m\"}}}}\n";
    let mut encoded = zstd::stream::encode_all(header.as_slice(), 0).unwrap();
    encoded.extend(zstd::stream::encode_all(events.as_slice(), 0).unwrap());

    let entries = entries_of("session.v3.jsonl.zstd", &encoded);

    assert_eq!(entries.len(), 1);
    assert_eq!(entries[0].data.message.usage.input_tokens, 3);
}

#[test]
fn a_compressed_file_that_is_not_zstd_is_an_error() {
    let result = read_session_file(
        &file("session.v3.jsonl.zstd"),
        b"{\"type\":\"session\"}",
        fallback(),
    );
    match result {
        Err(ReadError::Decompression { message }) => assert!(!message.is_empty()),
        Ok(_) => panic!("decoded what is not zstd"),
    }
}

#[test]
fn a_truncated_frame_is_an_error() {
    let encoded = zstd::stream::encode_all(b"{\"type\":\"session\"}\n".as_slice(), 0).unwrap();
    assert!(read_session_file(
        &file("session.jsonl.zstd"),
        &encoded[..encoded.len() - 1],
        fallback()
    )
    .is_err());
}

#[test]
fn an_uncompressed_name_is_never_decoded() {
    let log = "{\"type\":\"session\",\"version\":3,\"id\":\"s\"}\n";
    let encoded = zstd::stream::encode_all(log.as_bytes(), 0).unwrap();
    assert!(
        read_session_file(&file("session.v3.jsonl"), &encoded, fallback())
            .unwrap()
            .is_none()
    );
    let plain = read_session_file(&file("session.v3.jsonl"), log.as_bytes(), fallback())
        .unwrap()
        .unwrap();
    assert_eq!(plain.session_id, "s");
    assert_eq!(plain.project_path, "unknown");
    assert!(plain.samples.is_empty());
}

#[test]
fn a_full_entry_carries_every_field() {
    let log = [
        r#"{"type":"session","version":3,"id":"sess-dsh","createdAt":1780000000000,"cwd":"/workspace/project"}"#,
        r#"{"type":"step/start","time":1780000000001,"data":{"turn":1,"step":1}}"#,
        r#"{"type":"assistant/message","time":1780000000002,"data":{"turn":1,"step":1,"usage":{"inputTokens":100,"outputTokens":20,"cacheReadTokens":40,"cacheWriteTokens":5,"totalTokens":165},"message":{"source":{"provider":"deepseek","model":"deepseek-v4-pro"}}}}"#,
    ]
    .join("\n");

    let entries = entries_of("session.v3.jsonl", log.as_bytes());

    assert_eq!(entries.len(), 1);
    let entry = &entries[0];
    let usage = entry.data.message.usage;
    assert_eq!(usage.input_tokens, 100);
    assert_eq!(usage.output_tokens, 20);
    assert_eq!(usage.cache_creation_input_tokens, 5);
    assert_eq!(usage.cache_read_input_tokens, 40);
    assert_eq!(total_tokens(usage), 165);
    assert_eq!(entry.extra_total_tokens, 0);
    assert_eq!(entry.timestamp, TimestampMs::from_millis(1780000000001));
    assert_eq!(entry.data.timestamp, "t1780000000001");
    assert_eq!(entry.date, "2026-05-28");
    assert_eq!(entry.project, "dsh");
    assert_eq!(entry.session_id, "sess-dsh");
    assert_eq!(entry.data.session_id.as_deref(), Some("sess-dsh"));
    assert_eq!(entry.project_path, "/workspace/project");
    assert_eq!(entry.cost, CostSource::Zero);
    assert_eq!(entry.message_count, Some(1));
    assert_eq!(entry.model.as_deref(), Some("deepseek-v4-pro"));
    assert_eq!(entry.data.message.model.as_deref(), Some("deepseek-v4-pro"));
    assert_eq!(
        entry.data.message.id.as_deref(),
        Some("dsh:sess-dsh:1:1:0")
    );
    assert_eq!(entry.missing_pricing_model, None);
}

#[test]
fn lines_that_are_not_json_are_passed_over() {
    let records = read_records(b"\n{\"a\":1}\nnot json\r\n[1,2]\r\n{\"b\":");
    assert_eq!(records.len(), 2);
    assert_eq!(records[0].get("a").and_then(Json::as_u64), Some(1));
    assert!(matches!(records[1], Json::Array(_)));
}

#[test]
fn numbers_offer_the_integers_that_they_are() {
    assert_eq!(json("18446744073709551615").as_u64(), Some(u64::MAX));
    assert_eq!(json("18446744073709551615").as_i64(), None);
    assert_eq!(json("-3").as_i64(), Some(-3));
    assert_eq!(json("-3").as_u64(), None);
    assert_eq!(json("2.0").as_u64(), None);
    assert_eq!(json("2.0").as_i64(), None);
}

#[test]
fn the_first_record_has_to_be_a_session_header_with_an_id() {
    let header = |text: &str| vec![json(text)];
    assert!(read_session(&Vec::new(), None, fallback()).is_none());
    assert!(read_session(&header(r#"{"type":"other","id":"s"}"#), None, fallback()).is_none());
    assert!(read_session(&header(r#"{"type":"session"}"#), None, fallback()).is_none());
    assert!(read_session(&header(r#"{"type":"session","id":"  "}"#), None, fallback()).is_none());
    let session = read_session(&header(r#"{"type":"session","id":" s "}"#), None, fallback());
    assert_eq!(session.unwrap().session_id, "s");
}

#[test]
fn a_header_version_beyond_u32_states_no_generation() {
    let header = vec![json(r#"{"type":"session","id":"s","version":4294967299}"#)];
    assert!(read_session(&header, Some(3), fallback()).is_none());
    assert!(read_session(&header, None, fallback()).is_some());
}

#[test]
fn times_fall_back_to_the_header_and_then_to_the_file() {
    let log = |created: &str| {
        [
            format!(r#"{{"type":"session","version":0,"id":"s"{created}}}"#),
            r#"{"type":"assistant/message","data":{"turn":1,"step":1,"usage":{"inputTokens":1,"outputTokens":1}}}"#.to_string(),
        ]
        .join("\n")
    };
    let with_header = entries_of("session.jsonl", log(r#","createdAt":55"#).as_bytes());
    assert_eq!(with_header[0].timestamp.millis, 55);
    let without = entries_of("session.jsonl", log("").as_bytes());
    assert_eq!(without[0].timestamp, fallback());
    let not_positive = entries_of("session.jsonl", log(r#","createdAt":0"#).as_bytes());
    assert_eq!(not_positive[0].timestamp, fallback());
    assert_eq!(not_positive[0].model.as_deref(), Some("unknown"));
}

#[test]
fn streamed_usage_counts_where_the_message_states_none() {
    let log = [
        r#"{"type":"session","version":0,"id":"s"}"#,
        r#"{"type":"step/start","time":2,"data":{"turn":1,"step":1}}"#,
        r#"{"type":"assistant/chunk","time":3,"data":{"turn":1,"step":1,"chunk":{"type":"usage","usage":{"inputTokens":9,"outputTokens":2}}}}"#,
        r#"{"type":"step/end","time":4,"data":{"turn":1,"step":1}}"#,
        r#"{"type":"step/start","time":5,"data":{"turn":1,"step":2}}"#,
        r#"{"type":"assistant/message","time":6,"data":{"turn":1,"step":2,"stream":[{"type":"usage","usage":{"inputTokens":1,"outputTokens":1}},{"type":"usage","usage":{"inputTokens":2,"outputTokens":1}}]}}"#,
    ]
    .join("\n");

    let entries = entries_of("session.jsonl", log.as_bytes());

    assert_eq!(entries.len(), 2);
    assert_eq!(entries[0].data.message.usage.input_tokens, 9);
    assert_eq!(entries[0].timestamp.millis, 2);
    assert_eq!(entries[1].data.message.usage.input_tokens, 2);
}

#[test]
fn a_settled_attempt_counts_no_more() {
    let log = [
        r#"{"type":"session","version":0,"id":"s"}"#,
        r#"{"type":"step/start","time":2,"data":{"turn":1,"step":1}}"#,
        r#"{"type":"assistant/message","time":3,"data":{"turn":1,"step":1,"usage":{"inputTokens":4,"outputTokens":2}}}"#,
        r#"{"type":"assistant/chunk","time":4,"data":{"turn":1,"step":1,"chunk":{"type":"usage","usage":{"inputTokens":9,"outputTokens":2}}}}"#,
        r#"{"type":"assistant/message","time":5,"data":{"turn":1,"step":1,"usage":{"inputTokens":5,"outputTokens":2}}}"#,
        r#"{"type":"step/end","time":6,"data":{"turn":1,"step":1}}"#,
    ]
    .join("\n");

    let entries = entries_of("session.jsonl", log.as_bytes());

    assert_eq!(entries.len(), 1);
    assert_eq!(entries[0].data.message.usage.input_tokens, 4);
}

#[test]
fn the_route_in_force_names_the_model() {
    let log = [
        r#"{"type":"session","version":0,"id":"s"}"#,
        r#"{"type":"request/header","time":1,"data":{"header":{"config":{"provider":"p","model":"first"}}}}"#,
        r#"{"type":"assistant/attempt","time":2,"data":{"turn":1,"step":1,"stream":{"type":"usage","usage":{"inputTokens":1,"outputTokens":0}}}}"#,
        r#"{"type":"request/context","time":3,"data":{"provider":"p","model":"second"}}"#,
        r#"{"type":"assistant/message","time":4,"data":{"turn":2,"step":1,"usage":{"inputTokens":1,"outputTokens":0},"message":{"source":{"provider":"p","model":"own"}}}}"#,
        r#"{"type":"assistant/message","time":5,"data":{"turn":3,"step":1,"usage":{"inputTokens":1,"outputTokens":0}}}"#,
        r#"{"type":"request/context","time":6,"data":{"provider":"p"}}"#,
        r#"{"type":"assistant/message","time":7,"data":{"turn":4,"step":1,"usage":{"inputTokens":1,"outputTokens":0}}}"#,
    ]
    .join("\n");

    let models: Vec<Option<String>> = entries_of("session.jsonl", log.as_bytes())
        .into_iter()
        .map(|entry| entry.model)
        .collect();

    let expected: Vec<Option<String>> = ["first", "own", "second", "unknown"]
        .iter()
        .map(|name| Some(name.to_string()))
        .collect();
    assert_eq!(models, expected);
}

#[test]
fn an_attempt_without_tokens_is_left_out() {
    let log = [
        r#"{"type":"session","version":0,"id":"s"}"#,
        r#"{"type":"assistant/message","time":2,"data":{"turn":1,"step":1,"usage":{"inputTokens":0,"outputTokens":0}}}"#,
    ]
    .join("\n");
    assert!(entries_of("session.jsonl", log.as_bytes()).is_empty());
}

#[test]
fn a_log_that_grows_keeps_its_samples() {
    let first = [
        r#"{"type":"session","version":0,"id":"s"}"#,
        r#"{"type":"assistant/message","time":2,"data":{"turn":1,"step":1,"usage":{"inputTokens":1,"outputTokens":0}}}"#,
    ]
    .join("\n");
    let second = r#"{"type":"assistant/message","time":3,"data":{"turn":1,"step":2,"usage":{"inputTokens":2,"outputTokens":0}}}"#;
    let before = entries_of("session.jsonl", first.as_bytes());
    let after = entries_of("session.jsonl", format!("{first}\n{second}").as_bytes());
    assert_eq!(before.len(), 1);
    assert_eq!(after.len(), 2);
    assert_eq!(before[0].data.message.id, after[0].data.message.id);
    assert_eq!(after[1].data.message.usage.input_tokens, 2);
}

#[test]
fn usage_counters_have_to_agree() {
    let usage = |text: &str| usage_from_value(Some(&json(text)));
    assert!(usage_from_value(None).is_none());
    assert!(usage(r#"{"inputTokens":1}"#).is_none());
    assert!(usage(r#"{"inputTokens":1,"outputTokens":2,"reasoningTokens":3}"#).is_none());
    assert!(usage(r#"{"inputTokens":1,"outputTokens":2,"totalTokens":2}"#).is_none());
    assert!(usage(
        r#"{"inputTokens":1,"outputTokens":2,"cacheReadTokens":0,"cacheWriteTokens":0,"totalTokens":4}"#
    )
    .is_none());
    assert!(usage(r#"{"inputTokens":18446744073709551615,"outputTokens":1}"#).is_none());
    assert!(usage(r#"{"inputTokens":1,"outputTokens":2,"cacheReadTokens":null}"#).is_none());

    let plain = usage(r#"{"inputTokens":1,"outputTokens":2}"#).unwrap();
    let reasoned = usage(r#"{"inputTokens":1,"outputTokens":2,"reasoningTokens":2}"#).unwrap();
    assert_eq!(plain, reasoned);
    assert_eq!(parsed_total_tokens(plain), 3);
    let beyond = usage(r#"{"inputTokens":1,"outputTokens":2,"cacheReadTokens":3,"totalTokens":10}"#)
        .unwrap();
    assert_eq!(beyond.extra_total_tokens, 4);
    assert_eq!(parsed_total_tokens(beyond), 10);
}

#[test]
fn sums_stop_at_the_largest_number() {
    let raw = TokenUsageRaw {
        input_tokens: u64::MAX,
        output_tokens: 1,
        cache_creation_input_tokens: 0,
        cache_read_input_tokens: 0,
    };
    assert_eq!(total_tokens(raw), u64::MAX);
    let usage = ParsedUsage {
        raw,
        extra_total_tokens: 5,
    };
    assert_eq!(parsed_total_tokens(usage), u64::MAX);
}

#[test]
fn the_last_usage_of_a_stream_counts() {
    let stream = json(
        r#"[{"chunk":{"type":"usage","usage":{"inputTokens":1,"outputTokens":0}}},
            {"type":"usage","usage":{"inputTokens":2,"outputTokens":0}},
            {"type":"usage","usage":{"inputTokens":3}},
            {"type":"text","usage":{"inputTokens":4,"outputTokens":0}}]"#,
    );
    let usage = stream_usage(Some(&stream)).unwrap();
    assert_eq!(usage.raw.input_tokens, 2);
    assert!(stream_usage(None).is_none());

    let nested = json(
        r#"{"type":"usage","usage":{"inputTokens":1,"outputTokens":0},
            "inner":{"type":"usage","usage":{"inputTokens":2,"outputTokens":0}}}"#,
    );
    assert_eq!(stream_usage(Some(&nested)).unwrap().raw.input_tokens, 2);
}

#[test]
fn fields_are_read_by_path() {
    let value = json(r#"{"a":{"b":"  text　"},"turn":1,"step":2,"time":-5,"blank":"\t"}"#);
    assert_eq!(string_at(&value, &["a", "b"]).as_deref(), Some("text"));
    assert_eq!(string_at(&value, &["a", "c"]), None);
    assert_eq!(string_at(&value, &["blank"]), None);
    assert_eq!(step_key(&value), Some(StepKey { turn: 1, step: 2 }));
    assert_eq!(step_key(&json(r#"{"turn":1}"#)), None);
    assert_eq!(timestamp_at(&value, &["time"]), None);
    assert_eq!(
        timestamp_at(&value, &["turn"]),
        Some(TimestampMs::from_millis(1))
    );
}

#[test]
fn the_time_of_a_file_has_fallbacks() {
    assert_eq!(file_timestamp(Some(3), Some(4)).millis, 3);
    assert_eq!(file_timestamp(None, Some(4)).millis, 4);
    assert_eq!(file_timestamp(None, None).millis, 0);
    assert_eq!(file_timestamp(Some(u128::MAX), None).millis, i64::MAX);
}

fn route() -> Option<Route> {
    Some(Route {
        provider: "deepseek".to_string(),
        model: "deepseek-v4-pro".to_string(),
    })
}

fn lookup(provider_model: bool, model_at: bool, model: bool) -> Option<PricingLookup> {
    Some(PricingLookup {
        provider_model,
        model_at,
        model,
    })
}

#[test]
fn prices_are_looked_up_by_provider_first() {
    assert_eq!(
        provider_model(&route()).as_deref(),
        Some("deepseek/deepseek-v4-pro")
    );
    assert_eq!(provider_model(&None), None);
    assert_eq!(model_name(&route()), "deepseek-v4-pro");
    assert_eq!(model_name(&None), "unknown");
    let cost = |route: &Option<Route>, mode, pricing| calculate_dsh_cost(route, mode, pricing);
    assert_eq!(
        cost(&route(), CostMode::Auto, lookup(true, true, true)),
        CostSource::ProviderModel
    );
    assert_eq!(
        cost(&None, CostMode::Auto, lookup(true, true, true)),
        CostSource::Model
    );
    assert_eq!(
        cost(&route(), CostMode::Calculate, lookup(false, true, true)),
        CostSource::Model
    );
    assert_eq!(
        cost(&route(), CostMode::Calculate, lookup(false, false, true)),
        CostSource::Zero
    );
    assert_eq!(cost(&route(), CostMode::Auto, None), CostSource::Zero);
    assert_eq!(
        cost(&route(), CostMode::Display, lookup(true, true, true)),
        CostSource::Zero
    );
}

#[test]
fn a_missing_price_is_reported_by_model() {
    let usage = TokenUsageRaw {
        input_tokens: 1,
        output_tokens: 0,
        cache_creation_input_tokens: 0,
        cache_read_input_tokens: 0,
    };
    let none = TokenUsageRaw {
        input_tokens: 0,
        ..usage
    };
    let missing = |usage, mode, pricing| missing_dsh_pricing(&route(), "m", usage, mode, pricing);
    assert_eq!(
        missing(usage, CostMode::Auto, lookup(false, false, false)).as_deref(),
        Some("m")
    );
    assert_eq!(missing(usage, CostMode::Auto, lookup(true, false, false)), None);
    assert_eq!(missing(usage, CostMode::Auto, lookup(false, false, true)), None);
    assert_eq!(missing(none, CostMode::Auto, lookup(false, false, false)), None);
    assert_eq!(missing(usage, CostMode::Display, lookup(false, false, false)), None);
    assert_eq!(missing(usage, CostMode::Auto, None), None);
}

#[test]
fn an_entry_id_spells_session_step_and_index() {
    let sample = AttemptSample {
        key: StepKey {
            turn: 10,
            step: u64::MAX,
        },
        index: 4294967295,
        timestamp: TimestampMs::from_millis(1),
        usage: ParsedUsage {
            raw: TokenUsageRaw {
                input_tokens: 1,
                output_tokens: 0,
                cache_creation_input_tokens: 0,
                cache_read_input_tokens: 0,
            },
            extra_total_tokens: 2,
        },
        route: None,
    };
    let written = WrittenTime {
        timestamp: "t".to_string(),
        date: "d".to_string(),
    };
    let entry = to_loaded_entry("a:b", "/p", sample, written, CostMode::Auto, lookup(true, true, false));
    assert_eq!(
        entry.data.message.id.as_deref(),
        Some("dsh:a:b:10:18446744073709551615:4294967295")
    );
    assert_eq!(entry.cost, CostSource::Model);
    assert_eq!(entry.missing_pricing_model.as_deref(), Some("unknown"));
    assert_eq!(entry.extra_total_tokens, 2);
}

#[test]
fn steps_under_way_do_not_disturb_each_other() {
    let log = [
        r#"{"type":"session","version":0,"id":"s"}"#,
        r#"{"type":"step/start","time":2,"data":{"turn":1,"step":1}}"#,
        r#"{"type":"step/start","time":3,"data":{"turn":2,"step":1}}"#,
        r#"{"type":"assistant/chunk","time":4,"data":{"turn":1,"step":1,"chunk":{"type":"usage","usage":{"inputTokens":9,"outputTokens":2}}}}"#,
        r#"{"type":"assistant/message","time":5,"data":{"turn":2,"step":1,"usage":{"inputTokens":4,"outputTokens":2}}}"#,
        r#"{"type":"step/end","time":6,"data":{"turn":2,"step":1}}"#,
        r#"{"type":"step/end","time":7,"data":{"turn":1,"step":1}}"#,
    ]
    .join("\n");

    let entries = entries_of("session.jsonl", log.as_bytes());

    assert_eq!(entries.len(), 2);
    assert_eq!(entries[0].data.message.usage.input_tokens, 4);
    assert_eq!(entries[0].timestamp.millis, 3);
    assert_eq!(entries[1].data.message.usage.input_tokens, 9);
    assert_eq!(entries[1].timestamp.millis, 2);
}

#[test]
fn records_of_joined_logs_follow_each_other() {
    let records = read_records(b"{\"a\":1}\nx\n{\"a\":2}");
    let numbers: Vec<Option<u64>> = records
        .iter()
        .map(|record| record.get("a").and_then(Json::as_u64))
        .collect();
    assert_eq!(numbers, [Some(1), Some(2)]);
    assert_eq!(read_records(b"{\"a\":1}\nx").len(), 1);
    assert_eq!(read_records(b"{\"a\":2}").len(), 1);
}

#[test]
fn auto_comes_to_the_same_as_calculate() {
    for pricing in [
        None,
        lookup(false, false, false),
        lookup(false, true, false),
        lookup(true, true, true),
    ] {
        assert_eq!(
            calculate_dsh_cost(&route(), CostMode::Auto, pricing),
            calculate_dsh_cost(&route(), CostMode::Calculate, pricing)
        );
    }
}

#[test]
fn a_compressed_log_says_what_the_plain_one_says() {
    let log = [
        r#"{"type":"session","version":2,"id":"s"}"#,
        r#"{"type":"assistant/message","time":2,"data":{"turn":1,"step":1,"usage":{"inputTokens":1,"outputTokens":0}}}"#,
    ]
    .join("\n");
    let encoded = zstd::stream::encode_all(log.as_bytes(), 0).unwrap();
    let plain = entries_of("session.v2.jsonl", log.as_bytes());
    let packed = entries_of("session.v2.jsonl.zstd", &encoded);
    assert_eq!(plain.len(), 1);
    assert_eq!(packed.len(), 1);
    assert_eq!(plain[0].data.message.id, packed[0].data.message.id);
    assert_eq!(plain[0].data.message.usage, packed[0].data.message.usage);
}
