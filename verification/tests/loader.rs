use dsh_usage::entry::{AttemptFacts, WrittenTime};
use dsh_usage::fields::TimestampMs;
use dsh_usage::{
    discover_session_files, load_entries, read_session_file, session_entries, CostMode, FilePath,
    LoadedEntry, PathPart,
};

fn path(text: &str) -> FilePath {
    FilePath {
        parts: text
            .split('/')
            .map(|part| PathPart::Normal(part.as_bytes().to_vec()))
            .collect(),
    }
}

fn entries_of(file: &FilePath, content: &str) -> Vec<LoadedEntry> {
    let fallback = TimestampMs::from_millis(1);
    match read_session_file(file, content.as_bytes(), fallback).unwrap() {
        Some(session) => {
            let facts = session
                .samples
                .iter()
                .map(|_| AttemptFacts {
                    written: WrittenTime {
                        timestamp: String::new(),
                        date: String::new(),
                    },
                    pricing: None,
                })
                .collect();
            session_entries(session, facts, CostMode::Display)
        }
        None => Vec::new(),
    }
}

/// Discovers and loads files that are given with their content, root by root.
fn load(found: &[&[(&str, &str)]]) -> Vec<LoadedEntry> {
    let paths = found
        .iter()
        .map(|root| root.iter().map(|(name, _)| path(name)).collect())
        .collect();
    let loaded = discover_session_files(paths)
        .iter()
        .map(|file| {
            let content = found
                .iter()
                .flat_map(|root| root.iter())
                .find(|(name, _)| path(name) == *file)
                .unwrap()
                .1;
            entries_of(file, content)
        })
        .collect();
    load_entries(loaded)
}

fn ids(entries: &[LoadedEntry]) -> Vec<String> {
    entries
        .iter()
        .map(|entry| entry.data.message.id.clone().unwrap_or_default())
        .collect()
}

#[test]
fn newer_generation_wins_when_a_session_is_duplicated_across_roots() {
    let old = [
        r#"{"type":"session","version":0,"id":"same","createdAt":1780000000000}"#,
        r#"{"type":"step/start","time":1780000000001,"data":{"turn":1,"step":1}}"#,
        r#"{"type":"assistant/message","time":1780000000002,"data":{"turn":1,"step":1,"usage":{"inputTokens":1,"outputTokens":1},"message":{"source":{"provider":"p","model":"m"}}}}"#,
    ]
    .join("\n");
    let new = [
        r#"{"type":"session","version":3,"id":"same","createdAt":1780000000000}"#,
        r#"{"type":"step/start","time":1780000000001,"data":{"turn":1,"step":1}}"#,
        r#"{"type":"assistant/message","time":1780000000002,"data":{"turn":1,"step":1,"usage":{"inputTokens":3,"outputTokens":1},"message":{"source":{"provider":"p","model":"m"}}}}"#,
    ]
    .join("\n");

    let entries = load(&[
        &[("old/sessions/project/session-a/session.jsonl", old.as_str())],
        &[("new/sessions/project/session-a/session.v3.jsonl", new.as_str())],
    ]);

    assert_eq!(entries.len(), 1);
    assert_eq!(entries[0].data.message.usage.input_tokens, 3);
}

#[test]
fn generation_selection_prevents_double_counting_a_migrated_session() {
    let v0 = [
        r#"{"type":"session","version":0,"id":"s","createdAt":1780000000000}"#,
        r#"{"type":"step/start","time":1780000000001,"data":{"turn":1,"step":1}}"#,
        r#"{"type":"assistant/message","time":1780000000002,"data":{"turn":1,"step":1,"usage":{"inputTokens":2,"outputTokens":1},"message":{"source":{"provider":"p","model":"m"}}}}"#,
    ]
    .join("\n");
    let v3 = v0
        .replace("\"version\":0", "\"version\":3")
        .replace("\"inputTokens\":2", "\"inputTokens\":7");

    let entries = load(&[&[
        ("sessions/project/s/session.jsonl", v0.as_str()),
        ("sessions/project/s/session.v3.jsonl", v3.as_str()),
    ]]);

    assert_eq!(entries.len(), 1);
    assert_eq!(entries[0].data.message.usage.input_tokens, 7);
}

fn log(id: &str, attempts: &[(u64, u64)]) -> String {
    let mut lines = vec![format!(r#"{{"type":"session","version":0,"id":"{id}"}}"#)];
    for (time, step) in attempts {
        lines.push(format!(
            r#"{{"type":"assistant/message","time":{time},"data":{{"turn":1,"step":{step},"usage":{{"inputTokens":1,"outputTokens":0}}}}}}"#
        ));
    }
    lines.join("\n")
}

#[test]
fn entries_are_ordered_by_time_session_and_id() {
    let b = log("b", &[(5, 2), (5, 10), (3, 1)]);
    let a = log("a", &[(5, 1), (9, 2)]);
    let entries = load(&[&[("s/b/session.jsonl", b.as_str()), ("s/a/session.jsonl", a.as_str())]]);
    assert_eq!(
        ids(&entries),
        [
            "dsh:b:1:1:0",
            "dsh:a:1:1:0",
            "dsh:b:1:10:0",
            "dsh:b:1:2:0",
            "dsh:a:1:2:0"
        ]
    );
}

#[test]
fn the_first_entry_of_an_id_stays() {
    let file = path("session.jsonl");
    let first = entries_of(&file, &log("s", &[(8, 1)]));
    let second = entries_of(&file, &log("s", &[(2, 1), (4, 2)]));
    let entries = load_entries(vec![first, second]);
    assert_eq!(ids(&entries), ["dsh:s:1:2:0", "dsh:s:1:1:0"]);
    assert_eq!(entries[1].timestamp.millis, 8);
}

#[test]
fn entries_without_an_id_all_stay_in_their_order() {
    let file = path("session.jsonl");
    let anonymous = |tokens: u64| {
        let mut entries = entries_of(&file, &log("s", &[(6, 1)]));
        let mut entry = entries.remove(0);
        entry.data.message.id = None;
        entry.data.message.usage.input_tokens = tokens;
        entry
    };
    let entries = load_entries(vec![
        vec![anonymous(1), anonymous(2)],
        vec![anonymous(3)],
        entries_of(&file, &log("s", &[(6, 9)])),
    ]);
    let tokens: Vec<u64> = entries
        .iter()
        .take(3)
        .map(|entry| entry.data.message.usage.input_tokens)
        .collect();
    assert_eq!(tokens, [1, 2, 3]);
    assert_eq!(entries.len(), 4);
    assert!(entries[3].data.message.id.is_some());
}

#[test]
fn a_file_without_entries_changes_nothing() {
    let file = path("session.jsonl");
    let first = || entries_of(&file, &log("a", &[(5, 1), (2, 2)]));
    let second = || entries_of(&file, &log("b", &[(5, 1)]));
    let with = load_entries(vec![Vec::new(), first(), Vec::new(), second()]);
    let without = load_entries(vec![first(), second()]);
    assert_eq!(ids(&with), ids(&without));
    assert_eq!(
        ids(&with),
        ["dsh:a:1:2:0", "dsh:a:1:1:0", "dsh:b:1:1:0"]
    );
}
