use dsh_usage::paths::has_outgrown;
use dsh_usage::roots::{root_source, roots, RootCandidate, RootSource};
use dsh_usage::{
    discover_session_files, has_data, session_file_version, FilePath, PathPart, SessionFileVersion,
};

fn path(text: &str) -> FilePath {
    let mut parts = Vec::new();
    for (i, part) in text.split('/').enumerate() {
        parts.push(match part {
            "" if i == 0 => PathPart::Root,
            "." => PathPart::Current,
            ".." => PathPart::Parent,
            name => PathPart::Normal(name.as_bytes().to_vec()),
        });
    }
    FilePath { parts }
}

fn found(paths: &[&str]) -> Vec<FilePath> {
    paths.iter().map(|text| path(text)).collect()
}

fn name(path: &FilePath) -> String {
    match path.parts.last() {
        Some(PathPart::Normal(bytes)) => String::from_utf8(bytes.clone()).unwrap(),
        _ => panic!("no file name"),
    }
}

fn version(text: &str) -> Option<(u32, bool)> {
    session_file_version(&path(text)).map(|version| (version.generation, version.compressed))
}

#[test]
fn selects_only_the_highest_generation_in_each_session_directory() {
    let files = discover_session_files(vec![found(&[
        "sessions/project/session-a/session.jsonl",
        "sessions/project/session-a/session.v2.jsonl.zstd",
        "sessions/project/session-a/session.v3.jsonl.zstd",
        "sessions/project/session-b/session.jsonl",
    ])]);

    assert_eq!(files.len(), 2);
    assert!(files
        .iter()
        .any(|path| name(path) == "session.v3.jsonl.zstd"));
    assert!(files.iter().any(|path| name(path) == "session.jsonl"));
}

#[test]
fn skips_a_session_whose_highest_generation_is_not_supported() {
    let files = discover_session_files(vec![found(&[
        "sessions/project/session-a/session.v3.jsonl",
        "sessions/project/session-a/session.v4.jsonl",
        "sessions/project/session-b/session.v3.jsonl",
    ])]);

    assert_eq!(files.len(), 1);
    assert_eq!(
        files[0],
        path("sessions/project/session-b/session.v3.jsonl")
    );
}

#[test]
fn compressed_file_wins_an_ambiguous_same_generation_pair() {
    let files = discover_session_files(vec![found(&[
        "sessions/project/session-a/session.v3.jsonl",
        "sessions/project/session-a/session.v3.jsonl.zstd",
    ])]);

    assert_eq!(files.len(), 1);
    assert_eq!(name(&files[0]), "session.v3.jsonl.zstd");
}

#[test]
fn orders_newer_generations_first_across_multiple_roots() {
    let files = discover_session_files(vec![
        found(&["old/sessions/project/session-a/session.jsonl"]),
        found(&["new/sessions/project/session-a/session.v3.jsonl"]),
    ]);

    assert_eq!(files.len(), 2);
    assert_eq!(name(&files[0]), "session.v3.jsonl");
    assert_eq!(name(&files[1]), "session.jsonl");
}

#[test]
fn files_of_one_generation_are_ordered_by_path() {
    let files = discover_session_files(vec![
        found(&["/r/b/session.jsonl", "/r/a-b/session.jsonl"]),
        found(&["/r/a/x/session.jsonl", "q/session.jsonl"]),
    ]);
    assert_eq!(
        files,
        found(&[
            "/r/a/x/session.jsonl",
            "/r/a-b/session.jsonl",
            "/r/b/session.jsonl",
            "q/session.jsonl",
        ])
    );
}

#[test]
fn a_tie_goes_to_the_earlier_root_and_then_to_the_first_path() {
    let files = discover_session_files(vec![found(&["a/session.v1.jsonl", "a/session.v01.jsonl"])]);
    assert_eq!(files, found(&["a/session.v01.jsonl"]));
    let files = discover_session_files(vec![
        found(&["a/session.v1.jsonl"]),
        found(&["a/session.v01.jsonl"]),
    ]);
    assert_eq!(files, found(&["a/session.v1.jsonl"]));
}

#[test]
fn data_is_there_where_a_file_is_read() {
    assert!(!has_data(Vec::new()));
    assert!(!has_data(vec![found(&["a/notes.jsonl"])]));
    assert!(!has_data(vec![found(&["a/session.jsonl", "a/session.v9.jsonl"])]));
    assert!(has_data(vec![Vec::new(), found(&["a/session.jsonl"])]));
}

#[test]
fn names_state_generation_and_compression() {
    assert_eq!(version("a/session.jsonl"), Some((0, false)));
    assert_eq!(version("a/session.jsonl.zstd"), Some((0, true)));
    assert_eq!(version("session.v1.jsonl"), Some((1, false)));
    assert_eq!(version("session.v12.jsonl.zstd"), Some((12, true)));
    assert_eq!(version("session.v+3.jsonl"), Some((3, false)));
    assert_eq!(version("session.v007.jsonl"), Some((7, false)));
    assert_eq!(version("session.v4294967295.jsonl"), Some((u32::MAX, false)));
    assert_eq!(version("session.v4294967296.jsonl"), None);
    assert_eq!(version("session.v99999999999999999999.jsonl"), None);
    assert_eq!(version("session.v.jsonl"), None);
    assert_eq!(version("session.v+.jsonl"), None);
    assert_eq!(version("session.v-1.jsonl"), None);
    assert_eq!(version("session.v1 .jsonl"), None);
    assert_eq!(version("session.v1"), None);
    assert_eq!(version("xsession.jsonl"), None);
    assert_eq!(version("session.zstd"), None);
    assert_eq!(version("a/.."), None);
    assert_eq!(
        session_file_version(&FilePath { parts: Vec::new() }),
        None
    );
}

#[test]
fn versions_are_ordered_by_generation_and_then_compression() {
    let version = |generation, compressed| SessionFileVersion {
        generation,
        compressed,
    };
    assert!(version(1, true) < version(2, false));
    assert!(version(2, false) < version(2, true));
}

fn listed(value: Option<&str>) -> Option<Vec<String>> {
    match root_source(value) {
        RootSource::Listed(roots) => Some(roots),
        RootSource::Home => None,
    }
}

#[test]
fn roots_are_listed_with_commas() {
    assert_eq!(listed(None), None);
    assert_eq!(listed(Some("")), None);
    assert_eq!(listed(Some(" , ,")), None);
    assert_eq!(
        listed(Some(" /a ,, /b c,\u{e9}")),
        Some(vec![
            "/a".to_string(),
            "/b c".to_string(),
            "\u{e9}".to_string()
        ])
    );
}

#[test]
fn roots_are_directories_and_distinct() {
    let candidate = |text: &str, is_dir| RootCandidate {
        path: path(text),
        is_dir,
    };
    let found_roots = roots(vec![
        candidate("/b", true),
        candidate("/missing", false),
        candidate("/a", true),
        candidate("/b", true),
    ]);
    assert_eq!(found_roots, found(&["/b", "/a"]));
}

#[test]
fn a_session_whose_newest_generation_no_u32_holds_is_skipped() {
    for newest in [
        "session.v4294967296.jsonl",
        "session.v4294967296.jsonl.zstd",
        "session.v+99999999999999999999.jsonl",
    ] {
        let newest = format!("/r/sessions/project/session-a/{newest}");
        let stale = "/r/sessions/project/session-a/session.v3.jsonl";
        for under in [
            vec![found(&[stale, &newest])],
            vec![found(&[&newest, stale])],
            vec![found(&[stale]), found(&[&newest])],
        ] {
            assert_eq!(discover_session_files(under.clone()), found(&[]));
            assert!(!has_data(under));
        }
        assert!(!has_data(vec![found(&[&newest])]));
        assert!(has_outgrown(&path(&newest)));
        assert!(!has_outgrown(&path(stale)));
    }
}

#[test]
fn an_outgrown_session_leaves_other_directories_alone() {
    let files = discover_session_files(vec![found(&[
        "s/a/session.v4294967296.jsonl",
        "s/a/session.v3.jsonl",
        "s/a/b/session.v2.jsonl",
        "s/c/session.jsonl",
    ])]);
    assert_eq!(files, found(&["s/a/b/session.v2.jsonl", "s/c/session.jsonl"]));
}

#[test]
fn only_a_number_outgrows() {
    let files = found(&[
        "a/session.v3.jsonl",
        "a/session.v4294967296x.jsonl",
        "a/session.v99999999999-.jsonl",
        "a/session.v-4294967296.jsonl",
        "a/session.v4294967296",
        "a/xsession.v4294967296.jsonl",
        "a/session.v00000000000000000000.jsonl",
        "a/session.v.jsonl",
    ]);
    for file in &files {
        assert!(!has_outgrown(file));
    }
    assert!(!has_outgrown(&path("a/..")));
    assert!(!has_outgrown(&FilePath { parts: Vec::new() }));
    assert_eq!(discover_session_files(vec![files]), found(&["a/session.v3.jsonl"]));
}
