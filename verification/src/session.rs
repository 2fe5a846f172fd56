//! Session logs: from the bytes of a file to the settled attempts that they record.

use crate::attempts::{AttemptSample, Ledger, SampleView};
use crate::fields::{string_at, timestamp_at, u64_at, TimestampMs};
use crate::json::{parse_json, Json, JsonTree};
use crate::paths::{session_file_version, FilePath};
use crate::text::same_text;
use crate::usage::parsed_total_tokens;
use crate::{attempts, fields, json, paths, text};
use vstd::prelude::*;

verus! {

/// The byte that ends a line.
pub const LINE_FEED: u8 = 10;

/// The lines of a log; a line feed ends a line, and what follows the last one is a line too.
pub open spec fn lines_of(content: Seq<u8>) -> Seq<Seq<u8>> {
    text::split_on(content, LINE_FEED)
}

/// The documents that the lines spell; a line that spells none is passed over.
pub open spec fn documents_of(lines: Seq<Seq<u8>>) -> Seq<JsonTree>
    decreases lines.len(),
{
    if lines.len() == 0 {
        Seq::empty()
    } else {
        let before = documents_of(lines.drop_last());
        match json::json_document(lines.last()) {
            Some(document) => before.push(document),
            None => before,
        }
    }
}

/// The records of a log: a JSON document for each line that is one.
pub open spec fn records_of(content: Seq<u8>) -> Seq<JsonTree> {
    documents_of(lines_of(content))
}

/// The record on a line, after those on the lines before.
fn read_line(records: &mut Vec<Json>, line: &[u8], Ghost(before): Ghost<Seq<Seq<u8>>>)
    requires
        json::item_trees(old(records)@) == documents_of(before),
    ensures
        json::item_trees(final(records)@) == documents_of(before.push(line@)),
{
    assert(before.push(line@).drop_last() =~= before);
    if let Some(record) = parse_json(line) {
        records.push(record);
    }
    assert(json::item_trees(records@) =~= documents_of(before.push(line@)));
}

/// The records of a log.
pub fn read_records(content: &[u8]) -> (r: Vec<Json>)
    ensures
        json::item_trees(r@) == records_of(content@),
{
    let mut records: Vec<Json> = Vec::new();
    let mut start: usize = 0;
    let mut i: usize = 0;
    let ghost mut before: Seq<Seq<u8>> = Seq::empty();
    assert(content@.subrange(0, 0) =~= Seq::empty());
    assert(lines_of(content@.take(0)) =~= before.push(content@.subrange(0, 0)));
    assert(json::item_trees(records@) =~= documents_of(before));
    while i < content.len()
        invariant
            start <= i <= content@.len(),
            lines_of(content@.take(i as int)) == before.push(
                content@.subrange(start as int, i as int),
            ),
            json::item_trees(records@) == documents_of(before),
        decreases content@.len() - i,
    {
        let ghost line = content@.subrange(start as int, i as int);
        assert(content@.take(i + 1).drop_last() =~= content@.take(i as int));
        if content[i] == LINE_FEED {
            read_line(
                &mut records,
                vstd::slice::slice_subrange(content, start, i),
                Ghost(before),
            );
            proof {
                before = before.push(line);
                assert(content@.subrange(i + 1, i + 1) =~= Seq::empty());
            }
            start = i + 1;
        } else {
            assert(before.push(line).drop_last() =~= before);
            assert(line.push(content@[i as int]) =~= content@.subrange(start as int, i + 1));
        }
        i += 1;
    }
    assert(content@.take(content@.len() as int) =~= content@);
    read_line(
        &mut records,
        vstd::slice::slice_subrange(content, start, content.len()),
        Ghost(before),
    );
    records
}

// ---------------------------------------------------------------------------------------------
// Sessions
// ---------------------------------------------------------------------------------------------

/// The settled attempts of a session that used tokens, oldest first.
#[derive(Debug)]
pub struct SessionLog {
    pub session_id: String,
    pub project_path: String,
    pub samples: Vec<AttemptSample>,
}

/// The model of a [`SessionLog`].
pub struct SessionView {
    pub session_id: Seq<char>,
    pub project_path: Seq<char>,
    pub samples: Seq<SampleView>,
}

impl View for SessionLog {
    type V = SessionView;

    open spec fn view(&self) -> SessionView {
        SessionView {
            session_id: self.session_id@,
            project_path: self.project_path@,
            samples: attempts::sample_views(self.samples@),
        }
    }
}

/// The generation that a session header states.
pub open spec fn header_generation(header: JsonTree) -> Option<u32> {
    match fields::count_at(header, seq!["version"@]) {
        Some(version) => if version <= u32::MAX {
            Some(version as u32)
        } else {
            None
        },
        None => None,
    }
}

/// When a session was created: its header says so, or else the time of its file.
pub open spec fn creation_time(header: JsonTree, fallback: TimestampMs) -> TimestampMs {
    match fields::time_at(header, seq!["createdAt"@]) {
        Some(time) => time,
        None => fallback,
    }
}

/// The project that a session belongs to.
pub open spec fn project_of(header: JsonTree) -> Seq<char> {
    match fields::text_at(header, seq!["cwd"@]) {
        Some(path) => path,
        None => "unknown"@,
    }
}

/// The samples with tokens to count.
pub open spec fn counted(samples: Seq<SampleView>) -> Seq<SampleView>
    decreases samples.len(),
{
    if samples.len() == 0 {
        Seq::empty()
    } else if samples.last().usage.sum() > 0 {
        counted(samples.drop_last()).push(samples.last())
    } else {
        counted(samples.drop_last())
    }
}

/// The samples that the records after a header leave behind.
pub open spec fn samples_of(records: Seq<JsonTree>, created_at: TimestampMs) -> Seq<SampleView> {
    attempts::empty_ledger().after_records(records, created_at).samples
}

/// The session that a log records. The first record is its header, which has to carry an id and
/// the generation that the file's name states; a log without such a header records none.
pub open spec fn session_of(
    records: Seq<JsonTree>,
    generation: Option<u32>,
    fallback: TimestampMs,
) -> Option<SessionView> {
    if records.len() == 0 || records[0].member_text("type"@) != Some("session"@)
        || header_generation(records[0]) != generation {
        None
    } else {
        match fields::text_at(records[0], seq!["id"@]) {
            Some(session_id) => Some(
                SessionView {
                    session_id,
                    project_path: project_of(records[0]),
                    samples: counted(
                        samples_of(records.skip(1), creation_time(records[0], fallback)),
                    ),
                },
            ),
            None => None,
        }
    }
}

/// The model of a session that may be missing.
pub open spec fn session_view(session: Option<SessionLog>) -> Option<SessionView> {
    match session {
        Some(session) => Some(session@),
        None => None,
    }
}

fn is_session_header(record: &Json) -> (r: bool)
    ensures
        r == (record@.member_text("type"@) == Some("session"@)),
{
    match record.get("type") {
        Some(name) => match name.as_str() {
            Some(name) => same_text(name, "session"),
            None => false,
        },
        None => false,
    }
}

fn stated_generation(header: &Json) -> (r: Option<u32>)
    ensures
        r == header_generation(header@),
{
    let path: &[&str] = &["version"];
    assert(fields::names(path@) =~= seq!["version"@]);
    match u64_at(header, path) {
        Some(version) => if version <= 0xffff_ffff {
            Some(version as u32)
        } else {
            None
        },
        None => None,
    }
}

fn stated_creation_time(header: &Json, fallback: TimestampMs) -> (r: TimestampMs)
    ensures
        r == creation_time(header@, fallback),
{
    let path: &[&str] = &["createdAt"];
    assert(fields::names(path@) =~= seq!["createdAt"@]);
    match timestamp_at(header, path) {
        Some(time) => time,
        None => fallback,
    }
}

fn stated_project(header: &Json) -> (r: String)
    ensures
        r@ == project_of(header@),
{
    let path: &[&str] = &["cwd"];
    assert(fields::names(path@) =~= seq!["cwd"@]);
    match string_at(header, path) {
        Some(path) => path,
        None => "unknown".to_string(),
    }
}

fn stated_id(header: &Json) -> (r: Option<String>)
    ensures
        match r {
            Some(id) => fields::text_at(header@, seq!["id"@]) == Some(id@),
            None => fields::text_at(header@, seq!["id"@]) is None,
        },
{
    let path: &[&str] = &["id"];
    assert(fields::names(path@) =~= seq!["id"@]);
    string_at(header, path)
}

/// The samples with tokens to count.
fn keep_counted(samples: Vec<AttemptSample>) -> (r: Vec<AttemptSample>)
    ensures
        attempts::sample_views(r@) == counted(attempts::sample_views(samples@)),
{
    let ghost all = attempts::sample_views(samples@);
    let mut kept: Vec<AttemptSample> = Vec::new();
    assert(attempts::sample_views(kept@) =~= counted(all.take(0)));
    for sample in it: samples
        invariant
            it.seq() == samples@,
            all == attempts::sample_views(samples@),
            attempts::sample_views(kept@) == counted(all.take(it.index() as int)),
    {
        let ghost n = it.index() as int;
        assert(all.take(n + 1).drop_last() =~= all.take(n));
        assert(all.take(n + 1).last() == sample@);
        if parsed_total_tokens(sample.usage) > 0 {
            kept.push(sample);
        }
        assert(attempts::sample_views(kept@) =~= counted(all.take(n + 1)));
    }
    assert(all.take(all.len() as int) =~= all);
    kept
}

/// The session that the records of a log make up.
pub fn read_session(
    records: &Vec<Json>,
    generation: Option<u32>,
    fallback: TimestampMs,
) -> (r: Option<SessionLog>)
    ensures
        session_view(r) == session_of(json::item_trees(records@), generation, fallback),
{
    let ghost trees = json::item_trees(records@);
    if records.len() == 0 {
        return None;
    }
    let header = &records[0];
    if !is_session_header(header) {
        return None;
    }
    let session_id = stated_id(header)?;
    if stated_generation(header) != generation {
        return None;
    }
    let project_path = stated_project(header);
    let created_at = stated_creation_time(header, fallback);
    let mut ledger = Ledger::new();
    let mut i: usize = 1;
    let ghost body = trees.skip(1);
    assert(body.take(0) =~= Seq::empty());
    while i < records.len()
        invariant
            1 <= i <= records@.len(),
            trees == json::item_trees(records@),
            body == trees.skip(1),
            ledger@ == attempts::empty_ledger().after_records(body.take(i - 1), created_at),
        decreases records@.len() - i,
    {
        assert(body.take(i as int).drop_last() =~= body.take(i - 1));
        assert(body.take(i as int).last() == records@[i as int]@);
        ledger.apply_record(&records[i], created_at);
        i += 1;
    }
    assert(body.take(body.len() as int) =~= body);
    Some(SessionLog { session_id, project_path, samples: keep_counted(ledger.samples) })
}

// ---------------------------------------------------------------------------------------------
// Files
// ---------------------------------------------------------------------------------------------

/// Why a session file could not be read.
#[derive(Debug)]
pub enum ReadError {
    /// The content of a compressed file is not what its name says; `message` is the decoder's.
    Decompression { message: String },
}

/// The reason that a decoder gives for refusing its input; opaque.
#[verifier::external_type_specification]
#[verifier::external_body]
pub struct ExIoError(std::io::Error);

/// What a sequence of zstd frames holds, or `None` where the bytes are not one that is decoded.
pub uninterp spec fn zstd_content(bytes: Seq<u8>) -> Option<Seq<u8>>;

/// Calls `zstd::stream::decode_all`: it gives the content of the frames that the bytes are made
/// of, or fails where they are not whole frames or a frame is one that `zstd` does not decode. Which
/// of the two it is, and what the content is, depends on the bytes alone and is left to `zstd`. The
/// text of the error is left unsaid. That memory may run out is left aside, as it is for any `Vec`.
#[verifier::external_body]
fn decode_zstd(bytes: &[u8]) -> (r: Result<Vec<u8>, std::io::Error>)
    ensures
        match r {
            Ok(content) => zstd_content(bytes@) == Some(content@),
            Err(_) => zstd_content(bytes@) is None,
        },
{
    zstd::stream::decode_all(bytes)
}

/// Whether the name of a file says that it is compressed.
pub open spec fn is_compressed(path: paths::PathView) -> bool {
    match paths::version_of(path) {
        Some(version) => version.compressed,
        None => false,
    }
}

/// The generation that the name of a file states.
pub open spec fn name_generation(path: paths::PathView) -> Option<u32> {
    match paths::version_of(path) {
        Some(version) => Some(version.generation),
        None => None,
    }
}

/// The log that a file holds.
pub open spec fn file_content(path: paths::PathView, bytes: Seq<u8>) -> Option<Seq<u8>> {
    if is_compressed(path) {
        zstd_content(bytes)
    } else {
        Some(bytes)
    }
}

/// The session that a file of the given bytes records; an error where its content is not decoded.
pub open spec fn session_in_file(
    path: paths::PathView,
    bytes: Seq<u8>,
    fallback: TimestampMs,
) -> Result<Option<SessionView>, ()> {
    match file_content(path, bytes) {
        Some(content) => Ok(session_of(records_of(content), name_generation(path), fallback)),
        None => Err(()),
    }
}

/// The model of what reading a file gives.
pub open spec fn reading_view(r: Result<Option<SessionLog>, ReadError>) -> Result<
    Option<SessionView>,
    (),
> {
    match r {
        Ok(session) => Ok(session_view(session)),
        Err(_) => Err(()),
    }
}

/// The session that a log of the given content records, where the name of its file states the given
/// generation.
pub fn read_content(
    content: &[u8],
    generation: Option<u32>,
    fallback: TimestampMs,
) -> (r: Option<SessionLog>)
    ensures
        session_view(r) == session_of(records_of(content@), generation, fallback),
{
    let records = read_records(content);
    read_session(&records, generation, fallback)
}

/// The session that a file records, given its path, its bytes and the time that counts where its
/// header states none. Only a compressed file whose content is not zstd frames is an error.
pub fn read_session_file(file: &FilePath, bytes: &[u8], fallback: TimestampMs) -> (r: Result<
    Option<SessionLog>,
    ReadError,
>)
    ensures
        match file_content(file@, bytes@) {
            Some(content) => r matches Ok(session) && session_view(session) == session_of(
                records_of(content),
                name_generation(file@),
                fallback,
            ),
            None => r matches Err(ReadError::Decompression { .. }),
        },
        reading_view(r) == session_in_file(file@, bytes@, fallback),
{
    let (generation, compressed) = match session_file_version(file) {
        Some(version) => (Some(version.generation), version.compressed),
        None => (None, false),
    };
    if compressed {
        match decode_zstd(bytes) {
            Ok(content) => Ok(read_content(content.as_slice(), generation, fallback)),
            Err(error) => Err(ReadError::Decompression { message: error.to_string() }),
        }
    } else {
        Ok(read_content(bytes, generation, fallback))
    }
}

// ---------------------------------------------------------------------------------------------
// Laws
// ---------------------------------------------------------------------------------------------

proof fn lemma_documents_joined(a: Seq<Seq<u8>>, b: Seq<Seq<u8>>)
    ensures
        documents_of(a + b) == documents_of(a) + documents_of(b),
    decreases b.len(),
{
    if b.len() == 0 {
        assert(a + b =~= a);
        assert(documents_of(a) + documents_of(b) =~= documents_of(a));
    } else {
        lemma_documents_joined(a, b.drop_last());
        assert((a + b).drop_last() =~= a + b.drop_last());
        assert(documents_of(a + b) =~= documents_of(a) + documents_of(b));
    }
}

proof fn lemma_counted_extends(samples: Seq<SampleView>, n: int)
    requires
        0 <= n <= samples.len(),
    ensures
        counted(samples.take(n)).is_prefix_of(counted(samples)),
    decreases samples.len(),
{
    if n == samples.len() {
        assert(samples.take(n) =~= samples);
        let all = counted(samples);
        assert(all.take(all.len() as int) =~= all);
    } else {
        let shorter = samples.drop_last();
        lemma_counted_extends(shorter, n);
        assert(shorter.take(n) =~= samples.take(n));
        let part = counted(samples.take(n));
        assert(counted(samples).take(part.len() as int) =~= counted(shorter).take(
            part.len() as int,
        ));
    }
}

/// The records of two logs with a line feed between them are the records of the one and then those
/// of the other.
pub proof fn law_records_follow_lines(first: Seq<u8>, second: Seq<u8>)
    ensures
        records_of(first.push(LINE_FEED) + second) == records_of(first) + records_of(second),
{
    text::lemma_split_joined(first, second, LINE_FEED);
    lemma_documents_joined(lines_of(first), lines_of(second));
}

/// A log that grows by whole lines keeps its session, and what was counted of it before stays in
/// front of what is counted now.
pub proof fn law_growing_log_keeps_its_samples(
    content: Seq<u8>,
    more: Seq<u8>,
    generation: Option<u32>,
    fallback: TimestampMs,
)
    requires
        session_of(records_of(content), generation, fallback) is Some,
    ensures
        ({
            let before = session_of(records_of(content), generation, fallback)->0;
            let grown = records_of(content.push(LINE_FEED) + more);
            &&& session_of(grown, generation, fallback) matches Some(after)
            &&& after.session_id == before.session_id
            &&& after.project_path == before.project_path
            &&& before.samples.is_prefix_of(after.samples)
        }),
{
    law_records_follow_lines(content, more);
    let a = records_of(content);
    let b = records_of(more);
    let created_at = creation_time(a[0], fallback);
    assert((a + b).skip(1) =~= a.skip(1) + b);
    let ledger = attempts::empty_ledger();
    attempts::law_more_records_add_samples(ledger, a.skip(1), b, created_at);
    let part = ledger.after_records(a.skip(1), created_at).samples;
    let all = ledger.after_records(a.skip(1) + b, created_at).samples;
    lemma_counted_extends(all, part.len() as int);
    assert(all.take(part.len() as int) =~= part);
}

/// A compressed file says what a plain one with the same content says.
pub proof fn law_compression_changes_nothing(
    plain: paths::PathView,
    packed: paths::PathView,
    content: Seq<u8>,
    encoded: Seq<u8>,
)
    requires
        !is_compressed(plain),
        is_compressed(packed),
    ensures
        zstd_content(encoded) == Some(content) ==> file_content(packed, encoded) == file_content(
            plain,
            content,
        ),
{
}

/// A file whose name and header state different generations records no session.
pub proof fn law_generation_mismatch_is_skipped(
    records: Seq<JsonTree>,
    generation: Option<u32>,
    fallback: TimestampMs,
)
    requires
        records.len() > 0,
        header_generation(records[0]) != generation,
    ensures
        session_of(records, generation, fallback) is None,
{
}

/// Every sample of a session has tokens to count.
pub proof fn law_samples_have_tokens(samples: Seq<SampleView>, i: int)
    requires
        0 <= i < counted(samples).len(),
    ensures
        counted(samples)[i].usage.sum() > 0,
        samples.contains(counted(samples)[i]),
    decreases samples.len(),
{
    let shorter = samples.drop_last();
    if i < counted(shorter).len() {
        law_samples_have_tokens(shorter, i);
        let j = shorter.index_of(counted(shorter)[i]);
        assert(samples[j] == counted(samples)[i]);
    } else {
        assert(samples[samples.len() - 1] == counted(samples)[i]);
    }
}

/// A log without a line feed is one line: it holds the record that the line spells, or none.
pub proof fn law_line_is_one_record(line: Seq<u8>)
    requires
        !line.contains(10u8),
    ensures
        records_of(line) == match json::json_document(line) {
            Some(document) => seq![document],
            None => Seq::empty(),
        },
{
    lemma_one_line(line);
    let lines = seq![line];
    assert(lines.drop_last() =~= Seq::empty());
    assert(documents_of(Seq::empty()) =~= Seq::empty());
    reveal_with_fuel(documents_of, 2);
    assert(records_of(line) =~= match json::json_document(line) {
        Some(document) => seq![document],
        None => Seq::empty(),
    });
}

proof fn lemma_one_line(line: Seq<u8>)
    requires
        !line.contains(10u8),
    ensures
        lines_of(line) == seq![line],
    decreases line.len(),
{
    if line.len() == 0 {
        assert(line =~= Seq::empty());
    } else {
        let shorter = line.drop_last();
        assert forall|i: int| 0 <= i < shorter.len() implies shorter[i] != 10u8 by {
            assert(line.contains(line[i]));
        }
        lemma_one_line(shorter);
        assert(line.contains(line[line.len() - 1]));
        assert(shorter.push(line.last()) =~= line);
        assert(lines_of(line) =~= seq![line]);
    }
}

/// A byte 10 ends a line: what stands before it and what stands behind it are read apart.
pub proof fn law_byte_ten_ends_a_line(first: Seq<u8>, second: Seq<u8>)
    ensures
        records_of(first + seq![10u8] + second) == records_of(first) + records_of(second),
{
    assert(first + seq![10u8] =~= first.push(LINE_FEED));
    law_records_follow_lines(first, second);
}

/// Each sample is counted for itself, in its place: it counts where one of its buckets or the
/// tokens beyond them are not zero.
pub proof fn law_samples_are_counted_one_by_one(
    a: Seq<SampleView>,
    b: Seq<SampleView>,
    sample: SampleView,
)
    ensures
        counted(Seq::empty()).len() == 0,
        counted(a + b) == counted(a) + counted(b),
        ({
            let raw = sample.usage.raw;
            if raw.input_tokens > 0 || raw.output_tokens > 0 || raw.cache_creation_input_tokens > 0
                || raw.cache_read_input_tokens > 0 || sample.usage.extra_total_tokens > 0 {
                counted(seq![sample]) == seq![sample]
            } else {
                counted(seq![sample]).len() == 0
            }
        }),
    decreases b.len(),
{
    reveal_with_fuel(counted, 2);
    assert(seq![sample].drop_last() =~= Seq::empty());
    assert(counted(Seq::empty()).push(sample) =~= seq![sample]);
    if b.len() == 0 {
        assert(a + b =~= a);
        assert(counted(a) + counted(b) =~= counted(a));
    } else {
        law_samples_are_counted_one_by_one(a, b.drop_last(), sample);
        assert((a + b).drop_last() =~= a + b.drop_last());
        assert(counted(a + b) =~= counted(a) + counted(b));
    }
}

/// Whether the generation that a header states is the given one: its `version` as a `u64` that is
/// also a `u32`, or none.
pub open spec fn states_generation(header: JsonTree, generation: Option<u32>) -> bool {
    match header.member("version"@) {
        Some(JsonTree::Number { unsigned: Some(version), .. }) if version <= u32::MAX => generation
            is Some && generation->0 == version,
        _ => generation is None,
    }
}

/// A log records a session exactly where its first record is of the type `session`, has an id that
/// is more than white space, and states the generation that the name of its file states. The
/// session has that id, without the white space at its ends.
pub proof fn law_header_makes_the_session(
    records: Seq<JsonTree>,
    generation: Option<u32>,
    fallback: TimestampMs,
)
    ensures
        records.len() == 0 ==> session_of(records, generation, fallback) is None,
        records.len() > 0 ==> match (records[0].member("type"@), records[0].member("id"@)) {
            (Some(JsonTree::Text(kind)), Some(JsonTree::Text(id))) => if kind == "session"@
                && text::trimmed(id).len() > 0 && states_generation(records[0], generation) {
                session_of(records, generation, fallback) matches Some(session)
                    && session.session_id == text::trimmed(id)
            } else {
                session_of(records, generation, fallback) is None
            },
            _ => session_of(records, generation, fallback) is None,
        },
{
    if records.len() > 0 {
        json::law_paths_lead_on(records[0], "id"@, Seq::empty(), Seq::empty());
        json::law_paths_lead_on(records[0], "version"@, Seq::empty(), Seq::empty());
    }
}

/// The samples of a session are those that the records behind its header leave, from an empty
/// ledger, and that have tokens. A record without a time counts from the `createdAt` of the header
/// where that is a positive integer, and else from the time of the file.
pub proof fn law_records_behind_the_header_count(
    records: Seq<JsonTree>,
    generation: Option<u32>,
    fallback: TimestampMs,
)
    requires
        session_of(records, generation, fallback) is Some,
    ensures
        ({
            let created_at = match records[0].member("createdAt"@) {
                Some(JsonTree::Number { signed: Some(millis), .. }) if millis > 0 => (TimestampMs {
                    millis,
                }),
                _ => fallback,
            };
            session_of(records, generation, fallback)->0.samples == counted(
                attempts::empty_ledger().after_records(records.drop_first(), created_at).samples,
            )
        }),
{
    json::law_paths_lead_on(records[0], "createdAt"@, Seq::empty(), Seq::empty());
    assert(records.skip(1) =~= records.drop_first());
}

/// A session belongs to the project at its `cwd`, without the white space at the ends, or to the
/// project `unknown` where that is missing or no more than white space.
pub proof fn law_sessions_belong_to_their_directory(
    records: Seq<JsonTree>,
    generation: Option<u32>,
    fallback: TimestampMs,
)
    requires
        session_of(records, generation, fallback) is Some,
    ensures
        session_of(records, generation, fallback)->0.project_path == match records[0].member(
            "cwd"@,
        ) {
            Some(JsonTree::Text(cwd)) if text::trimmed(cwd).len() > 0 => text::trimmed(cwd),
            _ => "unknown"@,
        },
{
    json::law_paths_lead_on(records[0], "cwd"@, Seq::empty(), Seq::empty());
}

/// The name of a file says how it is read: a compressed one is decoded, a plain one is not, and its
/// version has the generation that its header has to state. A name without a version is read plain
/// and goes with a header that states none.
pub proof fn law_names_say_how_files_are_read(path: paths::PathView, bytes: Seq<u8>)
    ensures
        match paths::version_of(path) {
            Some(version) => {
                &&& name_generation(path) == Some(version.generation)
                &&& version.compressed ==> file_content(path, bytes) == zstd_content(bytes)
                &&& !version.compressed ==> file_content(path, bytes) == Some(bytes)
            },
            None => name_generation(path) is None && file_content(path, bytes) == Some(bytes),
        },
{
}

/// The model of a session keeps each of its parts.
pub proof fn law_session_models_keep_their_parts(session: SessionLog)
    ensures
        session@.session_id == session.session_id@,
        session@.project_path == session.project_path@,
        session@.samples.len() == session.samples@.len(),
        forall|i: int|
            0 <= i < session.samples@.len() ==> #[trigger] session@.samples[i]
                == session.samples@[i]@,
{
}

/// A file is an error only where its name has a version that says that it is compressed and its
/// bytes are not decoded. Else it records what its content records.
pub proof fn law_only_undecoded_files_are_errors(
    path: paths::PathView,
    bytes: Seq<u8>,
    fallback: TimestampMs,
)
    ensures
        match paths::version_of(path) {
            Some(version) => if version.compressed {
                match zstd_content(bytes) {
                    Some(content) => session_in_file(path, bytes, fallback) == Ok::<
                        Option<SessionView>,
                        (),
                    >(session_of(records_of(content), Some(version.generation), fallback)),
                    None => session_in_file(path, bytes, fallback) is Err,
                }
            } else {
                session_in_file(path, bytes, fallback) == Ok::<Option<SessionView>, ()>(
                    session_of(records_of(bytes), Some(version.generation), fallback),
                )
            },
            None => session_in_file(path, bytes, fallback) == Ok::<Option<SessionView>, ()>(
                session_of(records_of(bytes), None, fallback),
            ),
        },
{
}

} // verus!
