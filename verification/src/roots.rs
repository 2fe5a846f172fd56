//! The directories under which sessions are looked for.

use crate::paths::{FilePath, PathView};
use crate::text::trim;
use crate::{paths, text};
use vstd::prelude::*;

verus! {

/// The variable that lists the roots, with a comma between two.
pub const DSH_HOME_ENV: &'static str = "DSH_HOME";

/// The root in the home directory that counts where none is listed.
pub const DEFAULT_ROOT: &'static str = ".dsh";

/// The directory of a root that holds the sessions.
pub const SESSIONS_DIRECTORY: &'static str = "sessions";

/// The texts without white space at their ends, where something is left of them.
pub open spec fn trimmed_parts(parts: Seq<Seq<char>>) -> Seq<Seq<char>>
    decreases parts.len(),
{
    if parts.len() == 0 {
        Seq::empty()
    } else {
        let before = trimmed_parts(parts.drop_last());
        if text::trimmed(parts.last()).len() > 0 {
            before.push(text::trimmed(parts.last()))
        } else {
            before
        }
    }
}

/// The roots that a list names.
pub open spec fn listed_roots(value: Seq<char>) -> Seq<Seq<char>> {
    trimmed_parts(text::split_on(value, ','))
}

/// The characters of each text.
pub open spec fn text_views(texts: Seq<String>) -> Seq<Seq<char>> {
    Seq::new(texts.len(), |i: int| texts[i]@)
}

/// Where the roots come from.
#[derive(Debug)]
pub enum RootSource {
    /// These are listed.
    Listed(Vec<String>),
    /// None is listed: the default root in the home directory counts.
    Home,
}

/// The roots that a list names, if there is a list and it names any.
pub open spec fn named_roots(listed: Option<Seq<char>>) -> Option<Seq<Seq<char>>> {
    match listed {
        Some(value) if listed_roots(value).len() > 0 => Some(listed_roots(value)),
        _ => None,
    }
}

/// The roots of a source that lists them.
pub open spec fn source_view(source: RootSource) -> Option<Seq<Seq<char>>> {
    match source {
        RootSource::Listed(roots) => Some(text_views(roots@)),
        RootSource::Home => None,
    }
}

/// A directory that may be a root.
#[derive(Debug)]
pub struct RootCandidate {
    pub path: FilePath,
    pub is_dir: bool,
}

/// The paths of the candidates that are directories, each once, in the order in which they first
/// occur.
pub open spec fn distinct_directories(candidates: Seq<RootCandidate>) -> Seq<PathView>
    decreases candidates.len(),
{
    if candidates.len() == 0 {
        Seq::empty()
    } else {
        let before = distinct_directories(candidates.drop_last());
        let last = candidates.last();
        if last.is_dir && !before.contains(last.path@) {
            before.push(last.path@)
        } else {
            before
        }
    }
}

/// One more part of the list.
fn take_part(roots: &mut Vec<String>, part: &str, Ghost(before): Ghost<Seq<Seq<char>>>)
    requires
        text_views(old(roots)@) == trimmed_parts(before),
    ensures
        text_views(final(roots)@) == trimmed_parts(before.push(part@)),
{
    assert(before.push(part@).drop_last() =~= before);
    let name = trim(part);
    if !name.is_empty() {
        roots.push(name.to_string());
    }
    assert(text_views(roots@) =~= trimmed_parts(before.push(part@)));
}

/// The roots that a list names.
fn split_roots(value: &str) -> (r: Vec<String>)
    ensures
        text_views(r@) == listed_roots(value@),
{
    let n = value.unicode_len();
    let mut roots: Vec<String> = Vec::new();
    let mut start: usize = 0;
    let mut i: usize = 0;
    let ghost mut before: Seq<Seq<char>> = Seq::empty();
    assert(value@.subrange(0, 0) =~= Seq::empty());
    assert(text::split_on(value@.take(0), ',') =~= before.push(value@.subrange(0, 0)));
    assert(text_views(roots@) =~= trimmed_parts(before));
    for c in it: value.chars()
        invariant
            it.seq() == value@,
            i == it.index(),
            n == value@.len(),
            start <= i,
            text::split_on(value@.take(i as int), ',') == before.push(
                value@.subrange(start as int, i as int),
            ),
            text_views(roots@) == trimmed_parts(before),
    {
        let ghost part = value@.subrange(start as int, i as int);
        assert(value@.take(i + 1).drop_last() =~= value@.take(i as int));
        if c == ',' {
            take_part(&mut roots, value.substring_char(start, i), Ghost(before));
            proof {
                before = before.push(part);
                assert(value@.subrange(i + 1, i + 1) =~= Seq::empty());
            }
            start = i + 1;
        } else {
            assert(before.push(part).drop_last() =~= before);
            assert(part.push(value@[i as int]) =~= value@.subrange(start as int, i + 1));
        }
        i = i + 1;
    }
    assert(value@.take(value@.len() as int) =~= value@);
    take_part(&mut roots, value.substring_char(start, n), Ghost(before));
    roots
}

/// Where the roots come from, given the list if there is one.
pub fn root_source(listed: Option<&str>) -> (r: RootSource)
    ensures
        match listed {
            Some(value) if listed_roots(value@).len() > 0 => r matches RootSource::Listed(roots)
                && text_views(roots@) == listed_roots(value@),
            _ => r is Home,
        },
        source_view(r) == named_roots(
            match listed {
                Some(value) => Some(value@),
                None => None,
            },
        ),
{
    match listed {
        Some(value) => {
            let roots = split_roots(value);
            assert(text_views(roots@).len() == roots@.len());
            if roots.is_empty() {
                RootSource::Home
            } else {
                RootSource::Listed(roots)
            }
        },
        None => RootSource::Home,
    }
}

fn has_path(paths: &Vec<FilePath>, path: &FilePath) -> (r: bool)
    ensures
        r == paths::path_views(paths@).contains(path@),
{
    let ghost views = paths::path_views(paths@);
    let mut i: usize = 0;
    while i < paths.len()
        invariant
            i <= paths@.len(),
            views == paths::path_views(paths@),
            forall|j: int| 0 <= j < i ==> views[j] != path@,
        decreases paths@.len() - i,
    {
        if paths[i].same(path) {
            assert(views[i as int] == path@);
            return true;
        }
        i += 1;
    }
    false
}

/// The roots to look under: the candidates that are directories, each once.
pub fn roots(candidates: Vec<RootCandidate>) -> (r: Vec<FilePath>)
    ensures
        paths::path_views(r@) == distinct_directories(candidates@),
{
    let ghost all = candidates@;
    let mut found: Vec<FilePath> = Vec::new();
    assert(paths::path_views(found@) =~= distinct_directories(all.take(0)));
    for candidate in it: candidates
        invariant
            it.seq() == all,
            paths::path_views(found@) == distinct_directories(all.take(it.index() as int)),
    {
        let ghost n = it.index() as int;
        assert(all.take(n + 1).drop_last() =~= all.take(n));
        assert(all.take(n + 1).last() == candidate);
        if candidate.is_dir && !has_path(&found, &candidate.path) {
            found.push(candidate.path);
        }
        assert(paths::path_views(found@) =~= distinct_directories(all.take(n + 1)));
    }
    assert(all.take(all.len() as int) =~= all);
    found
}

// ---------------------------------------------------------------------------------------------
// Laws
// ---------------------------------------------------------------------------------------------

/// No root is looked under twice.
pub proof fn law_roots_are_distinct(candidates: Seq<RootCandidate>)
    ensures
        distinct_directories(candidates).no_duplicates(),
    decreases candidates.len(),
{
    if candidates.len() > 0 {
        law_roots_are_distinct(candidates.drop_last());
    }
}

/// Every candidate that is a directory is looked under.
pub proof fn law_directories_are_roots(candidates: Seq<RootCandidate>, i: int)
    requires
        0 <= i < candidates.len(),
        candidates[i].is_dir,
    ensures
        distinct_directories(candidates).contains(candidates[i].path@),
    decreases candidates.len(),
{
    let before = distinct_directories(candidates.drop_last());
    let all = distinct_directories(candidates);
    let path = candidates[i].path@;
    if i < candidates.len() - 1 {
        law_directories_are_roots(candidates.drop_last(), i);
    }
    if before.contains(path) {
        let k = before.index_of(path);
        assert(all[k] == path);
    } else {
        assert(all[all.len() - 1] == path);
    }
}

/// A comma ends a root of the list: what stands before it and what stands behind it name their
/// roots apart.
pub proof fn law_commas_part_the_list(first: Seq<char>, second: Seq<char>)
    ensures
        listed_roots(first.push(',') + second) == listed_roots(first) + listed_roots(second),
{
    text::lemma_split_joined(first, second, ',');
    lemma_parts_joined(text::split_on(first, ','), text::split_on(second, ','));
}

proof fn lemma_parts_joined(a: Seq<Seq<char>>, b: Seq<Seq<char>>)
    ensures
        trimmed_parts(a + b) == trimmed_parts(a) + trimmed_parts(b),
    decreases b.len(),
{
    if b.len() == 0 {
        assert(a + b =~= a);
        assert(trimmed_parts(a) + trimmed_parts(b) =~= trimmed_parts(a));
    } else {
        lemma_parts_joined(a, b.drop_last());
        assert((a + b).drop_last() =~= a + b.drop_last());
        assert(trimmed_parts(a + b) =~= trimmed_parts(a) + trimmed_parts(b));
    }
}

proof fn lemma_one_part(value: Seq<char>)
    requires
        !value.contains(','),
    ensures
        text::split_on(value, ',') == seq![value],
    decreases value.len(),
{
    if value.len() == 0 {
        assert(value =~= Seq::empty());
    } else {
        let shorter = value.drop_last();
        assert forall|i: int| 0 <= i < shorter.len() implies shorter[i] != ',' by {
            assert(value.contains(value[i]));
        }
        lemma_one_part(shorter);
        assert(value.contains(value[value.len() - 1]));
        assert(shorter.push(value.last()) =~= value);
        assert(text::split_on(value, ',') =~= seq![value]);
    }
}

/// A list without a comma names one root, without the white space at its ends, or none where it is
/// no more than white space.
pub proof fn law_list_without_commas_names_one_root(value: Seq<char>)
    requires
        !value.contains(','),
    ensures
        text::trimmed(value).len() > 0 ==> listed_roots(value) == seq![text::trimmed(value)],
        text::trimmed(value).len() == 0 ==> listed_roots(value).len() == 0,
{
    lemma_one_part(value);
    let parts = seq![value];
    assert(parts.drop_last() =~= Seq::empty());
    reveal_with_fuel(trimmed_parts, 2);
    if text::trimmed(value).len() > 0 {
        assert(listed_roots(value) =~= seq![text::trimmed(value)]);
    }
}

/// Only a candidate that is a directory is looked under.
pub proof fn law_roots_are_directories(candidates: Seq<RootCandidate>, k: int) -> (i: int)
    requires
        0 <= k < distinct_directories(candidates).len(),
    ensures
        0 <= i < candidates.len(),
        candidates[i].is_dir,
        candidates[i].path@ == distinct_directories(candidates)[k],
    decreases candidates.len(),
{
    let shorter = candidates.drop_last();
    if k < distinct_directories(shorter).len() {
        law_roots_are_directories(shorter, k)
    } else {
        candidates.len() - 1
    }
}

/// Roots keep the order in which they first occur: more candidates add roots behind those that are
/// there.
pub proof fn law_later_candidates_come_later(
    candidates: Seq<RootCandidate>,
    more: Seq<RootCandidate>,
)
    ensures
        distinct_directories(candidates).is_prefix_of(distinct_directories(candidates + more)),
    decreases more.len(),
{
    let all = candidates + more;
    if more.len() == 0 {
        assert(all =~= candidates);
        let roots = distinct_directories(candidates);
        assert(roots.is_prefix_of(roots));
    } else {
        law_later_candidates_come_later(candidates, more.drop_last());
        assert(all.drop_last() =~= candidates + more.drop_last());
        let a = distinct_directories(candidates);
        let b = distinct_directories(all.drop_last());
        let c = distinct_directories(all);
        assert(c.take(a.len() as int) =~= b.take(a.len() as int));
    }
}

/// The names that the program goes by.
pub proof fn law_names_of_the_roots()
    ensures
        DSH_HOME_ENV@ == "DSH_HOME"@,
        DEFAULT_ROOT@ == ".dsh"@,
        SESSIONS_DIRECTORY@ == "sessions"@,
{
}

/// A list that names a root takes the place of the home directory, and any other list does not.
pub proof fn law_lists_take_the_place_of_home(value: Seq<char>)
    ensures
        named_roots(None) is None,
        listed_roots(value).len() > 0 ==> named_roots(Some(value)) == Some(listed_roots(value)),
        listed_roots(value).len() == 0 ==> named_roots(Some(value)) is None,
{
}

/// The characters of texts are kept in their place, and only a list has any.
pub proof fn law_listed_texts_keep_their_place(texts: Vec<String>, i: int)
    requires
        0 <= i < texts@.len(),
    ensures
        source_view(RootSource::Listed(texts)) matches Some(views) && views.len() == texts@.len()
            && views[i] == texts@[i]@,
        source_view(RootSource::Home) is None,
{
}

} // verus!
