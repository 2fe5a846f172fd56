//! Which session files are read: of each session directory the newest, and no directory whose
//! newest file is too new.

use crate::order;
use crate::order::{sorted, Ranked};
use crate::paths;
use crate::paths::{
    has_outgrown, session_file_version, FilePath, PathView, SessionFileVersion,
    MAX_SUPPORTED_GENERATION,
};
use crate::text;
use vstd::prelude::*;

verus! {

/// Whether `path` is a session file among those found under root number `root`.
pub open spec fn is_candidate(found: Seq<Seq<PathView>>, root: int, path: PathView) -> bool {
    &&& 0 <= root < found.len()
    &&& found[root].contains(path)
    &&& paths::version_of(path) is Some
}

/// Whether one session file is read in place of another of its directory: the greater version is,
/// then the one under the earlier root, then the one whose path comes first.
pub open spec fn beats(root: int, path: PathView, other_root: int, other: PathView) -> bool {
    let version = paths::version_of(path)->0;
    let other_version = paths::version_of(other)->0;
    other_version.less(version) || (version == other_version && (root < other_root || (root
        == other_root && path != other && paths::path_le(path, other))))
}

/// Whether no session file of its directory beats the given one.
pub open spec fn unbeaten(found: Seq<Seq<PathView>>, root: int, path: PathView) -> bool {
    &&& is_candidate(found, root, path)
    &&& forall|other_root: int, other: PathView| #[trigger]
        is_candidate(found, other_root, other) && paths::directory(other) == paths::directory(path)
            ==> !beats(other_root, other, root, path)
}

/// Whether `path` is the session file that stands for its directory.
pub open spec fn selected(found: Seq<Seq<PathView>>, path: PathView) -> bool {
    exists|root: int| unbeaten(found, root, path)
}

/// The generation of a session file.
pub open spec fn generation_of(path: PathView) -> u32 {
    paths::version_of(path)->0.generation
}

/// Whether the generation of a session file is supported.
pub open spec fn supported(path: PathView) -> bool {
    generation_of(path) <= MAX_SUPPORTED_GENERATION
}

/// Whether `path` was found under some root.
pub open spec fn is_found(found: Seq<Seq<PathView>>, path: PathView) -> bool {
    exists|root: int| 0 <= root < found.len() && (#[trigger] found[root]).contains(path)
}

/// Whether a directory holds a session file of a generation that no `u32` holds. Such a file is
/// newer than all that have a version, and nothing of the directory is read.
pub open spec fn outgrown(found: Seq<Seq<PathView>>, directory: PathView) -> bool {
    exists|path: PathView|
        is_found(found, path) && #[trigger] paths::outgrows(path) && paths::directory(path)
            == directory
}

/// Whether a file is read: it stands for its directory, its generation is supported, and no file of
/// its directory outgrows.
pub open spec fn to_read(found: Seq<Seq<PathView>>, path: PathView) -> bool {
    selected(found, path) && supported(path) && !outgrown(found, paths::directory(path))
}

/// The order in which files are read: newer generations first, then by path.
pub open spec fn read_before(path: PathView, other: PathView) -> bool {
    path != other && (generation_of(path) > generation_of(other) || (generation_of(path)
        == generation_of(other) && paths::path_le(path, other)))
}

/// A session file that stands for its directory so far.
struct Choice {
    root: usize,
    version: SessionFileVersion,
    path: FilePath,
}

impl Choice {
    spec fn valid(self, found: Seq<Seq<PathView>>) -> bool {
        &&& unbeaten(found, self.root as int, self.path@)
        &&& paths::version_of(self.path@) == Some(self.version)
    }
}

/// The choices after all of `found` was looked at.
spec fn choices_for(choices: Seq<Choice>, found: Seq<Seq<PathView>>) -> bool {
    &&& forall|i: int| 0 <= i < choices.len() ==> (#[trigger] choices[i]).valid(found)
    &&& forall|i: int, j: int|
        0 <= i < j < choices.len() ==> paths::directory((#[trigger] choices[i]).path@)
            != paths::directory((#[trigger] choices[j]).path@)
    &&& forall|root: int, path: PathView| #[trigger]
        is_candidate(found, root, path) ==> exists|i: int|
            0 <= i < choices.len() && paths::directory((#[trigger] choices[i]).path@)
                == paths::directory(path)
}

/// What was found, with one more file under the last root.
spec fn with_file(found: Seq<Seq<PathView>>, path: PathView) -> Seq<Seq<PathView>> {
    found.update(found.len() - 1, found.last().push(path))
}

proof fn lemma_beats_transitive(
    a_root: int,
    a: PathView,
    b_root: int,
    b: PathView,
    c_root: int,
    c: PathView,
)
    requires
        beats(a_root, a, b_root, b),
        beats(b_root, b, c_root, c),
    ensures
        beats(a_root, a, c_root, c),
{
    paths::lemma_part_order();
    let le = paths::part_order();
    if paths::path_le(a, b) && paths::path_le(b, c) {
        order::lemma_lex_transitive(a, b, c, le);
        if a == c {
            order::lemma_lex_antisymmetric(a, b, le);
        }
    }
}

proof fn lemma_beats_total(a_root: int, a: PathView, b_root: int, b: PathView)
    requires
        !beats(a_root, a, b_root, b),
        !beats(b_root, b, a_root, a),
        paths::version_of(a) is Some,
        paths::version_of(b) is Some,
    ensures
        a_root == b_root,
        a == b,
{
    paths::lemma_part_order();
    order::lemma_lex_total(a, b, paths::part_order());
}

proof fn lemma_with_file(found: Seq<Seq<PathView>>, added: PathView)
    requires
        found.len() > 0,
    ensures
        forall|root: int, path: PathView| #[trigger]
            is_candidate(with_file(found, added), root, path) <==> (is_candidate(found, root, path)
                || (root == found.len() - 1 && path == added && paths::version_of(path) is Some)),
{
    let more = with_file(found, added);
    assert forall|root: int, path: PathView| #[trigger] is_candidate(more, root, path) <==> (
    is_candidate(found, root, path) || (root == found.len() - 1 && path == added
        && paths::version_of(path) is Some)) by {
        if root == found.len() - 1 {
            let old_files = found[root];
            let files = more[root];
            assert(files == old_files.push(added));
            if old_files.contains(path) {
                let i = old_files.index_of(path);
                assert(files[i] == path);
            }
            if path == added {
                assert(files[old_files.len() as int] == path);
            }
        }
    }
}

/// A file that is no session file with a version changes no choice.
proof fn lemma_no_candidate(choices: Seq<Choice>, found: Seq<Seq<PathView>>, path: PathView)
    requires
        found.len() > 0,
        choices_for(choices, found),
        paths::version_of(path) is None,
    ensures
        choices_for(choices, with_file(found, path)),
{
    lemma_with_file(found, path);
    assert forall|i: int| 0 <= i < choices.len() implies (#[trigger] choices[i]).valid(
        with_file(found, path),
    ) by {
        assert(choices[i].valid(found));
    }
}

/// Whether `files` are those of what was found that outgrow.
spec fn are_outgrown(files: Seq<FilePath>, found: Seq<Seq<PathView>>) -> bool {
    forall|path: PathView| #[trigger]
        paths::path_views(files).contains(path) <==> is_found(found, path) && paths::outgrows(path)
}

proof fn lemma_found_with_file(found: Seq<Seq<PathView>>, added: PathView)
    requires
        found.len() > 0,
    ensures
        forall|path: PathView| #[trigger]
            is_found(with_file(found, added), path) <==> is_found(found, path) || path == added,
{
    let more = with_file(found, added);
    let last = found.len() - 1;
    assert forall|path: PathView| #[trigger] is_found(more, path) <==> is_found(found, path)
        || path == added by {
        if is_found(found, path) {
            let root = choose|root: int|
                0 <= root < found.len() && (#[trigger] found[root]).contains(path);
            let i = found[root].index_of(path);
            assert(more[root][i] == path);
            assert(more[root].contains(path));
        }
        if path == added {
            assert(more[last][found[last].len() as int] == path);
            assert(more[last].contains(path));
        }
        if is_found(more, path) && path != added {
            let root = choose|root: int|
                0 <= root < more.len() && (#[trigger] more[root]).contains(path);
            let i = more[root].index_of(path);
            assert(found[root][i] == path);
            assert(found[root].contains(path));
        }
    }
}

/// Notes one more file under the last root if it outgrows.
fn note(
    outgrown: &mut Vec<FilePath>,
    path: FilePath,
    Ghost(found): Ghost<Seq<Seq<PathView>>>,
)
    requires
        found.len() > 0,
        are_outgrown(old(outgrown)@, found),
        paths::outgrows(path@),
    ensures
        are_outgrown(final(outgrown)@, with_file(found, path@)),
{
    let ghost before = paths::path_views(outgrown@);
    let ghost added = path@;
    outgrown.push(path);
    proof {
        lemma_found_with_file(found, added);
        let after = paths::path_views(outgrown@);
        assert(after =~= before.push(added));
        assert forall|p: PathView| #[trigger] after.contains(p) <==> before.contains(p) || p
            == added by {
            if before.contains(p) {
                let i = before.index_of(p);
                assert(after[i] == p);
            }
            if p == added {
                assert(after[before.len() as int] == p);
            }
        }
    }
}

/// Looks at one more file under the last root.
fn consider(
    choices: &mut Vec<Choice>,
    root: usize,
    path: FilePath,
    Ghost(found): Ghost<Seq<Seq<PathView>>>,
)
    requires
        root + 1 == found.len(),
        choices_for(old(choices)@, found),
    ensures
        choices_for(final(choices)@, with_file(found, path@)),
{
    let ghost more = with_file(found, path@);
    proof {
        lemma_with_file(found, path@);
    }
    let version = match session_file_version(&path) {
        Some(version) => version,
        None => {
            proof {
                lemma_no_candidate(choices@, found, path@);
            }
            return;
        },
    };
    assert(is_candidate(more, root as int, path@));
    let mut i: usize = 0;
    while i < choices.len()
        invariant
            choices@ == old(choices)@,
            choices_for(choices@, found),
            root + 1 == found.len(),
            more == with_file(found, path@),
            forall|r: int, p: PathView| #[trigger]
                is_candidate(more, r, p) <==> (is_candidate(found, r, p) || (r == found.len() - 1
                    && p == path@ && paths::version_of(p) is Some)),
            paths::version_of(path@) == Some(version),
            is_candidate(more, root as int, path@),
            i <= choices@.len(),
            forall|j: int|
                0 <= j < i ==> paths::directory((#[trigger] choices@[j]).path@)
                    != paths::directory(path@),
        decreases choices@.len() - i,
    {
        assert(choices@[i as int].valid(found));
        if choices[i].path.same_directory(&path) {
            let current = &choices[i];
            let less = current.version.generation < version.generation || (
            current.version.generation == version.generation && !current.version.compressed
                && version.compressed);
            let equal = current.version.generation == version.generation
                && current.version.compressed == version.compressed;
            let replace = less || (equal && current.root == root && !current.path.same(&path)
                && path.path_in_order(&current.path));
            let ghost was = choices@[i as int];
            assert(was.root <= root);
            assert(replace == beats(root as int, path@, was.root as int, was.path@));
            if replace {
                choices.set(i, Choice { root, version, path });
                proof {
                    lemma_replaced(old(choices)@, choices@, found, more, i as int, root as int);
                }
            } else {
                proof {
                    lemma_kept(choices@, found, more, i as int, root as int, path@);
                }
            }
            return;
        }
        i += 1;
    }
    choices.push(Choice { root, version, path });
    proof {
        lemma_added(old(choices)@, choices@, found, more, root as int);
    }
}

/// A file that beats the choice of its directory takes its place.
proof fn lemma_replaced(
    before: Seq<Choice>,
    after: Seq<Choice>,
    found: Seq<Seq<PathView>>,
    more: Seq<Seq<PathView>>,
    at: int,
    root: int,
)
    requires
        choices_for(before, found),
        0 <= at < before.len(),
        after == before.update(at, after[at]),
        after[at].root == root,
        paths::version_of(after[at].path@) == Some(after[at].version),
        paths::directory(after[at].path@) == paths::directory(before[at].path@),
        beats(root, after[at].path@, before[at].root as int, before[at].path@),
        is_candidate(more, root, after[at].path@),
        forall|r: int, p: PathView| #[trigger]
            is_candidate(more, r, p) <==> (is_candidate(found, r, p) || (r == root && p
                == after[at].path@ && paths::version_of(p) is Some)),
    ensures
        choices_for(after, more),
{
    let new = after[at];
    assert(before[at].valid(found));
    assert forall|i: int| 0 <= i < after.len() implies (#[trigger] after[i]).valid(more) by {
        if i == at {
            assert forall|r: int, p: PathView| #[trigger]
                is_candidate(more, r, p) && paths::directory(p) == paths::directory(
                    new.path@,
                ) implies !beats(r, p, root, new.path@) by {
                if beats(r, p, root, new.path@) {
                    lemma_beats_transitive(
                        r,
                        p,
                        root,
                        new.path@,
                        before[at].root as int,
                        before[at].path@,
                    );
                    if r == root && p == new.path@ {
                    } else {
                        assert(is_candidate(found, r, p));
                    }
                }
            }
        } else {
            assert(before[i].valid(found));
            assert(after[i] == before[i]);
            if i < at {
                assert(paths::directory(before[i].path@) != paths::directory(before[at].path@));
            } else {
                assert(paths::directory(before[at].path@) != paths::directory(before[i].path@));
            }
        }
    }
    assert forall|i: int, j: int| 0 <= i < j < after.len() implies paths::directory(
        (#[trigger] after[i]).path@,
    ) != paths::directory((#[trigger] after[j]).path@) by {
        assert(paths::directory(before[i].path@) != paths::directory(before[j].path@));
    }
    assert forall|r: int, p: PathView| #[trigger] is_candidate(more, r, p) implies exists|i: int|
        0 <= i < after.len() && paths::directory((#[trigger] after[i]).path@)
            == paths::directory(p) by {
        if is_candidate(found, r, p) {
            let i = choose|i: int|
                0 <= i < before.len() && paths::directory((#[trigger] before[i]).path@)
                    == paths::directory(p);
            assert(paths::directory(after[i].path@) == paths::directory(p));
        } else {
            assert(paths::directory(after[at].path@) == paths::directory(p));
        }
    }
}

/// A file that does not beat the choice of its directory changes nothing.
proof fn lemma_kept(
    choices: Seq<Choice>,
    found: Seq<Seq<PathView>>,
    more: Seq<Seq<PathView>>,
    at: int,
    root: int,
    path: PathView,
)
    requires
        choices_for(choices, found),
        0 <= at < choices.len(),
        paths::directory(path) == paths::directory(choices[at].path@),
        !beats(root, path, choices[at].root as int, choices[at].path@),
        forall|r: int, p: PathView| #[trigger]
            is_candidate(more, r, p) <==> (is_candidate(found, r, p) || (r == root && p == path
                && paths::version_of(p) is Some)),
    ensures
        choices_for(choices, more),
{
    assert forall|i: int| 0 <= i < choices.len() implies (#[trigger] choices[i]).valid(more) by {
        assert(choices[i].valid(found));
        if i < at {
            assert(paths::directory(choices[i].path@) != paths::directory(choices[at].path@));
        } else if i > at {
            assert(paths::directory(choices[at].path@) != paths::directory(choices[i].path@));
        }
    }
    assert forall|r: int, p: PathView| #[trigger] is_candidate(more, r, p) implies exists|i: int|
        0 <= i < choices.len() && paths::directory((#[trigger] choices[i]).path@)
            == paths::directory(p) by {
        if !is_candidate(found, r, p) {
            assert(paths::directory(choices[at].path@) == paths::directory(p));
        }
    }
}

/// The first file of its directory becomes its choice.
proof fn lemma_added(
    before: Seq<Choice>,
    after: Seq<Choice>,
    found: Seq<Seq<PathView>>,
    more: Seq<Seq<PathView>>,
    root: int,
)
    requires
        choices_for(before, found),
        after == before.push(after.last()),
        after.last().root == root,
        paths::version_of(after.last().path@) == Some(after.last().version),
        forall|j: int|
            0 <= j < before.len() ==> paths::directory((#[trigger] before[j]).path@)
                != paths::directory(after.last().path@),
        is_candidate(more, root, after.last().path@),
        forall|r: int, p: PathView| #[trigger]
            is_candidate(more, r, p) <==> (is_candidate(found, r, p) || (r == root && p
                == after.last().path@ && paths::version_of(p) is Some)),
    ensures
        choices_for(after, more),
{
    let new = after.last();
    assert forall|i: int| 0 <= i < after.len() implies (#[trigger] after[i]).valid(more) by {
        if i == before.len() {
            assert forall|r: int, p: PathView| #[trigger]
                is_candidate(more, r, p) && paths::directory(p) == paths::directory(
                    new.path@,
                ) implies !beats(r, p, root, new.path@) by {
                if is_candidate(found, r, p) {
                    let j = choose|j: int|
                        0 <= j < before.len() && paths::directory((#[trigger] before[j]).path@)
                            == paths::directory(p);
                    assert(paths::directory(before[j].path@) != paths::directory(new.path@));
                }
            }
        } else {
            assert(before[i].valid(found));
            assert(after[i] == before[i]);
            assert(paths::directory(before[i].path@) != paths::directory(new.path@));
        }
    }
    assert forall|i: int, j: int| 0 <= i < j < after.len() implies paths::directory(
        (#[trigger] after[i]).path@,
    ) != paths::directory((#[trigger] after[j]).path@) by {
        assert(after[i] == before[i]);
        if j < before.len() {
            assert(after[j] == before[j]);
        }
    }
    assert forall|r: int, p: PathView| #[trigger] is_candidate(more, r, p) implies exists|i: int|
        0 <= i < after.len() && paths::directory((#[trigger] after[i]).path@)
            == paths::directory(p) by {
        if is_candidate(found, r, p) {
            let i = choose|i: int|
                0 <= i < before.len() && paths::directory((#[trigger] before[i]).path@)
                    == paths::directory(p);
            assert(after[i] == before[i]);
        } else {
            assert(after[before.len() as int] == new);
        }
    }
}

impl Ranked for Choice {
    closed spec fn precedes(self, other: Choice) -> bool {
        self.version.generation > other.version.generation || (self.version.generation
            == other.version.generation && paths::path_le(self.path@, other.path@))
    }

    proof fn precedes_total(a: Choice, b: Choice) {
        paths::lemma_part_order();
        order::lemma_lex_total(a.path@, b.path@, paths::part_order());
    }

    proof fn precedes_transitive(a: Choice, b: Choice, c: Choice) {
        paths::lemma_part_order();
        if paths::path_le(a.path@, b.path@) && paths::path_le(b.path@, c.path@) {
            order::lemma_lex_transitive(a.path@, b.path@, c.path@, paths::part_order());
        }
    }

    fn in_order(&self, other: &Choice) -> (r: bool) {
        self.version.generation > other.version.generation || (self.version.generation
            == other.version.generation && self.path.path_in_order(&other.path))
    }
}

/// The choices for everything that was found, and the files that outgrow.
fn choose_files(found: Vec<Vec<FilePath>>) -> (r: (Vec<Choice>, Vec<FilePath>))
    ensures
        choices_for(r.0@, paths::found_views(found@)),
        are_outgrown(r.1@, paths::found_views(found@)),
{
    let ghost views = paths::found_views(found@);
    let mut choices: Vec<Choice> = Vec::new();
    let mut outgrown: Vec<FilePath> = Vec::new();
    let mut root: usize = 0;
    let count = found.len();
    assert(views.take(0) =~= Seq::empty());
    for files in it: found
        invariant
            it.seq() == found@,
            root == it.index(),
            count == found@.len(),
            views == paths::found_views(found@),
            choices_for(choices@, views.take(root as int)),
            are_outgrown(outgrown@, views.take(root as int)),
    {
        let ghost here = paths::path_views(files@);
        assert(here == views[root as int]);
        assert(choices_for(choices@, views.take(root as int).push(here.take(0)))) by {
            let less = views.take(root as int);
            let more = less.push(here.take(0));
            assert forall|r: int, p: PathView| #[trigger]
                is_candidate(more, r, p) == is_candidate(less, r, p) by {
                if 0 <= r < less.len() {
                    assert(more[r] == less[r]);
                } else if r == less.len() {
                    assert(!here.take(0).contains(p));
                }
            }
            assert forall|i: int| 0 <= i < choices@.len() implies (#[trigger] choices@[i]).valid(
                more,
            ) by {
                assert(choices@[i].valid(less));
            }
        }
        assert(are_outgrown(outgrown@, views.take(root as int).push(here.take(0)))) by {
            let less = views.take(root as int);
            let more = less.push(here.take(0));
            assert forall|p: PathView| #[trigger] is_found(more, p) == is_found(less, p) by {
                if is_found(less, p) {
                    let r = choose|r: int|
                        0 <= r < less.len() && (#[trigger] less[r]).contains(p);
                    assert(more[r].contains(p));
                }
                if is_found(more, p) {
                    let r = choose|r: int|
                        0 <= r < more.len() && (#[trigger] more[r]).contains(p);
                    assert(less[r].contains(p));
                }
            }
        }
        for path in inner: files
            invariant
                inner.seq() == files@,
                here == paths::path_views(files@),
                root < views.len(),
                choices_for(
                    choices@,
                    views.take(root as int).push(here.take(inner.index() as int)),
                ),
                are_outgrown(
                    outgrown@,
                    views.take(root as int).push(here.take(inner.index() as int)),
                ),
        {
            let ghost before = views.take(root as int).push(here.take(inner.index() as int));
            let ghost added = path@;
            if has_outgrown(&path) {
                note(&mut outgrown, path, Ghost(before));
                proof {
                    paths::law_outgrown_file_has_no_version(added);
                    lemma_no_candidate(choices@, before, added);
                }
            } else {
                consider(&mut choices, root, path, Ghost(before));
                proof {
                    lemma_found_with_file(before, added);
                }
            }
            proof {
                let n = inner.index() as int;
                assert(here.take(n).push(added) =~= here.take(n + 1));
                assert(with_file(before, added) =~= views.take(root as int).push(here.take(n + 1)));
            }
        }
        assert(here.take(here.len() as int) =~= here);
        assert(views.take(root as int).push(here) =~= views.take(root + 1));
        root += 1;
    }
    assert(views.take(views.len() as int) =~= views);
    (choices, outgrown)
}

/// Whether a choice is read: its generation is supported, and no file of its directory outgrows.
spec fn is_read(choice: Choice, outgrown: Seq<PathView>) -> bool {
    &&& choice.version.generation <= MAX_SUPPORTED_GENERATION
    &&& forall|k: int|
        0 <= k < outgrown.len() ==> paths::directory(#[trigger] outgrown[k]) != paths::directory(
            choice.path@,
        )
}

/// Whether one of `files` is in the directory of `path`.
fn shares_directory(files: &Vec<FilePath>, path: &FilePath) -> (r: bool)
    requires
        path@.len() > 0,
        forall|k: int| 0 <= k < files@.len() ==> (#[trigger] files@[k])@.len() > 0,
    ensures
        r == exists|k: int|
            0 <= k < files@.len() && paths::directory(
                #[trigger] paths::path_views(files@)[k],
            ) == paths::directory(path@),
{
    let ghost views = paths::path_views(files@);
    let mut i: usize = 0;
    while i < files.len()
        invariant
            i <= files@.len(),
            path@.len() > 0,
            views == paths::path_views(files@),
            forall|k: int| 0 <= k < files@.len() ==> (#[trigger] files@[k])@.len() > 0,
            forall|k: int|
                0 <= k < i ==> paths::directory(#[trigger] views[k]) != paths::directory(path@),
        decreases files@.len() - i,
    {
        assert(views[i as int] == files@[i as int]@);
        if files[i].same_directory(path) {
            return true;
        }
        i += 1;
    }
    false
}

/// Whether `kept` holds the ones of `chosen` that are read, which stand there at `from`.
spec fn is_read_part(
    kept: Seq<Choice>,
    chosen: Seq<Choice>,
    outgrown: Seq<PathView>,
    from: Seq<int>,
) -> bool {
    &&& from.len() == kept.len()
    &&& forall|k: int|
        0 <= k < from.len() ==> {
            &&& 0 <= #[trigger] from[k] < chosen.len()
            &&& kept[k] == chosen[from[k]]
            &&& is_read(kept[k], outgrown)
        }
    &&& forall|k: int, l: int| 0 <= k < l < from.len() ==> #[trigger] from[k] < #[trigger] from[l]
    &&& forall|i: int|
        0 <= i < chosen.len() && is_read(#[trigger] chosen[i], outgrown) ==> from.contains(i)
}

/// The choices that are read.
fn keep_read(chosen: Vec<Choice>, outgrown: &Vec<FilePath>) -> (r: (Vec<Choice>, Ghost<Seq<int>>))
    requires
        forall|i: int| 0 <= i < chosen@.len() ==> (#[trigger] chosen@[i]).path@.len() > 0,
        forall|k: int| 0 <= k < outgrown@.len() ==> (#[trigger] outgrown@[k])@.len() > 0,
    ensures
        is_read_part(r.0@, chosen@, paths::path_views(outgrown@), r.1@),
{
    let ghost all = chosen@;
    let ghost beyond = paths::path_views(outgrown@);
    let mut kept: Vec<Choice> = Vec::new();
    let ghost mut from: Seq<int> = Seq::empty();
    for choice in it: chosen
        invariant
            it.seq() == all,
            beyond == paths::path_views(outgrown@),
            forall|i: int| 0 <= i < all.len() ==> (#[trigger] all[i]).path@.len() > 0,
            forall|k: int| 0 <= k < outgrown@.len() ==> (#[trigger] outgrown@[k])@.len() > 0,
            is_read_part(kept@, all.take(it.index() as int), beyond, from),
    {
        let ghost n = it.index() as int;
        let ghost before = from;
        let ghost seen = all.take(n);
        let ghost now = all.take(n + 1);
        assert(choice == all[n]);
        let read = choice.version.generation <= MAX_SUPPORTED_GENERATION && !shares_directory(
            outgrown,
            &choice.path,
        );
        assert(read == is_read(choice, beyond));
        if read {
            kept.push(choice);
            proof {
                from = from.push(n);
            }
        }
        proof {
            assert forall|i: int|
                0 <= i < now.len() && is_read(
                    #[trigger] now[i],
                    beyond,
                ) implies from.contains(i) by {
                if i < n {
                    assert(now[i] == seen[i]);
                    let k = before.index_of(i);
                    assert(before.contains(i));
                    assert(from[k] == i);
                } else {
                    assert(from[from.len() - 1] == n);
                }
            }
            assert forall|k: int| 0 <= k < from.len() implies {
                &&& 0 <= #[trigger] from[k] < now.len()
                &&& kept@[k] == now[from[k]]
                &&& is_read(kept@[k], beyond)
            } by {
                if k < before.len() {
                    assert(before[k] == from[k]);
                    assert(now[from[k]] == seen[from[k]]);
                }
            }
        }
    }
    assert(all.take(all.len() as int) =~= all);
    (kept, Ghost(from))
}

/// What is read of the choices is what is to be read of the directories.
proof fn lemma_read_or_outgrown(
    choice: Choice,
    files: Seq<FilePath>,
    found: Seq<Seq<PathView>>,
)
    requires
        paths::version_of(choice.path@) == Some(choice.version),
        are_outgrown(files, found),
    ensures
        is_read(choice, paths::path_views(files)) == (supported(choice.path@) && !outgrown(
            found,
            paths::directory(choice.path@),
        )),
{
    let beyond = paths::path_views(files);
    let directory = paths::directory(choice.path@);
    if outgrown(found, directory) {
        let path = choose|path: PathView|
            is_found(found, path) && #[trigger] paths::outgrows(path) && paths::directory(path)
                == directory;
        assert(beyond.contains(path));
        let k = beyond.index_of(path);
        assert(beyond[k] == path);
    }
    assert forall|k: int| 0 <= k < beyond.len() && !outgrown(
        found,
        directory,
    ) implies paths::directory(#[trigger] beyond[k]) != directory by {
        assert(beyond.contains(beyond[k]));
    }
}

/// The session files to read, of what was found under each root, in the order in which they are
/// read.
pub fn discover_session_files(found: Vec<Vec<FilePath>>) -> (r: Vec<FilePath>)
    ensures
        forall|path: PathView| #[trigger]
            paths::path_views(r@).contains(path) <==> selected(paths::found_views(found@), path)
                && supported(path) && !outgrown(
                paths::found_views(found@),
                paths::directory(path),
            ),
        forall|path: PathView| #[trigger]
            paths::path_views(r@).contains(path) <==> to_read(paths::found_views(found@), path),
        forall|i: int, j: int|
            0 <= i < j < r@.len() ==> read_before((#[trigger] r@[i])@, (#[trigger] r@[j])@),
{
    let ghost views = paths::found_views(found@);
    let (all, beyond) = choose_files(found);
    let ghost chosen = all@;
    assert forall|i: int| 0 <= i < chosen.len() implies (#[trigger] chosen[i]).path@.len() > 0 by {
        assert(chosen[i].valid(views));
    }
    assert forall|k: int| 0 <= k < beyond@.len() implies (#[trigger] beyond@[k])@.len() > 0 by {
        assert(paths::path_views(beyond@)[k] == beyond@[k]@);
        assert(paths::path_views(beyond@).contains(beyond@[k]@));
    }
    let (kept, Ghost(from)) = keep_read(all, &beyond);
    let ghost listed = kept@;
    assert forall|k: int, l: int| 0 <= k < l < listed.len() implies paths::directory(
        (#[trigger] listed[k]).path@,
    ) != paths::directory((#[trigger] listed[l]).path@) by {
        assert(from[k] < from[l]);
        assert(paths::directory(chosen[from[k]].path@) != paths::directory(chosen[from[l]].path@));
    }
    assert forall|k: int| 0 <= k < listed.len() implies (#[trigger] listed[k]).valid(views)
        && supported(listed[k].path@) && !outgrown(views, paths::directory(listed[k].path@)) by {
        assert(listed[k] == chosen[from[k]]);
        assert(chosen[from[k]].valid(views));
        lemma_read_or_outgrown(listed[k], beyond@, views);
    }
    assert forall|path: PathView|
        selected(views, path) && supported(path) && !outgrown(
            views,
            paths::directory(path),
        ) implies exists|k: int| 0 <= k < listed.len() && (#[trigger] listed[k]).path@ == path by {
        let root = choose|root: int| unbeaten(views, root, path);
        let i = choose|i: int|
            0 <= i < chosen.len() && paths::directory((#[trigger] chosen[i]).path@)
                == paths::directory(path);
        assert(is_candidate(views, root, path));
        assert(chosen[i].valid(views));
        lemma_beats_total(root, path, chosen[i].root as int, chosen[i].path@);
        lemma_read_or_outgrown(chosen[i], beyond@, views);
        assert(from.contains(i));
        let k = from.index_of(i);
        assert(listed[k].path@ == path);
    }
    let list = sorted(kept);
    let ghost ranked = list@;
    proof {
        lemma_rearranged(listed, ranked);
    }
    let mut files: Vec<FilePath> = Vec::new();
    for choice in it: list
        invariant
            it.seq() == ranked,
            files@.len() == it.index(),
            forall|k: int| 0 <= k < files@.len() ==> #[trigger] files@[k] == ranked[k].path,
    {
        files.push(choice.path);
    }
    proof {
        let result = paths::path_views(files@);
        assert forall|path: PathView| #[trigger] result.contains(path) <==> selected(views, path)
            && supported(path) && !outgrown(views, paths::directory(path)) by {
            if result.contains(path) {
                let k = result.index_of(path);
                assert(ranked.contains(ranked[k]));
                assert(listed.contains(ranked[k]));
                let j = listed.index_of(ranked[k]);
                assert(listed[j].valid(views));
            }
            if selected(views, path) && supported(path) && !outgrown(
                views,
                paths::directory(path),
            ) {
                let j = choose|j: int|
                    0 <= j < listed.len() && (#[trigger] listed[j]).path@ == path;
                assert(listed.contains(listed[j]));
                assert(ranked.contains(listed[j]));
                let k = ranked.index_of(listed[j]);
                assert(result[k] == path);
            }
        }
        assert forall|i: int, j: int| 0 <= i < j < files@.len() implies read_before(
            (#[trigger] files@[i])@,
            (#[trigger] files@[j])@,
        ) by {
            assert(ranked[i].precedes(ranked[j]));
            assert(ranked.contains(ranked[i]) && ranked.contains(ranked[j]));
            assert(listed.contains(ranked[i]) && listed.contains(ranked[j]));
            let a = listed.index_of(ranked[i]);
            let b = listed.index_of(ranked[j]);
            assert(listed[a].valid(views) && listed[b].valid(views));
            assert(a != b);
            if a < b {
                assert(paths::directory(listed[a].path@) != paths::directory(listed[b].path@));
            } else {
                assert(paths::directory(listed[b].path@) != paths::directory(listed[a].path@));
            }
        }
    }
    files
}

/// A rearrangement of choices for different directories holds each of them once.
proof fn lemma_rearranged(listed: Seq<Choice>, ranked: Seq<Choice>)
    requires
        ranked.to_multiset() == listed.to_multiset(),
        forall|k: int, l: int|
            0 <= k < l < listed.len() ==> paths::directory((#[trigger] listed[k]).path@)
                != paths::directory((#[trigger] listed[l]).path@),
    ensures
        forall|choice: Choice| #[trigger] ranked.contains(choice) <==> listed.contains(choice),
        forall|k: int, l: int|
            0 <= k < l < ranked.len() ==> #[trigger] ranked[k] != #[trigger] ranked[l],
{
    broadcast use vstd::seq_lib::group_to_multiset_ensures;

    assert(listed.no_duplicates()) by {
        assert forall|k: int, l: int| 0 <= k < l < listed.len() implies listed[k] != listed[l] by {
            assert(paths::directory(listed[k].path@) != paths::directory(listed[l].path@));
        }
    }
    listed.lemma_multiset_has_no_duplicates();
    ranked.lemma_multiset_has_no_duplicates_conv();
    assert forall|choice: Choice| #[trigger] ranked.contains(choice) <==> listed.contains(
        choice,
    ) by {
        assert(ranked.contains(choice) <==> ranked.to_multiset().count(choice) > 0);
        assert(listed.contains(choice) <==> listed.to_multiset().count(choice) > 0);
    }
}

/// Whether there is a session file to read.
pub fn has_data(found: Vec<Vec<FilePath>>) -> (r: bool)
    ensures
        r == exists|path: PathView| #[trigger]
            selected(paths::found_views(found@), path) && supported(path) && !outgrown(
                paths::found_views(found@),
                paths::directory(path),
            ),
        r == exists|path: PathView| #[trigger] to_read(paths::found_views(found@), path),
{
    let ghost views = paths::found_views(found@);
    let files = discover_session_files(found);
    let ghost result = paths::path_views(files@);
    proof {
        if files@.len() > 0 {
            assert(result.contains(result[0]));
            assert(selected(views, result[0]));
            assert(to_read(views, result[0]));
        } else {
            assert forall|path: PathView| #[trigger] selected(views, path) implies !(supported(
                path,
            ) && !outgrown(views, paths::directory(path))) by {
                assert(!result.contains(path));
            }
            assert forall|path: PathView| !#[trigger] to_read(views, path) by {
                assert(!result.contains(path));
            }
        }
    }
    !files.is_empty()
}

// ---------------------------------------------------------------------------------------------
// Laws
// ---------------------------------------------------------------------------------------------

/// One file stands for a directory: no session is counted from two of its generations.
pub proof fn law_one_file_per_directory(
    found: Seq<Seq<PathView>>,
    path: PathView,
    other: PathView,
)
    requires
        selected(found, path),
        selected(found, other),
        paths::directory(path) == paths::directory(other),
    ensures
        path == other,
{
    let a = choose|root: int| unbeaten(found, root, path);
    let b = choose|root: int| unbeaten(found, root, other);
    assert(is_candidate(found, a, path) && is_candidate(found, b, other));
    lemma_beats_total(a, path, b, other);
}

/// The file that stands for a directory is of its newest generation, and compressed where that
/// generation is there compressed.
pub proof fn law_newest_generation_is_selected(
    found: Seq<Seq<PathView>>,
    path: PathView,
    root: int,
    other: PathView,
)
    requires
        selected(found, path),
        is_candidate(found, root, other),
        paths::directory(path) == paths::directory(other),
    ensures
        generation_of(other) <= generation_of(path),
        generation_of(other) == generation_of(path) && paths::version_of(other)->0.compressed
            ==> paths::version_of(path)->0.compressed,
{
    let a = choose|root: int| unbeaten(found, root, path);
    assert(!beats(root, other, a, path));
}

/// Whether a session file is of a generation that is not supported, however large it is.
pub open spec fn too_new(path: PathView) -> bool {
    paths::outgrows(path) || (paths::version_of(path) is Some && !supported(path))
}

/// A directory with a file that is too new is skipped: no file of it is read, an older one neither.
pub proof fn law_unsupported_session_is_skipped(
    found: Seq<Seq<PathView>>,
    newest: PathView,
    path: PathView,
)
    requires
        is_found(found, newest),
        too_new(newest),
        paths::directory(path) == paths::directory(newest),
    ensures
        !(selected(found, path) && supported(path) && !outgrown(found, paths::directory(path))),
{
    if paths::outgrows(newest) {
        assert(outgrown(found, paths::directory(path)));
    } else if selected(found, path) {
        let root = choose|root: int|
            0 <= root < found.len() && (#[trigger] found[root]).contains(newest);
        law_newest_generation_is_selected(found, path, root, newest);
    }
}

/// A name of the form `session.vN.jsonl`, or of that form with `.zstd` behind it, is too new for
/// every `N` above the newest generation that is supported, and for no other.
pub proof fn law_newer_names_are_too_new(path: PathView, generation: nat)
    requires
        path.len() > 0,
        path.last() == paths::PartView::Normal(
            text::utf8(paths::versioned_name(generation, ".jsonl"@)),
        ) || path.last() == paths::PartView::Normal(
            text::utf8(paths::versioned_name(generation, ".jsonl.zstd"@)),
        ),
    ensures
        too_new(path) == (generation > MAX_SUPPORTED_GENERATION),
{
    paths::law_larger_generations_outgrow(generation);
    if generation <= u32::MAX {
        paths::law_names_state_their_version(generation as u32);
    }
}

/// Every directory with a session file has one that stands for it.
pub proof fn law_every_session_has_a_selected_file(
    found: Seq<Seq<PathView>>,
    root: int,
    path: PathView,
)
    requires
        is_candidate(found, root, path),
    ensures
        exists|best: PathView| #[trigger]
            selected(found, best) && paths::directory(best) == paths::directory(path),
{
    let (best_root, best) = lemma_best_of_roots(found, root, path, found.len() as int);
    assert(unbeaten(found, best_root, best));
    assert(selected(found, best));
}

/// A session file of the directory of `path` that none of the first `n` files of a root beats.
proof fn lemma_best_of_files(
    found: Seq<Seq<PathView>>,
    root: int,
    path: PathView,
    in_root: int,
    n: int,
) -> (best: (int, PathView))
    requires
        is_candidate(found, root, path),
        0 <= in_root < found.len(),
        0 <= n <= found[in_root].len(),
    ensures
        is_candidate(found, best.0, best.1),
        paths::directory(best.1) == paths::directory(path),
        best == (root, path) || beats(best.0, best.1, root, path),
        forall|k: int|
            0 <= k < n && paths::version_of(#[trigger] found[in_root][k]) is Some
                && paths::directory(found[in_root][k]) == paths::directory(path) ==> !beats(
                in_root,
                found[in_root][k],
                best.0,
                best.1,
            ),
    decreases n,
{
    if n == 0 {
        (root, path)
    } else {
        let before = lemma_best_of_files(found, root, path, in_root, n - 1);
        let next = found[in_root][n - 1];
        if paths::version_of(next) is Some && paths::directory(next) == paths::directory(path)
            && beats(in_root, next, before.0, before.1) {
            assert(found[in_root].contains(next));
            if before != (root, path) {
                lemma_beats_transitive(in_root, next, before.0, before.1, root, path);
            }
            assert forall|k: int|
                0 <= k < n && paths::version_of(#[trigger] found[in_root][k]) is Some
                    && paths::directory(found[in_root][k]) == paths::directory(
                    path,
                ) implies !beats(in_root, found[in_root][k], in_root, next) by {
                if k < n - 1 && beats(in_root, found[in_root][k], in_root, next) {
                    lemma_beats_transitive(
                        in_root,
                        found[in_root][k],
                        in_root,
                        next,
                        before.0,
                        before.1,
                    );
                }
            }
            (in_root, next)
        } else {
            before
        }
    }
}

/// A session file of the directory of `path` that no file under the first `n` roots beats.
proof fn lemma_best_of_roots(
    found: Seq<Seq<PathView>>,
    root: int,
    path: PathView,
    n: int,
) -> (best: (int, PathView))
    requires
        is_candidate(found, root, path),
        0 <= n <= found.len(),
    ensures
        is_candidate(found, best.0, best.1),
        paths::directory(best.1) == paths::directory(path),
        forall|r: int, p: PathView| #[trigger]
            is_candidate(found, r, p) && r < n && paths::directory(p) == paths::directory(path)
                ==> !beats(r, p, best.0, best.1),
    decreases n,
{
    if n == 0 {
        (root, path)
    } else {
        let before = lemma_best_of_roots(found, root, path, n - 1);
        let best = lemma_best_of_files(
            found,
            before.0,
            before.1,
            n - 1,
            found[n - 1].len() as int,
        );
        assert forall|r: int, p: PathView| #[trigger]
            is_candidate(found, r, p) && r < n && paths::directory(p) == paths::directory(
                path,
            ) implies !beats(r, p, best.0, best.1) by {
            if r == n - 1 {
                let k = found[r].index_of(p);
                assert(found[n - 1][k] == p);
            } else if beats(r, p, best.0, best.1) && best != before {
                lemma_beats_transitive(r, p, best.0, best.1, before.0, before.1);
            }
        }
        best
    }
}

/// A file that stands for its directory was found, and has a version.
pub proof fn law_selected_files_were_found(found: Seq<Seq<PathView>>, path: PathView) -> (root: int)
    requires
        selected(found, path),
    ensures
        0 <= root < found.len(),
        found[root].contains(path),
        paths::version_of(path) is Some,
{
    choose|root: int| unbeaten(found, root, path)
}

/// Of the files of a directory with the same version, the one under the earlier root stands for
/// it, and of those under one root the one whose path comes first.
pub proof fn law_ties_go_to_the_earlier_root_and_path(
    found: Seq<Seq<PathView>>,
    path: PathView,
    root: int,
    other: PathView,
) -> (at: int)
    requires
        selected(found, path),
        0 <= root < found.len(),
        found[root].contains(other),
        paths::directory(path) == paths::directory(other),
        paths::version_of(path) == paths::version_of(other),
    ensures
        0 <= at <= root,
        found[at].contains(path),
        at == root ==> paths::path_le(path, other),
{
    let at = choose|at: int| unbeaten(found, at, path);
    assert(is_candidate(found, root, other));
    assert(!beats(root, other, at, path));
    paths::lemma_part_order();
    order::lemma_lex_total(path, other, paths::part_order());
    at
}

/// The generations up to 3 are supported, and no other.
pub proof fn law_generations_up_to_three_are_supported(path: PathView, version: SessionFileVersion)
    requires
        paths::version_of(path) == Some(version),
    ensures
        supported(path) <==> version.generation <= 3,
        generation_of(path) == version.generation,
{
}

/// Of two files the one with the larger generation is read first, and of two with the same the one
/// whose path comes first.
pub proof fn law_newer_files_are_read_first(
    path: PathView,
    version: SessionFileVersion,
    other: PathView,
    other_version: SessionFileVersion,
)
    requires
        path != other,
        paths::version_of(path) == Some(version),
        paths::version_of(other) == Some(other_version),
    ensures
        version.generation > other_version.generation ==> read_before(path, other)
            && !read_before(other, path),
        version.generation == other_version.generation ==> (read_before(path, other)
            <==> paths::path_le(path, other)),
        !read_before(path, path),
{
}

/// Nothing but a file that is too new keeps a session from being read: where a directory has a
/// session file, and none of its files is of a generation above 3 or outgrows, one of them is read.
pub proof fn law_supported_session_is_read(
    found: Seq<Seq<PathView>>,
    root: int,
    path: PathView,
) -> (best: PathView)
    requires
        0 <= root < found.len(),
        found[root].contains(path),
        paths::version_of(path) is Some,
        forall|r: int, p: PathView|
            0 <= r < found.len() && #[trigger] found[r].contains(p) && paths::directory(p)
                == paths::directory(path) ==> !paths::outgrows(p) && (paths::version_of(p) is Some
                ==> paths::version_of(p)->0.generation <= 3),
    ensures
        paths::directory(best) == paths::directory(path),
        to_read(found, best),
{
    law_every_session_has_a_selected_file(found, root, path);
    let best = choose|best: PathView| #[trigger]
        selected(found, best) && paths::directory(best) == paths::directory(path);
    let at = law_selected_files_were_found(found, best);
    assert(found[at].contains(best));
    if outgrown(found, paths::directory(best)) {
        let p = choose|p: PathView|
            is_found(found, p) && #[trigger] paths::outgrows(p) && paths::directory(p)
                == paths::directory(best);
        let r = choose|r: int| 0 <= r < found.len() && (#[trigger] found[r]).contains(p);
        assert(found[r].contains(p));
    }
    best
}

/// One file that is too new keeps its whole directory from being read. Too new is a generation above
/// 3, however large.
pub proof fn law_newer_file_keeps_its_session_unread(
    found: Seq<Seq<PathView>>,
    root: int,
    newest: PathView,
    path: PathView,
)
    requires
        0 <= root < found.len(),
        found[root].contains(newest),
        paths::outgrows(newest) || (paths::version_of(newest) is Some && paths::version_of(
            newest,
        )->0.generation > 3),
        paths::directory(path) == paths::directory(newest),
    ensures
        !to_read(found, path),
{
    assert(is_found(found, newest));
    law_unsupported_session_is_skipped(found, newest, path);
}

/// Of each directory one file at most is read. It was found, it has a version, and its generation is
/// the newest there; where that generation is there compressed, it is compressed.
pub proof fn law_files_that_are_read(
    found: Seq<Seq<PathView>>,
    path: PathView,
    root: int,
    other: PathView,
) -> (at: int)
    requires
        to_read(found, path),
        0 <= root < found.len(),
        found[root].contains(other),
        paths::directory(path) == paths::directory(other),
    ensures
        0 <= at < found.len(),
        found[at].contains(path),
        paths::version_of(path) matches Some(version) && version.generation <= 3,
        to_read(found, other) ==> other == path,
        paths::version_of(other) matches Some(version) ==> !paths::version_of(path)->0.less(
            version,
        ),
{
    let at = law_selected_files_were_found(found, path);
    if to_read(found, other) {
        law_one_file_per_directory(found, path, other);
    }
    if paths::version_of(other) is Some {
        law_newest_generation_is_selected(found, path, root, other);
    }
    at
}

} // verus!
