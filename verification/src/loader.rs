//! The entries of all session files: each once, in the order of the report.

use crate::entry::{EntryView, LoadedEntry};
use crate::order::{bytes_in_order, same_bytes, sorted, Ranked};
use crate::paths::PathView;
use crate::{discovery, order, text};
use vstd::hash_set::StringHashSet;
use vstd::prelude::*;

verus! {

/// The entries of all files, file by file.
pub open spec fn all_entries(loaded: Seq<Vec<LoadedEntry>>) -> Seq<LoadedEntry>
    decreases loaded.len(),
{
    if loaded.len() == 0 {
        Seq::empty()
    } else {
        all_entries(loaded.drop_last()) + loaded.last()@
    }
}

/// Whether no entry before number `i` has its id. An entry without an id is always new.
pub open spec fn is_new(entries: Seq<LoadedEntry>, i: int) -> bool {
    entries[i]@.id is Some ==> forall|j: int|
        0 <= j < i ==> (#[trigger] entries[j])@.id != entries[i]@.id
}

/// The id by which an entry is ordered.
pub open spec fn id_key(entry: EntryView) -> Seq<u8> {
    match entry.id {
        Some(id) => text::utf8(id),
        None => Seq::empty(),
    }
}

/// The order of entries: by time, then by session, then by id.
pub open spec fn key_le(a: EntryView, b: EntryView) -> bool {
    let a_session = text::utf8(a.session_id);
    let b_session = text::utf8(b.session_id);
    a.timestamp.millis < b.timestamp.millis || (a.timestamp == b.timestamp && if a_session
        == b_session {
        order::bytes_le(id_key(a), id_key(b))
    } else {
        order::bytes_le(a_session, b_session)
    })
}

/// Whether `result` is made of the new ones among `entries`, which stand there at `places`, in
/// order; entries of the same place in the order stay as they were.
pub open spec fn is_listing(
    result: Seq<LoadedEntry>,
    entries: Seq<LoadedEntry>,
    places: Seq<int>,
) -> bool {
    &&& places.len() == result.len()
    &&& forall|k: int|
        0 <= k < places.len() ==> {
            &&& 0 <= #[trigger] places[k] < entries.len()
            &&& is_new(entries, places[k])
            &&& result[k] == entries[places[k]]
        }
    &&& forall|i: int| 0 <= i < entries.len() && #[trigger] is_new(entries, i) ==> places.contains(i)
    &&& forall|k: int, l: int|
        #![trigger places[k], places[l]]
        0 <= k < l < places.len() ==> {
            &&& places[k] != places[l]
            &&& key_le(result[k]@, result[l]@)
            &&& key_le(result[l]@, result[k]@) ==> places[k] < places[l]
        }
}

proof fn lemma_key_total(a: EntryView, b: EntryView)
    ensures
        key_le(a, b) || key_le(b, a),
{
    order::lemma_byte_order();
    let le = order::byte_order();
    order::lemma_lex_total(text::utf8(a.session_id), text::utf8(b.session_id), le);
    order::lemma_lex_total(id_key(a), id_key(b), le);
}

proof fn lemma_key_transitive(a: EntryView, b: EntryView, c: EntryView)
    requires
        key_le(a, b),
        key_le(b, c),
    ensures
        key_le(a, c),
{
    order::lemma_byte_order();
    let le = order::byte_order();
    let x = text::utf8(a.session_id);
    let y = text::utf8(b.session_id);
    let z = text::utf8(c.session_id);
    if order::bytes_le(x, y) && order::bytes_le(y, z) {
        order::lemma_lex_transitive(x, y, z, le);
        if x == z {
            order::lemma_lex_antisymmetric(x, y, le);
        }
    }
    if order::bytes_le(id_key(a), id_key(b)) && order::bytes_le(id_key(b), id_key(c)) {
        order::lemma_lex_transitive(id_key(a), id_key(b), id_key(c), le);
    }
}

fn id_bytes(entry: &LoadedEntry) -> (r: &[u8])
    ensures
        r@ == id_key(entry@),
{
    match &entry.data.message.id {
        Some(id) => id.as_str().as_bytes(),
        None => {
            let none: &[u8] = &[];
            assert(none@ =~= Seq::empty());
            none
        },
    }
}

fn key_in_order(a: &LoadedEntry, b: &LoadedEntry) -> (r: bool)
    ensures
        r == key_le(a@, b@),
{
    if a.timestamp.millis != b.timestamp.millis {
        return a.timestamp.millis < b.timestamp.millis;
    }
    let a_session = a.session_id.as_str().as_bytes();
    let b_session = b.session_id.as_str().as_bytes();
    if same_bytes(a_session, b_session) {
        bytes_in_order(id_bytes(a), id_bytes(b))
    } else {
        bytes_in_order(a_session, b_session)
    }
}

/// An entry and its place among the new ones.
struct Placed {
    place: usize,
    entry: LoadedEntry,
}

impl Ranked for Placed {
    closed spec fn precedes(self, other: Placed) -> bool {
        key_le(self.entry@, other.entry@) && (key_le(other.entry@, self.entry@) ==> self.place
            <= other.place)
    }

    proof fn precedes_total(a: Placed, b: Placed) {
        lemma_key_total(a.entry@, b.entry@);
    }

    proof fn precedes_transitive(a: Placed, b: Placed, c: Placed) {
        lemma_key_transitive(a.entry@, b.entry@, c.entry@);
        if key_le(c.entry@, a.entry@) {
            lemma_key_transitive(b.entry@, c.entry@, a.entry@);
            lemma_key_transitive(c.entry@, a.entry@, b.entry@);
        }
    }

    fn in_order(&self, other: &Placed) -> (r: bool) {
        key_in_order(&self.entry, &other.entry) && (!key_in_order(&other.entry, &self.entry)
            || self.place <= other.place)
    }
}

/// Whether `kept` holds the new ones of `entries` in their order, which stand there at `from`.
spec fn is_new_part(kept: Seq<Placed>, entries: Seq<LoadedEntry>, from: Seq<int>) -> bool {
    &&& from.len() == kept.len()
    &&& forall|k: int|
        0 <= k < from.len() ==> {
            &&& 0 <= #[trigger] from[k] < entries.len()
            &&& is_new(entries, from[k])
            &&& kept[k].entry == entries[from[k]]
            &&& kept[k].place == k
        }
    &&& forall|k: int, l: int| 0 <= k < l < from.len() ==> #[trigger] from[k] < #[trigger] from[l]
    &&& forall|i: int| 0 <= i < entries.len() && #[trigger] is_new(entries, i) ==> from.contains(i)
}

/// Whether `seen` holds the ids of `entries`.
spec fn are_ids(seen: Set<Seq<char>>, entries: Seq<LoadedEntry>) -> bool {
    forall|id: Seq<char>| #[trigger]
        seen.contains(id) <==> exists|i: int|
            0 <= i < entries.len() && (#[trigger] entries[i])@.id == Some(id)
}

/// Looks at one more entry, and keeps it if it is new.
fn look_at(
    kept: &mut Vec<Placed>,
    seen: &mut StringHashSet,
    entry: LoadedEntry,
    Ghost(entries): Ghost<Seq<LoadedEntry>>,
    Ghost(from): Ghost<Seq<int>>,
) -> (r: Ghost<Seq<int>>)
    requires
        is_new_part(old(kept)@, entries, from),
        are_ids(old(seen)@, entries),
    ensures
        is_new_part(final(kept)@, entries.push(entry), r@),
        are_ids(final(seen)@, entries.push(entry)),
{
    let ghost more = entries.push(entry);
    let ghost n = entries.len() as int;
    let new = match &entry.data.message.id {
        Some(id) => seen.insert(id.clone()),
        None => true,
    };
    let ghost mut now = from;
    proof {
        assert forall|i: int| 0 <= i < n implies #[trigger] is_new(more, i) == is_new(
            entries,
            i,
        ) by {
            assert(more[i] == entries[i]);
            assert forall|j: int| 0 <= j < i implies #[trigger] more[j] == entries[j] by {}
            if is_new(more, i) && entries[i]@.id is Some {
                assert forall|j: int| 0 <= j < i implies (#[trigger] entries[j])@.id
                    != entries[i]@.id by {
                    assert(more[j]@.id != more[i]@.id);
                }
            }
        }
        assert(new == is_new(more, n)) by {
            if entry@.id is Some {
                let id = entry@.id->0;
                if old(seen)@.contains(id) {
                    let i = choose|i: int|
                        0 <= i < entries.len() && (#[trigger] entries[i])@.id == Some(id);
                    assert(more[i]@.id == more[n]@.id);
                } else {
                    assert forall|j: int| 0 <= j < n implies (#[trigger] more[j])@.id
                        != more[n]@.id by {
                        assert(entries[j]@.id != Some(id));
                    }
                }
            }
        }
        assert(are_ids(seen@, more)) by {
            assert forall|id: Seq<char>| #[trigger] seen@.contains(id) <==> exists|i: int|
                0 <= i < more.len() && (#[trigger] more[i])@.id == Some(id) by {
                if seen@.contains(id) {
                    if old(seen)@.contains(id) {
                        let i = choose|i: int|
                            0 <= i < entries.len() && (#[trigger] entries[i])@.id == Some(id);
                        assert(more[i]@.id == Some(id));
                    } else {
                        assert(more[n]@.id == Some(id));
                    }
                }
                if exists|i: int| 0 <= i < more.len() && (#[trigger] more[i])@.id == Some(id) {
                    let i = choose|i: int|
                        0 <= i < more.len() && (#[trigger] more[i])@.id == Some(id);
                    if i < n {
                        assert(entries[i]@.id == Some(id));
                        assert(old(seen)@.contains(id));
                    }
                }
            }
        }
    }
    if new {
        let place = kept.len();
        kept.push(Placed { place, entry });
        proof {
            now = from.push(n);
        }
    }
    proof {
        assert forall|i: int| 0 <= i < more.len() && #[trigger] is_new(
            more,
            i,
        ) implies now.contains(i) by {
            if i < n {
                assert(is_new(entries, i));
                assert(from.contains(i));
                let k = from.index_of(i);
                assert(now[k] == i);
            } else {
                assert(now[now.len() - 1] == n);
            }
        }
        assert forall|k: int| 0 <= k < now.len() implies {
            &&& 0 <= #[trigger] now[k] < more.len()
            &&& is_new(more, now[k])
            &&& kept@[k].entry == more[now[k]]
            &&& kept@[k].place == k
        } by {
            if k < from.len() {
                assert(now[k] == from[k]);
                assert(is_new(more, from[k]) == is_new(entries, from[k]));
            }
        }
    }
    Ghost(now)
}

/// The new ones of all entries.
fn keep_new(loaded: Vec<Vec<LoadedEntry>>) -> (r: (Vec<Placed>, Ghost<Seq<int>>))
    ensures
        is_new_part(r.0@, all_entries(loaded@), r.1@),
{
    let mut kept: Vec<Placed> = Vec::new();
    let mut seen = StringHashSet::new();
    let mut from: Ghost<Seq<int>> = Ghost(Seq::empty());
    assert(all_entries(loaded@.take(0)) =~= Seq::empty());
    for file in it: loaded
        invariant
            it.seq() == loaded@,
            is_new_part(kept@, all_entries(loaded@.take(it.index() as int)), from@),
            are_ids(seen@, all_entries(loaded@.take(it.index() as int))),
    {
        let ghost n = it.index() as int;
        let ghost before = all_entries(loaded@.take(n));
        let ghost here = file@;
        assert(before + here.take(0) =~= before);
        for entry in inner: file
            invariant
                inner.seq() == here,
                is_new_part(kept@, before + here.take(inner.index() as int), from@),
                are_ids(seen@, before + here.take(inner.index() as int)),
        {
            let ghost m = inner.index() as int;
            let ghost entries = before + here.take(m);
            from = look_at(&mut kept, &mut seen, entry, Ghost(entries), from);
            assert(entries.push(entry) =~= before + here.take(m + 1));
        }
        assert(here.take(here.len() as int) =~= here);
        assert(loaded@.take(n + 1).drop_last() =~= loaded@.take(n));
    }
    assert(loaded@.take(loaded@.len() as int) =~= loaded@);
    (kept, from)
}

/// A rearrangement of numbered entries holds each of them once.
proof fn lemma_rearranged(kept: Seq<Placed>, ranked: Seq<Placed>)
    requires
        ranked.to_multiset() == kept.to_multiset(),
        forall|k: int| 0 <= k < kept.len() ==> (#[trigger] kept[k]).place == k,
    ensures
        forall|k: int|
            0 <= k < ranked.len() ==> (#[trigger] ranked[k]).place < kept.len() && ranked[k]
                == kept[ranked[k].place as int],
        forall|i: int| 0 <= i < kept.len() ==> ranked.contains(#[trigger] kept[i]),
        forall|k: int, l: int|
            0 <= k < l < ranked.len() ==> (#[trigger] ranked[k]).place != (
            #[trigger] ranked[l]).place,
{
    broadcast use vstd::seq_lib::group_to_multiset_ensures;

    assert(kept.no_duplicates()) by {
        assert forall|k: int, l: int| 0 <= k < l < kept.len() implies kept[k] != kept[l] by {
            assert(kept[k].place != kept[l].place);
        }
    }
    kept.lemma_multiset_has_no_duplicates();
    ranked.lemma_multiset_has_no_duplicates_conv();
    assert forall|k: int| 0 <= k < ranked.len() implies (#[trigger] ranked[k]).place < kept.len()
        && ranked[k] == kept[ranked[k].place as int] by {
        assert(ranked.contains(ranked[k]));
        assert(ranked.to_multiset().count(ranked[k]) > 0);
        assert(kept.contains(ranked[k]));
        let i = kept.index_of(ranked[k]);
        assert(kept[i].place == i);
    }
    assert forall|i: int| 0 <= i < kept.len() implies ranked.contains(#[trigger] kept[i]) by {
        assert(kept.contains(kept[i]));
        assert(kept.to_multiset().count(kept[i]) > 0);
    }
    assert forall|k: int, l: int| 0 <= k < l < ranked.len() implies (#[trigger] ranked[k]).place
        != (#[trigger] ranked[l]).place by {
        assert(ranked[k] != ranked[l]);
    }
}

/// The entries of all files, each once, in the order of the report. Of entries with one id the
/// first stays.
pub fn load_entries(loaded: Vec<Vec<LoadedEntry>>) -> (r: Vec<LoadedEntry>)
    ensures
        exists|places: Seq<int>| is_listing(r@, all_entries(loaded@), places),
{
    let ghost entries = all_entries(loaded@);
    let (kept, Ghost(from)) = keep_new(loaded);
    let ghost all = kept@;
    let list = sorted(kept);
    let ghost ranked = list@;
    proof {
        assert forall|k: int| 0 <= k < all.len() implies (#[trigger] all[k]).place == k by {
            assert(0 <= from[k]);
        }
        lemma_rearranged(all, ranked);
    }
    let mut result: Vec<LoadedEntry> = Vec::new();
    for placed in it: list
        invariant
            it.seq() == ranked,
            result@.len() == it.index(),
            forall|k: int| 0 <= k < result@.len() ==> #[trigger] result@[k] == ranked[k].entry,
    {
        result.push(placed.entry);
    }
    proof {
        let places = Seq::new(ranked.len(), |k: int| from[ranked[k].place as int]);
        assert forall|k: int| 0 <= k < places.len() implies {
            &&& 0 <= #[trigger] places[k] < entries.len()
            &&& is_new(entries, places[k])
            &&& result@[k] == entries[places[k]]
        } by {
            let t = ranked[k].place as int;
            assert(from[t] == places[k]);
            assert(all[t] == ranked[k]);
        }
        assert forall|i: int| 0 <= i < entries.len() && #[trigger] is_new(
            entries,
            i,
        ) implies places.contains(i) by {
            assert(from.contains(i));
            let t = from.index_of(i);
            assert(ranked.contains(all[t]));
            let k = ranked.index_of(all[t]);
            assert(places[k] == i);
        }
        assert forall|k: int, l: int|
            #![trigger places[k], places[l]]
            0 <= k < l < places.len() implies {
            &&& places[k] != places[l]
            &&& key_le(result@[k]@, result@[l]@)
            &&& key_le(result@[l]@, result@[k]@) ==> places[k] < places[l]
        } by {
            let s = ranked[k].place as int;
            let t = ranked[l].place as int;
            assert(s != t);
            assert(ranked[k].precedes(ranked[l]));
            assert(from[s] == places[k] && from[t] == places[l]);
            if s < t {
                assert(from[s] < from[t]);
            } else {
                assert(from[t] < from[s]);
            }
        }
        assert(is_listing(result@, entries, places));
    }
    result
}

// ---------------------------------------------------------------------------------------------
// Laws
// ---------------------------------------------------------------------------------------------

/// No two entries of a listing have the same id.
pub proof fn law_ids_are_unique(
    result: Seq<LoadedEntry>,
    entries: Seq<LoadedEntry>,
    places: Seq<int>,
    k: int,
    l: int,
)
    requires
        is_listing(result, entries, places),
        0 <= k < l < result.len(),
        result[k]@.id is Some,
    ensures
        result[k]@.id != result[l]@.id,
{
    let i = places[k];
    let j = places[l];
    assert(i != j);
    assert(is_new(entries, i) && is_new(entries, j));
    if i < j {
        assert(entries[i]@.id == result[k]@.id);
    } else {
        assert(entries[j]@.id == result[l]@.id);
    }
}

/// Two sequences with the same members, each in the order of an asymmetric relation, are the same.
proof fn lemma_same_order(a: Seq<int>, b: Seq<int>, before: spec_fn(int, int) -> bool)
    requires
        forall|i: int, j: int| !(#[trigger] before(i, j) && before(j, i)),
        forall|k: int, l: int|
            #![trigger a[k], a[l]]
            0 <= k < l < a.len() ==> before(a[k], a[l]),
        forall|k: int, l: int|
            #![trigger b[k], b[l]]
            0 <= k < l < b.len() ==> before(b[k], b[l]),
        forall|x: int| a.contains(x) <==> b.contains(x),
    ensures
        a == b,
    decreases a.len(),
{
    if a.len() == 0 {
        if b.len() > 0 {
            assert(b.contains(b[0]));
        }
        assert(a =~= b);
    } else {
        assert(a.contains(a[a.len() - 1]));
        let k = b.index_of(a.last());
        assert(b.contains(b[b.len() - 1]));
        let l = a.index_of(b.last());
        if a.last() != b.last() {
            assert(before(b[k], b[b.len() - 1]));
            assert(before(a[l], a[a.len() - 1]));
        }
        let x = a.last();
        let shorter_a = a.drop_last();
        let shorter_b = b.drop_last();
        lemma_without_last(a, before);
        lemma_without_last(b, before);
        lemma_same_order(shorter_a, shorter_b, before);
        assert(a =~= shorter_a.push(x));
        assert(b =~= shorter_b.push(x));
    }
}

/// What is left without the last of an ordered sequence.
proof fn lemma_without_last(s: Seq<int>, before: spec_fn(int, int) -> bool)
    requires
        s.len() > 0,
        forall|i: int, j: int| !(#[trigger] before(i, j) && before(j, i)),
        forall|k: int, l: int|
            #![trigger s[k], s[l]]
            0 <= k < l < s.len() ==> before(s[k], s[l]),
    ensures
        forall|x: int| #[trigger] s.drop_last().contains(x) <==> s.contains(x) && x != s.last(),
{
    let t = s.drop_last();
    assert forall|x: int| #[trigger] t.contains(x) <==> s.contains(x) && x != s.last() by {
        if t.contains(x) {
            let k = t.index_of(x);
            assert(s[k] == x);
            assert(before(s[k], s[s.len() - 1]));
        }
        if s.contains(x) && x != s.last() {
            let k = s.index_of(x);
            assert(t[k] == x);
        }
    }
}

/// The entries fix their listing: two listings of the same entries are the same.
pub proof fn law_listing_is_fixed(
    result: Seq<LoadedEntry>,
    places: Seq<int>,
    other: Seq<LoadedEntry>,
    other_places: Seq<int>,
    entries: Seq<LoadedEntry>,
)
    requires
        is_listing(result, entries, places),
        is_listing(other, entries, other_places),
    ensures
        result == other,
        places == other_places,
{
    let before = |i: int, j: int|
        key_le(entries[i]@, entries[j]@) && (key_le(entries[j]@, entries[i]@) ==> i < j);
    assert forall|x: int| places.contains(x) <==> other_places.contains(x) by {
        if places.contains(x) {
            let k = places.index_of(x);
            assert(is_new(entries, places[k]));
        }
        if other_places.contains(x) {
            let k = other_places.index_of(x);
            assert(is_new(entries, other_places[k]));
        }
    }
    assert forall|k: int, l: int|
        #![trigger places[k], places[l]]
        0 <= k < l < places.len() implies before(places[k], places[l]) by {
        assert(result[k] == entries[places[k]] && result[l] == entries[places[l]]);
    }
    assert forall|k: int, l: int|
        #![trigger other_places[k], other_places[l]]
        0 <= k < l < other_places.len() implies before(other_places[k], other_places[l]) by {
        assert(other[k] == entries[other_places[k]] && other[l] == entries[other_places[l]]);
    }
    lemma_same_order(places, other_places, before);
    assert forall|k: int| 0 <= k < result.len() implies result[k] == other[k] by {
        assert(result[k] == entries[places[k]]);
        assert(other[k] == entries[other_places[k]]);
    }
    assert(result =~= other);
}

proof fn lemma_entries_without(loaded: Seq<Vec<LoadedEntry>>, file: int)
    requires
        0 <= file < loaded.len(),
        loaded[file]@.len() == 0,
    ensures
        all_entries(loaded.remove(file)) == all_entries(loaded),
    decreases loaded.len(),
{
    let shorter = loaded.drop_last();
    if file < shorter.len() {
        lemma_entries_without(shorter, file);
        assert(loaded.remove(file).drop_last() =~= shorter.remove(file));
    } else {
        assert(loaded.remove(file) =~= shorter);
        assert(all_entries(loaded) =~= all_entries(shorter));
    }
}

/// A file without entries changes nothing: the listing with it is the listing without it.
pub proof fn law_empty_file_changes_nothing(
    loaded: Seq<Vec<LoadedEntry>>,
    file: int,
    result: Seq<LoadedEntry>,
    places: Seq<int>,
    other: Seq<LoadedEntry>,
    other_places: Seq<int>,
)
    requires
        0 <= file < loaded.len(),
        loaded[file]@.len() == 0,
        is_listing(result, all_entries(loaded), places),
        is_listing(other, all_entries(loaded.remove(file)), other_places),
    ensures
        all_entries(loaded.remove(file)) == all_entries(loaded),
        result == other,
{
    lemma_entries_without(loaded, file);
    law_listing_is_fixed(result, places, other, other_places, all_entries(loaded));
}

/// The first entry with the id of entry number `i`.
proof fn lemma_first_with_id(entries: Seq<LoadedEntry>, i: int) -> (first: int)
    requires
        0 <= i < entries.len(),
    ensures
        0 <= first <= i,
        is_new(entries, first),
        entries[first]@.id == entries[i]@.id,
    decreases i,
{
    if is_new(entries, i) {
        i
    } else {
        let j = choose|j: int| 0 <= j < i && (#[trigger] entries[j])@.id == entries[i]@.id;
        lemma_first_with_id(entries, j)
    }
}

/// No id is lost: a listing has the first of the entries that share it.
pub proof fn law_first_entry_of_an_id_stays(
    result: Seq<LoadedEntry>,
    entries: Seq<LoadedEntry>,
    places: Seq<int>,
    i: int,
) -> (k: int)
    requires
        is_listing(result, entries, places),
        0 <= i < entries.len(),
    ensures
        0 <= k < result.len(),
        0 <= places[k] <= i,
        result[k] == entries[places[k]],
        result[k]@.id == entries[i]@.id,
        is_new(entries, places[k]),
{
    let first = lemma_first_with_id(entries, i);
    assert(places.contains(first));
    let k = places.index_of(first);
    assert(places[k] == first);
    k
}

/// The number of the entries in the first `n` files.
pub open spec fn count_before(loaded: Seq<Vec<LoadedEntry>>, n: int) -> int {
    all_entries(loaded.take(n)).len() as int
}

/// Where an entry of a file stands among all.
proof fn lemma_place_of(loaded: Seq<Vec<LoadedEntry>>, file: int, m: int)
    requires
        0 <= file < loaded.len(),
        0 <= m < loaded[file]@.len(),
    ensures
        count_before(loaded, file) + m < all_entries(loaded).len(),
        all_entries(loaded)[count_before(loaded, file) + m] == loaded[file]@[m],
    decreases loaded.len(),
{
    let shorter = loaded.drop_last();
    if file < shorter.len() {
        lemma_place_of(shorter, file, m);
        assert(shorter.take(file) =~= loaded.take(file));
    } else {
        assert(loaded.take(file) =~= shorter);
    }
}

/// The file that holds an entry of all.
proof fn lemma_file_of(loaded: Seq<Vec<LoadedEntry>>, i: int) -> (at: (int, int))
    requires
        0 <= i < all_entries(loaded).len(),
    ensures
        0 <= at.0 < loaded.len(),
        0 <= at.1 < loaded[at.0]@.len(),
        i == count_before(loaded, at.0) + at.1,
        all_entries(loaded)[i] == loaded[at.0]@[at.1],
    decreases loaded.len(),
{
    let shorter = loaded.drop_last();
    if i < all_entries(shorter).len() {
        let at = lemma_file_of(shorter, i);
        assert(shorter.take(at.0) =~= loaded.take(at.0));
        at
    } else {
        assert(loaded.take(loaded.len() - 1) =~= shorter);
        (loaded.len() - 1, i - all_entries(shorter).len())
    }
}

/// The entries of a file come after those of the files before it.
proof fn lemma_count_grows(loaded: Seq<Vec<LoadedEntry>>, a: int, b: int)
    requires
        0 <= a < b <= loaded.len(),
    ensures
        count_before(loaded, a) + loaded[a]@.len() <= count_before(loaded, b),
    decreases b,
{
    assert(loaded.take(b).drop_last() =~= loaded.take(b - 1));
    if a < b - 1 {
        lemma_count_grows(loaded, a, b - 1);
    }
}

/// Of a session that was found more than once, the newest generation counts: where files are read
/// in their order, the entry that stays of an id is from a file of a generation no older than that
/// of any file that has the id.
pub proof fn law_newer_generation_wins(
    files: Seq<PathView>,
    loaded: Seq<Vec<LoadedEntry>>,
    result: Seq<LoadedEntry>,
    places: Seq<int>,
    file: int,
    m: int,
) -> (at: (int, int, int))
    requires
        files.len() == loaded.len(),
        forall|i: int, j: int|
            0 <= i < j < files.len() ==> discovery::read_before(
                #[trigger] files[i],
                #[trigger] files[j],
            ),
        is_listing(result, all_entries(loaded), places),
        0 <= file < loaded.len(),
        0 <= m < loaded[file]@.len(),
    ensures
        0 <= at.0 < result.len(),
        0 <= at.1 <= file,
        0 <= at.2 < loaded[at.1]@.len(),
        result[at.0] == loaded[at.1]@[at.2],
        result[at.0]@.id == loaded[file]@[m]@.id,
        discovery::generation_of(files[at.1]) >= discovery::generation_of(files[file]),
{
    let entries = all_entries(loaded);
    lemma_place_of(loaded, file, m);
    let i = count_before(loaded, file) + m;
    let k = law_first_entry_of_an_id_stays(result, entries, places, i);
    let (from, n) = lemma_file_of(loaded, places[k]);
    if file < from {
        lemma_count_grows(loaded, file, from);
    }
    if from < file {
        assert(discovery::read_before(files[from], files[file]));
    }
    (k, from, n)
}

/// The entries of files one behind the other are those of the ones and then those of the others,
/// and those of one file are its own.
pub proof fn law_entries_follow_their_files(
    first: Seq<Vec<LoadedEntry>>,
    second: Seq<Vec<LoadedEntry>>,
    file: Vec<LoadedEntry>,
)
    ensures
        all_entries(Seq::empty()).len() == 0,
        all_entries(seq![file]) == file@,
        all_entries(first + second) == all_entries(first) + all_entries(second),
    decreases second.len(),
{
    reveal_with_fuel(all_entries, 2);
    assert(seq![file].drop_last() =~= Seq::empty());
    assert(all_entries(Seq::empty()) + file@ =~= file@);
    if second.len() == 0 {
        assert(first + second =~= first);
        assert(all_entries(first) + all_entries(second) =~= all_entries(first));
    } else {
        law_entries_follow_their_files(first, second.drop_last(), file);
        assert((first + second).drop_last() =~= first + second.drop_last());
        assert(all_entries(first + second) =~= all_entries(first) + all_entries(second));
    }
}

/// A listing goes by time; entries of the same time go by the bytes of their session id, and those
/// of the same session by the bytes of their id, where a missing id comes first. Entries that share
/// all three stay in the order in which they were loaded.
pub proof fn law_listing_goes_by_time_session_and_id(
    result: Seq<LoadedEntry>,
    entries: Seq<LoadedEntry>,
    places: Seq<int>,
    k: int,
    l: int,
)
    requires
        is_listing(result, entries, places),
        0 <= k < l < result.len(),
    ensures
        ({
            let a = result[k]@;
            let b = result[l]@;
            let a_session = text::utf8(a.session_id);
            let b_session = text::utf8(b.session_id);
            let same_time = a.timestamp.millis == b.timestamp.millis;
            &&& a.timestamp.millis <= b.timestamp.millis
            &&& same_time ==> order::bytes_le(a_session, b_session)
            &&& same_time && a_session == b_session ==> match (a.id, b.id) {
                (Some(x), Some(y)) => order::bytes_le(text::utf8(x), text::utf8(y)),
                (Some(x), None) => text::utf8(x).len() == 0,
                _ => true,
            }
            &&& same_time && a_session == b_session && a.id == b.id ==> places[k] < places[l]
        }),
{
    let a = result[k]@;
    let b = result[l]@;
    assert(places[k] != places[l]);
    assert(key_le(a, b));
    order::lemma_byte_order();
    let le = order::byte_order();
    let x = text::utf8(a.session_id);
    order::law_first_difference_decides(x, 0u8, Seq::empty(), 0u8, Seq::empty(), le);
    assert(x + Seq::empty() =~= x);
    let y = id_key(a);
    order::law_first_difference_decides(y, 0u8, Seq::empty(), 0u8, Seq::empty(), le);
    assert(y + Seq::empty() =~= y);
}

/// An entry is listed exactly where it has no id or is the first with its id, and as it was loaded.
pub proof fn law_first_entries_are_listed(
    result: Seq<LoadedEntry>,
    entries: Seq<LoadedEntry>,
    places: Seq<int>,
    i: int,
)
    requires
        is_listing(result, entries, places),
        0 <= i < entries.len(),
    ensures
        places.contains(i) <==> entries[i]@.id is None || !(exists|j: int|
            0 <= j < i && (#[trigger] entries[j])@.id == entries[i]@.id),
        places.contains(i) ==> result.contains(entries[i]),
        result.len() <= entries.len(),
        forall|k: int| 0 <= k < result.len() ==> entries.contains(#[trigger] result[k]),
{
    if places.contains(i) {
        let k = places.index_of(i);
        assert(is_new(entries, places[k]));
        assert(result[k] == entries[i]);
    }
    if entries[i]@.id is None || !(exists|j: int|
        0 <= j < i && (#[trigger] entries[j])@.id == entries[i]@.id) {
        assert(is_new(entries, i));
    }
    assert forall|k: int| 0 <= k < result.len() implies entries.contains(#[trigger] result[k]) by {
        assert(result[k] == entries[places[k]]);
    }
    lemma_few_places(places, entries.len() as int);
}

/// Different numbers below `n` are at most `n`.
proof fn lemma_few_places(places: Seq<int>, n: int)
    requires
        n >= 0,
        forall|k: int| 0 <= k < places.len() ==> 0 <= #[trigger] places[k] < n,
        forall|k: int, l: int|
            #![trigger places[k], places[l]]
            0 <= k < l < places.len() ==> places[k] != places[l],
    ensures
        places.len() <= n,
{
    assert(places.no_duplicates());
    places.unique_seq_to_set();
    let all = vstd::set_lib::set_int_range(0, n);
    vstd::set_lib::lemma_int_range(0, n);
    assert(places.to_set().subset_of(all));
    vstd::set_lib::lemma_len_subset(places.to_set(), all);
}

} // verus!
