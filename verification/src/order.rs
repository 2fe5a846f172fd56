//! Orders on sequences, and sorting by an order.

use vstd::prelude::*;

verus! {

/// The lexicographic order that `le` gives on sequences.
pub open spec fn lex_le<T>(a: Seq<T>, b: Seq<T>, le: spec_fn(T, T) -> bool) -> bool
    decreases a.len(),
{
    if a.len() == 0 {
        true
    } else if b.len() == 0 {
        false
    } else if a[0] == b[0] {
        lex_le(a.drop_first(), b.drop_first(), le)
    } else {
        le(a[0], b[0])
    }
}

/// Whether `le` is a total order.
pub open spec fn is_total_order<T>(le: spec_fn(T, T) -> bool) -> bool {
    &&& forall|a: T, b: T| #[trigger] le(a, b) || le(b, a)
    &&& forall|a: T, b: T| #[trigger] le(a, b) && #[trigger] le(b, a) ==> a == b
    &&& forall|a: T, b: T, c: T| #[trigger] le(a, b) && #[trigger] le(b, c) ==> le(a, c)
}

/// Of two sequences one comes first.
pub proof fn lemma_lex_total<T>(a: Seq<T>, b: Seq<T>, le: spec_fn(T, T) -> bool)
    requires
        is_total_order(le),
    ensures
        lex_le(a, b, le) || lex_le(b, a, le),
    decreases a.len(),
{
    if a.len() > 0 && b.len() > 0 {
        if a[0] == b[0] {
            lemma_lex_total(a.drop_first(), b.drop_first(), le);
        } else {
            assert(le(a[0], b[0]) || le(b[0], a[0]));
        }
    }
}

/// Two sequences of which each comes first are the same.
pub proof fn lemma_lex_antisymmetric<T>(a: Seq<T>, b: Seq<T>, le: spec_fn(T, T) -> bool)
    requires
        is_total_order(le),
        lex_le(a, b, le),
        lex_le(b, a, le),
    ensures
        a == b,
    decreases a.len(),
{
    if a.len() > 0 && b.len() > 0 {
        if a[0] == b[0] {
            lemma_lex_antisymmetric(a.drop_first(), b.drop_first(), le);
            assert(a =~= seq![a[0]] + a.drop_first());
            assert(b =~= seq![b[0]] + b.drop_first());
        } else {
            assert(le(a[0], b[0]) && le(b[0], a[0]));
        }
    } else {
        assert(a =~= b);
    }
}

/// The lexicographic order is transitive.
pub proof fn lemma_lex_transitive<T>(
    a: Seq<T>,
    b: Seq<T>,
    c: Seq<T>,
    le: spec_fn(T, T) -> bool,
)
    requires
        is_total_order(le),
        lex_le(a, b, le),
        lex_le(b, c, le),
    ensures
        lex_le(a, c, le),
    decreases a.len(),
{
    if a.len() > 0 && b.len() > 0 && c.len() > 0 {
        if a[0] == b[0] && b[0] == c[0] {
            lemma_lex_transitive(a.drop_first(), b.drop_first(), c.drop_first(), le);
        } else if a[0] != b[0] && b[0] != c[0] {
            assert(le(a[0], b[0]) && le(b[0], c[0]));
            assert(le(a[0], c[0]));
            if a[0] == c[0] {
                assert(le(b[0], a[0]));
            }
        }
    }
}

/// The order on bytes.
pub open spec fn byte_order() -> spec_fn(u8, u8) -> bool {
    |a: u8, b: u8| a <= b
}

/// The lexicographic order on byte strings.
pub open spec fn bytes_le(a: Seq<u8>, b: Seq<u8>) -> bool {
    lex_le(a, b, byte_order())
}

/// The order on bytes is total.
pub proof fn lemma_byte_order()
    ensures
        is_total_order(byte_order()),
{
}

/// Whether the two byte strings are the same.
pub fn same_bytes(a: &[u8], b: &[u8]) -> (r: bool)
    ensures
        r == (a@ == b@),
{
    if a.len() != b.len() {
        return false;
    }
    let mut i: usize = 0;
    while i < a.len()
        invariant
            a@.len() == b@.len(),
            i <= a@.len(),
            forall|j: int| 0 <= j < i ==> a@[j] == b@[j],
        decreases a@.len() - i,
    {
        if a[i] != b[i] {
            return false;
        }
        i += 1;
    }
    assert(a@ =~= b@);
    true
}

/// Whether `a` comes no later than `b` in the lexicographic order on byte strings.
pub fn bytes_in_order(a: &[u8], b: &[u8]) -> (r: bool)
    ensures
        r == bytes_le(a@, b@),
{
    let mut i: usize = 0;
    assert(a@.skip(0) =~= a@);
    assert(b@.skip(0) =~= b@);
    while i < a.len() && i < b.len()
        invariant
            i <= a@.len(),
            i <= b@.len(),
            bytes_le(a@, b@) == bytes_le(a@.skip(i as int), b@.skip(i as int)),
        decreases a@.len() - i,
    {
        if a[i] != b[i] {
            return a[i] <= b[i];
        }
        assert(a@.skip(i as int).drop_first() =~= a@.skip(i + 1));
        assert(b@.skip(i as int).drop_first() =~= b@.skip(i + 1));
        i += 1;
    }
    i == a.len()
}

/// Values with an order in which they are listed; different values may share a place in it.
pub trait Ranked: Sized {
    /// Whether `self` may stand before `other`.
    spec fn precedes(self, other: Self) -> bool;

    /// Of two values one may stand before the other.
    proof fn precedes_total(a: Self, b: Self)
        ensures
            a.precedes(b) || b.precedes(a),
    ;

    /// The order is transitive.
    proof fn precedes_transitive(a: Self, b: Self, c: Self)
        requires
            a.precedes(b),
            b.precedes(c),
        ensures
            a.precedes(c),
    ;

    /// Whether `self` may stand before `other`.
    fn in_order(&self, other: &Self) -> (r: bool)
        ensures
            r == self.precedes(*other),
    ;
}

/// Whether each value may stand before those behind it.
pub open spec fn ordered<T: Ranked>(s: Seq<T>) -> bool {
    forall|i: int, j: int|
        #![trigger s[i], s[j]]
        0 <= i < j < s.len() ==> s[i].precedes(s[j])
}

/// Whether each value of `a` may stand before each of `b`.
spec fn all_before<T: Ranked>(a: Seq<T>, b: Seq<T>) -> bool {
    forall|i: int, j: int|
        #![trigger a[i], b[j]]
        0 <= i < a.len() && 0 <= j < b.len() ==> a[i].precedes(b[j])
}

/// The values in reverse.
pub fn reversed<T>(items: Vec<T>) -> (r: Vec<T>)
    ensures
        r@ == items@.reverse(),
{
    let ghost all = items@;
    let mut rest = items;
    let mut out: Vec<T> = Vec::new();
    while rest.len() > 0
        invariant
            rest@.len() + out@.len() == all.len(),
            forall|i: int| 0 <= i < rest@.len() ==> rest@[i] == all[i],
            forall|i: int| 0 <= i < out@.len() ==> #[trigger] out@[i] == all[all.len() - 1 - i],
        decreases rest@.len(),
    {
        if let Some(item) = rest.pop() {
            out.push(item);
        }
    }
    assert(out@ =~= all.reverse());
    out
}

proof fn lemma_drop_last<T: Ranked>(s: Seq<T>, above: Seq<T>)
    requires
        s.len() > 0,
        ordered(s),
        all_before(s, above),
    ensures
        ordered(s.drop_last()),
        all_before(s.drop_last(), above.push(s.last())),
        s.to_multiset() == s.drop_last().to_multiset().insert(s.last()),
{
    let t = s.drop_last();
    assert forall|i: int, j: int|
        #![trigger t[i], above.push(s.last())[j]]
        0 <= i < t.len() && 0 <= j < above.push(s.last()).len() implies t[i].precedes(
        above.push(s.last())[j],
    ) by {
        assert(t[i] == s[i]);
        if j < above.len() {
            assert(s[i].precedes(above[j]));
        } else {
            assert(s[i].precedes(s[s.len() - 1]));
        }
    }
    assert forall|i: int, j: int| #![trigger t[i], t[j]] 0 <= i < j < t.len() implies t[i].precedes(
        t[j],
    ) by {
        assert(s[i].precedes(s[j]));
    }
    assert(t.push(s.last()) =~= s);
    vstd::seq_lib::to_multiset_build(t, s.last());
}

/// Pushing onto the part above what all of `other` may stand before.
proof fn lemma_push_above<T: Ranked>(other: Seq<T>, above: Seq<T>, item: T)
    requires
        ordered(other),
        all_before(other, above),
        other.len() > 0 ==> other.last().precedes(item),
    ensures
        all_before(other, above.push(item)),
{
    assert forall|i: int, j: int|
        #![trigger other[i], above.push(item)[j]]
        0 <= i < other.len() && 0 <= j < above.push(item).len() implies other[i].precedes(
        above.push(item)[j],
    ) by {
        if j < above.len() {
            assert(other[i].precedes(above[j]));
        } else if i < other.len() - 1 {
            assert(other[i].precedes(other[other.len() - 1]));
            T::precedes_transitive(other[i], other.last(), item);
        }
    }
}

/// Whether each value may stand before those in front of it.
spec fn ordered_down<T: Ranked>(s: Seq<T>) -> bool {
    forall|i: int, j: int|
        #![trigger s[i], s[j]]
        0 <= i < j < s.len() ==> s[j].precedes(s[i])
}

/// One ordered sequence of two.
fn merge<T: Ranked>(left: Vec<T>, right: Vec<T>) -> (r: Vec<T>)
    requires
        ordered(left@),
        ordered(right@),
    ensures
        ordered(r@),
        r@.to_multiset() == left@.to_multiset().add(right@.to_multiset()),
{
    let ghost total = left@.to_multiset().add(right@.to_multiset());
    let mut left = left;
    let mut right = right;
    let mut down: Vec<T> = Vec::new();
    proof {
        vstd::seq_lib::to_multiset_len(down@);
        assert(down@.to_multiset() =~= vstd::multiset::Multiset::empty());
    }
    while left.len() > 0 || right.len() > 0
        invariant
            ordered(left@),
            ordered(right@),
            ordered_down(down@),
            all_before(left@, down@),
            all_before(right@, down@),
            left@.to_multiset().add(right@.to_multiset()).add(down@.to_multiset()) =~= total,
        decreases left@.len() + right@.len(),
    {
        let from_right = if left.len() == 0 {
            true
        } else if right.len() == 0 {
            false
        } else {
            left[left.len() - 1].in_order(&right[right.len() - 1])
        };
        let ghost l = left@;
        let ghost r = right@;
        let ghost d = down@;
        if from_right {
            if let Some(item) = right.pop() {
                proof {
                    lemma_drop_last(r, d);
                    lemma_push_above(l, d, item);
                    vstd::seq_lib::to_multiset_build(d, item);
                    assert(all_before(r, d));
                    assert(r[r.len() - 1] == item);
                }
                down.push(item);
            }
        } else {
            if let Some(item) = left.pop() {
                proof {
                    if r.len() > 0 {
                        T::precedes_total(l.last(), r.last());
                    }
                    lemma_drop_last(l, d);
                    lemma_push_above(r, d, item);
                    vstd::seq_lib::to_multiset_build(d, item);
                    assert(all_before(l, d));
                    assert(l[l.len() - 1] == item);
                }
                down.push(item);
            }
        }
    }
    proof {
        assert(left@ =~= Seq::empty());
        assert(right@ =~= Seq::empty());
        vstd::seq_lib::to_multiset_len(left@);
        assert(left@.to_multiset() =~= vstd::multiset::Multiset::empty());
        assert(total =~= down@.to_multiset());
    }
    let ghost d = down@;
    let r = reversed(down);
    proof {
        lemma_reverse_multiset(d);
        assert forall|i: int, j: int| #![trigger r@[i], r@[j]] 0 <= i < j < r@.len() implies r@[
            i
        ].precedes(r@[j]) by {
            assert(r@[i] == d[d.len() - 1 - i]);
            assert(r@[j] == d[d.len() - 1 - j]);
        }
    }
    r
}

proof fn lemma_reverse_multiset<T>(s: Seq<T>)
    ensures
        s.reverse().to_multiset() == s.to_multiset(),
    decreases s.len(),
{
    if s.len() > 0 {
        let t = s.drop_last();
        lemma_reverse_multiset(t);
        assert(s.reverse() =~= seq![s.last()] + t.reverse());
        assert(s =~= t + seq![s.last()]);
        vstd::seq_lib::lemma_multiset_commutative(seq![s.last()], t.reverse());
        vstd::seq_lib::lemma_multiset_commutative(t, seq![s.last()]);
        assert(s.reverse().to_multiset() =~= s.to_multiset());
    } else {
        assert(s.reverse() =~= s);
    }
}

/// The values in an order in which each may stand before those behind it.
pub fn sorted<T: Ranked>(items: Vec<T>) -> (r: Vec<T>)
    ensures
        ordered(r@),
        r@.to_multiset() == items@.to_multiset(),
    decreases items@.len(),
{
    if items.len() < 2 {
        return items;
    }
    let ghost all = items@;
    let half = items.len() / 2;
    let mut left = items;
    let right = left.split_off(half);
    proof {
        assert(left@ + right@ =~= all);
        vstd::seq_lib::lemma_multiset_commutative(left@, right@);
    }
    let left = sorted(left);
    let right = sorted(right);
    merge(left, right)
}

// ---------------------------------------------------------------------------------------------
// Laws
// ---------------------------------------------------------------------------------------------


/// In the lexicographic order the first difference decides, and a sequence comes before those that
/// go on from it.
pub proof fn law_first_difference_decides<T>(
    common: Seq<T>,
    x: T,
    a: Seq<T>,
    y: T,
    b: Seq<T>,
    le: spec_fn(T, T) -> bool,
)
    ensures
        x != y ==> lex_le(common.push(x) + a, common.push(y) + b, le) == le(x, y),
        lex_le(common, common + b, le),
        !lex_le(common.push(x) + a, common, le),
    decreases common.len(),
{
    let left = common.push(x) + a;
    let right = common.push(y) + b;
    if common.len() > 0 {
        let rest = common.drop_first();
        law_first_difference_decides(rest, x, a, y, b, le);
        assert(left.drop_first() =~= rest.push(x) + a);
        assert(right.drop_first() =~= rest.push(y) + b);
        assert((common + b).drop_first() =~= rest + b);
    }
}

/// Bytes are ordered as numbers.
pub proof fn law_bytes_are_ordered_as_numbers(common: Seq<u8>, x: u8, a: Seq<u8>, y: u8, b: Seq<u8>)
    requires
        x < y,
    ensures
        bytes_le(common.push(x) + a, common.push(y) + b),
        !bytes_le(common.push(y) + b, common.push(x) + a),
        bytes_le(common, common + b),
        !bytes_le(common.push(x) + a, common),
{
    law_first_difference_decides(common, x, a, y, b, byte_order());
    law_first_difference_decides(common, y, b, x, a, byte_order());
}

} // verus!
