//! Text helpers: equality, trimming and decimal numerals.

use crate::order::same_bytes;
use vstd::prelude::*;

verus! {

/// Whether `c` has the Unicode property White_Space.
pub open spec fn is_white(c: char) -> bool {
    ||| '\u{9}' <= c <= '\u{d}'
    ||| c == '\u{20}'
    ||| c == '\u{85}'
    ||| c == '\u{a0}'
    ||| c == '\u{1680}'
    ||| '\u{2000}' <= c <= '\u{200a}'
    ||| c == '\u{2028}'
    ||| c == '\u{2029}'
    ||| c == '\u{202f}'
    ||| c == '\u{205f}'
    ||| c == '\u{3000}'
}

/// `s` without its leading white space.
pub open spec fn trimmed_start(s: Seq<char>) -> Seq<char>
    decreases s.len(),
{
    if s.len() > 0 && is_white(s[0]) {
        trimmed_start(s.drop_first())
    } else {
        s
    }
}

/// `s` without its trailing white space.
pub open spec fn trimmed_end(s: Seq<char>) -> Seq<char>
    decreases s.len(),
{
    if s.len() > 0 && is_white(s.last()) {
        trimmed_end(s.drop_last())
    } else {
        s
    }
}

/// `s` without white space at either end.
pub open spec fn trimmed(s: Seq<char>) -> Seq<char> {
    trimmed_end(trimmed_start(s))
}

/// The parts of `s` between the separators; there is one part more than there are separators.
pub open spec fn split_on<T>(s: Seq<T>, separator: T) -> Seq<Seq<T>>
    decreases s.len(),
{
    if s.len() == 0 {
        seq![Seq::empty()]
    } else {
        let before = split_on(s.drop_last(), separator);
        if s.last() == separator {
            before.push(Seq::empty())
        } else {
            before.drop_last().push(before.last().push(s.last()))
        }
    }
}

/// The UTF-8 encoding of a text.
pub open spec fn utf8(s: Seq<char>) -> Seq<u8> {
    vstd::utf8::encode_utf8(s)
}

/// The decimal digit for `d`.
pub open spec fn digit(d: nat) -> char {
    (('0' as nat) + d) as char
}

/// The decimal numeral of `n`, without leading zeros.
pub open spec fn decimal(n: nat) -> Seq<char>
    decreases n,
{
    if n < 10 {
        seq![digit(n)]
    } else {
        decimal(n / 10).push(digit(n % 10))
    }
}

/// Whether the two texts hold the same characters.
pub fn same_text(a: &str, b: &str) -> (r: bool)
    ensures
        r == (a@ == b@),
{
    proof {
        vstd::utf8::encode_utf8_decode_utf8(a@);
        vstd::utf8::encode_utf8_decode_utf8(b@);
    }
    same_bytes(a.as_bytes(), b.as_bytes())
}

fn is_white_char(c: char) -> (r: bool)
    ensures
        r == is_white(c),
{
    ('\u{9}' <= c && c <= '\u{d}') || c == '\u{20}' || c == '\u{85}' || c == '\u{a0}' || c
        == '\u{1680}' || ('\u{2000}' <= c && c <= '\u{200a}') || c == '\u{2028}' || c == '\u{2029}'
        || c == '\u{202f}' || c == '\u{205f}' || c == '\u{3000}'
}

proof fn lemma_trimmed_start_skips(s: Seq<char>, a: int)
    requires
        0 <= a <= s.len(),
        forall|j: int| 0 <= j < a ==> is_white(#[trigger] s[j]),
        a < s.len() ==> !is_white(s[a]),
    ensures
        trimmed_start(s) == s.skip(a),
    decreases a,
{
    if a > 0 {
        assert(is_white(s[0]));
        let t = s.drop_first();
        assert forall|j: int| 0 <= j < a - 1 implies is_white(#[trigger] t[j]) by {
            assert(t[j] == s[j + 1]);
        }
        lemma_trimmed_start_skips(t, a - 1);
        assert(t.skip(a - 1) =~= s.skip(a));
    } else {
        assert(s.skip(0) =~= s);
    }
}

proof fn lemma_trimmed_end_keeps(s: Seq<char>, b: int)
    requires
        0 <= b <= s.len(),
        forall|j: int| b <= j < s.len() ==> is_white(#[trigger] s[j]),
        b > 0 ==> !is_white(s[b - 1]),
    ensures
        trimmed_end(s) == s.take(b),
    decreases s.len(),
{
    if b < s.len() {
        assert(is_white(s.last()));
        lemma_trimmed_end_keeps(s.drop_last(), b);
        assert(s.drop_last().take(b) =~= s.take(b));
    } else {
        assert(s.take(b) =~= s);
    }
}

/// The text without white space at either end.
pub fn trim(s: &str) -> (r: &str)
    ensures
        r@ == trimmed(s@),
{
    let n = s.unicode_len();
    let mut start: usize = n;
    let mut end: usize = n;
    let mut i: usize = 0;
    for c in it: s.chars()
        invariant
            it.seq() == s@,
            i == it.index(),
            n == s@.len(),
            start == n ==> forall|j: int| 0 <= j < i ==> is_white(#[trigger] s@[j]),
            start != n ==> {
                &&& start < end <= i
                &&& !is_white(s@[start as int])
                &&& !is_white(s@[end - 1])
                &&& forall|j: int| 0 <= j < start ==> is_white(#[trigger] s@[j])
                &&& forall|j: int| end <= j < i ==> is_white(#[trigger] s@[j])
            },
            start == n ==> end == n,
    {
        if !is_white_char(c) {
            if start == n {
                start = i;
            }
            end = i + 1;
        }
        i = i + 1;
    }
    proof {
        lemma_trimmed_start_skips(s@, start as int);
        let t = s@.skip(start as int);
        assert forall|j: int| end - start <= j < t.len() implies is_white(#[trigger] t[j]) by {
            assert(t[j] == s@[start + j]);
        }
        lemma_trimmed_end_keeps(t, end - start);
        assert(t.take(end - start) =~= s@.subrange(start as int, end as int));
    }
    s.substring_char(start, end)
}

fn digit_text(d: u64) -> (r: &'static str)
    requires
        d < 10,
    ensures
        r@ == seq![digit(d as nat)],
{
    proof {
        reveal_strlit("0");
        reveal_strlit("1");
        reveal_strlit("2");
        reveal_strlit("3");
        reveal_strlit("4");
        reveal_strlit("5");
        reveal_strlit("6");
        reveal_strlit("7");
        reveal_strlit("8");
        reveal_strlit("9");
    }
    if d == 0 {
        "0"
    } else if d == 1 {
        "1"
    } else if d == 2 {
        "2"
    } else if d == 3 {
        "3"
    } else if d == 4 {
        "4"
    } else if d == 5 {
        "5"
    } else if d == 6 {
        "6"
    } else if d == 7 {
        "7"
    } else if d == 8 {
        "8"
    } else {
        "9"
    }
}

/// Appends the decimal numeral of `n`.
pub fn push_decimal(out: &mut String, n: u64)
    ensures
        final(out)@ == old(out)@ + decimal(n as nat),
    decreases n,
{
    if n >= 10 {
        push_decimal(out, n / 10);
    }
    out.append(digit_text(n % 10));
}

/// There is at least one part.
pub proof fn lemma_split_not_empty<T>(s: Seq<T>, separator: T)
    ensures
        split_on(s, separator).len() > 0,
    decreases s.len(),
{
    if s.len() > 0 {
        lemma_split_not_empty(s.drop_last(), separator);
    }
}

/// The parts of two sequences with a separator between them are the parts of the one and then
/// those of the other.
pub proof fn lemma_split_joined<T>(a: Seq<T>, b: Seq<T>, separator: T)
    ensures
        split_on(a.push(separator) + b, separator) == split_on(a, separator) + split_on(
            b,
            separator,
        ),
    decreases b.len(),
{
    let whole = a.push(separator) + b;
    lemma_split_not_empty(b, separator);
    if b.len() == 0 {
        assert(whole =~= a.push(separator));
        assert(whole.drop_last() =~= a);
        assert(split_on(whole, separator) =~= split_on(a, separator) + split_on(b, separator));
    } else {
        let shorter = b.drop_last();
        lemma_split_joined(a, shorter, separator);
        lemma_split_not_empty(shorter, separator);
        assert(whole.drop_last() =~= a.push(separator) + shorter);
        assert(split_on(whole, separator) =~= split_on(a, separator) + split_on(b, separator));
    }
}

/// A numeral holds digits only.
pub proof fn lemma_decimal_digits(n: nat, i: int)
    requires
        0 <= i < decimal(n).len(),
    ensures
        '0' <= decimal(n)[i] <= '9',
    decreases n,
{
    if n >= 10 && i < decimal(n).len() - 1 {
        lemma_decimal_digits(n / 10, i);
    }
}

/// Different numbers have different numerals.
pub proof fn lemma_decimal_injective(a: nat, b: nat)
    requires
        decimal(a) == decimal(b),
    ensures
        a == b,
    decreases a,
{
    let x = decimal(a);
    let y = decimal(b);
    lemma_decimal_not_empty(a / 10);
    lemma_decimal_not_empty(b / 10);
    assert(x.last() == digit(a % 10));
    assert(y.last() == digit(b % 10));
    assert(a % 10 == b % 10);
    if a >= 10 && b >= 10 {
        assert(x.drop_last() =~= decimal(a / 10));
        assert(y.drop_last() =~= decimal(b / 10));
        lemma_decimal_injective(a / 10, b / 10);
    }
}

/// A numeral has at least one digit.
pub proof fn lemma_decimal_not_empty(n: nat)
    ensures
        decimal(n).len() > 0,
{
}

// ---------------------------------------------------------------------------------------------
// Laws
// ---------------------------------------------------------------------------------------------


/// White space is what Unicode lists as such.
pub proof fn law_white_space(c: char)
    ensures
        is_white(c) <==> {
            let code = c as int;
            ||| 0x9 <= code <= 0xd
            ||| code == 0x20
            ||| code == 0x85
            ||| code == 0xa0
            ||| code == 0x1680
            ||| 0x2000 <= code <= 0x200a
            ||| 0x2028 <= code <= 0x2029
            ||| code == 0x202f
            ||| code == 0x205f
            ||| code == 0x3000
        },
{
}

proof fn lemma_start_found(s: Seq<char>) -> (a: int)
    ensures
        0 <= a <= s.len(),
        forall|j: int| 0 <= j < a ==> is_white(#[trigger] s[j]),
        a < s.len() ==> !is_white(s[a]),
    decreases s.len(),
{
    if s.len() > 0 && is_white(s[0]) {
        let a = lemma_start_found(s.drop_first());
        assert forall|j: int| 0 <= j < a + 1 implies is_white(#[trigger] s[j]) by {
            if j > 0 {
                assert(is_white(s.drop_first()[j - 1]));
            }
        }
        a + 1
    } else {
        0
    }
}

proof fn lemma_end_found(s: Seq<char>) -> (b: int)
    ensures
        0 <= b <= s.len(),
        forall|j: int| b <= j < s.len() ==> is_white(#[trigger] s[j]),
        b > 0 ==> !is_white(s[b - 1]),
    decreases s.len(),
{
    if s.len() > 0 && is_white(s.last()) {
        let b = lemma_end_found(s.drop_last());
        assert forall|j: int| b <= j < s.len() implies is_white(#[trigger] s[j]) by {
            if j < s.len() - 1 {
                assert(is_white(s.drop_last()[j]));
            }
        }
        b
    } else {
        s.len() as int
    }
}

/// Trimming takes white space from the ends, all of it, and nothing else: between the white space
/// that is taken stands what is left, which neither begins nor ends with white space.
pub proof fn law_trimming_takes_the_white_ends(s: Seq<char>) -> (ends: (int, int))
    ensures
        0 <= ends.0 <= ends.1 <= s.len(),
        trimmed(s) == s.subrange(ends.0, ends.1),
        forall|j: int| 0 <= j < ends.0 ==> is_white(#[trigger] s[j]),
        forall|j: int| ends.1 <= j < s.len() ==> is_white(#[trigger] s[j]),
        trimmed(s).len() > 0 ==> !is_white(trimmed(s)[0]) && !is_white(trimmed(s).last()),
{
    let a = lemma_start_found(s);
    lemma_trimmed_start_skips(s, a);
    let t = s.skip(a);
    let b = lemma_end_found(t);
    lemma_trimmed_end_keeps(t, b);
    assert(t.take(b) =~= s.subrange(a, a + b));
    assert forall|j: int| a + b <= j < s.len() implies is_white(#[trigger] s[j]) by {
        assert(t[j - a] == s[j]);
    }
    (a, a + b)
}

/// The parts with a separator between each two.
pub open spec fn joined<T>(parts: Seq<Seq<T>>, separator: T) -> Seq<T>
    decreases parts.len(),
{
    if parts.len() == 0 {
        Seq::empty()
    } else if parts.len() == 1 {
        parts[0]
    } else {
        joined(parts.drop_last(), separator).push(separator) + parts.last()
    }
}

proof fn lemma_joined_last<T>(parts: Seq<Seq<T>>, separator: T, item: T)
    requires
        parts.len() > 0,
    ensures
        joined(parts.drop_last().push(parts.last().push(item)), separator) == joined(
            parts,
            separator,
        ).push(item),
{
    let more = parts.drop_last().push(parts.last().push(item));
    assert(more.drop_last() =~= parts.drop_last());
    assert(joined(more, separator) =~= joined(parts, separator).push(item));
}

/// Splitting loses nothing and leaves no separator: the parts, joined again, are the whole, and no
/// part holds a separator.
pub proof fn law_split_parts_join_again<T>(s: Seq<T>, separator: T)
    ensures
        split_on(s, separator).len() > 0,
        joined(split_on(s, separator), separator) == s,
        forall|i: int, j: int|
            0 <= i < split_on(s, separator).len() && 0 <= j < split_on(s, separator)[i].len()
                ==> #[trigger] split_on(s, separator)[i][j] != separator,
    decreases s.len(),
{
    let parts = split_on(s, separator);
    if s.len() > 0 {
        let shorter = s.drop_last();
        let before = split_on(shorter, separator);
        law_split_parts_join_again(shorter, separator);
        assert(s =~= shorter.push(s.last()));
        if s.last() == separator {
            assert(parts.drop_last() =~= before);
            assert(joined(parts, separator) =~= s);
            assert forall|i: int, j: int|
                0 <= i < parts.len() && 0 <= j < parts[i].len() implies #[trigger] parts[i][j]
                != separator by {
                assert(parts[i] == before[i]);
            }
        } else {
            lemma_joined_last(before, separator, s.last());
            assert forall|i: int, j: int|
                0 <= i < parts.len() && 0 <= j < parts[i].len() implies #[trigger] parts[i][j]
                != separator by {
                if i < before.len() - 1 {
                    assert(parts[i] == before[i]);
                } else {
                    assert(parts[i] == before[i].push(s.last()));
                    if j < before[i].len() {
                        assert(before[i][j] == parts[i][j]);
                    }
                }
            }
        }
    } else {
        assert(parts[0] =~= s);
    }
}

/// The number that a row of digits spells.
pub open spec fn spelled(digits: Seq<char>) -> int
    decreases digits.len(),
{
    if digits.len() == 0 {
        0
    } else {
        10 * spelled(digits.drop_last()) + (digits.last() as int - '0' as int)
    }
}

/// A numeral is a row of digits that spells its number, and a leading zero stands alone.
pub proof fn law_numerals_spell_their_number(n: nat)
    ensures
        spelled(decimal(n)) == n,
        decimal(n).len() > 0,
        forall|i: int| 0 <= i < decimal(n).len() ==> '0' <= #[trigger] decimal(n)[i] <= '9',
        decimal(n).len() > 1 ==> decimal(n)[0] != '0',
    decreases n,
{
    let s = decimal(n);
    assert forall|i: int| 0 <= i < s.len() implies '0' <= #[trigger] s[i] <= '9' by {
        lemma_decimal_digits(n, i);
    }
    if n < 10 {
        assert(s.drop_last() =~= Seq::empty());
        assert(spelled(s.drop_last()) == 0);
    } else {
        law_numerals_spell_their_number(n / 10);
        assert(s.drop_last() =~= decimal(n / 10));
        assert(s[0] == decimal(n / 10)[0]);
        if n / 10 < 10 {
            assert(s[0] == digit(n / 10));
            assert(1 <= n / 10 <= 9);
            assert(digit(n / 10) as int == 48 + n / 10);
        } else {
            lemma_decimal_not_empty(n / 10 / 10);
        }
    }
}

} // verus!
