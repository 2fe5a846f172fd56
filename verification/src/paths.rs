//! Paths, and what the names of session files say.

use crate::order;
use crate::order::{bytes_in_order, same_bytes};
use crate::text;
use vstd::prelude::*;

verus! {

/// The newest generation of the log format that is read.
pub const MAX_SUPPORTED_GENERATION: u32 = 3;

/// The generation of a session file, and whether it is compressed. The order is by generation; of
/// two files of one generation the compressed one is the greater.
#[derive(Clone, Copy, Debug, PartialEq, Eq, PartialOrd, Ord, Structural)]
pub struct SessionFileVersion {
    pub generation: u32,
    pub compressed: bool,
}

impl SessionFileVersion {
    /// Whether `self` comes before `other`.
    pub open spec fn less(self, other: SessionFileVersion) -> bool {
        self.generation < other.generation || (self.generation == other.generation
            && !self.compressed && other.compressed)
    }
}

/// Whether `name` ends in `suffix`.
pub open spec fn has_suffix(name: Seq<u8>, suffix: Seq<u8>) -> bool {
    name.len() >= suffix.len() && name.skip(name.len() - suffix.len()) == suffix
}

/// Whether `name` begins with `prefix`.
pub open spec fn has_prefix(name: Seq<u8>, prefix: Seq<u8>) -> bool {
    name.len() >= prefix.len() && name.take(prefix.len() as int) == prefix
}

/// Whether `bytes` are decimal digits, at least one.
pub open spec fn is_numeral(bytes: Seq<u8>) -> bool {
    bytes.len() > 0 && forall|i: int| 0 <= i < bytes.len() ==> 48 <= #[trigger] bytes[i] <= 57
}

/// The number that decimal digits spell.
pub open spec fn numeral_value(bytes: Seq<u8>) -> int
    decreases bytes.len(),
{
    if bytes.len() == 0 {
        0
    } else {
        10 * numeral_value(bytes.drop_last()) + (bytes.last() - 48)
    }
}

/// `bytes` without a leading plus sign.
pub open spec fn after_plus(bytes: Seq<u8>) -> Seq<u8> {
    if bytes.len() > 0 && bytes[0] == 43 {
        bytes.skip(1)
    } else {
        bytes
    }
}

/// The `u32` that `bytes` spell: digits, which a plus sign may precede.
pub open spec fn u32_of(bytes: Seq<u8>) -> Option<u32> {
    let digits = after_plus(bytes);
    if is_numeral(digits) && numeral_value(digits) <= u32::MAX {
        Some(numeral_value(digits) as u32)
    } else {
        None
    }
}

/// Whether `bytes` spell a number in the same way that no `u32` holds.
pub open spec fn is_beyond_u32(bytes: Seq<u8>) -> bool {
    is_numeral(after_plus(bytes)) && numeral_value(after_plus(bytes)) > u32::MAX
}

/// The generation that the stem of a session file's name states: `session` is the first, and
/// `session.vN` is generation `N`.
pub open spec fn stem_generation(stem: Seq<u8>) -> Option<u32> {
    if stem == text::utf8("session"@) {
        Some(0)
    } else if has_prefix(stem, text::utf8("session.v"@)) {
        u32_of(stem.skip(text::utf8("session.v"@).len() as int))
    } else {
        None
    }
}

/// The name of a log file without its ending, and whether the ending says that it is compressed.
pub open spec fn stem_of_name(name: Seq<u8>) -> Option<(Seq<u8>, bool)> {
    if has_suffix(name, text::utf8(".jsonl.zstd"@)) {
        Some((name.take(name.len() - text::utf8(".jsonl.zstd"@).len()), true))
    } else if has_suffix(name, text::utf8(".jsonl"@)) {
        Some((name.take(name.len() - text::utf8(".jsonl"@).len()), false))
    } else {
        None
    }
}

/// The version that the name of a session file states.
pub open spec fn version_of_name(name: Seq<u8>) -> Option<SessionFileVersion> {
    match stem_of_name(name) {
        Some((stem, compressed)) => match stem_generation(stem) {
            Some(generation) => Some(SessionFileVersion { generation, compressed }),
            None => None,
        },
        None => None,
    }
}

/// Whether the name of a session file states a generation that no `u32` holds.
pub open spec fn name_outgrows(name: Seq<u8>) -> bool {
    match stem_of_name(name) {
        Some((stem, _)) => has_prefix(stem, text::utf8("session.v"@)) && is_beyond_u32(
            stem.skip(text::utf8("session.v"@).len() as int),
        ),
        None => false,
    }
}

/// `name` without `suffix`, where it ends in it.
fn strip_suffix<'a>(name: &'a [u8], suffix: &str) -> (r: Option<&'a [u8]>)
    ensures
        match r {
            Some(stem) => has_suffix(name@, text::utf8(suffix@)) && stem@ == name@.take(
                name@.len() - text::utf8(suffix@).len(),
            ),
            None => !has_suffix(name@, text::utf8(suffix@)),
        },
{
    let tail = suffix.as_bytes();
    if name.len() < tail.len() {
        return None;
    }
    let cut = name.len() - tail.len();
    let (stem, end) = name.split_at(cut);
    assert(stem@ =~= name@.take(cut as int));
    assert(end@ =~= name@.skip(cut as int));
    if same_bytes(end, tail) {
        Some(stem)
    } else {
        None
    }
}

/// `name` without `prefix`, where it begins with it.
fn strip_prefix<'a>(name: &'a [u8], prefix: &str) -> (r: Option<&'a [u8]>)
    ensures
        match r {
            Some(rest) => has_prefix(name@, text::utf8(prefix@)) && rest@ == name@.skip(
                text::utf8(prefix@).len() as int,
            ),
            None => !has_prefix(name@, text::utf8(prefix@)),
        },
{
    let head = prefix.as_bytes();
    if name.len() < head.len() {
        return None;
    }
    let cut = head.len();
    let (start, rest) = name.split_at(cut);
    assert(start@ =~= name@.take(cut as int));
    assert(rest@ =~= name@.skip(cut as int));
    if same_bytes(start, head) {
        Some(rest)
    } else {
        None
    }
}

/// The number that `bytes` spell, if they spell one; `Some(None)` is one that no `u32` holds.
fn read_number(bytes: &[u8]) -> (r: Option<Option<u32>>)
    ensures
        r == if u32_of(bytes@) is Some {
            Some(u32_of(bytes@))
        } else if is_beyond_u32(bytes@) {
            Some(None)
        } else {
            None
        },
{
    let digits = if bytes.len() > 0 && bytes[0] == 43 {
        let (_, rest) = bytes.split_at(1);
        rest
    } else {
        bytes
    };
    let ghost all = digits@;
    assert(all =~= after_plus(bytes@));
    if digits.len() == 0 {
        return None;
    }
    let mut value: u32 = 0;
    let mut beyond = false;
    let mut i: usize = 0;
    while i < digits.len()
        invariant
            all == digits@,
            all == after_plus(bytes@),
            i <= all.len(),
            forall|j: int| 0 <= j < i ==> 48 <= #[trigger] all[j] <= 57,
            if beyond {
                numeral_value(all.take(i as int)) > u32::MAX
            } else {
                value == numeral_value(all.take(i as int))
            },
        decreases all.len() - i,
    {
        let byte = digits[i];
        if byte < 48 || byte > 57 {
            assert(!is_numeral(all)) by {
                assert(all[i as int] == byte);
            }
            return None;
        }
        assert(all.take(i + 1).drop_last() =~= all.take(i as int));
        if !beyond {
            let next: u64 = (value as u64) * 10 + ((byte - 48) as u64);
            if next > 0xffff_ffff {
                beyond = true;
            } else {
                value = next as u32;
            }
        }
        i += 1;
    }
    assert(all.take(all.len() as int) =~= all);
    if beyond {
        Some(None)
    } else {
        Some(Some(value))
    }
}

/// The name of a log file without its ending, and whether the ending says that it is compressed.
fn split_name(name: &[u8]) -> (r: Option<(&[u8], bool)>)
    ensures
        match r {
            Some((stem, compressed)) => stem_of_name(name@) == Some((stem@, compressed)),
            None => stem_of_name(name@) is None,
        },
{
    match strip_suffix(name, ".jsonl.zstd") {
        Some(stem) => Some((stem, true)),
        None => match strip_suffix(name, ".jsonl") {
            Some(stem) => Some((stem, false)),
            None => None,
        },
    }
}

/// The version that the name of a session file states; `None` for any other name.
fn version_of_file_name(name: &[u8]) -> (r: Option<SessionFileVersion>)
    ensures
        r == version_of_name(name@),
{
    let (stem, compressed) = split_name(name)?;
    let generation = if same_bytes(stem, "session".as_bytes()) {
        0
    } else {
        match strip_prefix(stem, "session.v") {
            Some(digits) => read_number(digits)??,
            None => return None,
        }
    };
    Some(SessionFileVersion { generation, compressed })
}

/// Whether the name of a session file states a generation that no `u32` holds.
fn file_name_outgrows(name: &[u8]) -> (r: bool)
    ensures
        r == name_outgrows(name@),
{
    match split_name(name) {
        Some((stem, _)) => match strip_prefix(stem, "session.v") {
            Some(digits) => match read_number(digits) {
                Some(number) => number.is_none(),
                None => false,
            },
            None => false,
        },
        None => false,
    }
}

// ---------------------------------------------------------------------------------------------
// Paths
// ---------------------------------------------------------------------------------------------

/// A component of a path. Names are the bytes that the file system has for them.
#[derive(Clone, Debug, PartialEq, Eq, Hash)]
pub enum PathPart {
    Prefix(Vec<u8>),
    Root,
    Current,
    Parent,
    Normal(Vec<u8>),
}

/// The model of a [`PathPart`].
pub enum PartView {
    Prefix(Seq<u8>),
    Root,
    Current,
    Parent,
    Normal(Seq<u8>),
}

impl View for PathPart {
    type V = PartView;

    open spec fn view(&self) -> PartView {
        match self {
            PathPart::Prefix(bytes) => PartView::Prefix(bytes@),
            PathPart::Root => PartView::Root,
            PathPart::Current => PartView::Current,
            PathPart::Parent => PartView::Parent,
            PathPart::Normal(bytes) => PartView::Normal(bytes@),
        }
    }
}

impl PartView {
    /// The place of the kind of component among the kinds.
    pub open spec fn rank(self) -> int {
        match self {
            PartView::Prefix(_) => 0,
            PartView::Root => 1,
            PartView::Current => 2,
            PartView::Parent => 3,
            PartView::Normal(_) => 4,
        }
    }

    /// The bytes of a component that has any.
    pub open spec fn bytes(self) -> Seq<u8> {
        match self {
            PartView::Prefix(bytes) => bytes,
            PartView::Normal(bytes) => bytes,
            _ => Seq::empty(),
        }
    }

    /// Components are ordered by kind and then by their bytes.
    pub open spec fn le(self, other: PartView) -> bool {
        self.rank() < other.rank() || (self.rank() == other.rank() && order::bytes_le(
            self.bytes(),
            other.bytes(),
        ))
    }
}

/// The path of a file or a directory, component by component.
#[derive(Clone, Debug, PartialEq, Eq, Hash)]
pub struct FilePath {
    pub parts: Vec<PathPart>,
}

/// The model of a [`FilePath`].
pub type PathView = Seq<PartView>;

impl View for FilePath {
    type V = PathView;

    open spec fn view(&self) -> PathView {
        Seq::new(self.parts@.len(), |i: int| self.parts@[i]@)
    }
}

/// The models of a sequence of paths.
pub open spec fn path_views(paths: Seq<FilePath>) -> Seq<PathView> {
    Seq::new(paths.len(), |i: int| paths[i]@)
}

/// The models of what was found under each root.
pub open spec fn found_views(found: Seq<Vec<FilePath>>) -> Seq<Seq<PathView>> {
    Seq::new(found.len(), |i: int| path_views(found[i]@))
}

/// The order on components.
pub open spec fn part_order() -> spec_fn(PartView, PartView) -> bool {
    |a: PartView, b: PartView| a.le(b)
}

/// The order on paths, component by component.
pub open spec fn path_le(a: PathView, b: PathView) -> bool {
    order::lex_le(a, b, part_order())
}

/// The directory that a file is in.
pub open spec fn directory(path: PathView) -> PathView {
    path.drop_last()
}

/// The version of a session file.
pub open spec fn version_of(path: PathView) -> Option<SessionFileVersion> {
    if path.len() > 0 {
        match path.last() {
            PartView::Normal(name) => version_of_name(name),
            _ => None,
        }
    } else {
        None
    }
}

/// Whether a session file is of a generation that no `u32` holds. It has no version, and is newer
/// than any that has one.
pub open spec fn outgrows(path: PathView) -> bool {
    path.len() > 0 && match path.last() {
        PartView::Normal(name) => name_outgrows(name),
        _ => false,
    }
}

/// The order on components is total.
pub proof fn lemma_part_order()
    ensures
        order::is_total_order(part_order()),
{
    let le = part_order();
    order::lemma_byte_order();
    assert forall|a: PartView, b: PartView| #[trigger] le(a, b) || le(b, a) by {
        order::lemma_lex_total(a.bytes(), b.bytes(), order::byte_order());
    }
    assert forall|a: PartView, b: PartView| #[trigger] le(a, b) && #[trigger] le(b, a) implies a
        == b by {
        order::lemma_lex_antisymmetric(a.bytes(), b.bytes(), order::byte_order());
    }
    assert forall|a: PartView, b: PartView, c: PartView| #[trigger]
        le(a, b) && #[trigger] le(b, c) implies le(a, c) by {
        if a.rank() == b.rank() && b.rank() == c.rank() {
            order::lemma_lex_transitive(a.bytes(), b.bytes(), c.bytes(), order::byte_order());
        }
    }
}

impl PathPart {
    fn rank(&self) -> (r: u8)
        ensures
            r == self@.rank(),
    {
        match self {
            PathPart::Prefix(_) => 0,
            PathPart::Root => 1,
            PathPart::Current => 2,
            PathPart::Parent => 3,
            PathPart::Normal(_) => 4,
        }
    }

    fn same(&self, other: &PathPart) -> (r: bool)
        ensures
            r == (self@ == other@),
    {
        match (self, other) {
            (PathPart::Prefix(a), PathPart::Prefix(b)) => same_bytes(a.as_slice(), b.as_slice()),
            (PathPart::Normal(a), PathPart::Normal(b)) => same_bytes(a.as_slice(), b.as_slice()),
            _ => self.rank() == other.rank(),
        }
    }

    fn in_order(&self, other: &PathPart) -> (r: bool)
        ensures
            r == self@.le(other@),
    {
        match (self, other) {
            (PathPart::Prefix(a), PathPart::Prefix(b)) => bytes_in_order(
                a.as_slice(),
                b.as_slice(),
            ),
            (PathPart::Normal(a), PathPart::Normal(b)) => bytes_in_order(
                a.as_slice(),
                b.as_slice(),
            ),
            _ => self.rank() <= other.rank(),
        }
    }
}

impl FilePath {
    /// Whether the two paths are the same.
    pub fn same(&self, other: &FilePath) -> (r: bool)
        ensures
            r == (self@ == other@),
    {
        if self.parts.len() != other.parts.len() {
            assert(self@.len() != other@.len());
            return false;
        }
        let n = self.parts.len();
        let r = self.same_start(other, n);
        assert(self@.take(n as int) =~= self@);
        assert(other@.take(n as int) =~= other@);
        r
    }

    /// Whether the two paths agree in their first `n` components.
    fn same_start(&self, other: &FilePath, n: usize) -> (r: bool)
        requires
            n <= self@.len(),
            n <= other@.len(),
        ensures
            r == (self@.take(n as int) == other@.take(n as int)),
    {
        let mut i: usize = n;
        while i > 0
            invariant
                i <= n <= self.parts@.len(),
                n <= other.parts@.len(),
                forall|j: int| i <= j < n ==> self@[j] == other@[j],
            decreases i,
        {
            i -= 1;
            if !self.parts[i].same(&other.parts[i]) {
                assert(self@.take(n as int)[i as int] != other@.take(n as int)[i as int]);
                return false;
            }
        }
        assert(self@.take(n as int) =~= other@.take(n as int));
        true
    }

    /// Whether the two files are in one directory.
    pub fn same_directory(&self, other: &FilePath) -> (r: bool)
        requires
            self@.len() > 0,
            other@.len() > 0,
        ensures
            r == (directory(self@) == directory(other@)),
    {
        if self.parts.len() != other.parts.len() {
            assert(directory(self@).len() != directory(other@).len());
            return false;
        }
        let n = self.parts.len() - 1;
        assert(directory(self@) =~= self@.take(n as int));
        assert(directory(other@) =~= other@.take(n as int));
        self.same_start(other, n)
    }

    /// Whether `self` comes no later than `other` in the order on paths.
    pub fn path_in_order(&self, other: &FilePath) -> (r: bool)
        ensures
            r == path_le(self@, other@),
    {
        let mut i: usize = 0;
        assert(self@.skip(0) =~= self@);
        assert(other@.skip(0) =~= other@);
        while i < self.parts.len() && i < other.parts.len()
            invariant
                i <= self.parts@.len(),
                i <= other.parts@.len(),
                path_le(self@, other@) == path_le(self@.skip(i as int), other@.skip(i as int)),
            decreases self.parts@.len() - i,
        {
            if !self.parts[i].same(&other.parts[i]) {
                return self.parts[i].in_order(&other.parts[i]);
            }
            assert(self@.skip(i as int).drop_first() =~= self@.skip(i + 1));
            assert(other@.skip(i as int).drop_first() =~= other@.skip(i + 1));
            i += 1;
        }
        i == self.parts.len()
    }
}

/// The version of a session file; `None` for any other file.
pub fn session_file_version(path: &FilePath) -> (r: Option<SessionFileVersion>)
    ensures
        r == version_of(path@),
{
    let n = path.parts.len();
    if n == 0 {
        return None;
    }
    match &path.parts[n - 1] {
        PathPart::Normal(name) => version_of_file_name(name.as_slice()),
        _ => None,
    }
}

/// Whether a session file is of a generation that no `u32` holds.
pub fn has_outgrown(path: &FilePath) -> (r: bool)
    ensures
        r == outgrows(path@),
{
    let n = path.parts.len();
    if n == 0 {
        return false;
    }
    match &path.parts[n - 1] {
        PathPart::Normal(name) => file_name_outgrows(name.as_slice()),
        _ => false,
    }
}

// ---------------------------------------------------------------------------------------------
// Laws
// ---------------------------------------------------------------------------------------------

/// The ASCII codes of characters.
spec fn codes(s: Seq<char>) -> Seq<u8> {
    Seq::new(s.len(), |i: int| s[i] as u8)
}

proof fn lemma_ascii(s: Seq<char>)
    requires
        vstd::utf8::is_ascii_chars(s),
    ensures
        text::utf8(s) == codes(s),
{
    vstd::utf8::is_ascii_chars_encode_utf8(s);
    assert(text::utf8(s) =~= codes(s));
}

proof fn lemma_numeral_of(n: nat)
    ensures
        is_numeral(codes(text::decimal(n))),
        numeral_value(codes(text::decimal(n))) == n,
    decreases n,
{
    let bytes = codes(text::decimal(n));
    text::lemma_decimal_not_empty(n);
    assert forall|i: int| 0 <= i < bytes.len() implies 48 <= #[trigger] bytes[i] <= 57 by {
        text::lemma_decimal_digits(n, i);
    }
    if n < 10 {
        assert(bytes.drop_last() =~= Seq::empty());
        assert(bytes.last() == 48 + n);
        assert(numeral_value(bytes.drop_last()) == 0);
    } else {
        lemma_numeral_of(n / 10);
        assert(bytes.drop_last() =~= codes(text::decimal(n / 10)));
        assert(bytes.last() == 48 + n % 10);
        assert(10 * (n / 10) + n % 10 == n);
    }
}

/// The name of a session file whose generation is written out.
pub open spec fn versioned_name(generation: nat, ending: Seq<char>) -> Seq<char> {
    "session.v"@ + text::decimal(generation) + ending
}

proof fn lemma_stem_of(stem: Seq<char>)
    requires
        vstd::utf8::is_ascii_chars(stem),
    ensures
        stem_of_name(text::utf8(stem + ".jsonl"@)) == Some((codes(stem), false)),
        stem_of_name(text::utf8(stem + ".jsonl.zstd"@)) == Some((codes(stem), true)),
{
    reveal_strlit(".jsonl");
    reveal_strlit(".jsonl.zstd");
    let plain = stem + ".jsonl"@;
    let packed = stem + ".jsonl.zstd"@;
    lemma_ascii(".jsonl"@);
    lemma_ascii(".jsonl.zstd"@);
    lemma_ascii(plain);
    lemma_ascii(packed);
    let n = stem.len() as int;
    assert(codes(plain).skip(n) =~= codes(".jsonl"@));
    assert(codes(plain).take(n) =~= codes(stem));
    assert(codes(packed).skip(n) =~= codes(".jsonl.zstd"@));
    assert(codes(packed).take(n) =~= codes(stem));
    if has_suffix(codes(plain), codes(".jsonl.zstd"@)) {
        let k = codes(plain).len() - codes(".jsonl.zstd"@).len();
        assert(codes(plain).skip(k)[10] == codes(".jsonl.zstd"@)[10]);
        assert(codes(plain)[n + 5] == 108);
    }
}

/// What the stem of a name says whose generation is written out.
proof fn lemma_versioned_stem(generation: nat)
    ensures
        ({
            let stem = "session.v"@ + text::decimal(generation);
            let prefix = text::utf8("session.v"@);
            let rest = codes(stem).skip(prefix.len() as int);
            &&& vstd::utf8::is_ascii_chars(stem)
            &&& codes(stem) != text::utf8("session"@)
            &&& has_prefix(codes(stem), prefix)
            &&& after_plus(rest) == rest
            &&& is_numeral(rest)
            &&& numeral_value(rest) == generation
        }),
{
    reveal_strlit("session");
    reveal_strlit("session.v");
    let digits = text::decimal(generation);
    assert forall|i: int| 0 <= i < digits.len() implies '\0' <= #[trigger] digits[i]
        <= '\u{7f}' by {
        text::lemma_decimal_digits(generation, i);
    }
    let stem = "session.v"@ + digits;
    lemma_ascii("session"@);
    lemma_ascii("session.v"@);
    lemma_numeral_of(generation);
    assert(codes(stem).take(9) =~= codes("session.v"@));
    assert(codes(stem).skip(9) =~= codes(digits));
    text::lemma_decimal_not_empty(generation);
    assert(48 <= codes(digits)[0]);
}

/// A name of the form `session.vN.jsonl`, or of that form with `.zstd` behind it, states the
/// generation `N`; without `.vN` it states the first generation.
pub proof fn law_names_state_their_version(generation: u32)
    ensures
        version_of_name(text::utf8(versioned_name(generation as nat, ".jsonl"@))) == Some(
            SessionFileVersion { generation, compressed: false },
        ),
        version_of_name(text::utf8(versioned_name(generation as nat, ".jsonl.zstd"@))) == Some(
            SessionFileVersion { generation, compressed: true },
        ),
        version_of_name(text::utf8("session.jsonl"@)) == Some(
            SessionFileVersion { generation: 0, compressed: false },
        ),
        version_of_name(text::utf8("session.jsonl.zstd"@)) == Some(
            SessionFileVersion { generation: 0, compressed: true },
        ),
{
    reveal_strlit("session");
    reveal_strlit(".jsonl");
    reveal_strlit(".jsonl.zstd");
    reveal_strlit("session.jsonl");
    reveal_strlit("session.jsonl.zstd");
    lemma_versioned_stem(generation as nat);
    lemma_stem_of("session.v"@ + text::decimal(generation as nat));
    lemma_ascii("session"@);
    lemma_stem_of("session"@);
    assert("session"@ + ".jsonl"@ =~= "session.jsonl"@);
    assert("session"@ + ".jsonl.zstd"@ =~= "session.jsonl.zstd"@);
}

/// A name of the same form outgrows where no `u32` holds its `N`, however large that is.
pub proof fn law_larger_generations_outgrow(generation: nat)
    ensures
        name_outgrows(text::utf8(versioned_name(generation, ".jsonl"@))) == (generation
            > u32::MAX),
        name_outgrows(text::utf8(versioned_name(generation, ".jsonl.zstd"@))) == (generation
            > u32::MAX),
{
    lemma_versioned_stem(generation);
    lemma_stem_of("session.v"@ + text::decimal(generation));
}

/// A file that outgrows has no version.
pub proof fn law_outgrown_file_has_no_version(path: PathView)
    requires
        outgrows(path),
    ensures
        version_of(path) is None,
{
    reveal_strlit("session");
    reveal_strlit("session.v");
    lemma_ascii("session"@);
    lemma_ascii("session.v"@);
}

/// A numeral is a row of the bytes of `0` to `9`, and each digit more is worth a tenth of the one
/// before it.
pub proof fn law_numerals_are_decimal(bytes: Seq<u8>, digit: u8)
    requires
        48 <= digit <= 57,
    ensures
        numeral_value(Seq::empty()) == 0,
        numeral_value(bytes.push(digit)) == 10 * numeral_value(bytes) + digit - 48,
        is_numeral(seq![digit]),
        is_numeral(bytes) ==> is_numeral(bytes.push(digit)),
        is_numeral(bytes) ==> bytes.len() > 0 && forall|i: int|
            0 <= i < bytes.len() ==> 48 <= #[trigger] bytes[i] <= 57,
        !is_numeral(Seq::empty()),
{
    assert(bytes.push(digit).drop_last() =~= bytes);
}

/// The ending of the name of a log file.
pub open spec fn ending(compressed: bool) -> Seq<u8> {
    if compressed {
        text::utf8(".jsonl.zstd"@)
    } else {
        text::utf8(".jsonl"@)
    }
}

proof fn lemma_stem_and_ending(stem: Seq<u8>, compressed: bool)
    ensures
        stem_of_name(stem + ending(compressed)) == Some((stem, compressed)),
{
    reveal_strlit(".jsonl");
    reveal_strlit(".jsonl.zstd");
    lemma_ascii(".jsonl"@);
    lemma_ascii(".jsonl.zstd"@);
    let plain = text::utf8(".jsonl"@);
    let packed = text::utf8(".jsonl.zstd"@);
    let name = stem + ending(compressed);
    let n = stem.len() as int;
    assert(name.take(n) =~= stem);
    assert(name.skip(n) =~= ending(compressed));
    if !compressed && has_suffix(name, packed) {
        let k = name.len() - packed.len();
        assert(name.skip(k)[10] == packed[10]);
        assert(name[n + 5] == plain[5]);
    }
}

proof fn lemma_numeral_not_negative(bytes: Seq<u8>)
    requires
        forall|i: int| 0 <= i < bytes.len() ==> 48 <= #[trigger] bytes[i] <= 57,
    ensures
        numeral_value(bytes) >= 0,
    decreases bytes.len(),
{
    if bytes.len() > 0 {
        assert(48 <= bytes[bytes.len() - 1]);
        lemma_numeral_not_negative(bytes.drop_last());
    }
}

/// Which names state a generation: behind `session.v` a numeral, with a plus sign before it or not,
/// and behind that one of the two endings. The generation is the number that the numeral spells,
/// whatever zeros it begins with; where no `u32` holds it, the name outgrows and has no version.
pub proof fn law_numbered_names_have_versions(digits: Seq<u8>, plus: bool, compressed: bool)
    requires
        is_numeral(digits),
    ensures
        ({
            let sign = if plus { seq![43u8] } else { Seq::empty() };
            let name = text::utf8("session.v"@) + sign + digits + ending(compressed);
            if numeral_value(digits) <= u32::MAX {
                &&& version_of_name(name) matches Some(version) && version.generation
                    == numeral_value(digits) && version.compressed == compressed
                &&& !name_outgrows(name)
            } else {
                version_of_name(name) is None && name_outgrows(name)
            }
        }),
{
    reveal_strlit("session");
    reveal_strlit("session.v");
    lemma_ascii("session"@);
    lemma_ascii("session.v"@);
    let prefix = text::utf8("session.v"@);
    let sign = if plus {
        seq![43u8]
    } else {
        Seq::empty()
    };
    let stem = prefix + sign + digits;
    lemma_stem_and_ending(stem, compressed);
    assert(stem.take(prefix.len() as int) =~= prefix);
    assert(stem.skip(prefix.len() as int) =~= sign + digits);
    assert(after_plus(sign + digits) =~= digits) by {
        assert(digits[0] != 43);
        if plus {
            assert((sign + digits).skip(1) =~= digits);
        }
    }
    assert(stem.len() != text::utf8("session"@).len());
    lemma_numeral_not_negative(digits);
}

/// A name that has a version or outgrows is `session`, with or without `.v` and a numeral behind a
/// plus sign or none, and one of the two endings; the parts are given back.
pub proof fn law_only_session_names_have_versions(name: Seq<u8>) -> (parts: (Seq<u8>, bool, bool))
    requires
        version_of_name(name) is Some || name_outgrows(name),
    ensures
        ({
            let (digits, plus, compressed) = parts;
            let sign = if plus { seq![43u8] } else { Seq::empty() };
            ||| {
                &&& name == text::utf8("session"@) + ending(compressed)
                &&& version_of_name(name) == Some(
                    SessionFileVersion { generation: 0, compressed },
                )
            }
            ||| {
                &&& name == text::utf8("session.v"@) + sign + digits + ending(compressed)
                &&& is_numeral(digits)
            }
        }),
{
    let (stem, compressed) = stem_of_name(name)->0;
    assert(name =~= stem + ending(compressed));
    let prefix = text::utf8("session.v"@);
    let rest = stem.skip(prefix.len() as int);
    let digits = after_plus(rest);
    let plus = rest.len() > 0 && rest[0] == 43;
    let sign = if plus {
        seq![43u8]
    } else {
        Seq::empty()
    };
    if stem == text::utf8("session"@) && version_of_name(name) is Some {
    } else {
        assert(rest =~= sign + digits);
        assert(stem =~= prefix + sign + digits);
        assert(name =~= prefix + sign + digits + ending(compressed));
    }
    (digits, plus, compressed)
}

/// Of two versions the one with the larger generation is the greater, and of two with the same the
/// compressed one.
pub proof fn law_versions_are_ordered(a: SessionFileVersion, b: SessionFileVersion)
    ensures
        a.generation < b.generation ==> a.less(b) && !b.less(a),
        a.generation == b.generation ==> (a.less(b) <==> !a.compressed && b.compressed),
{
}

/// A file has the version of its name in whatever directory it is, and only a name has one.
pub proof fn law_versions_go_by_the_name(directory_of: PathView, part: PartView)
    ensures
        directory(directory_of.push(part)) == directory_of,
        match part {
            PartView::Normal(name) => {
                &&& version_of(directory_of.push(part)) == version_of_name(name)
                &&& outgrows(directory_of.push(part)) == name_outgrows(name)
            },
            _ => version_of(directory_of.push(part)) is None && !outgrows(directory_of.push(part)),
        },
        version_of(Seq::empty()) is None,
        !outgrows(Seq::empty()),
{
    assert(directory_of.push(part).drop_last() =~= directory_of);
}

/// Of the components of a path a prefix comes first, then the root, the current directory, the
/// parent and a name; two of a kind go by their bytes.
pub proof fn law_components_are_ordered(a: Seq<u8>, b: Seq<u8>)
    ensures
        PartView::Prefix(a).le(PartView::Root) && !PartView::Root.le(PartView::Prefix(a)),
        PartView::Root.le(PartView::Current) && !PartView::Current.le(PartView::Root),
        PartView::Current.le(PartView::Parent) && !PartView::Parent.le(PartView::Current),
        PartView::Parent.le(PartView::Normal(a)) && !PartView::Normal(a).le(PartView::Parent),
        PartView::Normal(a).le(PartView::Normal(b)) == order::bytes_le(a, b),
        PartView::Prefix(a).le(PartView::Prefix(b)) == order::bytes_le(a, b),
        order::is_total_order(part_order()),
{
    lemma_part_order();
}

/// Paths are ordered by the first component in which they differ, and a path comes before those
/// that go on from it.
pub proof fn law_paths_are_ordered_by_component(
    common: PathView,
    x: PartView,
    a: PathView,
    y: PartView,
    b: PathView,
)
    ensures
        x != y ==> path_le(common.push(x) + a, common.push(y) + b) == x.le(y),
        path_le(common, common + b),
        !path_le(common.push(x) + a, common),
{
    order::law_first_difference_decides(common, x, a, y, b, part_order());
}

/// The model of a path keeps each of its components.
pub proof fn law_path_models_keep_their_parts(path: FilePath, bytes: Vec<u8>)
    ensures
        path@.len() == path.parts@.len(),
        forall|i: int| 0 <= i < path.parts@.len() ==> #[trigger] path@[i] == path.parts@[i]@,
        path_views(seq![path]) == seq![path@],
        PathPart::Normal(bytes)@ == PartView::Normal(bytes@),
        PathPart::Prefix(bytes)@ == PartView::Prefix(bytes@),
        PathPart::Root@ == PartView::Root,
        PathPart::Current@ == PartView::Current,
        PathPart::Parent@ == PartView::Parent,
{
    assert(path_views(seq![path]) =~= seq![path@]);
}

/// The models of what was found keep every path under its root, in its place.
pub proof fn law_found_models_keep_their_paths(found: Seq<Vec<FilePath>>, root: int, i: int)
    requires
        0 <= root < found.len(),
        0 <= i < found[root]@.len(),
    ensures
        found_views(found).len() == found.len(),
        found_views(found)[root].len() == found[root]@.len(),
        found_views(found)[root][i] == found[root]@[i]@,
{
}

} // verus!
