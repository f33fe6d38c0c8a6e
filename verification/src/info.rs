//! Property lists, as far as bundles are told apart by them.
//!
//! Reading one is left to `plist`. Two kinds of text it cannot take: a date
//! on the last day that can be told with an offset that carries it into the
//! next year, and collections nested so deep that letting go of them runs out
//! of stack. A text that could be either is not handed to it.

use vstd::prelude::*;

use crate::disk::bytes_view;
use crate::paths::{joined, same_path};

verus! {

/// The string that a property list holds under `key` of its root dictionary:
/// what `plist::Value::from_reader` makes of the bytes, looked up.
pub uninterp spec fn plist_string_of(bytes: Seq<u8>, key: Seq<char>) -> Option<Seq<char>>;

/// The view of an optional string.
pub open spec fn opt_text(s: Option<String>) -> Option<Seq<char>> {
    match s {
        Some(s) => Some(s@),
        None => None,
    }
}

/// How many collections a list may have, and so how deep they may nest: half
/// of what two megabytes of stack were seen to take.
pub const MOST_NESTED: u64 = 10_000;

/// `bplist00`, which a binary list begins with.
pub const BINARY_MARK: [u8; 8] = [0x62, 0x70, 0x6c, 0x69, 0x73, 0x74, 0x30, 0x30];

/// `array`.
pub const ARRAY: [u8; 5] = [0x61, 0x72, 0x72, 0x61, 0x79];

/// `dict`.
pub const DICT: [u8; 4] = [0x64, 0x69, 0x63, 0x74];

/// `date`.
pub const DATE: [u8; 4] = [0x64, 0x61, 0x74, 0x65];

/// `9999-12-31`, the last day that can be told.
pub const LAST_DAY: [u8; 10] = [0x39, 0x39, 0x39, 0x39, 0x2d, 0x31, 0x32, 0x2d, 0x33, 0x31];

/// `word` stands in the bytes at `at`.
pub open spec fn word_at(bytes: Seq<u8>, word: Seq<u8>, at: int) -> bool {
    &&& 0 <= at
    &&& at + word.len() <= bytes.len()
    &&& forall|j: int| 0 <= j < word.len() ==> bytes[at + j] == #[trigger] word[j]
}

/// The name of a tag may end at `at` and what follows: `<`, or the `:` of a
/// prefix, and the word.
pub open spec fn tag_at(bytes: Seq<u8>, word: Seq<u8>, at: int) -> bool {
    &&& 0 <= at < bytes.len()
    &&& bytes[at] == 0x3c || bytes[at] == 0x3a
    &&& word_at(bytes, word, at + 1)
}

/// A collection may open in a text at `at`: the tag of one in XML, or the
/// bracket of one in the older format.
pub open spec fn collection_at(bytes: Seq<u8>, at: int) -> bool {
    ||| tag_at(bytes, ARRAY@, at)
    ||| tag_at(bytes, DICT@, at)
    ||| bytes[at] == 0x28
    ||| bytes[at] == 0x7b
}

/// At how many of the first `n` places of a text a collection may open.
pub open spec fn collections(bytes: Seq<u8>, n: int) -> nat
    decreases n,
{
    if n <= 0 {
        0
    } else {
        collections(bytes, n - 1) + if collection_at(bytes, n - 1) {
            1nat
        } else {
            0nat
        }
    }
}

/// The number that `n` bytes from `at` on make, the highest first.
pub open spec fn big_endian(bytes: Seq<u8>, at: int, n: int) -> nat
    decreases n,
{
    if n <= 0 {
        0
    } else {
        big_endian(bytes, at, n - 1) * 256 + bytes[at + n - 1] as nat
    }
}

/// White space between a tag's name and its attributes.
pub open spec fn tag_space(b: u8) -> bool {
    b == 0x20 || b == 0x09 || b == 0x0a || b == 0x0d
}

/// From `at` on, up to the next markup, stands a text that is all there is of
/// it and does not name the last day: no reference, and no comment or other
/// markup for which the text would go on behind it.
pub open spec fn harmless_text(bytes: Seq<u8>, at: int) -> bool
    decreases bytes.len() - at,
{
    if at < 0 || at >= bytes.len() {
        true
    } else if bytes[at] == 0x3c {
        at + 1 < bytes.len() ==> bytes[at + 1] != 0x21 && bytes[at + 1] != 0x3f
    } else {
        bytes[at] != 0x26 && !word_at(bytes, LAST_DAY@, at) && harmless_text(bytes, at + 1)
    }
}

/// Should a date begin with the tag whose name is at `at`, it has no
/// attributes and its text is harmless.
pub open spec fn harmless_date(bytes: Seq<u8>, at: int) -> bool {
    at + 5 < bytes.len() ==> {
        &&& !tag_space(bytes[at + 5])
        &&& bytes[at + 5] == 0x3e ==> harmless_text(bytes, at + 6)
    }
}

/// The bytes begin as a binary list does.
pub open spec fn is_binary(bytes: Seq<u8>) -> bool {
    word_at(bytes, BINARY_MARK@, 0)
}

/// A list that `plist` reads without coming to harm. A binary one says in the
/// trailer of 32 bytes how many objects it has.
pub open spec fn plain_plist(bytes: Seq<u8>) -> bool {
    if is_binary(bytes) {
        bytes.len() >= 32 ==> big_endian(bytes, bytes.len() - 24, 8) <= MOST_NESTED
    } else {
        &&& collections(bytes, bytes.len() as int) <= MOST_NESTED
        &&& forall|i: int| #[trigger] tag_at(bytes, DATE@, i) ==> harmless_date(bytes, i)
    }
}

/// Calls `plist::Value::from_reader` on the bytes and looks `key` up in the
/// root dictionary. Nothing where the bytes are no property list, the root is
/// no dictionary, the key is absent or its value is no string. Left out are
/// texts in which a date may be out of range once its offset is taken off,
/// on which `time`'s `OffsetDateTime::to_offset` panics, and lists that may
/// nest too deep for the stack on which the value is dropped. How much memory
/// and time the call takes is left unsaid.
#[verifier::external_body]
pub(crate) fn plist_string(bytes: &[u8], key: &str) -> (r: Option<String>)
    requires
        plain_plist(bytes@),
    ensures
        opt_text(r) == plist_string_of(bytes@, key@),
{
    let value = plist::Value::from_reader(std::io::Cursor::new(bytes)).ok()?;
    value.as_dictionary()?.get(key)?.as_string().map(|s| s.to_string())
}

/// Whether `word` stands in the bytes at `at`.
fn is_word_at(bytes: &[u8], word: &[u8], at: usize) -> (r: bool)
    ensures
        r == word_at(bytes@, word@, at as int),
{
    let n: usize = bytes.len();
    if at > n || word.len() > n - at {
        return false;
    }
    let mut j: usize = 0;
    while j < word.len()
        invariant
            n == bytes@.len(),
            at + word@.len() <= n,
            j <= word@.len(),
            forall|k: int| 0 <= k < j ==> bytes@[at + k] == #[trigger] word@[k],
        decreases word@.len() - j,
    {
        if bytes[at + j] != word[j] {
            return false;
        }
        j += 1;
    }
    true
}

/// Whether the text of an element is harmless.
fn is_harmless_text(bytes: &[u8], at: usize) -> (r: bool)
    ensures
        r == harmless_text(bytes@, at as int),
{
    let mut p: usize = at;
    while p < bytes.len()
        invariant
            at <= p,
            harmless_text(bytes@, at as int) == harmless_text(bytes@, p as int),
        decreases bytes@.len() - p,
    {
        let b: u8 = bytes[p];
        if b == 0x3c {
            return p + 1 >= bytes.len() || (bytes[p + 1] != 0x21 && bytes[p + 1] != 0x3f);
        }
        if b == 0x26 || is_word_at(bytes, &LAST_DAY, p) {
            return false;
        }
        p += 1;
    }
    true
}

/// Whether a list is one that `plist` reads without coming to harm.
pub fn is_plain_plist(bytes: &[u8]) -> (r: bool)
    ensures
        r == plain_plist(bytes@),
{
    let n: usize = bytes.len();
    if is_word_at(bytes, &BINARY_MARK, 0) {
        return n < 32 || is_small(bytes, n - 24);
    }
    let mut found: u64 = 0;
    let mut i: usize = 0;
    while i < n
        invariant
            n == bytes@.len(),
            i <= n,
            !is_binary(bytes@),
            found == collections(bytes@, i as int),
            found <= MOST_NESTED,
            forall|k: int| k < i && #[trigger] tag_at(bytes@, DATE@, k) ==> harmless_date(bytes@, k),
        decreases n - i,
    {
        let b: u8 = bytes[i];
        let tag = b == 0x3c || b == 0x3a;
        if b == 0x28 || b == 0x7b || (tag && (is_word_at(bytes, &ARRAY, i + 1) || is_word_at(bytes, &DICT, i + 1))) {
            if found == MOST_NESTED {
                proof {
                    lemma_collections_grow(bytes@, i + 1, n as int);
                }
                return false;
            }
            found += 1;
        }
        if tag && is_word_at(bytes, &DATE, i + 1) && n - i > 5 {
            let next: u8 = bytes[i + 5];
            if next == 0x20 || next == 0x09 || next == 0x0a || next == 0x0d || (next == 0x3e && !is_harmless_text(
                bytes,
                i + 6,
            )) {
                assert(tag_at(bytes@, DATE@, i as int) && !harmless_date(bytes@, i as int));
                return false;
            }
        }
        i += 1;
    }
    true
}

proof fn lemma_collections_grow(bytes: Seq<u8>, a: int, b: int)
    requires
        a <= b,
    ensures
        collections(bytes, a) <= collections(bytes, b),
    decreases b - a,
{
    if a < b {
        lemma_collections_grow(bytes, a, b - 1);
    }
}

/// Whether eight bytes make a number that is not above what may nest.
fn is_small(bytes: &[u8], at: usize) -> (r: bool)
    requires
        at + 8 <= bytes@.len(),
    ensures
        r == (big_endian(bytes@, at as int, 8) <= MOST_NESTED),
{
    let n: usize = bytes.len();
    let mut value: u64 = 0;
    let mut i: usize = 0;
    while i < 8
        invariant
            i <= 8,
            at + 8 <= n == bytes@.len(),
            value == big_endian(bytes@, at as int, i as int),
            value <= MOST_NESTED,
        decreases 8 - i,
    {
        value = value * 256 + bytes[at + i] as u64;
        if value > MOST_NESTED {
            proof {
                lemma_big_endian_grows(bytes@, at as int, i + 1, 8);
            }
            return false;
        }
        i += 1;
    }
    true
}

proof fn lemma_big_endian_grows(bytes: Seq<u8>, at: int, a: int, b: int)
    requires
        0 <= a <= b,
    ensures
        big_endian(bytes, at, a) <= big_endian(bytes, at, b),
    decreases b - a,
{
    if a < b {
        lemma_big_endian_grows(bytes, at, a, b - 1);
    }
}

/// Where a bundle keeps its property list.
pub open spec fn info_place(app: Seq<char>) -> Seq<char> {
    joined(app, "Contents/Info.plist"@)
}

/// What a file that holds a property list says under `key`; nothing where it
/// holds none, or one that is not read.
pub open spec fn info_text(bytes: Option<Seq<u8>>, key: Seq<char>) -> Option<Seq<char>> {
    match bytes {
        Some(b) => if plain_plist(b) {
            plist_string_of(b, key)
        } else {
            None
        },
        None => None,
    }
}

/// What a file that holds a property list says under `key`.
pub fn info_string(bytes: &Option<Vec<u8>>, key: &str) -> (r: Option<String>)
    ensures
        opt_text(r) == info_text(bytes_view(*bytes), key@),
{
    match bytes {
        Some(bytes) => if is_plain_plist(bytes.as_slice()) {
            plist_string(bytes.as_slice(), key)
        } else {
            None
        },
        None => None,
    }
}

/// A number is read from its bytes, the most significant first.
pub proof fn the_first_byte_weighs_most(bytes: Seq<u8>, at: int)
    ensures
        big_endian(bytes, at, 0) == 0,
        big_endian(bytes, at, 1) == bytes[at],
        big_endian(bytes, at, 2) == 256 * bytes[at] + bytes[at + 1],
        big_endian(bytes, at, 8) == 0x100_0000_0000_0000 * bytes[at] + 0x1_0000_0000_0000 * bytes[at + 1] + 0x100_0000_0000
            * bytes[at + 2] + 0x1_0000_0000 * bytes[at + 3] + 0x100_0000 * bytes[at + 4] + 0x1_0000 * bytes[at + 5] + 0x100
            * bytes[at + 6] + bytes[at + 7],
{
    reveal_with_fuel(big_endian, 9);
}

/// A property list of plain text, with nothing in it that opens a collection
/// or a date, is read.
pub proof fn plain_text_is_read(bytes: Seq<u8>)
    requires
        bytes.len() > 0,
        bytes[0] != 0x62,
        forall|i: int|
            0 <= i < bytes.len() ==> #[trigger] bytes[i] != 0x3c && bytes[i] != 0x3a && bytes[i] != 0x28 && bytes[i] != 0x7b,
    ensures
        plain_plist(bytes),
{
    let first: int = 0;
    assert(BINARY_MARK@[first] == 0x62);
    if is_binary(bytes) {
        assert(bytes[0 + first] == BINARY_MARK@[first]);
    }
    lemma_no_collections(bytes, bytes.len() as int);
}

proof fn lemma_no_collections(bytes: Seq<u8>, n: int)
    requires
        n <= bytes.len(),
        forall|i: int|
            0 <= i < bytes.len() ==> #[trigger] bytes[i] != 0x3c && bytes[i] != 0x3a && bytes[i] != 0x28 && bytes[i] != 0x7b,
    ensures
        collections(bytes, n) == 0,
    decreases n,
{
    if n > 0 {
        lemma_no_collections(bytes, n - 1);
        assert(bytes[n - 1] != 0x28);
    }
}

/// What is too deeply nested to be read: a text with more than ten thousand
/// marks that open a collection, or a binary list whose trailer tells of more
/// than ten thousand objects. One mark more counts as one more.
pub proof fn what_is_nested_too_deeply(bytes: Seq<u8>, n: int)
    requires
        0 <= n < bytes.len(),
    ensures
        bytes[n] == 0x28 || bytes[n] == 0x7b ==> collections(bytes, n + 1) == collections(bytes, n) + 1,
        !is_binary(bytes) && collections(bytes, bytes.len() as int) > 10000 ==> !plain_plist(bytes),
        is_binary(bytes) && bytes.len() >= 32 && big_endian(bytes, bytes.len() - 24, 8) > 10000 ==> !plain_plist(bytes),
        is_binary(bytes) && bytes.len() < 32 ==> plain_plist(bytes),
        is_binary(bytes) && bytes.len() >= 32 && big_endian(bytes, bytes.len() - 24, 8) <= 10000 ==> plain_plist(bytes),
{
}

/// What an app says of itself stands two steps below its bundle.
pub proof fn an_app_speaks_two_steps_below(app: Seq<char>)
    ensures
        same_path(info_place(app), joined(joined(app, "Contents"@), "Info.plist"@)),
{
    reveal_strlit("Contents");
    reveal_strlit("Info.plist");
    reveal_strlit("Contents/Info.plist");
    let (c, i) = ("Contents"@, "Info.plist"@);
    assert(c.len() == 8 && i.len() == 10);
    assert(c[0] != '/' && i[0] != '/' && c.last() != '/');
    assert(c.push('/') + i =~= "Contents/Info.plist"@);
    assert(joined(joined(app, c), i) =~= joined(app, "Contents/Info.plist"@));
}

} // verus!
