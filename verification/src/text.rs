//! Text as sequences of characters: splitting, searching, ordering and
//! building strings.

use vstd::prelude::*;

verus! {

/// Appends one character, as `String::push` documents.
pub assume_specification[ String::push ](s: &mut String, c: char)
    ensures
        final(s)@ == old(s)@.push(c),
;

/// What `str::to_lowercase` makes of a text that is not all ASCII.
pub uninterp spec fn unicode_lowercase(s: Seq<char>) -> Seq<char>;

/// All of the characters are ASCII.
pub open spec fn is_ascii(s: Seq<char>) -> bool {
    forall|i: int| 0 <= i < s.len() ==> (#[trigger] s[i]) as u32 <= 127
}

/// A text in lower case.
pub open spec fn lowercase_of(s: Seq<char>) -> Seq<char> {
    if is_ascii(s) {
        ascii_lowercase_of(s)
    } else {
        unicode_lowercase(s)
    }
}

/// Calls `str::to_lowercase`: of an ASCII text it changes the letters `A` to
/// `Z` alone, and of any other the result is a function of the text.
#[verifier::external_body]
pub(crate) fn to_lowercase(s: &str) -> (r: String)
    ensures
        is_ascii(s@) ==> r@ == ascii_lowercase_of(s@),
        !is_ascii(s@) ==> r@ == unicode_lowercase(s@),
{
    s.to_lowercase()
}

/// White space: the characters with the Unicode property of that name.
pub open spec fn is_space(c: char) -> bool {
    let n = c as u32;
    ||| 0x9 <= n <= 0xd
    ||| n == 0x20
    ||| n == 0x85
    ||| n == 0xa0
    ||| n == 0x1680
    ||| 0x2000 <= n <= 0x200a
    ||| n == 0x2028
    ||| n == 0x2029
    ||| n == 0x202f
    ||| n == 0x205f
    ||| n == 0x3000
}

/// Whether a character is white space.
pub fn is_whitespace(c: char) -> (r: bool)
    ensures
        r == is_space(c),
{
    let n: u32 = c as u32;
    (0x9 <= n && n <= 0xd) || n == 0x20 || n == 0x85 || n == 0xa0 || n == 0x1680 || (0x2000 <= n && n <= 0x200a) || n
        == 0x2028 || n == 0x2029 || n == 0x202f || n == 0x205f || n == 0x3000
}

/// What a list of strings holds.
pub open spec fn strings(v: Seq<String>) -> Seq<Seq<char>> {
    v.map_values(|s: String| s@)
}

/// `s` begins with `p`.
pub open spec fn begins_with(s: Seq<char>, p: Seq<char>) -> bool {
    p.len() <= s.len() && s.take(p.len() as int) == p
}

/// `s` ends with `p`.
pub open spec fn finishes_with(s: Seq<char>, p: Seq<char>) -> bool {
    p.len() <= s.len() && s.skip(s.len() - p.len()) == p
}

/// `needle` stands in `hay` at position `i`.
pub open spec fn stands_at(hay: Seq<char>, needle: Seq<char>, i: int) -> bool {
    0 <= i && i + needle.len() <= hay.len() && hay.subrange(i, i + needle.len()) == needle
}

/// `needle` stands somewhere in `hay`.
pub open spec fn occurs(hay: Seq<char>, needle: Seq<char>) -> bool {
    exists|i: int| #[trigger] stands_at(hay, needle, i)
}

/// The pieces of `s` between the occurrences of `sep`: always at least one.
pub open spec fn pieces(s: Seq<char>, sep: char) -> Seq<Seq<char>>
    decreases s.len(),
{
    if s.len() == 0 {
        seq![Seq::empty()]
    } else {
        let before = pieces(s.drop_last(), sep);
        if s.last() == sep {
            before.push(Seq::empty())
        } else {
            before.update(before.len() - 1, before.last().push(s.last()))
        }
    }
}

/// Lexicographic order by code point, which is also the order of the UTF-8
/// bytes.
pub open spec fn lex_less(a: Seq<char>, b: Seq<char>) -> bool
    decreases a.len(),
{
    if b.len() == 0 {
        false
    } else if a.len() == 0 {
        true
    } else if a[0] != b[0] {
        (a[0] as int) < (b[0] as int)
    } else {
        lex_less(a.drop_first(), b.drop_first())
    }
}

/// The character for one decimal digit.
pub open spec fn digit_char(d: int) -> char {
    (48 + d) as char
}

/// The decimal digits of `n`, without leading zeros.
pub open spec fn digits(n: nat) -> Seq<char>
    decreases n,
{
    if n < 10 {
        seq![digit_char(n as int)]
    } else {
        digits(n / 10).push(digit_char((n % 10) as int))
    }
}

/// `c` repeated `n` times.
pub open spec fn repeated(c: char, n: nat) -> Seq<char> {
    Seq::new(n, |i: int| c)
}

/// `c` in lower case if it is an ASCII letter, else `c` itself.
pub open spec fn ascii_lower(c: char) -> char {
    if 'A' <= c && c <= 'Z' {
        (c as int + 32) as char
    } else {
        c
    }
}

/// `s` with its ASCII letters in lower case.
pub open spec fn ascii_lowercase_of(s: Seq<char>) -> Seq<char> {
    s.map_values(|c: char| ascii_lower(c))
}

/// `s` without the white space at its end.
pub open spec fn trimmed_end(s: Seq<char>) -> Seq<char>
    decreases s.len(),
{
    if s.len() > 0 && is_space(s.last()) {
        trimmed_end(s.drop_last())
    } else {
        s
    }
}

/// `s` without the white space at its start.
pub open spec fn trimmed_start(s: Seq<char>) -> Seq<char>
    decreases s.len(),
{
    if s.len() > 0 && is_space(s[0]) {
        trimmed_start(s.drop_first())
    } else {
        s
    }
}

/// `s` without the white space at either end.
pub open spec fn trimmed(s: Seq<char>) -> Seq<char> {
    trimmed_end(trimmed_start(s))
}

/// A text of small ASCII letters is its own lower case.
pub proof fn lemma_lowercase_word(s: Seq<char>)
    ensures
        (forall|i: int| 0 <= i < s.len() ==> 'a' <= #[trigger] s[i] <= 'z') ==> lowercase_of(s) == s,
{
    if forall|i: int| 0 <= i < s.len() ==> 'a' <= #[trigger] s[i] <= 'z' {
        assert forall|i: int| 0 <= i < s.len() implies (#[trigger] s[i]) as u32 <= 127 by {
            assert('a' <= s[i] <= 'z');
        }
        assert(ascii_lowercase_of(s) =~= s) by {
            assert forall|i: int| 0 <= i < s.len() implies #[trigger] ascii_lowercase_of(s)[i] == s[i] by {
                assert('a' <= s[i] <= 'z');
            }
        }
    }
}

/// A text occurs in itself.
pub proof fn lemma_occurs_in_itself(s: Seq<char>)
    ensures
        occurs(s, s),
{
    assert(s.subrange(0, s.len() as int) =~= s);
    assert(stands_at(s, s, 0));
}

/// There is always a piece.
pub proof fn lemma_pieces_nonempty(s: Seq<char>, sep: char)
    ensures
        pieces(s, sep).len() >= 1,
    decreases s.len(),
{
    if s.len() > 0 {
        lemma_pieces_nonempty(s.drop_last(), sep);
    }
}

/// No piece holds the separator.
pub proof fn lemma_pieces_clean(s: Seq<char>, sep: char)
    ensures
        forall|i: int, j: int|
            0 <= i < pieces(s, sep).len() && 0 <= j < pieces(s, sep)[i].len()
                ==> #[trigger] pieces(s, sep)[i][j] != sep,
    decreases s.len(),
{
    lemma_pieces_nonempty(s, sep);
    if s.len() > 0 {
        lemma_pieces_clean(s.drop_last(), sep);
        lemma_pieces_nonempty(s.drop_last(), sep);
    }
}

/// A text without the separator is its own only piece.
pub proof fn lemma_pieces_single(s: Seq<char>, sep: char)
    requires
        forall|i: int| 0 <= i < s.len() ==> s[i] != sep,
    ensures
        pieces(s, sep) == seq![s],
    decreases s.len(),
{
    if s.len() > 0 {
        lemma_pieces_single(s.drop_last(), sep);
        assert(pieces(s, sep) =~= seq![s]) by {
            assert(s.drop_last().push(s.last()) =~= s);
        }
    } else {
        assert(s =~= Seq::empty());
    }
}

/// Splitting at a separator in the middle splits both sides.
pub proof fn lemma_pieces_join(a: Seq<char>, b: Seq<char>, sep: char)
    ensures
        pieces(a.push(sep) + b, sep) == pieces(a, sep) + pieces(b, sep),
    decreases b.len(),
{
    let whole = a.push(sep) + b;
    if b.len() == 0 {
        assert(whole =~= a.push(sep));
        assert(whole.drop_last() =~= a);
        assert(pieces(whole, sep) =~= pieces(a, sep) + pieces(b, sep));
    } else {
        lemma_pieces_join(a, b.drop_last(), sep);
        lemma_pieces_nonempty(b.drop_last(), sep);
        assert(whole.drop_last() =~= a.push(sep) + b.drop_last());
        assert(pieces(whole, sep) =~= pieces(a, sep) + pieces(b, sep));
    }
}

/// The characters of `s`, in order.
pub fn chars_of(s: &str) -> (r: Vec<char>)
    ensures
        r@ == s@,
{
    let mut r: Vec<char> = Vec::new();
    for c in iter: s.chars()
        invariant
            iter.seq() == s@,
            r@ == s@.take(iter.index()),
    {
        r.push(c);
    }
    assert(s@.take(s@.len() as int) =~= s@);
    r
}

/// The text made of `chars[from..to]`.
pub fn text_of(chars: &[char], from: usize, to: usize) -> (r: String)
    requires
        from <= to <= chars@.len(),
    ensures
        r@ == chars@.subrange(from as int, to as int),
{
    let mut r: String = String::new();
    let mut i: usize = from;
    while i < to
        invariant
            from <= i <= to <= chars@.len(),
            r@ == chars@.subrange(from as int, i as int),
        decreases to - i,
    {
        r.push(chars[i]);
        i += 1;
    }
    r
}

/// How many bytes a text takes in UTF-8.
pub open spec fn bytes_in(s: Seq<char>) -> nat {
    vstd::utf8::encode_utf8(s).len()
}

/// How many bytes a text takes in UTF-8.
pub fn byte_len(s: &str) -> (r: usize)
    ensures
        r == bytes_in(s@),
{
    s.as_bytes().len()
}

/// Whether two texts are the same.
pub fn same_text(a: &str, b: &str) -> (r: bool)
    ensures
        r == (a@ == b@),
{
    a.to_owned() == b.to_owned()
}

/// Whether `needle` stands in `hay` at position `i`.
pub fn found_at(hay: &[char], needle: &[char], i: usize) -> (r: bool)
    ensures
        r == stands_at(hay@, needle@, i as int),
{
    if needle.len() > hay.len() || i > hay.len() - needle.len() {
        return false;
    }
    let mut j: usize = 0;
    while j < needle.len()
        invariant
            j <= needle@.len(),
            i + needle@.len() <= hay@.len() <= usize::MAX,
            forall|k: int| 0 <= k < j ==> hay@[i + k] == needle@[k],
        decreases needle@.len() - j,
    {
        if hay[i + j] != needle[j] {
            assert(hay@.subrange(i as int, i + needle@.len())[j as int] != needle@[j as int]);
            return false;
        }
        j += 1;
    }
    assert(hay@.subrange(i as int, i + needle@.len()) =~= needle@);
    true
}

/// Whether `s` begins with `p`.
pub fn starts_with(s: &str, p: &str) -> (r: bool)
    ensures
        r == begins_with(s@, p@),
{
    let hay = chars_of(s);
    let needle = chars_of(p);
    assert(s@.subrange(0, 0 + p@.len() as int) =~= s@.take(p@.len() as int));
    found_at(hay.as_slice(), needle.as_slice(), 0)
}

/// Whether `s` ends with `p`.
pub fn ends_with(s: &str, p: &str) -> (r: bool)
    ensures
        r == finishes_with(s@, p@),
{
    let hay = chars_of(s);
    let needle = chars_of(p);
    if needle.len() > hay.len() {
        return false;
    }
    assert(s@.subrange(s@.len() - p@.len(), s@.len() as int) =~= s@.skip(s@.len() - p@.len()));
    found_at(hay.as_slice(), needle.as_slice(), hay.len() - needle.len())
}

/// What follows `p` in `s`, where `s` begins with `p`.
pub fn after_prefix(s: &str, p: &str) -> (r: Option<String>)
    ensures
        match r {
            Some(rest) => begins_with(s@, p@) && rest@ == s@.skip(p@.len() as int),
            None => !begins_with(s@, p@),
        },
{
    if starts_with(s, p) {
        let hay = chars_of(s);
        let n: usize = chars_of(p).len();
        let rest = text_of(hay.as_slice(), n, hay.len());
        assert(s@.subrange(n as int, s@.len() as int) =~= s@.skip(n as int));
        Some(rest)
    } else {
        None
    }
}

/// What precedes `p` in `s`, where `s` ends with `p`.
pub fn before_suffix(s: &str, p: &str) -> (r: Option<String>)
    ensures
        match r {
            Some(rest) => finishes_with(s@, p@) && rest@ == s@.take(s@.len() - p@.len()),
            None => !finishes_with(s@, p@),
        },
{
    if ends_with(s, p) {
        let hay = chars_of(s);
        let n: usize = chars_of(p).len();
        let rest = text_of(hay.as_slice(), 0, hay.len() - n);
        assert(s@.subrange(0, s@.len() - n) =~= s@.take(s@.len() - n));
        Some(rest)
    } else {
        None
    }
}

/// Whether `needle` stands somewhere in `hay`.
pub fn contains(hay: &str, needle: &str) -> (r: bool)
    ensures
        r == occurs(hay@, needle@),
{
    let h = chars_of(hay);
    let n = chars_of(needle);
    if n.len() > h.len() {
        return false;
    }
    let last: usize = h.len() - n.len();
    let mut i: usize = 0;
    while i < last
        invariant
            h@ == hay@,
            n@ == needle@,
            n@.len() <= h@.len(),
            i <= last == h@.len() - n@.len(),
            forall|j: int| 0 <= j < i ==> !#[trigger] stands_at(h@, n@, j),
        decreases last - i,
    {
        if found_at(h.as_slice(), n.as_slice(), i) {
            return true;
        }
        i += 1;
    }
    found_at(h.as_slice(), n.as_slice(), last)
}

/// The pieces of `s` between the occurrences of `sep`.
pub fn split(s: &str, sep: char) -> (r: Vec<String>)
    ensures
        r@.map_values(|p: String| p@) == pieces(s@, sep),
{
    let chars = chars_of(s);
    let mut done: Vec<String> = Vec::new();
    let mut current: String = String::new();
    let mut i: usize = 0;
    while i < chars.len()
        invariant
            i <= chars@.len(),
            done@.map_values(|p: String| p@).push(current@) == pieces(chars@.take(i as int), sep),
        decreases chars@.len() - i,
    {
        let ghost before = chars@.take(i as int);
        let ghost after = chars@.take(i + 1);
        let ghost old_done = done@.map_values(|p: String| p@);
        assert(after.drop_last() =~= before);
        if chars[i] == sep {
            done.push(current);
            current = String::new();
            assert(done@.map_values(|p: String| p@) =~= old_done.push(pieces(before, sep).last()));
        } else {
            current.push(chars[i]);
        }
        assert(done@.map_values(|p: String| p@).push(current@) =~= pieces(after, sep));
        i += 1;
    }
    assert(chars@.take(i as int) =~= s@);
    done.push(current);
    assert(done@.map_values(|p: String| p@) =~= pieces(s@, sep));
    done
}

/// Whether `a` comes before `b` in order by code point.
pub fn less(a: &str, b: &str) -> (r: bool)
    ensures
        r == lex_less(a@, b@),
{
    let x = chars_of(a);
    let y = chars_of(b);
    let mut i: usize = 0;
    assert(a@.skip(0) =~= a@);
    assert(b@.skip(0) =~= b@);
    while i < x.len() && i < y.len()
        invariant
            x@ == a@,
            y@ == b@,
            i <= x@.len(),
            i <= y@.len(),
            lex_less(a@, b@) == lex_less(x@.skip(i as int), y@.skip(i as int)),
        decreases x@.len() - i,
    {
        if x[i] != y[i] {
            return x[i] < y[i];
        }
        assert(x@.skip(i as int).drop_first() =~= x@.skip(i + 1));
        assert(y@.skip(i as int).drop_first() =~= y@.skip(i + 1));
        i += 1;
    }
    i < y.len()
}

/// The character for one decimal digit.
pub fn digit(d: u64) -> (r: char)
    requires
        d < 10,
    ensures
        r == digit_char(d as int),
{
    (48u8 + d as u8) as char
}

/// The decimal digits of `n`.
pub fn decimal(n: u64) -> (r: String)
    ensures
        r@ == digits(n as nat),
    decreases n,
{
    if n < 10 {
        let mut r: String = String::new();
        r.push(digit(n));
        assert(r@ =~= digits(n as nat));
        r
    } else {
        let mut r = decimal(n / 10);
        r.push(digit(n % 10));
        r
    }
}

/// `c` repeated `n` times.
pub fn repeat(c: char, n: usize) -> (r: String)
    ensures
        r@ == repeated(c, n as nat),
{
    let mut r: String = String::new();
    let mut i: usize = 0;
    while i < n
        invariant
            i <= n,
            r@ == repeated(c, i as nat),
        decreases n - i,
    {
        r.push(c);
        assert(r@ =~= repeated(c, i as nat + 1));
        i += 1;
    }
    r
}

/// `s` with its ASCII letters in lower case.
pub fn to_ascii_lowercase(s: &str) -> (r: String)
    ensures
        r@ == ascii_lowercase_of(s@),
{
    let chars = chars_of(s);
    let mut r: String = String::new();
    let mut i: usize = 0;
    while i < chars.len()
        invariant
            chars@ == s@,
            i <= chars@.len(),
            r@ == ascii_lowercase_of(s@.take(i as int)),
        decreases chars@.len() - i,
    {
        let c = chars[i];
        if 'A' <= c && c <= 'Z' {
            r.push((c as u8 + 32u8) as char);
        } else {
            r.push(c);
        }
        assert(r@ =~= ascii_lowercase_of(s@.take(i + 1)));
        i += 1;
    }
    assert(s@.take(i as int) =~= s@);
    r
}

/// `s` without the white space at either end.
pub fn trim(s: &str) -> (r: String)
    ensures
        r@ == trimmed(s@),
{
    let chars = chars_of(s);
    let mut from: usize = 0;
    assert(s@.skip(0) =~= s@);
    while from < chars.len() && is_whitespace(chars[from])
        invariant
            chars@ == s@,
            from <= chars@.len(),
            trimmed_start(s@) == trimmed_start(chars@.skip(from as int)),
        decreases chars@.len() - from,
    {
        assert(chars@.skip(from as int).drop_first() =~= chars@.skip(from + 1));
        from += 1;
    }
    let mut to: usize = chars.len();
    assert(chars@.subrange(from as int, to as int) =~= chars@.skip(from as int));
    while from < to && is_whitespace(chars[to - 1])
        invariant
            chars@ == s@,
            from <= to <= chars@.len(),
            trimmed(s@) == trimmed_end(chars@.subrange(from as int, to as int)),
        decreases to,
    {
        assert(chars@.subrange(from as int, to as int).drop_last() =~= chars@.subrange(from as int, to - 1));
        to -= 1;
    }
    text_of(chars.as_slice(), from, to)
}

/// A text that stands between two others occurs in the whole.
pub proof fn what_is_put_in_occurs(a: Seq<char>, needle: Seq<char>, b: Seq<char>)
    ensures
        occurs(a + needle + b, needle),
{
    let n = a.len() as int;
    assert((a + needle + b).subrange(n, n + needle.len()) =~= needle);
    assert(stands_at(a + needle + b, needle, n));
}

/// Where a text occurs, the whole is what is before it, it, and what is
/// behind it.
pub proof fn what_occurs_can_be_taken_out(hay: Seq<char>, needle: Seq<char>) -> (r: (Seq<char>, Seq<char>))
    requires
        occurs(hay, needle),
    ensures
        hay == r.0 + needle + r.1,
{
    let i = choose|i: int| #[trigger] stands_at(hay, needle, i);
    let (a, b) = (hay.take(i), hay.skip(i + needle.len()));
    assert(hay =~= a + needle + b);
    (a, b)
}

/// Putting the pieces together again, with the separator between them, gives
/// the text.
pub open spec fn put_together(pieces: Seq<Seq<char>>, sep: char) -> Seq<char>
    decreases pieces.len(),
{
    if pieces.len() == 0 {
        Seq::empty()
    } else if pieces.len() == 1 {
        pieces[0]
    } else {
        put_together(pieces.drop_last(), sep).push(sep) + pieces.last()
    }
}

/// A text is its pieces with the separator between them.
pub proof fn pieces_make_up_the_text(s: Seq<char>, sep: char)
    ensures
        put_together(pieces(s, sep), sep) == s,
    decreases s.len(),
{
    let all = pieces(s, sep);
    if s.len() == 0 {
        assert(all[0] =~= s);
    } else {
        let front = s.drop_last();
        let before = pieces(front, sep);
        lemma_pieces_nonempty(front, sep);
        pieces_make_up_the_text(front, sep);
        if s.last() == sep {
            assert(all.drop_last() =~= before);
            assert(put_together(all, sep) =~= front.push(sep) + Seq::<char>::empty());
            assert(put_together(all, sep) =~= s);
        } else if before.len() == 1 {
            assert(all.len() == 1);
            assert(put_together(all, sep) =~= s);
        } else {
            assert(all.drop_last() =~= before.drop_last());
            let head = put_together(before.drop_last(), sep).push(sep);
            assert(front == head + before.last());
            assert(head + before.last().push(s.last()) =~= (head + before.last()).push(s.last()));
            assert(s =~= front.push(s.last()));
        }
    }
}

/// A number is the number that its digits write: each stands for itself, and
/// a digit behind others makes them ten times as much.
pub proof fn digits_write_the_number(n: nat)
    ensures
        written(digits(n)) == n,
        forall|i: int| 0 <= i < digits(n).len() ==> '0' <= #[trigger] digits(n)[i] <= '9',
        n > 0 ==> digits(n)[0] != '0',
        digits(n).len() > 0,
    decreases n,
{
    if n >= 10 {
        digits_write_the_number(n / 10);
        assert(digits(n).drop_last() =~= digits(n / 10));
        assert forall|i: int| 0 <= i < digits(n).len() implies '0' <= #[trigger] digits(n)[i] <= '9' by {
            if i < digits(n).len() - 1 {
                assert(digits(n)[i] == digits(n / 10)[i]);
            }
        }
        assert(digits(n)[0] == digits(n / 10)[0]);
    } else {
        assert(digits(n).drop_last() =~= Seq::<char>::empty());
        reveal_with_fuel(written, 2);
    }
}

/// The number that a row of decimal digits writes.
pub open spec fn written(s: Seq<char>) -> nat
    decreases s.len(),
{
    if s.len() == 0 {
        0
    } else {
        (written(s.drop_last()) * 10 + (s.last() as int - '0' as int)) as nat
    }
}

/// What is left of a trimmed text has no white space at its ends, and what
/// was taken off is white space alone.
pub proof fn trimming_takes_white_space_off(s: Seq<char>) -> (r: (Seq<char>, Seq<char>))
    ensures
        s == r.0 + trimmed(s) + r.1,
        forall|i: int| 0 <= i < r.0.len() ==> is_space(#[trigger] r.0[i]),
        forall|i: int| 0 <= i < r.1.len() ==> is_space(#[trigger] r.1[i]),
        trimmed(s).len() > 0 ==> !is_space(trimmed(s)[0]) && !is_space(trimmed(s).last()),
{
    let a = lemma_start_off(s);
    let m = trimmed_start(s);
    let b = lemma_end_off(m);
    assert(s =~= a + trimmed(s) + b);
    if trimmed(s).len() > 0 {
        assert(m[0] == trimmed(s)[0]);
    }
    (a, b)
}

proof fn lemma_start_off(s: Seq<char>) -> (a: Seq<char>)
    ensures
        s == a + trimmed_start(s),
        forall|i: int| 0 <= i < a.len() ==> is_space(#[trigger] a[i]),
        trimmed_start(s).len() > 0 ==> !is_space(trimmed_start(s)[0]),
    decreases s.len(),
{
    if s.len() > 0 && is_space(s[0]) {
        let a = lemma_start_off(s.drop_first());
        let r = seq![s[0]] + a;
        let t = trimmed_start(s.drop_first());
        assert(s =~= seq![s[0]] + s.drop_first());
        assert(seq![s[0]] + (a + t) =~= r + t);
        r
    } else {
        assert(s =~= Seq::<char>::empty() + s);
        Seq::empty()
    }
}

proof fn lemma_end_off(s: Seq<char>) -> (b: Seq<char>)
    ensures
        s == trimmed_end(s) + b,
        forall|i: int| 0 <= i < b.len() ==> is_space(#[trigger] b[i]),
        trimmed_end(s).len() > 0 ==> !is_space(trimmed_end(s).last()),
    decreases s.len(),
{
    if s.len() > 0 && is_space(s.last()) {
        let b = lemma_end_off(s.drop_last());
        let r = b.push(s.last());
        let t = trimmed_end(s.drop_last());
        assert(s =~= s.drop_last().push(s.last()));
        assert((t + b).push(s.last()) =~= t + r);
        r
    } else {
        assert(s =~= s + Seq::<char>::empty());
        Seq::empty()
    }
}

/// Lower case changes the capitals of ASCII and nothing else of an ASCII text,
/// keeps its length, and changes nothing the second time.
pub proof fn lower_case_of_ascii(s: Seq<char>)
    requires
        is_ascii(s),
    ensures
        lowercase_of(s).len() == s.len(),
        forall|i: int|
            0 <= i < s.len() ==> {
                &&& ('A' <= #[trigger] s[i] <= 'Z' ==> lowercase_of(s)[i] as int == s[i] as int + 32)
                &&& (!('A' <= s[i] <= 'Z') ==> lowercase_of(s)[i] == s[i])
            },
        lowercase_of(lowercase_of(s)) == lowercase_of(s),
{
    let low = lowercase_of(s);
    assert(is_ascii(low)) by {
        assert forall|i: int| 0 <= i < low.len() implies (#[trigger] low[i]) as u32 <= 127 by {
            assert(s[i] as u32 <= 127);
        }
    }
    assert(lowercase_of(low) =~= low);
}

/// Texts are ordered by the first place where they differ; a text comes
/// before all that it begins.
pub proof fn texts_differ_first_where_they_differ(same: Seq<char>, a: Seq<char>, b: Seq<char>)
    ensures
        a.len() > 0 && b.len() > 0 && (a[0] as int) < (b[0] as int) ==> lex_less(same + a, same + b) && !lex_less(
            same + b,
            same + a,
        ),
        a.len() > 0 ==> lex_less(same, same + a) && !lex_less(same + a, same),
        !lex_less(same, same),
    decreases same.len(),
{
    if same.len() > 0 {
        texts_differ_first_where_they_differ(same.drop_first(), a, b);
        assert((same + a).drop_first() =~= same.drop_first() + a);
        assert((same + b).drop_first() =~= same.drop_first() + b);
    } else {
        assert(same + a =~= a);
        assert(same + b =~= b);
    }
}

} // verus!
