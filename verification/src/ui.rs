//! How things are shown in a terminal: sizes, colour, columns, and the answer
//! to a question.

use vstd::arithmetic::power2::pow2;
use vstd::prelude::*;

use crate::double::{self, half_even, nearest, one, Double};
use crate::text::{self, digits, lowercase_of, repeated, trimmed};

verus! {

/// Whether output may carry colour: not where a flag or `NO_COLOR` says no,
/// and only on a terminal.
pub fn color_allowed(disabled_by_flag: bool, no_color_is_set: bool, on_terminal: bool) -> (r: bool)
    ensures
        r == (!disabled_by_flag && !no_color_is_set && on_terminal),
{
    !disabled_by_flag && !no_color_is_set && on_terminal
}

/// A text inside an escape sequence, where there is colour.
pub open spec fn painted(color: bool, code: Seq<char>, text: Seq<char>) -> Seq<char> {
    if color {
        "\x1b["@ + code + "m"@ + text + "\x1b[0m"@
    } else {
        text
    }
}

fn sgr(color: bool, code: &str, text: &str) -> (r: String)
    ensures
        r@ == painted(color, code@, text@),
{
    if color {
        let mut r = "\x1b[".to_owned();
        r.append(code);
        r.append("m");
        r.append(text);
        r.append("\x1b[0m");
        r
    } else {
        text.to_owned()
    }
}

/// A text in bold.
pub open spec fn in_bold(color: bool, text: Seq<char>) -> Seq<char> {
    painted(color, "1"@, text)
}

/// A text made dim.
pub open spec fn in_dim(color: bool, text: Seq<char>) -> Seq<char> {
    painted(color, "2"@, text)
}

/// A text in green.
pub open spec fn in_green(color: bool, text: Seq<char>) -> Seq<char> {
    painted(color, "32"@, text)
}

/// A text in yellow.
pub open spec fn in_yellow(color: bool, text: Seq<char>) -> Seq<char> {
    painted(color, "33"@, text)
}

/// A text in red.
pub open spec fn in_red(color: bool, text: Seq<char>) -> Seq<char> {
    painted(color, "31"@, text)
}

/// A text in cyan.
pub open spec fn in_cyan(color: bool, text: Seq<char>) -> Seq<char> {
    painted(color, "36"@, text)
}

pub fn bold(color: bool, text: &str) -> (r: String)
    ensures
        r@ == in_bold(color, text@),
{
    sgr(color, "1", text)
}

pub fn dim(color: bool, text: &str) -> (r: String)
    ensures
        r@ == in_dim(color, text@),
{
    sgr(color, "2", text)
}

pub fn green(color: bool, text: &str) -> (r: String)
    ensures
        r@ == in_green(color, text@),
{
    sgr(color, "32", text)
}

pub fn yellow(color: bool, text: &str) -> (r: String)
    ensures
        r@ == in_yellow(color, text@),
{
    sgr(color, "33", text)
}

pub fn red(color: bool, text: &str) -> (r: String)
    ensures
        r@ == in_red(color, text@),
{
    sgr(color, "31", text)
}

pub fn cyan(color: bool, text: &str) -> (r: String)
    ensures
        r@ == in_cyan(color, text@),
{
    sgr(color, "36", text)
}

/// The units that sizes are shown in, each a thousand times the one before.
pub const UNITS: [&'static str; 6] = ["B", "KB", "MB", "GB", "TB", "PB"];

/// A number of steps divided by a thousand until it is below a thousand, or
/// the units run out; and the unit that was reached.
pub open spec fn scaled(steps: nat, unit: int) -> (nat, int)
    decreases 5 - unit,
{
    if steps >= 1000 * one() && unit < 5 {
        scaled(nearest(steps, 1000), unit + 1)
    } else {
        (steps, unit)
    }
}

/// A number with one decimal where that shows it below ten, and without from
/// there on.
pub open spec fn amount(steps: nat) -> Seq<char> {
    let tenths = half_even(10 * steps, one());
    if tenths < 100 {
        digits(tenths / 10) + "."@ + digits(tenths % 10)
    } else {
        digits(half_even(steps, one()))
    }
}

/// What is shown as ten or more has no decimal, and what is ten or more is
/// shown so.
pub proof fn from_ten_on_there_is_no_decimal(steps: nat)
    ensures
        half_even(10 * steps, one()) >= 100 ==> amount(steps) == digits(half_even(steps, one())) && half_even(
            steps,
            one(),
        ) >= 10,
        steps >= 10 * one() ==> half_even(10 * steps, one()) >= 100,
        half_even(10 * steps, one()) < 100 ==> exists|whole: nat, tenth: nat|
            whole < 10 && tenth < 10 && amount(steps) == #[trigger] digits(whole) + "."@ + #[trigger] digits(tenth),
{
    vstd::arithmetic::power2::lemma_pow2_pos(1074);
    let o = one();
    let n = 10 * steps;
    let (q, r) = (n / o, n % o);
    let (p, s) = (steps / o, steps % o);
    vstd::arithmetic::div_mod::lemma_fundamental_div_mod(n as int, o as int);
    vstd::arithmetic::div_mod::lemma_fundamental_div_mod(steps as int, o as int);
    if steps >= 10 * o && q < 100 {
        assert(o * q <= o * 99) by (nonlinear_arith)
            requires
                q <= 99,
        ;
    }
    let tenths = half_even(n, o);
    if tenths >= 100 {
        assert(o * q >= o * 99) by (nonlinear_arith)
            requires
                q >= 99,
        ;
        if q >= 100 {
            assert(o * q >= o * 100) by (nonlinear_arith)
                requires
                    q >= 100,
            ;
        } else {
            assert(q == 99);
            assert(2 * r >= o);
        }
        assert(20 * steps >= 199 * o);
        if p < 9 {
            assert(o * p <= o * 8) by (nonlinear_arith)
                requires
                    p <= 8,
            ;
        } else if p == 9 {
            assert(o * p == 9 * o) by (nonlinear_arith)
                requires
                    p == 9,
            ;
            assert(2 * s > o);
        }
    } else {
        assert(tenths / 10 < 10 && tenths % 10 < 10);
        assert(amount(steps) == digits(tenths / 10) + "."@ + digits(tenths % 10));
    }
}

/// A byte count as it is shown: in decimal units, with at most one decimal,
/// and none on bytes.
pub open spec fn shown_bytes(n: nat) -> Seq<char> {
    if n < 1000 {
        digits(n) + " B"@
    } else {
        let (steps, unit) = scaled(nearest(n * one(), 1), 0);
        amount(steps) + " "@ + UNITS@[unit]@
    }
}

/// What a number that was divided `unit` times stays below, in ones.
spec fn ceiling(unit: int) -> nat
    decreases unit,
{
    if unit <= 0 {
        36893488147419103232
    } else {
        2 * ceiling(unit - 1) / 1000 + 1
    }
}

proof fn lemma_below(steps: nat, k: nat)
    ensures
        one() > 0,
        steps / one() < k <==> steps < k * one(),
{
    vstd::arithmetic::power2::lemma_pow2_pos(1074);
    let o = one();
    let q = steps / o;
    vstd::arithmetic::div_mod::lemma_fundamental_div_mod(steps as int, o as int);
    assert(o * q == q * o) by (nonlinear_arith);
    assert((q + 1) * o == q * o + o) by (nonlinear_arith);
    if q < k {
        assert((q + 1) * o <= k * o) by (nonlinear_arith)
            requires
                q + 1 <= k,
        ;
    } else {
        assert(k * o <= q * o) by (nonlinear_arith)
            requires
                k <= q,
        ;
    }
}

/// A byte count as it is shown. The units are decimal, as Finder's are.
pub fn bytes(n: u64) -> (r: String)
    ensures
        r@ == shown_bytes(n as nat),
{
    if n < 1000 {
        let mut r = text::decimal(n);
        r.append(" B");
        return r;
    }
    let mut value = Double::from_u64(n);
    let mut unit: usize = 0;
    let ghost o = one();
    let ghost whole = scaled(value.steps(), 0);
    proof {
        lemma_below(0, 1);
        let v = n as nat * o;
        assert(v >= 1000 * o) by (nonlinear_arith)
            requires
                v == n * o,
                n >= 1000,
        ;
        double::lemma_nearest_bound(v, 1);
        double::lemma_nearest_floor(v, 1);
        assert(v <= 18446744073709551616 * o) by (nonlinear_arith)
            requires
                v == n * o,
                n <= 18446744073709551616,
        ;
        assert(ceiling(0) == 36893488147419103232);
        assert(value.steps() <= ceiling(0) * o) by (nonlinear_arith)
            requires
                value.steps() * 1 <= 2 * v,
                v <= 18446744073709551616 * o,
                ceiling(0) == 36893488147419103232,
        ;
    }
    while value.whole() >= 1000 && unit < 5
        invariant
            o == one(),
            o > 0,
            unit <= 5,
            value.well_formed(),
            o <= 4 * value.steps(),
            value.steps() <= ceiling(unit as int) * o,
            1010 - 70 * unit <= value.exponent() <= 1140 + 60 * unit,
            whole == scaled(value.steps(), unit as int),
        decreases 5 - unit,
    {
        let ghost before = value.steps();
        proof {
            lemma_below(before, 1000);
            double::lemma_nearest_bound(before, 1000);
            double::lemma_nearest_floor(before, 1000);
        }
        value = value.thousandth();
        proof {
            let (c, d) = (ceiling(unit as int), ceiling(unit + 1));
            assert(1000 * d >= 2 * c);
            assert(value.steps() <= d * o) by (nonlinear_arith)
                requires
                    value.steps() * 1000 <= 2 * before,
                    before <= c * o,
                    1000 * d >= 2 * c,
            ;
        }
        unit += 1;
    }
    proof {
        lemma_below(value.steps(), 1000);
        reveal_with_fuel(ceiling, 7);
        if unit == 5 {
            assert(ceiling(5) < 1073741824);
            assert(ceiling(5) * o < 1073741824 * o) by (nonlinear_arith)
                requires
                    ceiling(5) < 1073741824,
                    o > 0,
            ;
        }
    }
    let tenths: u64 = value.nearest_whole(10);
    let mut r = if tenths < 100 {
        let mut r = text::decimal(tenths / 10);
        r.append(".");
        let last = text::decimal(tenths % 10);
        r.append(last.as_str());
        r
    } else {
        let ones: u64 = value.nearest_whole(1);
        text::decimal(ones)
    };
    r.append(" ");
    let units = UNITS;
    r.append(units[unit]);
    r
}

/// A number with its unit.
pub open spec fn counted(n: nat, singular: Seq<char>, plural: Seq<char>) -> Seq<char> {
    digits(n) + " "@ + if n == 1 {
        singular
    } else {
        plural
    }
}

/// A number with its unit, both of whose forms are spelled out.
pub fn count(n: usize, singular: &str, plural: &str) -> (r: String)
    ensures
        r@ == counted(n as nat, singular@, plural@),
{
    let mut r = text::decimal(n as u64);
    r.append(" ");
    if n == 1 {
        r.append(singular);
    } else {
        r.append(plural);
    }
    r
}

/// How many columns a text takes, and whether it ends inside an escape
/// sequence. A sequence runs from the escape to the next `m` and takes none.
pub open spec fn columns(text: Seq<char>) -> (nat, bool)
    decreases text.len(),
{
    if text.len() == 0 {
        (0, false)
    } else {
        let (width, in_escape) = columns(text.drop_last());
        let c = text.last();
        if in_escape {
            (width, c != 'm')
        } else if c == '\x1b' {
            (width, true)
        } else {
            (width + 1, false)
        }
    }
}

/// How many columns a text takes.
pub fn display_width(text: &str) -> (r: usize)
    ensures
        r == columns(text@).0,
{
    let chars = text::chars_of(text);
    let mut width: usize = 0;
    let mut in_escape = false;
    let mut i: usize = 0;
    assert(chars@.take(0) =~= Seq::<char>::empty());
    while i < chars.len()
        invariant
            i <= chars@.len(),
            width <= i,
            columns(chars@.take(i as int)) == (width as nat, in_escape),
        decreases chars@.len() - i,
    {
        let c: char = chars[i];
        assert(chars@.take(i + 1).drop_last() =~= chars@.take(i as int));
        if in_escape {
            in_escape = c != 'm';
        } else if c == '\x1b' {
            in_escape = true;
        } else {
            width += 1;
        }
        i += 1;
    }
    assert(chars@.take(i as int) =~= chars@);
    width
}

/// A text with blanks before it, up to `width` columns.
pub open spec fn right_aligned(text: Seq<char>, width: nat) -> Seq<char> {
    if columns(text).0 >= width {
        text
    } else {
        repeated(' ', (width - columns(text).0) as nat) + text
    }
}

/// A text with blanks after it, up to `width` columns.
pub open spec fn left_aligned(text: Seq<char>, width: nat) -> Seq<char> {
    if columns(text).0 >= width {
        text
    } else {
        text + repeated(' ', (width - columns(text).0) as nat)
    }
}

/// Aligns a text to the right in a field of `width` columns.
pub fn rpad(text: &str, width: usize) -> (r: String)
    ensures
        r@ == right_aligned(text@, width as nat),
{
    let len = display_width(text);
    if len >= width {
        text.to_owned()
    } else {
        let mut r = text::repeat(' ', width - len);
        r.append(text);
        r
    }
}

/// Aligns a text to the left in a field of `width` columns.
pub fn lpad(text: &str, width: usize) -> (r: String)
    ensures
        r@ == left_aligned(text@, width as nat),
{
    let len = display_width(text);
    if len >= width {
        text.to_owned()
    } else {
        let blanks = text::repeat(' ', width - len);
        let mut r = text.to_owned();
        r.append(blanks.as_str());
        r
    }
}

/// Where a text is cut so that `n` columns are in front: right behind the
/// character that is the last of them, and so never inside an escape
/// sequence.
pub open spec fn cut_at(text: Seq<char>, n: nat) -> nat
    decreases text.len(),
{
    if text.len() > 0 && columns(text.drop_last()).0 >= n {
        cut_at(text.drop_last(), n)
    } else {
        text.len()
    }
}

/// A text shortened to `width` columns: its tail, with the cut marked. In no
/// columns there is no room for the mark.
pub open spec fn truncated(text: Seq<char>, width: nat) -> Seq<char> {
    if columns(text).0 <= width {
        text
    } else if width == 0 {
        Seq::empty()
    } else {
        "…"@ + text.skip(cut_at(text, (columns(text).0 - (width - 1)) as nat) as int)
    }
}

proof fn lemma_cut(text: Seq<char>, n: nat)
    requires
        1 <= n <= columns(text).0,
    ensures
        0 < cut_at(text, n) <= text.len(),
        columns(text.take(cut_at(text, n) as int)) == (n, false),
    decreases text.len(),
{
    let front = text.drop_last();
    if columns(front).0 >= n {
        lemma_cut(front, n);
        assert(front.take(cut_at(front, n) as int) =~= text.take(cut_at(front, n) as int));
    } else {
        assert(text.take(text.len() as int) =~= text);
    }
}

/// Shortens a text to `width` columns. It is cut from the left: of a path, the
/// tail is what identifies it.
pub fn truncate_path(text: &str, width: usize) -> (r: String)
    ensures
        r@ == truncated(text@, width as nat),
        columns(r@).0 <= width,
{
    proof {
        shortening_fills_the_field(text@, width as nat);
    }
    let all = display_width(text);
    if all <= width {
        return text.to_owned();
    }
    if width == 0 {
        let r = String::new();
        assert(r@ =~= Seq::<char>::empty());
        return r;
    }
    let n: usize = all - (width - 1);
    let chars = text::chars_of(text);
    let mut seen: usize = 0;
    let mut in_escape = false;
    let mut i: usize = 0;
    proof {
        lemma_cut(text@, n as nat);
        assert(chars@.take(0) =~= Seq::<char>::empty());
    }
    while i < chars.len() && seen < n
        invariant
            chars@ == text@,
            1 <= n <= columns(text@).0,
            i <= chars@.len(),
            seen <= i,
            columns(chars@.take(i as int)) == (seen as nat, in_escape),
            i <= cut_at(text@, n as nat),
            seen >= n ==> i == cut_at(text@, n as nat),
        decreases chars@.len() - i,
    {
        let c: char = chars[i];
        proof {
            assert(chars@.take(i + 1).drop_last() =~= chars@.take(i as int));
            lemma_cut_bounds(text@, n as nat, i + 1);
        }
        if in_escape {
            in_escape = c != 'm';
        } else if c == '\x1b' {
            in_escape = true;
        } else {
            seen += 1;
        }
        i += 1;
    }
    assert(chars@.take(chars@.len() as int) =~= chars@);
    let end: usize = chars.len();
    let tail = text::text_of(chars.as_slice(), i, end);
    assert(tail@ =~= text@.skip(i as int));
    let mut r = "…".to_owned();
    r.append(tail.as_str());
    r
}

proof fn lemma_cut_bounds(text: Seq<char>, n: nat, k: int)
    requires
        1 <= k <= text.len(),
        columns(text.take(k - 1)).0 < n,
        n <= columns(text).0,
    ensures
        k <= cut_at(text, n),
        columns(text.take(k)).0 >= n ==> k == cut_at(text, n),
    decreases text.len(),
{
    let front = text.drop_last();
    if k == text.len() {
        assert(text.take(k) =~= text);
        assert(text.take(k - 1) =~= front);
    } else {
        assert(front.take(k - 1) =~= text.take(k - 1));
        assert(front.take(k) =~= text.take(k));
        if columns(front).0 >= n {
            lemma_cut_bounds(front, n, k);
        } else {
            lemma_columns_grow(front, k);
        }
    }
}

proof fn lemma_columns_grow(text: Seq<char>, k: int)
    requires
        0 <= k <= text.len(),
    ensures
        columns(text.take(k)).0 <= columns(text).0,
    decreases text.len(),
{
    if k == text.len() {
        assert(text.take(k) =~= text);
    } else {
        assert(text.drop_last().take(k) =~= text.take(k));
        lemma_columns_grow(text.drop_last(), k);
    }
}

/// How many of `width` columns stand for `value` out of `total`.
pub open spec fn filled(value: nat, total: nat, width: nat) -> nat {
    let share = nearest(nearest(value * one(), 1) * one(), nearest(total * one(), 1));
    let steps = nearest(share * nearest(width * one(), 1), one());
    let columns = (2 * steps + one()) / (2 * one());
    if columns < width {
        columns
    } else {
        width
    }
}

/// A bar of `width` columns that shows `value` out of `total`.
pub open spec fn shown_bar(value: nat, total: nat, width: nat) -> Seq<char> {
    if total == 0 || width == 0 {
        repeated(' ', width)
    } else {
        let n = filled(value, total, width);
        repeated('█', n) + repeated('·', (width - n) as nat)
    }
}

/// A bar of `width` columns that shows `value` out of `total`.
pub fn bar(value: u64, total: u64, width: usize) -> (r: String)
    ensures
        r@ == shown_bar(value as nat, total as nat, width as nat),
{
    if total == 0 || width == 0 {
        return text::repeat(' ', width);
    }
    let share = Double::from_u64(value).over(Double::from_u64(total));
    let columns = share.times(Double::from_u64(width as u64)).round();
    let n: usize = if columns < width as u64 {
        columns as usize
    } else {
        width
    };
    let mut r = text::repeat('█', n);
    let rest = text::repeat('·', width - n);
    r.append(rest.as_str());
    r
}

/// An answer is a yes.
pub open spec fn says_yes(answer: Seq<char>) -> bool {
    lowercase_of(trimmed(answer)) == "y"@ || lowercase_of(trimmed(answer)) == "yes"@
}

/// Whether a question was answered by an explicit yes. Where there is nobody
/// to ask, or no answer could be read, it was not.
pub fn confirmed(interactive: bool, answer: Option<&str>) -> (r: bool)
    ensures
        r == (interactive && answer is Some && says_yes(answer->0@)),
{
    match answer {
        None => false,
        Some(answer) => {
            let lower = text::to_lowercase(text::trim(answer).as_str());
            interactive && is_yes(lower.as_str())
        },
    }
}

/// Whether a lowercase word means yes.
pub fn is_yes(word: &str) -> (r: bool)
    ensures
        r == (word@ == "y"@ || word@ == "yes"@),
{
    text::same_text(word, "y") || text::same_text(word, "yes")
}

/// A bar is exactly as wide as was asked for.
pub proof fn a_bar_has_its_width(value: nat, total: nat, width: nat)
    ensures
        shown_bar(value, total, width).len() == width,
{
}

proof fn lemma_columns_concat(a: Seq<char>, b: Seq<char>)
    requires
        !columns(a).1,
    ensures
        columns(a + b) == (columns(a).0 + columns(b).0, columns(b).1),
    decreases b.len(),
{
    if b.len() == 0 {
        assert(a + b =~= a);
    } else {
        assert((a + b).drop_last() =~= a + b.drop_last());
        lemma_columns_concat(a, b.drop_last());
    }
}

proof fn lemma_columns_plain(text: Seq<char>)
    requires
        forall|i: int| 0 <= i < text.len() ==> #[trigger] text[i] != '\x1b',
    ensures
        columns(text) == (text.len(), false),
    decreases text.len(),
{
    if text.len() > 0 {
        lemma_columns_plain(text.drop_last());
    }
}

/// A padded text takes as many columns as it was padded to, whatever escape
/// sequences it holds, as long as they are closed.
pub proof fn padding_fills_the_field(text: Seq<char>, width: nat)
    requires
        !columns(text).1,
        columns(text).0 <= width,
    ensures
        columns(right_aligned(text, width)).0 == width,
        columns(left_aligned(text, width)).0 == width,
{
    let blanks = repeated(' ', (width - columns(text).0) as nat);
    lemma_columns_plain(blanks);
    if columns(text).0 < width {
        lemma_columns_concat(blanks, text);
        lemma_columns_concat(text, blanks);
    }
}

/// Colour takes no columns: a text that holds no escape sequence takes as many
/// with it as without.
pub proof fn colour_takes_no_columns(color: bool, code: Seq<char>, text: Seq<char>)
    requires
        forall|i: int| 0 <= i < text.len() ==> #[trigger] text[i] != '\x1b',
        forall|i: int| 0 <= i < code.len() ==> #[trigger] code[i] != 'm',
    ensures
        columns(painted(color, code, text)) == (text.len(), false),
{
    lemma_columns_plain(text);
    if color {
        reveal_strlit("\x1b[");
        reveal_strlit("m");
        reveal_strlit("\x1b[0m");
        let start = "\x1b["@;
        reveal_with_fuel(columns, 5);
        assert(start.drop_last().drop_last() =~= Seq::<char>::empty());
        assert(columns(start) == (0nat, true));
        lemma_columns_in_escape(start, code);
        let open = start + code + "m"@;
        assert(open.drop_last() =~= start + code);
        assert(columns(open) == (0nat, false));
        lemma_columns_concat(open, text);
        let end = "\x1b[0m"@;
        assert(end.drop_last().drop_last().drop_last().drop_last() =~= Seq::<char>::empty());
        assert(columns(end) == (0nat, false));
        lemma_columns_concat(open + text, end);
    }
}

proof fn lemma_columns_in_escape(start: Seq<char>, code: Seq<char>)
    requires
        columns(start) == (0nat, true),
        forall|i: int| 0 <= i < code.len() ==> #[trigger] code[i] != 'm',
    ensures
        columns(start + code) == (0nat, true),
    decreases code.len(),
{
    if code.len() == 0 {
        assert(start + code =~= start);
    } else {
        assert((start + code).drop_last() =~= start + code.drop_last());
        lemma_columns_in_escape(start, code.drop_last());
    }
}

/// A text is never wider than it was shortened to, and one that is shortened
/// takes exactly the columns it was given.
pub proof fn shortening_fills_the_field(text: Seq<char>, width: nat)
    ensures
        columns(truncated(text, width)).0 <= width,
        columns(text).0 > width ==> columns(truncated(text, width)).0 == width,
{
    if columns(text).0 > width && width > 0 {
        let n = (columns(text).0 - (width - 1)) as nat;
        lemma_cut(text, n);
        let p = cut_at(text, n) as int;
        let tail = text.skip(p);
        assert(text.take(p) + tail =~= text);
        lemma_columns_concat(text.take(p), tail);
        reveal_strlit("…");
        lemma_columns_plain("…"@);
        lemma_columns_concat("…"@, tail);
    }
}

/// Of a text without escape sequences, what is left when it is shortened is
/// the mark and its last characters.
pub proof fn shortening_keeps_the_tail(text: Seq<char>, width: nat)
    requires
        forall|i: int| 0 <= i < text.len() ==> #[trigger] text[i] != '\x1b',
        1 <= width < text.len(),
    ensures
        truncated(text, width) == "…"@ + text.skip(text.len() - (width - 1)),
{
    lemma_columns_plain(text);
    let n = (text.len() - (width - 1)) as nat;
    lemma_cut(text, n);
    let p = cut_at(text, n) as int;
    lemma_columns_plain(text.take(p));
}

/// Only `y` and `yes` are a yes, in any case and with any space around them.
pub proof fn what_a_yes_is(answer: Seq<char>)
    ensures
        lowercase_of(trimmed(answer)) == "y"@ ==> says_yes(answer),
        lowercase_of(trimmed(answer)) == "yes"@ ==> says_yes(answer),
        says_yes(answer) ==> lowercase_of(trimmed(answer)) == "y"@ || lowercase_of(trimmed(answer)) == "yes"@,
        trimmed(answer).len() == 0 ==> !says_yes(answer),
{
    reveal_strlit("y");
    reveal_strlit("yes");
    let t = trimmed(answer);
    if t.len() == 0 {
        assert(text::is_ascii(t));
        text::lower_case_of_ascii(t);
    }
}

/// A bar is empty where there is nothing, and full where it is all.
pub proof fn a_bar_goes_from_nothing_to_all(total: nat, width: nat)
    requires
        0 < total < 9007199254740992,
        width < 9007199254740992,
    ensures
        filled(0, total, width) == 0,
        filled(total, total, width) == width,
{
    let o = one();
    vstd::arithmetic::power2::lemma_pow2_pos(1074);
    double::whole_numbers_are_exact(0, 1);
    double::whole_numbers_are_exact(total, 1);
    double::whole_numbers_are_exact(width, 1);
    assert(0 * o * 1 == 0 && 0 * o == 0);
    assert(total * o * 1 == total * o && width * o * 1 == width * o);
    let d = total * o;
    assert(d > 0) by (nonlinear_arith)
        requires
            d == total * o,
            total > 0,
            o > 0,
    ;
    double::whole_numbers_are_exact(0, d);
    double::whole_numbers_are_exact(0, o);
    double::whole_numbers_are_exact(1, d);
    assert(0 * o * d == 0) by (nonlinear_arith);
    assert(0 * o * o == 0) by (nonlinear_arith);
    assert(1 * o == o);
    assert(d * o == 1 * o * d) by (nonlinear_arith);
    assert(nearest(d * o, d) == o);
    double::whole_numbers_are_exact(width, o);
    assert(o * (width * o) == width * o * o) by (nonlinear_arith);
    let steps = width * o;
    assert((2 * steps + o) / (2 * o) == width) by {
        assert(2 * steps + o == width * (2 * o) + o) by (nonlinear_arith)
            requires
                steps == width * o,
        ;
        vstd::arithmetic::div_mod::lemma_fundamental_div_mod_converse(
            (2 * steps + o) as int,
            (2 * o) as int,
            width as int,
            o as int,
        );
    }
    assert((0 + o) / (2 * o) == 0) by {
        vstd::arithmetic::div_mod::lemma_fundamental_div_mod_converse(o as int, (2 * o) as int, 0, o as int);
    }
    assert(0 * (width * o) == 0) by (nonlinear_arith);
}

/// One thing is one, and any other number of things is many.
pub proof fn one_is_one(n: nat, singular: Seq<char>, plural: Seq<char>)
    ensures
        counted(1, singular, plural) == "1 "@ + singular,
        n != 1 ==> counted(n, singular, plural) == digits(n) + " "@ + plural,
{
    reveal_strlit("1 ");
    reveal_strlit(" ");
    reveal_with_fuel(digits, 2);
    assert(digits(1) + " "@ + singular =~= "1 "@ + singular);
}

/// Round numbers are shown as they are: so many thousands, millions,
/// thousand millions, with their units.
pub proof fn round_sizes_are_shown_as_they_are(k: nat)
    requires
        10 <= k < 1000,
    ensures
        shown_bytes(k) == digits(k) + " B"@,
        shown_bytes(k * 1000) == digits(k) + " "@ + "KB"@,
        shown_bytes(k * 1000000) == digits(k) + " "@ + "MB"@,
        shown_bytes(k * 1000000000) == digits(k) + " "@ + "GB"@,
        shown_bytes(k * 1000000000000) == digits(k) + " "@ + "TB"@,
{
    let o = one();
    vstd::arithmetic::power2::lemma_pow2_pos(1074);
    lemma_round(k, 1);
    lemma_round(k * 1000, 2);
    lemma_round(k * 1000000, 3);
    lemma_round(k * 1000000000, 4);
    assert(k * 1000 * 1000 == k * 1000000 && k * 1000000 * 1000 == k * 1000000000 && k * 1000000000 * 1000 == k
        * 1000000000000);
    double::whole_numbers_are_exact(k * 1000, 1);
    double::whole_numbers_are_exact(k * 1000000, 1);
    double::whole_numbers_are_exact(k * 1000000000, 1);
    double::whole_numbers_are_exact(k * 1000000000000, 1);
    let last = k * o;
    assert(last < 1000 * o) by (nonlinear_arith)
        requires
            last == k * o,
            k < 1000,
            o > 0,
    ;
    reveal_with_fuel(scaled, 6);
    assert(scaled(last, 1) == (last, 1int));
    assert(scaled(last, 2) == (last, 2int));
    assert(scaled(last, 3) == (last, 3int));
    assert(scaled(last, 4) == (last, 4int));
    assert(scaled(k * 1000 * o, 0) == (last, 1int));
    assert(scaled(k * 1000000 * o, 0) == (last, 2int));
    assert(scaled(k * 1000000000 * o, 0) == (last, 3int));
    assert(scaled(k * 1000000000000 * o, 0) == (last, 4int));
    assert(k * 1000 * o * 1 == k * 1000 * o && k * 1000000 * o * 1 == k * 1000000 * o && k * 1000000000 * o * 1 == k
        * 1000000000 * o && k * 1000000000000 * o * 1 == k * 1000000000000 * o);
    double::rounding_goes_no_further_than_a_half(0, o, k);
    double::rounding_goes_no_further_than_a_half(0, o, 10 * k);
    assert(10 * last == (10 * k) * o) by (nonlinear_arith)
        requires
            last == k * o,
    ;
    assert(amount(last) == digits(k));
    assert(UNITS@[1]@ == "KB"@ && UNITS@[2]@ == "MB"@ && UNITS@[3]@ == "GB"@ && UNITS@[4]@ == "TB"@);
}

proof fn lemma_round(m: nat, u: int)
    requires
        10 <= m < 9007199254740992,
        1 <= u <= 5,
    ensures
        forall|unit: int| 0 <= unit < 5 ==> #[trigger] scaled(m * 1000 * one(), unit) == scaled(m * one(), unit + 1),
{
    let o = one();
    vstd::arithmetic::power2::lemma_pow2_pos(1074);
    double::whole_numbers_are_exact(m, 1000);
    let n = m * 1000 * o;
    assert(n == m * o * 1000) by (nonlinear_arith)
        requires
            n == m * 1000 * o,
    ;
    assert(n >= 1000 * o) by (nonlinear_arith)
        requires
            n == m * 1000 * o,
            m >= 1,
            o > 0,
    ;
}

/// A bar is filled by the share, to the nearest column: where so many parts of
/// two, four, eight and so on are shown, it is filled by as many parts of its
/// width.
pub proof fn a_bar_is_filled_by_the_share(k: nat, j: nat, u: nat, width: nat)
    requires
        u > 0,
        j <= 1074,
        k <= pow2(j),
        pow2(j) * u < 9007199254740992,
        width < 9007199254740992,
        k * width < 9007199254740992,
    ensures
        filled(k * u, pow2(j) * u, width) == (2 * (k * width) + pow2(j)) / (2 * pow2(j)),
{
    let o = one();
    let p = pow2(j);
    let q = pow2((1074 - j) as nat);
    vstd::arithmetic::power2::lemma_pow2_pos(1074);
    vstd::arithmetic::power2::lemma_pow2_pos(j);
    vstd::arithmetic::power2::lemma_pow2_pos((1074 - j) as nat);
    vstd::arithmetic::power2::lemma_pow2_adds(j, (1074 - j) as nat);
    assert(o == p * q);
    let value = k * u;
    let total = p * u;
    assert(value <= total) by (nonlinear_arith)
        requires
            value == k * u,
            total == p * u,
            k <= p,
    ;
    assert(total > 0) by (nonlinear_arith)
        requires
            total == p * u,
            p > 0,
            u > 0,
    ;
    double::whole_numbers_are_exact(value, 1);
    double::whole_numbers_are_exact(total, 1);
    double::whole_numbers_are_exact(width, 1);
    assert(value * o * 1 == value * o && total * o * 1 == total * o && width * o * 1 == width * o);
    let d = total * o;
    assert(d > 0) by (nonlinear_arith)
        requires
            d == total * o,
            total > 0,
            o > 0,
    ;
    assert(k < 9007199254740992) by (nonlinear_arith)
        requires
            k <= p,
            p * u < 9007199254740992,
            u >= 1,
    ;
    double::scaled_numbers_are_exact(k, (1074 - j) as nat, d);
    assert(value * o * o == k * q * d) by (nonlinear_arith)
        requires
            value == k * u,
            d == total * o,
            total == p * u,
            o == p * q,
    ;
    let share = k * q;
    double::scaled_numbers_are_exact(k * width, (1074 - j) as nat, o);
    assert(share * (width * o) == k * width * q * o) by (nonlinear_arith)
        requires
            share == k * q,
    ;
    let steps = k * width * q;
    let n = 2 * (k * width) + p;
    assert(2 * steps + o == q * n) by (nonlinear_arith)
        requires
            steps == k * width * q,
            o == p * q,
            n == 2 * (k * width) + p,
    ;
    assert(2 * o == q * (2 * p)) by (nonlinear_arith)
        requires
            o == p * q,
    ;
    vstd::arithmetic::div_mod::lemma_div_multiples_vanish_quotient(q as int, n as int, (2 * p) as int);
    let columns = n / (2 * p);
    assert(k * width <= p * width) by (nonlinear_arith)
        requires
            k <= p,
    ;
    assert(n < (width + 1) * (2 * p)) by (nonlinear_arith)
        requires
            n == 2 * (k * width) + p,
            k * width <= p * width,
            p > 0,
    ;
    assert(columns <= width) by {

        assert(columns < width + 1) by (nonlinear_arith)
            requires
                n < (width + 1) * (2 * p),
                columns == n / (2 * p),
                p > 0,
        ;
    }
}

/// Without colour a text stands as it is; with it, between its code and the
/// end of it.
pub proof fn colour_goes_around_a_text(code: Seq<char>, text: Seq<char>)
    ensures
        painted(false, code, text) == text,
        painted(true, code, text) == "\x1b["@ + code + "m"@ + text + "\x1b[0m"@,
        in_bold(true, text) == "\x1b["@ + "1"@ + "m"@ + text + "\x1b[0m"@,
        in_dim(true, text) == "\x1b["@ + "2"@ + "m"@ + text + "\x1b[0m"@,
        in_red(true, text) == "\x1b["@ + "31"@ + "m"@ + text + "\x1b[0m"@,
        in_green(true, text) == "\x1b["@ + "32"@ + "m"@ + text + "\x1b[0m"@,
        in_yellow(true, text) == "\x1b["@ + "33"@ + "m"@ + text + "\x1b[0m"@,
        in_cyan(true, text) == "\x1b["@ + "36"@ + "m"@ + text + "\x1b[0m"@,
{
}

} // verus!
