//! What can be asked for on the command line, as far as it takes working out.

use vstd::arithmetic::power2::{lemma2_to64, lemma2_to64_rest, lemma_pow2_adds, lemma_pow2_pos, pow2};
use vstd::prelude::*;

use crate::double::{
    self, are_digits, nearest, number_of, numerator, one, ten_to, Double,
};
use crate::model::capped;
use crate::paths::FsPath;
use crate::text::{self, ascii_lowercase_of, pieces, trimmed};

verus! {

/// Which of the targets a scan or a clean applies to.
pub struct Selection {
    /// Only these targets; all of them where there are none.
    pub targets: Vec<String>,
    /// Only targets marked safe.
    pub safe_only: bool,
    /// Skip targets smaller than this.
    pub min_size: Option<u64>,
}

impl Default for Selection {
    fn default() -> (r: Self)
        ensures
            r.targets@.len() == 0,
            !r.safe_only,
            r.min_size is None,
    {
        Selection { targets: Vec::new(), safe_only: false, min_size: None }
    }
}

/// What was asked for.
pub struct Cli {
    pub command: Option<Command>,
    /// Emit machine-readable JSON on stdout.
    pub json: bool,
    /// Never emit colour.
    pub no_color: bool,
}

/// The commands.
pub enum Command {
    /// Measure what could be reclaimed, without changing anything.
    Scan(ScanArgs),
    /// Remove scanned junk.
    Clean(CleanArgs),
    /// Find developer build artifacts.
    Dev(DevArgs),
    /// Find byte-identical duplicate files.
    Dupes(DupesArgs),
    /// Show where the disk went, as a tree.
    Du(DuArgs),
    /// List installed applications with their sizes.
    Apps(AppsArgs),
    /// Remove an application and the support files it leaves behind.
    Uninstall(UninstallArgs),
    /// Find support files belonging to apps that are no longer installed.
    Orphans(OrphansArgs),
    /// Show what is in the Trash, or empty it.
    Trash(TrashArgs),
    /// Print the built-in cleaning rules.
    Rules(RulesArgs),
    /// Interactive terminal UI, the default with no command.
    Tui,
}

pub struct ScanArgs {
    pub selection: Selection,
    /// List every item inside each target, not just the totals.
    pub items: bool,
}

pub struct CleanArgs {
    pub selection: Selection,
    /// Remove without asking.
    pub yes: bool,
    /// Delete outright instead of moving to the Trash.
    pub permanent: bool,
}

pub struct DevArgs {
    /// Where to look; the home directory where nothing is said.
    pub path: Option<FsPath>,
    /// How deep to descend.
    pub depth: usize,
    /// Skip artifacts smaller than this.
    pub min_size: Option<u64>,
    /// Only artifacts untouched for this many days.
    pub older_than: Option<u64>,
    /// Only artifacts from this toolchain.
    pub tool: Option<String>,
    /// Show at most this many rows.
    pub limit: usize,
    /// Remove what was found.
    pub clean: bool,
    /// Remove without asking.
    pub yes: bool,
}

pub struct DupesArgs {
    /// Where to look; the current directory where nothing is said.
    pub path: Option<FsPath>,
    /// Ignore files smaller than this.
    pub min_size: u64,
    /// Show at most this many groups.
    pub limit: usize,
    /// Keep one copy of each group and remove the rest.
    pub prune: bool,
    /// Remove without asking.
    pub yes: bool,
}

pub struct DuArgs {
    /// Where to measure; the current directory where nothing is said.
    pub path: Option<FsPath>,
    /// How many levels to show.
    pub depth: usize,
    /// Entries to show per level before folding the rest.
    pub top: usize,
}

pub struct AppsArgs {
    /// Show at most this many applications.
    pub limit: usize,
    /// Sort by name instead of size.
    pub by_name: bool,
}

pub struct UninstallArgs {
    /// Application name, or a path to the bundle.
    pub app: String,
    /// Remove without asking.
    pub yes: bool,
}

pub struct OrphansArgs {
    /// Show at most this many apps' worth of leftovers.
    pub limit: usize,
    /// Remove what was found.
    pub clean: bool,
    /// Remove without asking.
    pub yes: bool,
}

pub struct TrashArgs {
    /// Empty the Trash, for good.
    pub empty: bool,
    /// Empty it without asking.
    pub yes: bool,
}

pub struct RulesArgs {
    /// Print the TOML rather than a table.
    pub toml: bool,
}

/// A character that a number is made of.
pub open spec fn numeric(c: char) -> bool {
    '0' <= c <= '9' || c == '.'
}

/// How many characters at the front of a text make up a number.
pub open spec fn number_end(s: Seq<char>) -> nat
    decreases s.len(),
{
    if s.len() == 0 || !numeric(s[0]) {
        0
    } else {
        1 + number_end(s.skip(1))
    }
}

/// Digits and at most one point, with a digit among them.
pub open spec fn is_number(s: Seq<char>) -> bool {
    let parts = pieces(s, '.');
    ||| parts.len() == 1 && parts[0].len() > 0
    ||| parts.len() == 2 && parts[0].len() + parts[1].len() > 0
}

/// The digits that a text writes.
pub open spec fn digit_values(s: Seq<char>) -> Seq<u8> {
    s.map_values(|c: char| (c as u8 - '0' as u8) as u8)
}

/// The digits before the point.
pub open spec fn whole_digits(s: Seq<char>) -> Seq<u8> {
    digit_values(pieces(s, '.')[0])
}

/// The digits behind the point.
pub open spec fn fraction_digits(s: Seq<char>) -> Seq<u8> {
    if pieces(s, '.').len() == 2 {
        digit_values(pieces(s, '.')[1])
    } else {
        Seq::empty()
    }
}

/// What a unit stands for, in bytes. `MB` and `M` both mean a million.
pub open spec fn unit_scale(unit: Seq<char>) -> Option<nat> {
    if unit == ""@ || unit == "b"@ {
        Some(1)
    } else if unit == "k"@ || unit == "kb"@ {
        Some(1_000)
    } else if unit == "m"@ || unit == "mb"@ {
        Some(1_000_000)
    } else if unit == "g"@ || unit == "gb"@ {
        Some(1_000_000_000)
    } else if unit == "t"@ || unit == "tb"@ {
        Some(1_000_000_000_000)
    } else {
        None
    }
}

/// A number of units in whole bytes, worked out in double precision.
pub open spec fn scaled_size(whole: nat, fraction: Seq<u8>, scale: nat) -> nat {
    let number = nearest(numerator(whole, fraction) * one(), ten_to(fraction.len()));
    let steps = nearest(number * nearest(scale * one(), 1), one());
    capped(steps / one())
}

/// The size that a text writes, or why it does not write one.
pub open spec fn size_in(input: Seq<char>) -> Result<nat, Seq<char>> {
    let text = trimmed(input);
    let end = number_end(text) as int;
    let number = text.take(end);
    let unit = ascii_lowercase_of(trimmed(text.skip(end)));
    if !is_number(number) {
        Err("`"@ + input + "` is not a size (try 100MB)"@)
    } else {
        match unit_scale(unit) {
            None => Err("unknown size unit `"@ + unit + "` (try B, KB, MB, GB)"@),
            Some(scale) => Ok(scaled_size(number_of(whole_digits(number)), fraction_digits(number), scale)),
        }
    }
}

proof fn lemma_number_end_bound(s: Seq<char>)
    ensures
        number_end(s) <= s.len(),
        forall|i: int| 0 <= i < number_end(s) ==> numeric(#[trigger] s[i]),
    decreases s.len(),
{
    if s.len() > 0 && numeric(s[0]) {
        lemma_number_end_bound(s.skip(1));
        assert forall|i: int| 0 <= i < number_end(s) implies numeric(#[trigger] s[i]) by {
            if i > 0 {
                assert(s[i] == s.skip(1)[i - 1]);
            }
        }
    }
}

fn end_of_number(chars: &Vec<char>) -> (r: usize)
    ensures
        r == number_end(chars@),
        r <= chars@.len(),
{
    let mut i: usize = 0;
    assert(chars@.skip(0) =~= chars@);
    while i < chars.len() && (('0' <= chars[i] && chars[i] <= '9') || chars[i] == '.')
        invariant
            i <= chars@.len(),
            number_end(chars@) == i + number_end(chars@.skip(i as int)),
        decreases chars@.len() - i,
    {
        assert(chars@.skip(i as int).skip(1) =~= chars@.skip(i + 1));
        i += 1;
    }
    i
}

proof fn lemma_pieces_are_digits(s: Seq<char>)
    requires
        forall|i: int| 0 <= i < s.len() ==> numeric(#[trigger] s[i]),
    ensures
        forall|p: int, i: int|
            0 <= p < pieces(s, '.').len() && 0 <= i < pieces(s, '.')[p].len() ==> '0' <= #[trigger] pieces(
                s,
                '.',
            )[p][i] <= '9',
    decreases s.len(),
{
    text::lemma_pieces_nonempty(s, '.');
    if s.len() > 0 {
        let front = s.drop_last();
        assert forall|i: int| 0 <= i < front.len() implies numeric(#[trigger] front[i]) by {
            assert(front[i] == s[i]);
        }
        lemma_pieces_are_digits(front);
        text::lemma_pieces_nonempty(front, '.');
        assert(numeric(s[s.len() - 1]));
    }
}

/// The digits that a text writes.
fn digits_in(s: &str) -> (r: Vec<u8>)
    requires
        forall|i: int| 0 <= i < s@.len() ==> '0' <= #[trigger] s@[i] <= '9',
    ensures
        r@ == digit_values(s@),
        are_digits(r@),
{
    let chars = text::chars_of(s);
    let mut r: Vec<u8> = Vec::new();
    let mut i: usize = 0;
    assert(r@ =~= digit_values(chars@.take(0)));
    while i < chars.len()
        invariant
            chars@ == s@,
            forall|k: int| 0 <= k < s@.len() ==> '0' <= #[trigger] s@[k] <= '9',
            i <= chars@.len(),
            r@ == digit_values(chars@.take(i as int)),
            are_digits(r@),
        decreases chars@.len() - i,
    {
        let c: char = chars[i];
        assert('0' <= s@[i as int] <= '9');
        r.push(c as u8 - '0' as u8);
        assert(r@ =~= digit_values(chars@.take(i + 1)));
        i += 1;
    }
    assert(chars@.take(i as int) =~= chars@);
    r
}

/// The number that a row of digits stands for, where it is not out of all
/// proportion.
fn number(row: &Vec<u8>) -> (r: Option<u128>)
    requires
        are_digits(row@),
    ensures
        match r {
            Some(n) => n == number_of(row@) && n < 0x100_0000_0000_0000_0000_0000_0000,
            None => number_of(row@) >= 0x10_0000_0000_0000_0000_0000_0000,
        },
{
    let mut n: u128 = 0;
    let mut i: usize = 0;
    while i < row.len()
        invariant
            are_digits(row@),
            i <= row@.len(),
            n == number_of(row@.take(i as int)),
            n < 0x100_0000_0000_0000_0000_0000_0000,
        decreases row@.len() - i,
    {
        assert(row@.take(i + 1).drop_last() =~= row@.take(i as int));
        if n >= 0x10_0000_0000_0000_0000_0000_0000 {
            proof {
                lemma_number_grows(row@, i as int);
            }
            return None;
        }
        n = n * 10 + row[i] as u128;
        i += 1;
    }
    assert(row@.take(i as int) =~= row@);
    Some(n)
}

proof fn lemma_number_grows(row: Seq<u8>, n: int)
    requires
        0 <= n <= row.len(),
    ensures
        number_of(row) >= number_of(row.take(n)),
    decreases row.len(),
{
    if n == row.len() {
        assert(row.take(n) =~= row);
    } else {
        assert(row.drop_last().take(n) =~= row.take(n));
        lemma_number_grows(row.drop_last(), n);
    }
}

proof fn lemma_one_is_large()
    ensures
        one() >= pow2(107),
        one() > 0,
        pow2(107) == 0x800_0000_0000_0000_0000_0000_0000,
{
    lemma2_to64();
    lemma2_to64_rest();
    lemma_pow2_adds(107, 967);
    lemma_pow2_pos(967);
    lemma_pow2_adds(64, 43);
    let (a, b) = (pow2(107), pow2(967));
    assert(a * b >= a) by (nonlinear_arith)
        requires
            b >= 1,
            a >= 0,
    ;
}

proof fn lemma_too_large(whole: nat, fraction: Seq<u8>, scale: nat)
    requires
        whole >= 0x10_0000_0000_0000_0000_0000_0000,
        scale >= 1,
    ensures
        scaled_size(whole, fraction, scale) == u64::MAX,
{
    let o = one();
    let t = ten_to(fraction.len());
    let w = numerator(whole, fraction);
    lemma_one_is_large();
    lemma_ten_positive(fraction.len());
    assert(w * o >= (whole * o) * t) by (nonlinear_arith)
        requires
            w >= whole * t,
    ;
    assert(whole * o >= 0x10_0000_0000_0000_0000_0000_0000 * o) by (nonlinear_arith)
        requires
            whole >= 0x10_0000_0000_0000_0000_0000_0000,
    ;
    assert((whole * o) * t >= t) by (nonlinear_arith)
        requires
            whole * o >= 1,
    ;
    let v = nearest(w * o, t);
    double::lemma_nearest_floor(w * o, t);
    assert(2 * v >= whole * o) by (nonlinear_arith)
        requires
            2 * (v * t) >= w * o,
            w * o >= (whole * o) * t,
            t > 0,
    ;
    assert(scale * o >= o) by (nonlinear_arith)
        requires
            scale >= 1,
    ;
    let s = nearest(scale * o, 1);
    double::lemma_nearest_floor(scale * o, 1);
    assert(2 * s >= o);
    assert(4 * (v * s) >= (0x10_0000_0000_0000_0000_0000_0000 * o) * o) by (nonlinear_arith)
        requires
            2 * v >= 0x10_0000_0000_0000_0000_0000_0000 * o,
            2 * s >= o,
    ;
    assert(v * s >= o) by (nonlinear_arith)
        requires
            4 * (v * s) >= (0x10_0000_0000_0000_0000_0000_0000 * o) * o,
            o >= 1,
    ;
    let p = nearest(v * s, o);
    double::lemma_nearest_floor(v * s, o);
    assert(p >= 0x1_0000_0000_0000_0000 * o) by (nonlinear_arith)
        requires
            2 * (p * o) >= v * s,
            4 * (v * s) >= (0x10_0000_0000_0000_0000_0000_0000 * o) * o,
            o >= 1,
    ;
    assert(p / o >= 0x1_0000_0000_0000_0000) by (nonlinear_arith)
        requires
            p >= 0x1_0000_0000_0000_0000 * o,
            o >= 1,
    ;
}

proof fn lemma_too_small(whole: nat, fraction: Seq<u8>, scale: nat)
    requires
        numerator(whole, fraction) * pow2(107) < ten_to(fraction.len()),
        1 <= scale <= 1_000_000_000_000,
    ensures
        scaled_size(whole, fraction, scale) == 0,
{
    let o = one();
    let t = ten_to(fraction.len());
    let w = numerator(whole, fraction);
    let k = pow2(107);
    lemma_one_is_large();
    lemma_ten_positive(fraction.len());
    let v = nearest(w * o, t);
    double::lemma_nearest_bound_loose(w * o, t);
    assert(v * k <= 3 * o) by {
        assert((v * t) * k <= (2 * (w * o) + t) * k) by (nonlinear_arith)
            requires
                v * t <= 2 * (w * o) + t,
        ;
        assert((2 * (w * o) + t) * k == 2 * ((w * k) * o) + t * k) by (nonlinear_arith);
        assert((w * k) * o <= t * o) by (nonlinear_arith)
            requires
                w * k < t,
        ;
        assert(t * k <= t * o) by (nonlinear_arith)
            requires
                o >= k,
        ;
        assert((v * k) * t <= (3 * o) * t) by (nonlinear_arith)
            requires
                (v * t) * k <= 2 * (t * o) + t * o,
        ;
        assert(v * k <= 3 * o) by (nonlinear_arith)
            requires
                (v * k) * t <= (3 * o) * t,
                t > 0,
        ;
    }
    assert(scale * o >= 1) by (nonlinear_arith)
        requires
            scale >= 1,
            o >= 1,
    ;
    let s = nearest(scale * o, 1);
    double::lemma_nearest_bound(scale * o, 1);
    assert(s <= 2_000_000_000_000 * o) by (nonlinear_arith)
        requires
            s * 1 <= 2 * (scale * o),
            scale <= 1_000_000_000_000,
    ;
    let p = nearest(v * s, o);
    double::lemma_nearest_bound_loose(v * s, o);
    assert((v * s) * k <= (6_000_000_000_000 * o) * o) by {
        assert((v * s) * k == (v * k) * s) by (nonlinear_arith);
        assert((v * k) * s <= (3 * o) * s) by (nonlinear_arith)
            requires
                v * k <= 3 * o,
        ;
        assert((3 * o) * s <= (3 * o) * (2_000_000_000_000 * o)) by (nonlinear_arith)
            requires
                s <= 2_000_000_000_000 * o,
        ;
        assert((3 * o) * (2_000_000_000_000 * o) == (6_000_000_000_000 * o) * o) by (nonlinear_arith);
    }
    assert(p * k <= 12_000_000_000_001 * o) by {
        assert((p * o) * k <= (2 * (v * s) + o) * k) by (nonlinear_arith)
            requires
                p * o <= 2 * (v * s) + o,
        ;
        assert((2 * (v * s) + o) * k == 2 * ((v * s) * k) + o * k) by (nonlinear_arith);
        assert(o * k <= o * o) by (nonlinear_arith)
            requires
                o >= k,
        ;
        assert((p * k) * o <= (12_000_000_000_001 * o) * o) by (nonlinear_arith)
            requires
                (p * o) * k <= 2 * ((6_000_000_000_000 * o) * o) + o * o,
        ;
        assert(p * k <= 12_000_000_000_001 * o) by (nonlinear_arith)
            requires
                (p * k) * o <= (12_000_000_000_001 * o) * o,
                o >= 1,
        ;
    }
    assert(p < o) by (nonlinear_arith)
        requires
            p * k <= 12_000_000_000_001 * o,
            k == 0x800_0000_0000_0000_0000_0000_0000,
            o >= 1,
    ;
    assert(p / o == 0) by (nonlinear_arith)
        requires
            p < o,
    ;
}

proof fn lemma_ten_positive(k: nat)
    ensures
        ten_to(k) > 0,
    decreases k,
{
    if k > 0 {
        lemma_ten_positive((k - 1) as nat);
    }
}

/// A number of units in whole bytes.
pub fn size_of(whole: &Vec<u8>, fraction: Vec<u8>, scale: u64) -> (r: u64)
    requires
        are_digits(whole@),
        are_digits(fraction@),
        1 <= scale <= 1_000_000_000_000,
    ensures
        r == scaled_size(number_of(whole@), fraction@, scale as nat),
{
    match number(whole) {
        None => {
            proof {
                lemma_too_large(number_of(whole@), fraction@, scale as nat);
            }
            u64::MAX
        },
        Some(n) => match Double::from_decimal(n, fraction) {
            None => {
                proof {
                    lemma_too_small(number_of(whole@), fraction@, scale as nat);
                }
                0
            },
            Some(number) => number.times(Double::from_u64(scale)).whole(),
        },
    }
}

/// What a unit stands for, in bytes.
fn scale_of(unit: &str) -> (r: Option<u64>)
    ensures
        match r {
            Some(scale) => unit_scale(unit@) == Some(scale as nat) && 1 <= scale <= 1_000_000_000_000,
            None => unit_scale(unit@) is None,
        },
{
    if text::same_text(unit, "") || text::same_text(unit, "b") {
        Some(1)
    } else if text::same_text(unit, "k") || text::same_text(unit, "kb") {
        Some(1_000)
    } else if text::same_text(unit, "m") || text::same_text(unit, "mb") {
        Some(1_000_000)
    } else if text::same_text(unit, "g") || text::same_text(unit, "gb") {
        Some(1_000_000_000)
    } else if text::same_text(unit, "t") || text::same_text(unit, "tb") {
        Some(1_000_000_000_000)
    } else {
        None
    }
}

/// The size that a text writes, like `500`, `20k`, `100MB` or `1.5G`.
pub fn parse_size(input: &str) -> (r: Result<u64, String>)
    ensures
        match r {
            Ok(size) => size_in(input@) == Ok::<nat, Seq<char>>(size as nat),
            Err(why) => size_in(input@) == Err::<nat, Seq<char>>(why@),
        },
{
    let bare = text::trim(input);
    let chars = text::chars_of(bare.as_str());
    let end = end_of_number(&chars);
    let n: usize = chars.len();
    let front = text::text_of(chars.as_slice(), 0, end);
    let back = text::text_of(chars.as_slice(), end, n);
    proof {
        assert(front@ =~= bare@.take(end as int));
        assert(back@ =~= bare@.skip(end as int));
        lemma_number_end_bound(bare@);
        assert forall|i: int| 0 <= i < front@.len() implies numeric(#[trigger] front@[i]) by {
            assert(front@[i] == bare@[i]);
        }
        lemma_pieces_are_digits(front@);
        text::lemma_pieces_nonempty(front@, '.');
    }
    let parts = text::split(front.as_str(), '.');
    let ghost rows = pieces(front@, '.');
    proof {
        let shown = parts@.map_values(|p: String| p@);
        assert(shown == rows);
        assert(shown.len() == parts@.len());
        assert(parts@[0]@ == rows[0]);
        if parts@.len() == 2 {
            assert(parts@[1]@ == rows[1]);
        }
        assert forall|i: int| 0 <= i < rows[0].len() implies '0' <= #[trigger] rows[0][i] <= '9' by {}
    }
    let whole = digits_in(parts[0].as_str());
    let fraction: Vec<u8> = if parts.len() == 2 {
        assert forall|i: int| 0 <= i < rows[1].len() implies '0' <= #[trigger] rows[1][i] <= '9' by {}
        digits_in(parts[1].as_str())
    } else {
        Vec::new()
    };
    assert(whole@.len() == rows[0].len());
    assert(fraction@ =~= fraction_digits(front@));
    if parts.len() > 2 || (whole.len() == 0 && fraction.len() == 0) {
        let mut why = "`".to_owned();
        why.append(input);
        why.append("` is not a size (try 100MB)");
        return Err(why);
    }
    let unit = text::to_ascii_lowercase(text::trim(back.as_str()).as_str());
    match scale_of(unit.as_str()) {
        None => {
            let mut why = "unknown size unit `".to_owned();
            why.append(unit.as_str());
            why.append("` (try B, KB, MB, GB)");
            Err(why)
        },
        Some(scale) => Ok(size_of(&whole, fraction, scale)),
    }
}

/// A whole number of units is exactly that many bytes, as long as they can be
/// counted in 53 binary digits.
pub proof fn whole_sizes_are_exact(whole: nat, scale: nat)
    requires
        scale < 9007199254740992,
        whole * scale < 9007199254740992,
        scale >= 1,
    ensures
        scaled_size(whole, Seq::empty(), scale) == whole * scale,
{
    let o = one();
    let none: Seq<u8> = Seq::empty();
    let w = numerator(whole, none);
    let (t, product) = (ten_to(none.len()), whole * scale);
    lemma_one_is_large();
    assert(t == 1);
    assert(w == whole) by (nonlinear_arith)
        requires
            w == whole * t + number_of(none),
            t == 1,
            number_of(none) == 0,
    ;
    assert(whole <= product) by (nonlinear_arith)
        requires
            product == whole * scale,
            scale >= 1,
    ;
    double::whole_numbers_are_exact(whole, 1);
    double::whole_numbers_are_exact(scale, 1);
    double::whole_numbers_are_exact(product, o);
    assert(whole * o * 1 == whole * o && scale * o * 1 == scale * o);
    assert((whole * o) * (scale * o) == product * o * o) by (nonlinear_arith)
        requires
            product == whole * scale,
    ;
    assert((product * o) / o == product) by {
        vstd::arithmetic::div_mod::lemma_div_multiples_vanish(product as int, o as int);
        assert(product * o == o * product) by (nonlinear_arith);
    }
}

/// An ASCII letter.
pub open spec fn letter(c: char) -> bool {
    'a' <= c <= 'z' || 'A' <= c <= 'Z'
}

proof fn lemma_untrimmed(s: Seq<char>)
    requires
        forall|i: int| 0 <= i < s.len() ==> numeric(#[trigger] s[i]) || letter(s[i]),
    ensures
        trimmed(s) == s,
{
    if s.len() > 0 {
        assert(!text::is_space(s[0]));
        assert(!text::is_space(s[s.len() - 1]));
    }
}

proof fn lemma_number_ends(number: Seq<char>, unit: Seq<char>)
    requires
        forall|i: int| 0 <= i < number.len() ==> numeric(#[trigger] number[i]),
        unit.len() > 0 ==> !numeric(unit[0]),
    ensures
        number_end(number + unit) == number.len(),
    decreases number.len(),
{
    let whole = number + unit;
    if number.len() > 0 {
        let rest = number.skip(1);
        assert(whole.skip(1) =~= rest + unit);
        assert(whole[0] == number[0]);
        assert forall|i: int| 0 <= i < rest.len() implies numeric(#[trigger] rest[i]) by {
            assert(rest[i] == number[i + 1]);
        }
        lemma_number_ends(rest, unit);
    } else {
        assert(whole =~= unit);
    }
}

/// A whole number with a unit behind it, or none, is read as that number of
/// units: `500` is 500 bytes, and `20k` is 20 thousand.
pub proof fn whole_numbers_are_read_as_they_stand(number: Seq<char>, unit: Seq<char>, scale: nat)
    requires
        number.len() > 0,
        forall|i: int| 0 <= i < number.len() ==> '0' <= #[trigger] number[i] <= '9',
        forall|i: int| 0 <= i < unit.len() ==> letter(#[trigger] unit[i]),
        unit_scale(ascii_lowercase_of(unit)) == Some(scale),
        number_of(digit_values(number)) * scale < 9007199254740992,
    ensures
        size_in(number + unit) == Ok::<nat, Seq<char>>(number_of(digit_values(number)) * scale),
{
    let input = number + unit;
    assert forall|i: int| 0 <= i < input.len() implies numeric(#[trigger] input[i]) || letter(input[i]) by {
        if i < number.len() {
            assert(input[i] == number[i]);
        } else {
            assert(input[i] == unit[i - number.len()]);
        }
    }
    lemma_untrimmed(input);
    lemma_untrimmed(unit);
    if unit.len() > 0 {
        assert(letter(unit[0]));
    }
    assert forall|i: int| 0 <= i < number.len() implies numeric(#[trigger] number[i]) by {}
    lemma_number_ends(number, unit);
    assert(input.take(number.len() as int) =~= number);
    assert(input.skip(number.len() as int) =~= unit);
    text::lemma_pieces_single(number, '.');
    whole_sizes_are_exact(number_of(digit_values(number)), scale);
}

/// What the units stand for: powers of a thousand, with the `B` or without.
/// Nothing else is a unit.
pub proof fn units_are_powers_of_a_thousand(unit: Seq<char>)
    ensures
        unit_scale(""@) == Some(1nat) && unit_scale("b"@) == Some(1nat),
        unit_scale("k"@) == Some(1000nat) && unit_scale("kb"@) == Some(1000nat),
        unit_scale("m"@) == Some(1000000nat) && unit_scale("mb"@) == Some(1000000nat),
        unit_scale("g"@) == Some(1000000000nat) && unit_scale("gb"@) == Some(1000000000nat),
        unit_scale("t"@) == Some(1000000000000nat) && unit_scale("tb"@) == Some(1000000000000nat),
        unit_scale(unit) is Some ==> unit.len() <= 2 && (unit.len() == 2 ==> unit[1] == 'b'),
{
    reveal_strlit("");
    reveal_strlit("b");
    reveal_strlit("k");
    reveal_strlit("kb");
    reveal_strlit("m");
    reveal_strlit("mb");
    reveal_strlit("g");
    reveal_strlit("gb");
    reveal_strlit("t");
    reveal_strlit("tb");
    let (b, k, m, g, t) = ("b"@, "k"@, "m"@, "g"@, "t"@);
    let (kb, mb, gb, tb) = ("kb"@, "mb"@, "gb"@, "tb"@);
    assert(b[0] == 'b' && k[0] == 'k' && m[0] == 'm' && g[0] == 'g' && t[0] == 't');
    assert(kb[0] == 'k' && mb[0] == 'm' && gb[0] == 'g' && tb[0] == 't');
    assert(k != b && m != b && g != b && t != b);
    assert(m != k && g != k && t != k && g != m && t != m && t != g);
    assert(mb != kb && gb != kb && tb != kb && gb != mb && tb != mb && tb != gb);
    let none = ""@;
    assert(none.len() == 0 && b.len() == 1 && k.len() == 1 && m.len() == 1 && g.len() == 1 && t.len() == 1);
    assert(kb.len() == 2 && mb.len() == 2 && gb.len() == 2 && tb.len() == 2);
    assert(kb[1] == 'b' && mb[1] == 'b' && gb[1] == 'b' && tb[1] == 'b');
    assert(k != none && m != none && g != none && t != none);
    assert(kb != none && mb != none && gb != none && tb != none);
    assert(kb != b && mb != b && gb != b && tb != b);
    assert(k != kb && m != kb && g != kb && t != kb && g != mb && t != mb && t != gb);
    assert(mb != k && gb != k && tb != k && gb != m && tb != m && tb != g);
}

/// Half a unit more is half as many bytes more: `1.5G` is one and a half
/// thousand million.
pub proof fn a_half_is_half_a_unit(whole: nat, scale: nat)
    requires
        1 <= scale < 9007199254740992,
        scale % 2 == 0,
        (2 * whole + 1) * scale < 9007199254740992,
    ensures
        scaled_size(whole, seq![5u8], scale) == whole * scale + scale / 2,
{
    let half = pow2(1073);
    let o = one();
    vstd::arithmetic::power2::lemma_pow2_unfold(1074);
    lemma_pow2_pos(1073);
    assert(o == 2 * half);
    let fraction = seq![5u8];
    let k = 2 * whole + 1;
    let w = numerator(whole, fraction);
    reveal_with_fuel(ten_to, 2);
    reveal_with_fuel(number_of, 2);
    assert(fraction.drop_last() =~= Seq::<u8>::empty());
    assert(number_of(fraction) == 5);
    assert(ten_to(1) == 10);
    assert(w == whole * 10 + 5);
    assert(w * o == k * half * 10) by (nonlinear_arith)
        requires
            w == 10 * whole + 5,
            k == 2 * whole + 1,
            o == 2 * half,
    ;
    assert(k < 9007199254740992) by (nonlinear_arith)
        requires
            k * scale < 9007199254740992,
            scale >= 1,
    ;
    double::scaled_numbers_are_exact(k, 1073, 10);
    double::whole_numbers_are_exact(scale, 1);
    assert(scale * o * 1 == scale * o);
    let product = k * scale;
    assert((k * half) * (scale * o) == product * half * o) by (nonlinear_arith)
        requires
            product == k * scale,
    ;
    double::scaled_numbers_are_exact(product, 1073, o);
    let steps = product * half;
    let answer = whole * scale + scale / 2;
    assert(product == 2 * answer) by (nonlinear_arith)
        requires
            product == k * scale,
            k == 2 * whole + 1,
            answer == whole * scale + scale / 2,
            scale == 2 * (scale / 2),
    ;
    assert(steps == answer * o) by (nonlinear_arith)
        requires
            steps == product * half,
            product == 2 * answer,
            o == 2 * half,
    ;
    assert(steps / o == answer) by {
        vstd::arithmetic::div_mod::lemma_div_multiples_vanish(answer as int, o as int);
        assert(answer * o == o * answer) by (nonlinear_arith);
    }
}

/// A number with a point and a unit is read as what stands before the point,
/// what stands behind it, and what the unit stands for.
pub proof fn a_point_parts_a_number(whole: Seq<char>, fraction: Seq<char>, unit: Seq<char>, scale: nat)
    requires
        whole.len() + fraction.len() > 0,
        forall|i: int| 0 <= i < whole.len() ==> '0' <= #[trigger] whole[i] <= '9',
        forall|i: int| 0 <= i < fraction.len() ==> '0' <= #[trigger] fraction[i] <= '9',
        forall|i: int| 0 <= i < unit.len() ==> letter(#[trigger] unit[i]),
        unit_scale(ascii_lowercase_of(unit)) == Some(scale),
    ensures
        size_in(whole.push('.') + fraction + unit) == Ok::<nat, Seq<char>>(
            scaled_size(number_of(digit_values(whole)), digit_values(fraction), scale),
        ),
{
    let number = whole.push('.') + fraction;
    let input = number + unit;
    assert forall|i: int| 0 <= i < number.len() implies numeric(#[trigger] number[i]) by {
        if i < whole.len() {
            assert(number[i] == whole[i]);
        } else if i > whole.len() {
            assert(number[i] == fraction[i - whole.len() - 1]);
        }
    }
    assert forall|i: int| 0 <= i < input.len() implies numeric(#[trigger] input[i]) || letter(input[i]) by {
        if i < number.len() {
            assert(input[i] == number[i]);
        } else {
            assert(input[i] == unit[i - number.len()]);
        }
    }
    lemma_untrimmed(input);
    lemma_untrimmed(unit);
    if unit.len() > 0 {
        assert(letter(unit[0]));
    }
    lemma_number_ends(number, unit);
    assert(input.take(number.len() as int) =~= number);
    assert(input.skip(number.len() as int) =~= unit);
    text::lemma_pieces_join(whole, fraction, '.');
    text::lemma_pieces_single(whole, '.');
    text::lemma_pieces_single(fraction, '.');
    assert(pieces(number, '.') =~= seq![whole, fraction]);
}

/// A size begins with a number: what begins with anything else is none.
/// A lone point, or two points, are no number.
pub proof fn a_size_begins_with_a_number(input: Seq<char>, a: Seq<char>, b: Seq<char>, c: Seq<char>)
    ensures
        trimmed(input).len() == 0 ==> size_in(input) is Err,
        trimmed(input).len() > 0 && trimmed(input)[0] != '.' && !('0' <= trimmed(input)[0] <= '9') ==> size_in(input)
            == Err::<nat, Seq<char>>("`"@ + input + "` is not a size (try 100MB)"@),
        !is_number(Seq::empty()),
        !is_number(seq!['.']),
        !is_number(a.push('.') + (b.push('.') + c)),
{
    let none = Seq::<char>::empty();
    let t = trimmed(input);
    text::lemma_pieces_single(none, '.');
    text::lemma_pieces_join(none, none, '.');
    assert(none.push('.') + none =~= seq!['.']);
    text::lemma_pieces_join(b, c, '.');
    text::lemma_pieces_join(a, b.push('.') + c, '.');
    text::lemma_pieces_nonempty(a, '.');
    text::lemma_pieces_nonempty(b, '.');
    text::lemma_pieces_nonempty(c, '.');
    if t.len() == 0 || (t[0] != '.' && !('0' <= t[0] <= '9')) {
        assert(t.take(0) =~= none);
    }
}

} // verus!
