//! Gains as decimal fixed-point numbers, and the arithmetic of the two
//! reproduction operators on a single gain.
//!
//! A gain is an unsigned integer that counts units of 10^-10. The digit with
//! decimal exponent `e` therefore stands at place `e + 10` of that integer.
//! Nineteen places are kept, exponents -10 to 8; a digit outside them is zero.

use crate::rng::next_unit;
use crate::rng::UNIT_RANGE;
use rand::rngs::StdRng;
use vstd::arithmetic::div_mod::lemma_div_pos_is_pos;
use vstd::arithmetic::div_mod::lemma_fundamental_div_mod;
use vstd::arithmetic::div_mod::lemma_fundamental_div_mod_converse;
use vstd::arithmetic::div_mod::lemma_mod_bound;
use vstd::arithmetic::div_mod::lemma_small_mod;
use vstd::prelude::*;

verus! {

/// Number of decimal places after the point.
pub const DECIMALS: i32 = 10;

/// The gain 1.0, and the rate 1.0.
pub const ONE: u64 = 10_000_000_000;

/// The largest gain: nineteen nines.
pub const GAIN_MAX: u64 = 9_999_999_999_999_999_999;

/// The lowest decimal exponent that a gain has a digit for.
pub const LOWEST_EXPONENT: i32 = -10;

/// The highest decimal exponent that a gain has a digit for.
pub const HIGHEST_EXPONENT: i32 = 8;

/// Ten to the power `n`.
pub open spec fn pow10(n: nat) -> nat
    decreases n,
{
    if n == 0 {
        1
    } else {
        10 * pow10((n - 1) as nat)
    }
}

/// Whether a gain has a digit for the decimal exponent.
pub open spec fn in_reach(exponent: int) -> bool {
    LOWEST_EXPONENT <= exponent <= HIGHEST_EXPONENT
}

/// The value of one unit of the digit with the given decimal exponent, zero
/// where a gain has no such digit.
pub open spec fn weight(exponent: int) -> nat {
    if in_reach(exponent) {
        pow10((exponent + DECIMALS) as nat)
    } else {
        0
    }
}

/// The digit of `gain` with the given decimal exponent, 0 to 9.
pub open spec fn digit(gain: u64, exponent: int) -> nat {
    if in_reach(exponent) {
        (gain as nat / pow10((exponent + DECIMALS) as nat)) % 10
    } else {
        0
    }
}

/// What the digit of `gain` with the given exponent adds to its value.
pub open spec fn contribution(gain: u64, exponent: int) -> nat {
    digit(gain, exponent) * weight(exponent)
}

/// The pick for the `i`-th exponent of a range: `true` keeps a child's digit
/// with its own parent. Where `picks` is too short the digit stays.
pub open spec fn pick_at(picks: Seq<bool>, i: int) -> bool {
    if 0 <= i < picks.len() {
        picks[i]
    } else {
        true
    }
}

/// What the digit with exponent `exponent` adds to the child that tracks
/// `own`, in a range that starts at `lo`: the contribution of the digit of
/// `own` where the pick for that exponent is `true`, of that of `other` where
/// it is `false`.
pub open spec fn chosen(own: u64, other: u64, picks: Seq<bool>, lo: int, exponent: int) -> nat {
    if pick_at(picks, exponent - lo) {
        contribution(own, exponent)
    } else {
        contribution(other, exponent)
    }
}

/// The child that tracks `own`: the sum, over every exponent from `lo` to
/// `hi`, of what the chosen digit contributes. Digits outside the range are
/// lost.
pub open spec fn blend(own: u64, other: u64, lo: int, hi: int, picks: Seq<bool>) -> nat
    decreases hi - lo + 1,
{
    if hi < lo {
        0
    } else {
        blend(own, other, lo, hi - 1, picks) + chosen(own, other, picks, lo, hi)
    }
}

/// The part of `gain` that its digits from exponent `lo` to `hi` make up.
pub open spec fn digits_between(gain: u64, lo: int, hi: int) -> nat {
    blend(gain, gain, lo, hi, Seq::empty())
}

/// Number of exponents in the inclusive range `lo` to `hi`.
pub open spec fn span(lo: int, hi: int) -> nat {
    if hi < lo {
        0
    } else {
        (hi - lo + 1) as nat
    }
}

/// The range from `lo` to `hi` holds every digit of `gain` that is not zero.
pub open spec fn covers(gain: u64, lo: int, hi: int) -> bool {
    &&& gain <= GAIN_MAX
    &&& lo <= hi
    &&& lo <= LOWEST_EXPONENT || (lo <= HIGHEST_EXPONENT && gain as nat % pow10(
        (lo + DECIMALS) as nat,
    ) == 0)
    &&& hi >= HIGHEST_EXPONENT || (hi >= LOWEST_EXPONENT && (gain as nat) < pow10(
        (hi + DECIMALS + 1) as nat,
    ))
}

/// The powers of ten that fit a gain.
pub proof fn lemma_pow10_values()
    ensures
        pow10(0) == 1,
        pow10(1) == 10,
        pow10(2) == 100,
        pow10(3) == 1_000,
        pow10(4) == 10_000,
        pow10(5) == 100_000,
        pow10(6) == 1_000_000,
        pow10(7) == 10_000_000,
        pow10(8) == 100_000_000,
        pow10(9) == 1_000_000_000,
        pow10(10) == 10_000_000_000,
        pow10(11) == 100_000_000_000,
        pow10(12) == 1_000_000_000_000,
        pow10(13) == 10_000_000_000_000,
        pow10(14) == 100_000_000_000_000,
        pow10(15) == 1_000_000_000_000_000,
        pow10(16) == 10_000_000_000_000_000,
        pow10(17) == 100_000_000_000_000_000,
        pow10(18) == 1_000_000_000_000_000_000,
        pow10(19) == 10_000_000_000_000_000_000,
{
    assert(pow10(0) == 1);
    assert(pow10(1) == 10 * pow10(0));
    assert(pow10(2) == 10 * pow10(1));
    assert(pow10(3) == 10 * pow10(2));
    assert(pow10(4) == 10 * pow10(3));
    assert(pow10(5) == 10 * pow10(4));
    assert(pow10(6) == 10 * pow10(5));
    assert(pow10(7) == 10 * pow10(6));
    assert(pow10(8) == 10 * pow10(7));
    assert(pow10(9) == 10 * pow10(8));
    assert(pow10(10) == 10 * pow10(9));
    assert(pow10(11) == 10 * pow10(10));
    assert(pow10(12) == 10 * pow10(11));
    assert(pow10(13) == 10 * pow10(12));
    assert(pow10(14) == 10 * pow10(13));
    assert(pow10(15) == 10 * pow10(14));
    assert(pow10(16) == 10 * pow10(15));
    assert(pow10(17) == 10 * pow10(16));
    assert(pow10(18) == 10 * pow10(17));
    assert(pow10(19) == 10 * pow10(18));
}

/// Ten to the power `place`, for the places of a gain.
pub fn power_of_ten(place: u32) -> (r: u64)
    requires
        place <= 19,
    ensures
        r == pow10(place as nat),
{
    proof {
        lemma_pow10_values();
    }
    match place {
        0 => 1,
        1 => 10,
        2 => 100,
        3 => 1_000,
        4 => 10_000,
        5 => 100_000,
        6 => 1_000_000,
        7 => 10_000_000,
        8 => 100_000_000,
        9 => 1_000_000_000,
        10 => 10_000_000_000,
        11 => 100_000_000_000,
        12 => 1_000_000_000_000,
        13 => 10_000_000_000_000,
        14 => 100_000_000_000_000,
        15 => 1_000_000_000_000_000,
        16 => 10_000_000_000_000_000,
        17 => 100_000_000_000_000_000,
        18 => 1_000_000_000_000_000_000,
        _ => 10_000_000_000_000_000_000,
    }
}

/// The value of one unit of the digit with the given decimal exponent.
pub fn weight_of(exponent: i32) -> (w: u64)
    ensures
        w == weight(exponent as int),
        w <= 1_000_000_000_000_000_000,
{
    proof {
        lemma_pow10_values();
    }
    if exponent < LOWEST_EXPONENT || exponent > HIGHEST_EXPONENT {
        0
    } else {
        let place: u32 = (exponent + DECIMALS) as u32;
        power_of_ten(place)
    }
}

/// The digit of `gain` with the given decimal exponent.
pub fn digit_of(gain: u64, exponent: i32) -> (d: u64)
    ensures
        d == digit(gain, exponent as int),
        d <= 9,
{
    if exponent < LOWEST_EXPONENT || exponent > HIGHEST_EXPONENT {
        0
    } else {
        let place: u32 = (exponent + DECIMALS) as u32;
        proof {
            lemma_pow10_values();
        }
        (gain / power_of_ten(place)) % 10
    }
}

/// Number of places of a gain whose exponent is at most `hi`.
pub open spec fn places_up_to(hi: int) -> nat {
    if hi < LOWEST_EXPONENT {
        0
    } else if hi > HIGHEST_EXPONENT {
        19
    } else {
        (hi + DECIMALS + 1) as nat
    }
}

/// A blend of digits with exponents up to `hi` stays below the power of ten
/// with as many places; in particular it is a gain.
pub proof fn lemma_blend_bound(own: u64, other: u64, lo: int, hi: int, picks: Seq<bool>)
    ensures
        blend(own, other, lo, hi, picks) < pow10(places_up_to(hi)),
        blend(own, other, lo, hi, picks) <= GAIN_MAX,
    decreases hi - lo + 1,
{
    lemma_pow10_values();
    lemma_pow10_grows(places_up_to(hi), 19);
    if hi >= lo {
        lemma_blend_bound(own, other, lo, hi - 1, picks);
        let rest = blend(own, other, lo, hi - 1, picks);
        let add = chosen(own, other, picks, lo, hi);
        if in_reach(hi) {
            let place = (hi + DECIMALS) as nat;
            let w = pow10(place);
            lemma_pow10_grows(places_up_to(hi - 1), place);
            assert(pow10(place + 1) == 10 * w);
            assert(add <= 9 * w) by (nonlinear_arith)
                requires
                    add == digit(own, hi) * w || add == digit(other, hi) * w,
                    digit(own, hi) <= 9,
                    digit(other, hi) <= 9,
            ;
        } else {
            assert(add == 0);
        }
    }
}

/// Powers of ten are positive and do not shrink as the exponent grows.
pub proof fn lemma_pow10_grows(a: nat, b: nat)
    requires
        a <= b,
    ensures
        0 < pow10(a) <= pow10(b),
    decreases b,
{
    if a < b {
        lemma_pow10_grows(a, (b - 1) as nat);
    } else if a > 0 {
        lemma_pow10_grows((a - 1) as nat, (a - 1) as nat);
    }
}

/// Two blends over one range are equal where every chosen contribution is.
pub proof fn lemma_blend_congruent(
    own: u64,
    other: u64,
    picks: Seq<bool>,
    own2: u64,
    other2: u64,
    picks2: Seq<bool>,
    lo: int,
    hi: int,
)
    requires
        forall|e: int|
            lo <= e <= hi ==> #[trigger] chosen(own, other, picks, lo, e) == chosen(
                own2,
                other2,
                picks2,
                lo,
                e,
            ),
    ensures
        blend(own, other, lo, hi, picks) == blend(own2, other2, lo, hi, picks2),
    decreases hi - lo + 1,
{
    if hi >= lo {
        lemma_blend_congruent(own, other, picks, own2, other2, picks2, lo, hi - 1);
    }
}

/// Exponents for which a gain has no digit add nothing to a blend.
pub proof fn lemma_blend_skip(own: u64, other: u64, lo: int, mid: int, hi: int, picks: Seq<bool>)
    requires
        lo - 1 <= mid <= hi,
        mid >= HIGHEST_EXPONENT || hi < LOWEST_EXPONENT,
    ensures
        blend(own, other, lo, hi, picks) == blend(own, other, lo, mid, picks),
    decreases hi - mid,
{
    if mid < hi {
        lemma_blend_skip(own, other, lo, mid, hi - 1, picks);
        assert(chosen(own, other, picks, lo, hi) == 0);
    }
}

/// The digit at one place and all lower places make up the remainder by the
/// next power of ten.
pub proof fn lemma_digit_step(gain: nat, place: nat)
    ensures
        gain % pow10(place + 1) == gain % pow10(place) + ((gain / pow10(place)) % 10) * pow10(
            place,
        ),
{
    let m = pow10(place) as int;
    lemma_pow10_grows(place, place);
    assert(pow10(place + 1) == 10 * pow10(place));
    let g = gain as int;
    let q = g / m;
    let r = g % m;
    lemma_fundamental_div_mod(g, m);
    lemma_mod_bound(g, m);
    lemma_div_pos_is_pos(g, m);
    let q10 = q / 10;
    let d = q % 10;
    lemma_fundamental_div_mod(q, 10);
    lemma_mod_bound(q, 10);
    assert(g == q10 * (10 * m) + (d * m + r)) by (nonlinear_arith)
        requires
            g == m * q + r,
            q == 10 * q10 + d,
    ;
    assert(0 <= d * m + r < 10 * m) by (nonlinear_arith)
        requires
            0 <= d <= 9,
            0 <= r < m,
    ;
    lemma_fundamental_div_mod_converse(g, 10 * m, q10, d * m + r);
}

/// The digits of a gain between two exponents it has digits for make up the
/// difference of two remainders.
pub proof fn lemma_digits_between(gain: u64, lo: int, hi: int)
    requires
        LOWEST_EXPONENT <= lo <= hi + 1,
        hi <= HIGHEST_EXPONENT,
    ensures
        digits_between(gain, lo, hi) == gain as nat % pow10((hi + DECIMALS + 1) as nat)
            - gain as nat % pow10((lo + DECIMALS) as nat),
    decreases hi - lo + 1,
{
    if hi >= lo {
        lemma_digits_between(gain, lo, hi - 1);
        lemma_digit_step(gain as nat, (hi + DECIMALS) as nat);
        assert(chosen(gain, gain, Seq::empty(), lo, hi) == contribution(gain, hi));
    }
}

/// A range that covers a gain holds all of it.
pub proof fn lemma_covered_digits(gain: u64, lo: int, hi: int)
    requires
        covers(gain, lo, hi),
    ensures
        digits_between(gain, lo, hi) == gain,
{
    lemma_pow10_values();
    let empty = Seq::<bool>::empty();
    // The part of the range for which a gain has digits.
    let a = if lo < LOWEST_EXPONENT {
        LOWEST_EXPONENT as int
    } else {
        lo
    };
    let b = if hi > HIGHEST_EXPONENT {
        HIGHEST_EXPONENT as int
    } else {
        hi
    };
    if hi < LOWEST_EXPONENT || lo > HIGHEST_EXPONENT {
        assert(false);
    }
    if hi > b {
        lemma_blend_skip(gain, gain, lo, b, hi, empty);
    }
    lemma_digits_split(gain, lo, a, b);
    if lo < a {
        lemma_blend_skip(gain, gain, lo, lo - 1, a - 1, empty);
    }
    lemma_digits_between(gain, a, b);
    let top = pow10((b + DECIMALS + 1) as nat);
    let bottom = pow10((a + DECIMALS) as nat);
    lemma_pow10_grows((b + DECIMALS + 1) as nat, 19);
    lemma_pow10_grows(0, (a + DECIMALS) as nat);
    if hi >= HIGHEST_EXPONENT {
        assert(top == pow10(19));
    }
    lemma_small_mod(gain as nat, top);
    if lo <= LOWEST_EXPONENT {
        assert(bottom == 1);
    }
}

/// The digits of a range are those of its lower part and those of its upper
/// part.
pub proof fn lemma_digits_split(gain: u64, lo: int, mid: int, hi: int)
    requires
        lo <= mid <= hi + 1,
    ensures
        digits_between(gain, lo, hi) == digits_between(gain, lo, mid - 1) + digits_between(
            gain,
            mid,
            hi,
        ),
    decreases hi - mid + 1,
{
    let empty = Seq::<bool>::empty();
    if hi >= mid {
        lemma_digits_split(gain, lo, mid, hi - 1);
        assert(chosen(gain, gain, empty, lo, hi) == chosen(gain, gain, empty, mid, hi));
    }
}

/// Where every pick keeps a digit with its own parent, and the range covers
/// both parents, each child is the parent it tracks.
pub proof fn lemma_crossover_identity(
    father: u64,
    mother: u64,
    lo: int,
    hi: int,
    picks: Seq<bool>,
)
    requires
        covers(father, lo, hi),
        covers(mother, lo, hi),
        forall|i: int| 0 <= i < span(lo, hi) ==> pick_at(picks, i),
    ensures
        blend(father, mother, lo, hi, picks) == father,
        blend(mother, father, lo, hi, picks) == mother,
{
    let empty = Seq::<bool>::empty();
    lemma_blend_congruent(father, mother, picks, father, father, empty, lo, hi);
    lemma_blend_congruent(mother, father, picks, mother, mother, empty, lo, hi);
    lemma_covered_digits(father, lo, hi);
    lemma_covered_digits(mother, lo, hi);
}

/// The largest unit draw that keeps a digit with its own parent: one half.
pub const HALF_UNIT: u32 = 0x80_0000;

/// Whether a unit draw keeps a digit with its own parent: the draw is at most
/// one half.
pub open spec fn keeps_own(unit: u32) -> bool {
    unit <= HALF_UNIT
}

/// What the digits with one exponent add to the two children: to the first what
/// the father's digit contributes and to the second what the mother's does
/// where `keep` holds, the other way round where it does not.
pub open spec fn exchanged(father: u64, mother: u64, exponent: int, keep: bool) -> (nat, nat) {
    if keep {
        (contribution(father, exponent), contribution(mother, exponent))
    } else {
        (contribution(mother, exponent), contribution(father, exponent))
    }
}

/// The children `(first, second)` come from the parents by exchanging digits
/// with exponents from `lo` to `hi` under some sequence of picks, one for each
/// exponent.
pub open spec fn recombination_of(
    father: u64,
    mother: u64,
    lo: int,
    hi: int,
    first: u64,
    second: u64,
) -> bool {
    exists|picks: Seq<bool>|
        picks.len() == span(lo, hi) && first == #[trigger] blend(father, mother, lo, hi, picks)
            && second == blend(mother, father, lo, hi, picks)
}

/// What the digits with exponent `exponent` add to the two children under a
/// given pick.
pub fn exchange_digit(father: u64, mother: u64, exponent: i32, keep: bool) -> (r: (u64, u64))
    ensures
        (r.0 as nat, r.1 as nat) == exchanged(father, mother, exponent as int, keep),
        r.0 <= 9_000_000_000_000_000_000,
        r.1 <= 9_000_000_000_000_000_000,
{
    let w: u64 = weight_of(exponent);
    let fd: u64 = digit_of(father, exponent);
    let md: u64 = digit_of(mother, exponent);
    assert(fd * w <= 9_000_000_000_000_000_000 && md * w <= 9_000_000_000_000_000_000)
        by (nonlinear_arith)
        requires
            fd <= 9,
            md <= 9,
            w <= 1_000_000_000_000_000_000,
    ;
    let f: u64 = fd * w;
    let m: u64 = md * w;
    if keep {
        (f, m)
    } else {
        (m, f)
    }
}

/// Exchanges the digits with exponent `digit` under a pick drawn from `rng`:
/// the digits stay with their own parents where the unit draw is at most one
/// half.
pub fn crossover_digit(father: u64, mother: u64, digit: i32, rng: &mut StdRng) -> (r: (u64, u64))
    ensures
        (r.0 as nat, r.1 as nat) == exchanged(father, mother, digit as int, true) || (
        r.0 as nat,
        r.1 as nat,
        ) == exchanged(father, mother, digit as int, false),
{
    let unit: u32 = next_unit(rng);
    exchange_digit(father, mother, digit, unit <= HALF_UNIT)
}

/// The two children of one gain of each parent under given picks, one for each
/// exponent of `digit_range` from its lower end upwards.
pub fn recombine(father: u64, mother: u64, digit_range: (i32, i32), picks: &Vec<bool>) -> (r: (
    u64,
    u64,
))
    ensures
        r.0 == blend(father, mother, digit_range.0 as int, digit_range.1 as int, picks@),
        r.1 == blend(mother, father, digit_range.0 as int, digit_range.1 as int, picks@),
        r.0 <= GAIN_MAX,
        r.1 <= GAIN_MAX,
{
    proof {
        lemma_blend_bound(father, mother, digit_range.0 as int, digit_range.1 as int, picks@);
        lemma_blend_bound(mother, father, digit_range.0 as int, digit_range.1 as int, picks@);
    }
    let lo: i64 = digit_range.0 as i64;
    let hi: i64 = digit_range.1 as i64;
    let start: i64 = if lo < -10 {
        -10
    } else {
        lo
    };
    let end: i64 = if hi > 8 {
        8
    } else {
        hi
    };
    if start > end {
        proof {
            if lo <= hi {
                lemma_blend_skip(father, mother, lo as int, lo - 1, hi as int, picks@);
                lemma_blend_skip(mother, father, lo as int, lo - 1, hi as int, picks@);
            }
        }
        return (0, 0);
    }
    proof {
        if lo < start {
            lemma_blend_skip(father, mother, lo as int, lo - 1, start - 1, picks@);
            lemma_blend_skip(mother, father, lo as int, lo - 1, start - 1, picks@);
        }
    }
    let mut first: u64 = 0;
    let mut second: u64 = 0;
    let mut e: i64 = start;
    while e <= end
        invariant
            lo == digit_range.0,
            -10 <= start <= e <= end + 1,
            end <= 8,
            lo <= start,
            first == blend(father, mother, lo as int, e - 1, picks@),
            second == blend(mother, father, lo as int, e - 1, picks@),
        decreases end - e + 1,
    {
        let at: i64 = e - lo;
        let keep: bool = if (at as u64) < (picks.len() as u64) {
            picks[at as usize]
        } else {
            true
        };
        let parts = exchange_digit(father, mother, e as i32, keep);
        proof {
            lemma_blend_bound(father, mother, lo as int, e as int, picks@);
            lemma_blend_bound(mother, father, lo as int, e as int, picks@);
        }
        first = first + parts.0;
        second = second + parts.1;
        e = e + 1;
    }
    proof {
        if hi > end {
            lemma_blend_skip(father, mother, lo as int, end as int, hi as int, picks@);
            lemma_blend_skip(mother, father, lo as int, end as int, hi as int, picks@);
        }
    }
    (first, second)
}

/// The two children of one gain of each parent: for every exponent of
/// `digit_range`, from its lower end upwards, one pick is drawn from `rng` and
/// the digits with that exponent are exchanged under it.
pub fn crossover_gain(father: u64, mother: u64, digit_range: (i32, i32), rng: &mut StdRng) -> (r: (
    u64,
    u64,
))
    ensures
        recombination_of(father, mother, digit_range.0 as int, digit_range.1 as int, r.0, r.1),
        r.0 <= GAIN_MAX,
        r.1 <= GAIN_MAX,
{
    let lo: i64 = digit_range.0 as i64;
    let hi: i64 = digit_range.1 as i64;
    let mut first: u64 = 0;
    let mut second: u64 = 0;
    let mut e: i64 = lo;
    let ghost mut picks: Seq<bool> = Seq::empty();
    while e <= hi
        invariant
            lo == digit_range.0,
            hi == digit_range.1,
            lo <= e,
            e <= hi + 1 || (hi < lo && e == lo),
            picks.len() == e - lo,
            first == blend(father, mother, lo as int, e - 1, picks),
            second == blend(mother, father, lo as int, e - 1, picks),
        decreases hi - e + 1,
    {
        let parts = crossover_digit(father, mother, e as i32, rng);
        proof {
            let keep = (parts.0 as nat, parts.1 as nat) == exchanged(father, mother, e as int, true);
            let grown = picks.push(keep);
            assert forall|x: int| lo <= x <= e - 1 implies #[trigger] chosen(
                father,
                mother,
                grown,
                lo as int,
                x,
            ) == chosen(father, mother, picks, lo as int, x) by {
                assert(grown[x - lo] == picks[x - lo]);
            }
            assert forall|x: int| lo <= x <= e - 1 implies #[trigger] chosen(
                mother,
                father,
                grown,
                lo as int,
                x,
            ) == chosen(mother, father, picks, lo as int, x) by {
                assert(grown[x - lo] == picks[x - lo]);
            }
            lemma_blend_congruent(father, mother, grown, father, mother, picks, lo as int, e - 1);
            lemma_blend_congruent(mother, father, grown, mother, father, picks, lo as int, e - 1);
            assert(pick_at(grown, e - lo) == keep);
            picks = grown;
            lemma_blend_bound(father, mother, lo as int, e as int, picks);
            lemma_blend_bound(mother, father, lo as int, e as int, picks);
        }
        first = first + parts.0;
        second = second + parts.1;
        e = e + 1;
    }
    assert(picks.len() == span(lo as int, hi as int));
    assert(first == blend(father, mother, lo as int, hi as int, picks));
    assert(second == blend(mother, father, lo as int, hi as int, picks));
    proof {
        lemma_blend_bound(father, mother, lo as int, hi as int, picks);
        lemma_blend_bound(mother, father, lo as int, hi as int, picks);
    }
    (first, second)
}

/// Whether a gain is perturbed: the decision draw, as a fraction of the unit
/// range, is strictly below the rate, as a fraction of `ONE`.
pub open spec fn decides(rate: i64, decision: u32) -> bool {
    decision * ONE < rate * UNIT_RANGE
}

/// The perturbation that the amount draw stands for: with `t` the draw as a
/// fraction of the unit range, `(1 - t) * (-step) + t * step`, rounded down.
pub open spec fn perturbation(step: u64, amount: u32) -> int {
    (step * (2 * amount - UNIT_RANGE)) / (UNIT_RANGE as int)
}

/// The gain nearest to `value`.
pub open spec fn clamped(value: int) -> u64 {
    if value < 0 {
        0
    } else if value > GAIN_MAX {
        GAIN_MAX
    } else {
        value as u64
    }
}

/// A gain after mutation and before it is brought back among the gains.
pub open spec fn unclamped(gain: u64, rate: i64, step: u64, decision: u32, amount: u32) -> int {
    if decides(rate, decision) {
        gain + perturbation(step, amount)
    } else {
        gain as int
    }
}

/// A gain after mutation under the two draws.
pub open spec fn mutated(gain: u64, rate: i64, step: u64, decision: u32, amount: u32) -> u64 {
    clamped(unclamped(gain, rate, step, decision, amount))
}

/// `result` is what mutation makes of `gain` under some pair of unit draws.
pub open spec fn mutation_of(gain: u64, rate: i64, step: u64, result: u64) -> bool {
    exists|decision: u32, amount: u32|
        decision < UNIT_RANGE && amount < UNIT_RANGE && result == #[trigger] mutated(
            gain,
            rate,
            step,
            decision,
            amount,
        )
}

/// The share of `max` that a unit draw stands for, rounded down.
pub open spec fn scaled(max: u64, unit: u32) -> nat {
    (max as nat * unit as nat) / (UNIT_RANGE as nat)
}

/// Dividing a negative number rounds towards minus infinity.
proof fn lemma_floor_of_negative(m: int, d: int)
    requires
        0 <= m,
        0 < d,
    ensures
        (-m) / d == -((m + d - 1) / d),
{
    let q = (m + d - 1) / d;
    lemma_fundamental_div_mod(m + d - 1, d);
    lemma_mod_bound(m + d - 1, d);
    assert(-m == (-q) * d + (q * d - m)) by (nonlinear_arith);
    assert(0 <= q * d - m < d) by (nonlinear_arith)
        requires
            m + d - 1 == d * q + (m + d - 1) % d,
            0 <= (m + d - 1) % d < d,
    ;
    lemma_fundamental_div_mod_converse(-m, d, -q, q * d - m);
}

/// A perturbation never exceeds the step in either direction.
pub proof fn lemma_perturbation_bound(step: u64, amount: u32)
    requires
        amount < UNIT_RANGE,
    ensures
        -(step as int) <= perturbation(step, amount) <= step as int,
{
    let r = UNIT_RANGE as int;
    let n = step * (2 * amount - r);
    lemma_fundamental_div_mod(n, r);
    lemma_mod_bound(n, r);
    let q = n / r;
    assert(-(step as int) <= q <= step as int) by (nonlinear_arith)
        requires
            n == r * q + n % r,
            0 <= n % r < r,
            n == step * (2 * amount - r),
            0 <= amount < r,
            r == 0x100_0000,
            0 <= step,
    ;
}

/// Mutation moves a gain by at most the step before the result is brought back
/// among the gains, whatever is drawn.
pub proof fn lemma_mutation_bound(gain: u64, rate: i64, step: u64, decision: u32, amount: u32)
    requires
        amount < UNIT_RANGE,
    ensures
        gain - step <= unclamped(gain, rate, step, decision, amount) <= gain + step,
        mutated(gain, rate, step, decision, amount) == clamped(
            unclamped(gain, rate, step, decision, amount),
        ),
{
    lemma_perturbation_bound(step, amount);
}

/// Whether a gain is perturbed under the given decision draw.
pub fn decides_to_mutate(rate: i64, decision: u32) -> (r: bool)
    ensures
        r == decides(rate, decision),
{
    if rate <= 0 {
        assert(rate * UNIT_RANGE <= 0) by (nonlinear_arith)
            requires
                rate <= 0,
        ;
        assert(decision * ONE >= 0) by (nonlinear_arith);
        false
    } else {
        assert(decision * ONE < 0x1_0000_0000 * 10_000_000_000) by (nonlinear_arith)
            requires
                decision < 0x1_0000_0000,
        ;
        assert(0 < rate * 0x100_0000 < 0x8000_0000_0000_0000 * 0x100_0000) by (nonlinear_arith)
            requires
                0 < rate < 0x8000_0000_0000_0000,
        ;
        let left: u128 = (decision as u128) * (ONE as u128);
        let right: u128 = (rate as u128) * (UNIT_RANGE as u128);
        left < right
    }
}

/// A gain after mutation under two given unit draws: `decision` settles
/// whether the gain is perturbed, `amount` by how much.
pub fn mutate_gain_with(gain: u64, rate: i64, step: u64, decision: u32, amount: u32) -> (r: u64)
    ensures
        r == mutated(gain, rate, step, decision, amount),
        r <= GAIN_MAX,
{
    if !decides_to_mutate(rate, decision) {
        return if gain > GAIN_MAX {
            GAIN_MAX
        } else {
            gain
        };
    }
    let twice: u64 = 2 * (amount as u64);
    if twice >= 0x100_0000 {
        let factor: u64 = twice - 0x100_0000;
        assert(step * factor < 0x1_0000_0000_0000_0000 * 0x2_0000_0000) by (nonlinear_arith)
            requires
                step < 0x1_0000_0000_0000_0000,
                factor < 0x2_0000_0000,
        ;
        let up: u128 = (step as u128) * (factor as u128);
        let q: u128 = up / 0x100_0000;
        let raw: u128 = gain as u128 + q;
        if raw > GAIN_MAX as u128 {
            GAIN_MAX
        } else {
            raw as u64
        }
    } else {
        let factor: u64 = 0x100_0000 - twice;
        assert(step * factor <= 0x1_0000_0000_0000_0000 * 0x100_0000) by (nonlinear_arith)
            requires
                step < 0x1_0000_0000_0000_0000,
                factor <= 0x100_0000,
        ;
        let down: u128 = (step as u128) * (factor as u128);
        let q: u128 = (down + 0xff_ffff) / 0x100_0000;
        proof {
            lemma_floor_of_negative(down as int, 0x100_0000);
            assert(step * (2 * amount - UNIT_RANGE) == -(down as int)) by (nonlinear_arith)
                requires
                    down == step * factor,
                    factor == 0x100_0000 - 2 * amount,
                    UNIT_RANGE == 0x100_0000,
            ;
        }
        if q >= gain as u128 {
            0
        } else {
            let raw: u128 = gain as u128 - q;
            if raw > GAIN_MAX as u128 {
                GAIN_MAX
            } else {
                raw as u64
            }
        }
    }
}

/// Mutates one gain with draws from `rng`: a first unit draw settles whether
/// the gain is perturbed; only if it is, a second one settles by how much.
pub fn mutate_gain(gain: u64, rate: i64, step: u64, rng: &mut StdRng) -> (r: u64)
    ensures
        mutation_of(gain, rate, step, r),
        r <= GAIN_MAX,
{
    let decision: u32 = next_unit(rng);
    if decides_to_mutate(rate, decision) {
        let amount: u32 = next_unit(rng);
        mutate_gain_with(gain, rate, step, decision, amount)
    } else {
        let r = mutate_gain_with(gain, rate, step, decision, 0);
        assert(r == mutated(gain, rate, step, decision, 0));
        r
    }
}

/// The share of `max` that a unit draw stands for.
pub fn scale_unit(max: u64, unit: u32) -> (r: u64)
    requires
        unit < UNIT_RANGE,
    ensures
        r == scaled(max, unit),
        r <= max,
{
    assert(max * unit <= 0x1_0000_0000_0000_0000 * 0x100_0000) by (nonlinear_arith)
        requires
            max < 0x1_0000_0000_0000_0000,
            unit < 0x100_0000,
    ;
    let product: u128 = (max as u128) * (unit as u128);
    let q: u128 = product / 0x100_0000;
    assert(q <= max) by (nonlinear_arith)
        requires
            q == product / 0x100_0000,
            product == max * unit,
            unit < 0x100_0000,
            0 <= max,
    ;
    q as u64
}

/// `gain` is the share of `max` that some unit draw stands for.
pub open spec fn share_of(max: u64, gain: u64) -> bool {
    exists|unit: u32| unit < UNIT_RANGE && gain == #[trigger] scaled(max, unit)
}

/// A gain drawn uniformly between zero and `max`: the share of `max` that one
/// unit draw from `rng` stands for.
pub fn random_gain(max: u64, rng: &mut StdRng) -> (r: u64)
    ensures
        share_of(max, r),
        r <= max,
{
    let unit: u32 = next_unit(rng);
    scale_unit(max, unit)
}

} // verus!
