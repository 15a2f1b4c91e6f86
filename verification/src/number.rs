//! The numbers of the text formats: counts, and coordinates in decimal
//! notation, which are read onto the grid.

use crate::text::{
    all_digits, copy_range, find, find_byte, is_digit, lemma_value_grows, lemma_value_nonnegative,
    value,
};
use vstd::prelude::*;

verus! {

/// Grid steps per unit of length: a coordinate is read to the nearest
/// thousandth, and a cost is written in units with its thousandths.
pub const GRID: u64 = 1000;

/// No coordinate on the grid is further from zero than this, in grid steps.
pub const REACH: u64 = 0x8000_0000;

/// Ten to the power of `n`.
pub open spec fn pow10(n: nat) -> nat
    decreases n,
{
    if n == 0 {
        1
    } else {
        10 * pow10((n - 1) as nat)
    }
}

/// The number that the digits spell, if they are digits and the number is at
/// most `bound`. No digits spell zero.
pub open spec fn bounded_of(s: Seq<u8>, bound: int) -> Option<u64> {
    if all_digits(s) && value(s) <= bound && value(s) <= u64::MAX {
        Some(value(s) as u64)
    } else {
        None
    }
}

/// A field starts with a sign.
pub open spec fn has_sign(s: Seq<u8>) -> bool {
    s.len() > 0 && (s[0] == 45 || s[0] == 43)
}

/// A field starts with a minus sign.
pub open spec fn has_minus(s: Seq<u8>) -> bool {
    s.len() > 0 && s[0] == 45
}

/// The field without its sign.
pub open spec fn unsigned_part(s: Seq<u8>) -> Seq<u8> {
    if has_sign(s) {
        s.subrange(1, s.len() as int)
    } else {
        s
    }
}

/// The digits of a count: the field, without a plus sign at its start.
pub open spec fn count_digits(s: Seq<u8>) -> Seq<u8> {
    if s.len() > 0 && s[0] == 43 {
        s.subrange(1, s.len() as int)
    } else {
        s
    }
}

/// The count that a field spells: one digit or more, with or without a plus
/// sign before them, and a number that a `usize` holds.
pub open spec fn count_of(s: Seq<u8>) -> Option<usize> {
    let digits = count_digits(s);
    if digits.len() > 0 && all_digits(digits) && value(digits) <= usize::MAX {
        Some(value(digits) as usize)
    } else {
        None
    }
}

/// The place of the letter that starts the exponent, `e` or `E`; the length
/// where there is none.
pub open spec fn exponent_mark(body: Seq<u8>) -> int {
    let small = find(body, 0, 101);
    let large = find(body, 0, 69);
    if small <= large {
        small
    } else {
        large
    }
}

/// What stands before the exponent, without the sign.
pub open spec fn mantissa(s: Seq<u8>) -> Seq<u8> {
    unsigned_part(s).subrange(0, exponent_mark(unsigned_part(s)))
}

/// The field has an exponent.
pub open spec fn has_exponent(s: Seq<u8>) -> bool {
    exponent_mark(unsigned_part(s)) < unsigned_part(s).len()
}

/// What stands behind the letter of the exponent; nothing where there is no
/// exponent.
pub open spec fn exponent_text(s: Seq<u8>) -> Seq<u8> {
    let body = unsigned_part(s);
    if has_exponent(s) {
        body.subrange(exponent_mark(body) + 1, body.len() as int)
    } else {
        Seq::empty()
    }
}

/// The digits before the decimal point.
pub open spec fn whole_part(s: Seq<u8>) -> Seq<u8> {
    mantissa(s).subrange(0, find(mantissa(s), 0, 46))
}

/// The digits behind the decimal point; none where there is no point.
pub open spec fn fraction_part(s: Seq<u8>) -> Seq<u8> {
    let m = mantissa(s);
    let dot = find(m, 0, 46);
    if dot < m.len() {
        m.subrange(dot + 1, m.len() as int)
    } else {
        Seq::empty()
    }
}

/// The exponent: the number behind its letter, with its sign; zero where there
/// is no exponent.
pub open spec fn exponent_of(s: Seq<u8>) -> int {
    let size = value(unsigned_part(exponent_text(s)));
    if has_minus(exponent_text(s)) {
        -size
    } else {
        size
    }
}

/// The field spells a number in decimal notation: an optional sign; digits,
/// and optionally a point and more digits, with one digit at least before or
/// behind the point; and optionally an exponent, which is `e` or `E`, an
/// optional sign, and one digit or more.
pub open spec fn is_decimal(s: Seq<u8>) -> bool {
    &&& all_digits(whole_part(s))
    &&& all_digits(fraction_part(s))
    &&& whole_part(s).len() + fraction_part(s).len() > 0
    &&& has_exponent(s) ==> unsigned_part(exponent_text(s)).len() > 0 && all_digits(
        unsigned_part(exponent_text(s)),
    )
}

/// The number that the digits spell when a decimal point stands before place
/// `point` of them, to the nearest whole number: what is behind the point is
/// cut off, and rounds up where it starts with five or more. A point behind
/// the digits fills up with zeros, and a point before them leaves nothing.
pub open spec fn rounded_at(digits: Seq<u8>, point: int) -> int {
    if point < 0 {
        0
    } else if point >= digits.len() {
        value(digits) * pow10((point - digits.len()) as nat)
    } else {
        value(digits.subrange(0, point)) + (if digits[point] >= 53 {
            1int
        } else {
            0int
        })
    }
}

/// Where the decimal point stands among the digits, when the number is taken
/// in grid steps: three places behind where the exponent puts it.
pub open spec fn grid_point(s: Seq<u8>) -> int {
    whole_part(s).len() + exponent_of(s) + 3
}

/// The number that a field spells, in grid steps and to the nearest step,
/// whether it fits the grid or not.
pub open spec fn grid_value(s: Seq<u8>) -> int {
    let size = rounded_at(whole_part(s) + fraction_part(s), grid_point(s));
    if has_minus(s) {
        -size
    } else {
        size
    }
}

/// The coordinate that a field spells, in grid steps, if the field spells a
/// number and the grid reaches that far.
pub open spec fn coordinate_of(s: Seq<u8>) -> Option<i32> {
    if is_decimal(s) && i32::MIN <= grid_value(s) <= i32::MAX {
        Some(grid_value(s) as i32)
    } else {
        None
    }
}

/// Every byte is the digit zero.
pub open spec fn all_zeros(s: Seq<u8>) -> bool {
    forall|k: int| 0 <= k < s.len() ==> #[trigger] s[k] == 48
}

/// Powers of ten are at least one, and grow with the exponent.
pub proof fn lemma_pow10_grows(a: nat, b: nat)
    requires
        a <= b,
    ensures
        1 <= pow10(a) <= pow10(b),
    decreases b,
{
    if b > 0 {
        if a < b {
            lemma_pow10_grows(a, (b - 1) as nat);
        } else {
            lemma_pow10_grows((a - 1) as nat, (b - 1) as nat);
        }
    }
}

/// Digits spell a number below ten to the power of their count.
pub proof fn lemma_value_below(s: Seq<u8>)
    requires
        all_digits(s),
    ensures
        0 <= value(s) < pow10(s.len()),
    decreases s.len(),
{
    if s.len() > 0 {
        assert(is_digit(s.last()));
        assert forall|k: int| 0 <= k < s.drop_last().len() implies is_digit(
            #[trigger] s.drop_last()[k],
        ) by {
            assert(s.drop_last()[k] == s[k]);
        }
        lemma_value_below(s.drop_last());
    }
}

/// Zeros spell zero, wherever the decimal point stands.
pub proof fn lemma_zeros(s: Seq<u8>, point: int)
    requires
        all_zeros(s),
    ensures
        all_digits(s),
        value(s) == 0,
        rounded_at(s, point) == 0,
    decreases s.len(),
{
    assert forall|k: int| 0 <= k < s.len() implies is_digit(#[trigger] s[k]) by {
        assert(s[k] == 48);
    }
    if s.len() > 0 {
        assert(s.last() == 48);
        assert forall|k: int| 0 <= k < s.drop_last().len() implies #[trigger] s.drop_last()[k]
            == 48 by {
            assert(s.drop_last()[k] == s[k]);
        }
        lemma_zeros(s.drop_last(), point);
    }
    if 0 <= point < s.len() {
        lemma_value_grows(s, point);
        assert(s[point] == 48);
    }
    if point >= s.len() {
        assert(value(s) * pow10((point - s.len()) as nat) == 0) by (nonlinear_arith)
            requires
                value(s) == 0,
        ;
    }
}

/// Digits that are not all zero spell a number that is not zero.
pub proof fn lemma_value_positive(s: Seq<u8>)
    requires
        all_digits(s),
        !all_zeros(s),
    ensures
        value(s) >= 1,
    decreases s.len(),
{
    let k = choose|k: int| 0 <= k < s.len() && s[k] != 48;
    assert(is_digit(s.last()));
    assert forall|j: int| 0 <= j < s.drop_last().len() implies is_digit(
        #[trigger] s.drop_last()[j],
    ) by {
        assert(s.drop_last()[j] == s[j]);
    }
    lemma_value_nonnegative(s.drop_last());
    if k < s.len() - 1 {
        assert(s.drop_last()[k] != 48);
        lemma_value_positive(s.drop_last());
    } else {
        assert(is_digit(s[k]));
    }
}

/// With the decimal point ten places or more behind digits that are not all
/// zero, the number is beyond the reach of the grid.
pub proof fn lemma_far_off(s: Seq<u8>, point: int)
    requires
        all_digits(s),
        !all_zeros(s),
        point >= s.len() + 10,
    ensures
        rounded_at(s, point) > REACH,
{
    lemma_value_positive(s);
    lemma_pow10_grows(10, (point - s.len()) as nat);
    assert(pow10(10) == 10_000_000_000) by {
        reveal_with_fuel(pow10, 11);
    }
    let v = value(s);
    let p = pow10((point - s.len()) as nat);
    assert(v * p >= 10_000_000_000) by (nonlinear_arith)
        requires
            v >= 1,
            p >= 10_000_000_000,
    ;
}

/// Whether every byte is a digit.
pub fn only_digits(s: &[u8]) -> (r: bool)
    ensures
        r == all_digits(s@),
{
    let mut k: usize = 0;
    while k < s.len()
        invariant
            k <= s@.len(),
            forall|j: int| 0 <= j < k ==> is_digit(#[trigger] s@[j]),
        decreases s@.len() - k,
    {
        if s[k] < 48 || s[k] > 57 {
            assert(!is_digit(s@[k as int]));
            return false;
        }
        k = k + 1;
    }
    true
}

/// Whether every byte is the digit zero.
pub fn only_zeros(s: &[u8]) -> (r: bool)
    ensures
        r == all_zeros(s@),
{
    let mut k: usize = 0;
    while k < s.len()
        invariant
            k <= s@.len(),
            forall|j: int| 0 <= j < k ==> #[trigger] s@[j] == 48,
        decreases s@.len() - k,
    {
        if s[k] != 48 {
            return false;
        }
        k = k + 1;
    }
    true
}

/// The number that the digits spell, if they are digits and the number is at
/// most `bound`.
pub fn parse_bounded(s: &[u8], bound: u64) -> (r: Option<u64>)
    ensures
        r == bounded_of(s@, bound as int),
        r is Some <==> all_digits(s@) && value(s@) <= bound,
        r matches Some(v) ==> v == value(s@),
{
    let mut acc: u64 = 0;
    let mut k: usize = 0;
    proof {
        assert(s@.subrange(0, 0) =~= Seq::<u8>::empty());
    }
    while k < s.len()
        invariant
            k <= s@.len(),
            all_digits(s@.subrange(0, k as int)),
            acc == value(s@.subrange(0, k as int)),
            acc <= bound,
        decreases s@.len() - k,
    {
        let b: u8 = s[k];
        if b < 48 || b > 57 {
            assert(!is_digit(s@[k as int]));
            return None;
        }
        let next: u128 = (acc as u128) * 10 + ((b - 48) as u128);
        proof {
            let longer = s@.subrange(0, k + 1);
            assert(longer.drop_last() =~= s@.subrange(0, k as int));
            assert(longer.last() == b);
            assert(value(longer) == next);
            assert forall|j: int| 0 <= j < longer.len() implies is_digit(#[trigger] longer[j]) by {
                if j < k {
                    assert(longer[j] == s@.subrange(0, k as int)[j]);
                }
            }
        }
        if next > bound as u128 {
            proof {
                if all_digits(s@) {
                    lemma_value_grows(s@, k + 1);
                }
            }
            return None;
        }
        acc = next as u64;
        k = k + 1;
    }
    proof {
        assert(s@.subrange(0, k as int) =~= s@);
    }
    Some(acc)
}

/// The count that a field spells, if it spells one.
pub fn parse_count(s: &[u8]) -> (r: Option<usize>)
    ensures
        r == count_of(s@),
{
    let start: usize = if s.len() > 0 && s[0] == 43 {
        1
    } else {
        0
    };
    let digits: Vec<u8> = copy_range(s, start, s.len());
    assert(digits@ =~= count_digits(s@));
    if digits.len() == 0 {
        return None;
    }
    let bound: u64 = usize::MAX as u64;
    assert(bound == usize::MAX);
    match parse_bounded(digits.as_slice(), bound) {
        Some(v) => Some(v as usize),
        None => None,
    }
}

/// The bytes of `a`, and those of `b` behind them.
pub fn join(a: &[u8], b: &[u8]) -> (both: Vec<u8>)
    ensures
        both@ == a@ + b@,
{
    let mut both: Vec<u8> = copy_range(a, 0, a.len());
    assert(both@ =~= a@);
    let mut k: usize = 0;
    while k < b.len()
        invariant
            k <= b@.len(),
            both@ == a@ + b@.subrange(0, k as int),
        decreases b@.len() - k,
    {
        both.push(b[k]);
        proof {
            assert(both@ =~= a@ + b@.subrange(0, k + 1));
        }
        k = k + 1;
    }
    assert(b@.subrange(0, k as int) =~= b@);
    both
}

/// `v` times ten to the power of `shift`, if that is within the reach of the
/// grid.
pub fn times_pow10(v: u64, shift: u8) -> (r: Option<u64>)
    requires
        v <= REACH,
        shift <= 9,
    ensures
        r is Some <==> v * pow10(shift as nat) <= REACH,
        r matches Some(w) ==> w == v * pow10(shift as nat),
{
    let mut acc: u64 = v;
    let mut k: u8 = 0;
    assert(v * pow10(0) == v) by (nonlinear_arith)
        requires
            pow10(0) == 1,
    ;
    while k < shift
        invariant
            k <= shift <= 9,
            acc == v * pow10(k as nat),
            acc <= REACH,
        decreases shift - k,
    {
        let ghost before = pow10(k as nat);
        let ghost after = pow10((k + 1) as nat);
        assert(after == 10 * before);
        assert(v * after == (v * before) * 10) by (nonlinear_arith)
            requires
                after == 10 * before,
        ;
        if acc * 10 > REACH {
            proof {
                lemma_pow10_grows((k + 1) as nat, shift as nat);
                let last = pow10(shift as nat);
                assert(v * last >= v * after) by (nonlinear_arith)
                    requires
                        last >= after,
                        v >= 0,
                ;
            }
            return None;
        }
        acc = acc * 10;
        k = k + 1;
    }
    Some(acc)
}

/// The number that the digits spell when a decimal point stands before place
/// `point` of them, to the nearest whole number, if that is within the reach
/// of the grid.
pub fn round_at(digits: &[u8], point: i128) -> (r: Option<u64>)
    requires
        all_digits(digits@),
        !all_zeros(digits@),
    ensures
        r is Some <==> rounded_at(digits@, point as int) <= REACH,
        r matches Some(v) ==> v == rounded_at(digits@, point as int),
{
    let len: usize = digits.len();
    proof {
        lemma_value_nonnegative(digits@);
    }
    if point < 0 {
        return Some(0);
    }
    if point >= len as i128 {
        let shift: i128 = point - len as i128;
        if shift >= 10 {
            proof {
                lemma_far_off(digits@, point as int);
            }
            return None;
        }
        proof {
            lemma_pow10_grows(0, shift as nat);
        }
        match parse_bounded(digits, REACH) {
            Some(v) => times_pow10(v, shift as u8),
            None => {
                proof {
                    let v = value(digits@);
                    let p = pow10(shift as nat);
                    assert(v * p >= v) by (nonlinear_arith)
                        requires
                            p >= 1,
                            v >= 0,
                    ;
                }
                None
            },
        }
    } else {
        let head: Vec<u8> = copy_range(digits, 0, point as usize);
        let up: u64 = if digits[point as usize] >= 53 {
            1
        } else {
            0
        };
        proof {
            assert forall|k: int| 0 <= k < head@.len() implies is_digit(#[trigger] head@[k]) by {
                assert(head@[k] == digits@[k]);
            }
        }
        match parse_bounded(head.as_slice(), REACH) {
            Some(v) => {
                if v + up > REACH {
                    None
                } else {
                    Some(v + up)
                }
            },
            None => None,
        }
    }
}

/// The exponent is so large that no place among the digits is as far from
/// their start: behind the exponent's letter stand six digits at least.
proof fn lemma_huge_exponent(digits: Seq<u8>)
    requires
        all_digits(digits),
        value(digits) > u64::MAX,
    ensures
        digits.len() >= 6,
{
    lemma_value_below(digits);
    if digits.len() < 6 {
        lemma_pow10_grows(digits.len(), 5);
        assert(pow10(5) == 100_000) by {
            reveal_with_fuel(pow10, 6);
        }
    }
}

/// The parts of a field that may spell a number.
pub struct Parts {
    pub negative: bool,
    pub whole: Vec<u8>,
    pub fraction: Vec<u8>,
    pub exponent: bool,
    pub exponent_negative: bool,
    pub exponent_digits: Vec<u8>,
}

/// Takes a field apart: its sign, what stands before and behind the decimal
/// point, and its exponent with its sign.
pub fn take_apart(s: &[u8]) -> (parts: Parts)
    ensures
        parts.negative == has_minus(s@),
        parts.whole@ == whole_part(s@),
        parts.fraction@ == fraction_part(s@),
        parts.exponent == has_exponent(s@),
        parts.exponent_negative == has_minus(exponent_text(s@)),
        parts.exponent_digits@ == unsigned_part(exponent_text(s@)),
        parts.whole@.len() + parts.fraction@.len() + parts.exponent_digits@.len() <= s@.len(),
{
    let len: usize = s.len();
    let signed: bool = len > 0 && (s[0] == 45 || s[0] == 43);
    let negative: bool = len > 0 && s[0] == 45;
    let start: usize = if signed {
        1
    } else {
        0
    };
    let body: Vec<u8> = copy_range(s, start, len);
    assert(body@ =~= unsigned_part(s@));
    let small: usize = find_byte(body.as_slice(), 0, 101);
    let large: usize = find_byte(body.as_slice(), 0, 69);
    let mark: usize = if small <= large {
        small
    } else {
        large
    };
    let (whole, fraction) = split_at_point(body.as_slice(), mark);
    let text: Vec<u8> = if mark < body.len() {
        copy_range(body.as_slice(), mark + 1, body.len())
    } else {
        Vec::new()
    };
    assert(text@ =~= exponent_text(s@));
    let exponent_signed: bool = text.len() > 0 && (text[0] == 45 || text[0] == 43);
    let exponent_negative: bool = text.len() > 0 && text[0] == 45;
    let exponent_start: usize = if exponent_signed {
        1
    } else {
        0
    };
    let exponent_digits: Vec<u8> = copy_range(text.as_slice(), exponent_start, text.len());
    assert(exponent_digits@ =~= unsigned_part(text@));
    Parts {
        negative,
        whole,
        fraction,
        exponent: mark < body.len(),
        exponent_negative,
        exponent_digits,
    }
}

/// What stands before and behind the decimal point in the first `mark` bytes.
fn split_at_point(body: &[u8], mark: usize) -> (parts: (Vec<u8>, Vec<u8>))
    requires
        mark <= body@.len(),
    ensures
        ({
            let m = body@.subrange(0, mark as int);
            let dot = find(m, 0, 46);
            &&& parts.0@ == m.subrange(0, dot)
            &&& parts.1@ == (if dot < m.len() {
                m.subrange(dot + 1, m.len() as int)
            } else {
                Seq::empty()
            })
            &&& parts.0@.len() + parts.1@.len() <= mark
        }),
{
    let mant: Vec<u8> = copy_range(body, 0, mark);
    let dot: usize = find_byte(mant.as_slice(), 0, 46);
    let whole: Vec<u8> = copy_range(mant.as_slice(), 0, dot);
    let fraction: Vec<u8> = if dot < mant.len() {
        copy_range(mant.as_slice(), dot + 1, mant.len())
    } else {
        Vec::new()
    };
    (whole, fraction)
}

/// The number that the digits before and behind the decimal point spell with
/// the exponent, in grid steps and to the nearest step, if that is within the
/// reach of the grid.
pub fn grid_size(
    whole: &[u8],
    fraction: &[u8],
    exponent_negative: bool,
    exponent_digits: &[u8],
) -> (r: Option<u64>)
    requires
        all_digits(whole@),
        all_digits(fraction@),
        all_digits(exponent_digits@),
        whole@.len() + fraction@.len() + exponent_digits@.len() <= usize::MAX,
    ensures
        ({
            let exponent = if exponent_negative {
                -value(exponent_digits@)
            } else {
                value(exponent_digits@)
            };
            let size = rounded_at(whole@ + fraction@, whole@.len() + exponent + 3);
            &&& r is Some <==> size <= REACH
            &&& r matches Some(v) ==> v == size
        }),
{
    let digits: Vec<u8> = join(whole, fraction);
    let ghost exponent = if exponent_negative {
        -value(exponent_digits@)
    } else {
        value(exponent_digits@)
    };
    let ghost point = whole@.len() + exponent + 3;
    if only_zeros(digits.as_slice()) {
        proof {
            lemma_zeros(digits@, point);
        }
        return Some(0);
    }
    proof {
        assert forall|k: int| 0 <= k < digits@.len() implies is_digit(#[trigger] digits@[k]) by {
            if k < whole@.len() {
                assert(digits@[k] == whole@[k]);
            } else {
                assert(digits@[k] == fraction@[k - whole@.len()]);
            }
        }
    }
    match parse_bounded(exponent_digits, u64::MAX) {
        Some(e) => {
            let at: i128 = if exponent_negative {
                whole.len() as i128 + 3 - e as i128
            } else {
                whole.len() as i128 + 3 + e as i128
            };
            round_at(digits.as_slice(), at)
        },
        None => {
            proof {
                lemma_huge_exponent(exponent_digits@);
            }
            if exponent_negative {
                Some(0)
            } else {
                proof {
                    lemma_far_off(digits@, point);
                }
                None
            }
        },
    }
}

/// The coordinate that a field spells, in grid steps, if it spells one that
/// the grid reaches.
pub fn parse_coordinate(s: &[u8]) -> (r: Option<i32>)
    ensures
        r == coordinate_of(s@),
{
    let parts: Parts = take_apart(s);
    assert(s@.len() == s.len());
    if parts.whole.len() == 0 && parts.fraction.len() == 0 {
        return None;
    }
    if !only_digits(parts.whole.as_slice()) || !only_digits(parts.fraction.as_slice()) {
        return None;
    }
    if parts.exponent {
        if parts.exponent_digits.len() == 0 || !only_digits(parts.exponent_digits.as_slice()) {
            return None;
        }
    }
    assert(is_decimal(s@));
    let size: u64 = match grid_size(
        parts.whole.as_slice(),
        parts.fraction.as_slice(),
        parts.exponent_negative,
        parts.exponent_digits.as_slice(),
    ) {
        Some(v) => v,
        None => {
            return None;
        },
    };
    let v: i64 = if parts.negative {
        -(size as i64)
    } else {
        size as i64
    };
    if v < i32::MIN as i64 || v > i32::MAX as i64 {
        return None;
    }
    Some(v as i32)
}

} // verus!
