//! Numbers as they are spelled in a `.cube` file: the size of the cube, an
//! unsigned integer, and the colour channels, decimal fractions that are
//! scaled to 8 bits.
//!
//! A channel is read exactly. Its digits are never turned into a binary
//! floating-point number, so the result is the correctly rounded one however
//! many digits the file spells out.

use crate::text::{lemma_run_len, lemma_run_len_bounds, run_len};
use vstd::arithmetic::div_mod::{
    lemma_basic_div, lemma_div_denominator, lemma_div_is_ordered, lemma_div_multiples_vanish,
    lemma_hoist_over_denominator,
};
use vstd::prelude::*;

verus! {

/// The ASCII decimal digits.
pub open spec fn is_digit(c: char) -> bool {
    '0' <= c <= '9'
}

/// The number that a decimal digit stands for.
pub open spec fn digit_value(c: char) -> int {
    c as int - 0x30
}

/// Whether a text consists of decimal digits only.
pub open spec fn all_digits(text: Seq<char>) -> bool {
    forall|i: int| 0 <= i < text.len() ==> is_digit(#[trigger] text[i])
}

/// Length of the longest prefix made of decimal digits.
pub open spec fn digit_run(text: Seq<char>) -> nat {
    run_len(text, |c: char| !is_digit(c))
}

/// The number that a string of decimal digits spells, most significant
/// digit first.
pub open spec fn digits_value(digits: Seq<char>) -> int
    decreases digits.len(),
{
    if digits.len() == 0 {
        0
    } else {
        10 * digits_value(digits.drop_last()) + digit_value(digits.last())
    }
}

/// Ten to the power `n`.
pub open spec fn pow10(n: nat) -> int
    decreases n,
{
    if n == 0 {
        1
    } else {
        10 * pow10((n - 1) as nat)
    }
}

/// Whether a text starts with a plus or a minus sign.
pub open spec fn has_sign(text: Seq<char>) -> bool {
    text.len() > 0 && (text[0] == '+' || text[0] == '-')
}

/// Whether a text starts with a minus sign.
pub open spec fn is_negative(text: Seq<char>) -> bool {
    text.len() > 0 && text[0] == '-'
}

/// A text without its sign, if it has one.
pub open spec fn unsigned_part(text: Seq<char>) -> Seq<char> {
    if has_sign(text) {
        text.skip(1)
    } else {
        text
    }
}

/// The unsigned integer that a token spells, where it spells one that fits
/// in `usize`: an optional plus sign, then one or more decimal digits.
pub open spec fn size_of_token(token: Seq<char>) -> Option<usize> {
    let digits = if token.len() > 0 && token[0] == '+' {
        token.skip(1)
    } else {
        token
    };
    if digits.len() > 0 && all_digits(digits) && digits_value(digits) <= usize::MAX {
        Some(digits_value(digits) as usize)
    } else {
        None
    }
}

/// Whether `c` is the lower-case ASCII letter `letter` or its upper-case
/// form.
pub open spec fn same_letter(c: char, letter: char) -> bool {
    c == letter || c as int + 0x20 == letter as int
}

/// Whether a text spells a lower-case ASCII word, in letters of either case.
pub open spec fn spells(text: Seq<char>, word: Seq<char>) -> bool {
    &&& text.len() == word.len()
    &&& forall|i: int| 0 <= i < text.len() ==> same_letter(#[trigger] text[i], word[i])
}

/// A decimal number as its digits, decimal point removed, and the power of
/// ten that they are to be multiplied by.
pub struct Decimal {
    pub digits: Seq<char>,
    pub scale: int,
}

/// The power of ten that the text after an exponent mark spells, where it
/// spells one: an optional sign, then one or more digits.
pub open spec fn exponent_of(signed: Seq<char>) -> Option<int> {
    let power = unsigned_part(signed);
    if power.len() > 0 && all_digits(power) {
        Some(
            if is_negative(signed) {
                -digits_value(power)
            } else {
                digits_value(power)
            },
        )
    } else {
        None
    }
}

/// The number that an unsigned text spells, where it spells one: digits
/// with at most one decimal point among them, before them or after them,
/// at least one digit in all, and then optionally `e` or `E`, an optional
/// sign and one or more digits of a power of ten.
pub open spec fn decimal_of(body: Seq<char>) -> Option<Decimal> {
    let whole = digit_run(body) as int;
    let after_whole = body.skip(whole);
    let has_point = after_whole.len() > 0 && after_whole[0] == '.';
    let fraction = if has_point {
        after_whole.skip(1)
    } else {
        after_whole
    };
    let places = if has_point {
        digit_run(fraction) as int
    } else {
        0
    };
    let tail = fraction.skip(places);
    let digits = body.take(whole) + fraction.take(places);
    if digits.len() == 0 {
        None
    } else if tail.len() == 0 {
        Some(Decimal { digits, scale: -places })
    } else if tail[0] == 'e' || tail[0] == 'E' {
        match exponent_of(tail.skip(1)) {
            Some(exponent) => Some(Decimal { digits, scale: exponent - places }),
            None => None,
        }
    } else {
        None
    }
}

/// Twice the count of 8-bit steps in the decimal `mantissa * 10^scale`,
/// rounded down: the floor of `2 * 255 * mantissa * 10^scale`.
pub open spec fn doubled_steps(mantissa: int, scale: int) -> int {
    if scale >= 0 {
        510 * mantissa * pow10(scale as nat)
    } else {
        (510 * mantissa) / pow10((-scale) as nat)
    }
}

/// The 8-bit channel for the decimal `mantissa * 10^scale`, negated where
/// `negative`: the decimal times 255, rounded to the nearest integer with
/// halves away from zero, and clamped to `0..=255`.
pub open spec fn channel_of_value(negative: bool, mantissa: int, scale: int) -> u8 {
    let rounded = (doubled_steps(mantissa, scale) + 1) / 2;
    if negative {
        0
    } else if rounded >= 255 {
        255
    } else {
        rounded as u8
    }
}

/// The 8-bit channel that a token spells, where it spells a number: an
/// optional sign, then `inf`, `infinity` or `nan` in letters of either
/// case, or a decimal number. Infinity saturates, and what is not a number
/// counts as zero.
pub open spec fn channel_of_token(token: Seq<char>) -> Option<u8> {
    let body = unsigned_part(token);
    if spells(body, seq!['i', 'n', 'f']) || spells(
        body,
        seq!['i', 'n', 'f', 'i', 'n', 'i', 't', 'y'],
    ) {
        Some(
            if is_negative(token) {
                0u8
            } else {
                255u8
            },
        )
    } else if spells(body, seq!['n', 'a', 'n']) {
        Some(0u8)
    } else {
        match decimal_of(body) {
            Some(decimal) => Some(
                channel_of_value(is_negative(token), digits_value(decimal.digits), decimal.scale),
            ),
            None => None,
        }
    }
}

/// Reads the cube size that the token in `from..to` spells.
pub fn parse_size(text: &[char], from: usize, to: usize) -> (size: Option<usize>)
    requires
        from <= to <= text@.len(),
    ensures
        size == size_of_token(text@.subrange(from as int, to as int)),
{
    let ghost token = text@.subrange(from as int, to as int);
    let start = if from < to && text[from] == '+' {
        from + 1
    } else {
        from
    };
    let ghost digits = text@.subrange(start as int, to as int);
    proof {
        if start > from {
            assert(token[0] == text@[from as int]);
            assert(token.skip(1) == digits);
        } else if from < to {
            assert(token[0] == text@[from as int]);
        }
    }
    if start == to {
        return None;
    }
    let end = digits_end(text, start, to);
    if end != to {
        proof {
            lemma_run_len_bounds(digits, |c: char| !is_digit(c));
            assert(!is_digit(digits[end - start]));
        }
        return None;
    }
    let mut value: usize = 0;
    let mut k = start;
    let ghost spelled = digits_value(digits);
    proof {
        assert(digits.take(0) == Seq::<char>::empty());
        assert(size_of_token(token) == if spelled <= usize::MAX {
            Some(spelled as usize)
        } else {
            None
        });
    }
    while k < to
        invariant
            start <= k <= to <= text@.len(),
            digits == text@.subrange(start as int, to as int),
            all_digits(digits),
            token == text@.subrange(from as int, to as int),
            spelled == digits_value(digits),
            size_of_token(token) == if spelled <= usize::MAX {
                Some(spelled as usize)
            } else {
                None
            },
            value == digits_value(digits.take(k - start)),
        decreases to - k,
    {
        assert(digits[k - start] == text@[k as int]);
        let digit = digit_of(text[k]) as usize;
        proof {
            let longer = digits.take(k + 1 - start);
            assert(longer.drop_last() == digits.take(k - start));
            assert(longer.last() == text@[k as int]);
            assert(digits_value(longer) == 10 * value + digit);
            lemma_digits_value_prefix(digits, k + 1 - start);
        }
        let next = match value.checked_mul(10) {
            Some(tens) => tens.checked_add(digit),
            None => None,
        };
        match next {
            Some(sum) => {
                value = sum;
            },
            None => {
                return None;
            },
        }
        k += 1;
    }
    proof {
        assert(digits.take(to - start) == digits);
    }
    Some(value)
}

/// Reads the colour channel that the token in `from..to` spells.
pub fn parse_channel(text: &[char], from: usize, to: usize) -> (channel: Option<u8>)
    requires
        from <= to <= text@.len(),
    ensures
        channel == channel_of_token(text@.subrange(from as int, to as int)),
{
    let ghost token = text@.subrange(from as int, to as int);
    let negative = from < to && text[from] == '-';
    let at = if from < to && (text[from] == '+' || text[from] == '-') {
        from + 1
    } else {
        from
    };
    let ghost body = text@.subrange(at as int, to as int);
    proof {
        if from < to {
            assert(token[0] == text@[from as int]);
        }
        if at > from {
            assert(token.skip(1) == body);
        }
        assert(body == unsigned_part(token));
        assert(negative == is_negative(token));
    }
    let inf = ['i', 'n', 'f'];
    let infinity = ['i', 'n', 'f', 'i', 'n', 'i', 't', 'y'];
    let nan = ['n', 'a', 'n'];
    assert(inf@ == seq!['i', 'n', 'f']);
    assert(infinity@ == seq!['i', 'n', 'f', 'i', 'n', 'i', 't', 'y']);
    assert(nan@ == seq!['n', 'a', 'n']);
    if spells_word(text, at, to, &inf) || spells_word(text, at, to, &infinity) {
        return Some(
            if negative {
                0
            } else {
                255
            },
        );
    }
    if spells_word(text, at, to, &nan) {
        return Some(0);
    }
    match scan_decimal(text, at, to) {
        None => None,
        Some(parts) => {
            if negative {
                return Some(0);
            }
            let ghost decimal = decimal_of(body)->0;
            let mut digits: Vec<char> = Vec::new();
            append_range(&mut digits, text, at, parts.whole_end);
            append_range(&mut digits, text, parts.fraction_start, parts.fraction_end);
            assert(digits@ == decimal.digits);
            let channel = round_digits(digits.as_slice(), parts.scale);
            proof {
                if parts.scale != decimal.scale {
                    lemma_far_scale(decimal.digits, parts.scale as int, decimal.scale);
                }
            }
            Some(channel)
        },
    }
}

/// Rounds the decimal `digits * 10^scale` to an 8-bit channel.
///
/// Digits before the decimal point saturate the channel unless all are
/// zero. The digits after it are multiplied by 510 from the last digit to
/// the first, which leaves only the carry to keep.
pub fn round_digits(digits: &[char], scale: i128) -> (channel: u8)
    requires
        all_digits(digits@),
    ensures
        channel == channel_of_value(false, digits_value(digits@), scale as int),
{
    let count = digits.len();
    // Where the decimal point stands, counted from the first digit, unless it
    // stands after the last one.
    let point: i128 = if scale >= 0 {
        count as i128
    } else {
        count as i128 + scale
    };
    let whole: usize = if point <= 0 {
        0
    } else {
        point as usize
    };
    let mut k: usize = 0;
    while k < whole
        invariant
            k <= whole <= count == digits@.len(),
            all_digits(digits@),
            whole > 0 ==> scale >= 0 || whole == count + scale,
            forall|i: int| 0 <= i < k ==> #[trigger] digits@[i] == '0',
        decreases whole - k,
    {
        if digits[k] != '0' {
            proof {
                lemma_whole_part_saturates(digits@, whole as int, scale as int, k as int);
            }
            return 255;
        }
        k += 1;
    }
    let mut carry: u32 = 0;
    let mut k: usize = count;
    proof {
        assert(digits@.skip(count as int) == Seq::<char>::empty());
        assert(pow10(0) == 1);
    }
    while k > whole
        invariant
            whole <= k <= count == digits@.len(),
            all_digits(digits@),
            carry == carry_of(digits@.skip(k as int)),
            carry <= 509,
        decreases k,
    {
        k -= 1;
        assert(is_digit(digits@[k as int]));
        let digit: u32 = digit_of(digits[k]);
        proof {
            let here = digits@.skip(k as int);
            let rest = digits@.skip(k + 1);
            let first = seq![digits@[k as int]];
            assert(here == first + rest);
            assert(all_digits(rest));
            assert(all_digits(here));
            assert(first.drop_last() == Seq::<char>::empty());
            assert(digits_value(first.drop_last()) == 0);
            assert(digits_value(first) == digit);
            lemma_digits_value_concat(first, rest);
            lemma_digits_value_bound(rest);
            lemma_pow10_adds(rest.len(), 0);
            lemma_carry_step(digit as int, digits_value(rest), pow10(rest.len()));
            lemma_carry_bound(here);
        }
        carry = (510 * digit + carry) / 10;
    }
    let ghost zeros: nat = if point < 0 {
        (-point) as nat
    } else {
        0
    };
    let ghost start = carry as int;
    proof {
        lemma_fraction_steps(digits@, whole as int, scale as int, zeros);
        assert(pow10(0) == 1);
        assert(pow10(1) == 10);
        assert(pow10(2) == 100);
        assert(pow10(3) == 1000);
    }
    // Every zero between the decimal point and the first digit takes a tenth
    // of the carry, and after three of them nothing is left of it.
    let mut tenths: i128 = 0;
    while tenths < 3 && point + tenths < 0
        invariant
            0 <= tenths <= 3,
            tenths <= zeros,
            point < 0 ==> zeros == -point,
            point >= 0 ==> zeros == 0,
            0 <= start <= 509,
            carry <= 509,
            carry == start / pow10(tenths as nat),
            pow10(0) == 1,
        decreases 3 - tenths,
    {
        proof {
            lemma_pow10_adds(tenths as nat, 1);
            assert(pow10(1) == 10);
            lemma_div_denominator(start, pow10(tenths as nat), 10);
        }
        carry = carry / 10;
        tenths += 1;
    }
    proof {
        if tenths < zeros {
            lemma_pow10_increases(3, zeros);
            lemma_basic_div(start, pow10(3));
            lemma_basic_div(start, pow10(zeros));
        }
    }
    assert(carry == doubled_steps(digits_value(digits@), scale as int));
    ((carry + 1) / 2) as u8
}

/// The number that the decimal digit `c` stands for.
fn digit_of(c: char) -> (value: u32)
    requires
        is_digit(c),
    ensures
        value == digit_value(c),
        value <= 9,
{
    c as u32 - 0x30
}

/// Tells whether `c` is the lower-case ASCII letter `letter` or its
/// upper-case form.
fn matches_letter(c: char, letter: char) -> (yes: bool)
    ensures
        yes == same_letter(c, letter),
{
    c == letter || c as u32 + 0x20 == letter as u32
}

/// Finds where the run of digits that starts at `from` ends, looking no
/// further than `to`.
fn digits_end(text: &[char], from: usize, to: usize) -> (end: usize)
    requires
        from <= to <= text@.len(),
    ensures
        from <= end <= to,
        end - from == digit_run(text@.subrange(from as int, to as int)),
        all_digits(text@.subrange(from as int, end as int)),
{
    let mut end = from;
    while end < to && '0' <= text[end] && text[end] <= '9'
        invariant
            from <= end <= to <= text@.len(),
            forall|i: int| from <= i < end ==> is_digit(#[trigger] text@[i]),
        decreases to - end,
    {
        end += 1;
    }
    proof {
        let here = text@.subrange(from as int, to as int);
        let stop = |c: char| !is_digit(c);
        assert forall|i: int| 0 <= i < end - from implies !stop(#[trigger] here[i]) by {
            assert(here[i] == text@[from + i]);
        }
        if end < to {
            assert(here[end - from] == text@[end as int]);
        }
        lemma_run_len(here, stop, end - from);
        let run = text@.subrange(from as int, end as int);
        assert forall|i: int| 0 <= i < run.len() implies is_digit(#[trigger] run[i]) by {
            assert(run[i] == text@[from + i]);
        }
    }
    end
}

/// Tells whether the text in `from..to` spells the lower-case ASCII word
/// `word`, in letters of either case.
fn spells_word(text: &[char], from: usize, to: usize, word: &[char]) -> (yes: bool)
    requires
        from <= to <= text@.len(),
    ensures
        yes == spells(text@.subrange(from as int, to as int), word@),
{
    let ghost here = text@.subrange(from as int, to as int);
    if to - from != word.len() {
        return false;
    }
    let mut k: usize = 0;
    while k < word.len()
        invariant
            k <= word@.len() == to - from,
            from <= to <= text@.len(),
            here == text@.subrange(from as int, to as int),
            forall|i: int| 0 <= i < k ==> same_letter(#[trigger] here[i], word@[i]),
        decreases word@.len() - k,
    {
        let c = text[from + k];
        let letter = word[k];
        assert(here[k as int] == c);
        if !matches_letter(c, letter) {
            return false;
        }
        k += 1;
    }
    true
}

/// Appends the characters in `from..to` of `text` to `out`.
fn append_range(out: &mut Vec<char>, text: &[char], from: usize, to: usize)
    requires
        from <= to <= text@.len(),
    ensures
        final(out)@ == old(out)@ + text@.subrange(from as int, to as int),
{
    let mut k = from;
    proof {
        assert(text@.subrange(from as int, from as int) == Seq::<char>::empty());
        assert(out@ == old(out)@ + Seq::<char>::empty());
    }
    while k < to
        invariant
            from <= k <= to <= text@.len(),
            out@ == old(out)@ + text@.subrange(from as int, k as int),
        decreases to - k,
    {
        out.push(text[k]);
        proof {
            assert(text@.subrange(from as int, k + 1) == text@.subrange(from as int, k as int).push(
                text@[k as int],
            ));
        }
        k += 1;
    }
}

/// The magnitude from which [`saturating_value`] stops counting.
const EXPONENT_CAP: u128 = 0x4_0000_0000_0000_0000;

/// Reads the number that the digits in `from..to` spell, as long as it stays
/// below [`EXPONENT_CAP`]. A larger number is reported as some number that
/// is not below the cap and not above the number itself.
fn saturating_value(text: &[char], from: usize, to: usize) -> (value: u128)
    requires
        from <= to <= text@.len(),
        all_digits(text@.subrange(from as int, to as int)),
    ensures
        value <= 10 * EXPONENT_CAP + 9,
        value <= digits_value(text@.subrange(from as int, to as int)),
        value < EXPONENT_CAP ==> value == digits_value(text@.subrange(from as int, to as int)),
{
    let ghost digits = text@.subrange(from as int, to as int);
    let mut value: u128 = 0;
    let mut k = from;
    proof {
        assert(digits.take(0) == Seq::<char>::empty());
    }
    while k < to
        invariant
            from <= k <= to <= text@.len(),
            digits == text@.subrange(from as int, to as int),
            all_digits(digits),
            value <= 10 * EXPONENT_CAP + 9,
            value <= digits_value(digits.take(k - from)),
            value < EXPONENT_CAP ==> value == digits_value(digits.take(k - from)),
        decreases to - k,
    {
        assert(digits[k - from] == text@[k as int]);
        let digit = digit_of(text[k]) as u128;
        proof {
            let longer = digits.take(k + 1 - from);
            assert(longer.drop_last() == digits.take(k - from));
            assert(longer.last() == text@[k as int]);
            assert(digits_value(longer) == 10 * digits_value(digits.take(k - from)) + digit);
        }
        if value < EXPONENT_CAP {
            value = 10 * value + digit;
        }
        k += 1;
    }
    proof {
        assert(digits.take(to - from) == digits);
    }
    value
}

/// Reads the power of ten that the text in `from..to` spells. A power
/// beyond [`EXPONENT_CAP`] in either direction is reported as one that is
/// not within the cap and not further out than the power itself.
fn scan_exponent(text: &[char], from: usize, to: usize) -> (found: Option<i128>)
    requires
        from <= to <= text@.len(),
    ensures
        found is Some <==> exponent_of(text@.subrange(from as int, to as int)) is Some,
        found matches Some(power) ==> ({
            let exact = exponent_of(text@.subrange(from as int, to as int))->0;
            &&& -10 * EXPONENT_CAP - 9 <= power <= 10 * EXPONENT_CAP + 9
            &&& power == exact || EXPONENT_CAP <= power <= exact || exact <= power
                <= -EXPONENT_CAP
        }),
{
    let ghost signed = text@.subrange(from as int, to as int);
    let negative = from < to && text[from] == '-';
    let start = if from < to && (text[from] == '+' || text[from] == '-') {
        from + 1
    } else {
        from
    };
    let ghost power = text@.subrange(start as int, to as int);
    proof {
        if from < to {
            assert(signed[0] == text@[from as int]);
        }
        if start > from {
            assert(signed.skip(1) == power);
        }
        assert(power == unsigned_part(signed));
        assert(negative == is_negative(signed));
    }
    if start == to {
        return None;
    }
    if digits_end(text, start, to) != to {
        proof {
            lemma_run_len_bounds(power, |c: char| !is_digit(c));
            assert(!is_digit(power[digit_run(power) as int]));
        }
        return None;
    }
    let magnitude = saturating_value(text, start, to);
    Some(
        if negative {
            -(magnitude as i128)
        } else {
            magnitude as i128
        },
    )
}

/// Where the parts of a decimal number lie in a text, and its scale.
struct Spelling {
    whole_end: usize,
    fraction_start: usize,
    fraction_end: usize,
    scale: i128,
}

/// Takes apart the decimal number that the unsigned text in `at..to`
/// spells. The digits before the decimal point lie in `at..whole_end`, those
/// after it in `fraction_start..fraction_end`. A scale far from zero is
/// reported as one that gives the same channel.
#[verifier::rlimit(30)]
fn scan_decimal(text: &[char], at: usize, to: usize) -> (found: Option<Spelling>)
    requires
        at <= to <= text@.len(),
    ensures
        found is Some <==> decimal_of(text@.subrange(at as int, to as int)) is Some,
        found matches Some(parts) ==> ({
            let decimal = decimal_of(text@.subrange(at as int, to as int))->0;
            &&& at <= parts.whole_end <= parts.fraction_start <= parts.fraction_end <= to
            &&& decimal.digits == text@.subrange(at as int, parts.whole_end as int)
                + text@.subrange(parts.fraction_start as int, parts.fraction_end as int)
            &&& all_digits(decimal.digits)
            &&& -11 * EXPONENT_CAP <= parts.scale <= 11 * EXPONENT_CAP
            &&& parts.scale == decimal.scale || 0 <= parts.scale <= decimal.scale || decimal.scale
                <= parts.scale <= -(decimal.digits.len() + 3)
        }),
{
    let ghost body = text@.subrange(at as int, to as int);
    let whole_end = digits_end(text, at, to);
    let has_point = whole_end < to && text[whole_end] == '.';
    let fraction_start = if has_point {
        whole_end + 1
    } else {
        whole_end
    };
    let fraction_end = if has_point {
        digits_end(text, fraction_start, to)
    } else {
        fraction_start
    };
    let places = fraction_end - fraction_start;
    let ghost after_whole = body.skip(whole_end - at);
    let ghost fraction = text@.subrange(fraction_start as int, to as int);
    let ghost tail = text@.subrange(fraction_end as int, to as int);
    let ghost spelled = text@.subrange(at as int, whole_end as int) + text@.subrange(
        fraction_start as int,
        fraction_end as int,
    );
    proof {
        assert(after_whole == text@.subrange(whole_end as int, to as int));
        if whole_end < to {
            assert(after_whole[0] == text@[whole_end as int]);
        }
        if has_point {
            assert(after_whole.skip(1) == fraction);
        }
        assert(fraction.skip(places as int) == tail);
        assert(body.take(whole_end - at) == text@.subrange(at as int, whole_end as int));
        assert(fraction.take(places as int) == text@.subrange(
            fraction_start as int,
            fraction_end as int,
        ));
        if fraction_end < to {
            assert(tail[0] == text@[fraction_end as int]);
            assert(tail.skip(1) == text@.subrange(fraction_end + 1, to as int));
        }
        assert(all_digits(spelled));
    }
    if (whole_end - at) + places == 0 {
        return None;
    }
    if fraction_end == to {
        return Some(Spelling { whole_end, fraction_start, fraction_end, scale: -(places as i128) });
    }
    let mark = text[fraction_end];
    if mark != 'e' && mark != 'E' {
        return None;
    }
    match scan_exponent(text, fraction_end + 1, to) {
        None => None,
        Some(power) => Some(
            Spelling { whole_end, fraction_start, fraction_end, scale: power - places as i128 },
        ),
    }
}

/// Powers of ten are positive and multiply as their exponents add.
pub proof fn lemma_pow10_adds(a: nat, b: nat)
    ensures
        pow10(a) >= 1,
        pow10(a + b) == pow10(a) * pow10(b),
    decreases a,
{
    if a == 0 {
        assert(pow10(0 + b) == 1 * pow10(b));
    } else {
        lemma_pow10_adds((a - 1) as nat, b);
        assert(pow10(a + b) == 10 * pow10((a - 1 + b) as nat));
        assert(10 * (pow10((a - 1) as nat) * pow10(b)) == (10 * pow10((a - 1) as nat)) * pow10(b))
            by (nonlinear_arith);
    }
}

/// Powers of ten grow with their exponents.
pub proof fn lemma_pow10_increases(a: nat, b: nat)
    requires
        a <= b,
    ensures
        1 <= pow10(a) <= pow10(b),
{
    lemma_pow10_adds(a, (b - a) as nat);
    lemma_pow10_adds((b - a) as nat, 0);
    assert(pow10(a) <= pow10(a) * pow10((b - a) as nat)) by (nonlinear_arith)
        requires
            pow10(a) >= 1,
            pow10((b - a) as nat) >= 1,
    ;
}

/// Writing one string of digits after another shifts the first by the
/// length of the second.
pub proof fn lemma_digits_value_concat(high: Seq<char>, low: Seq<char>)
    ensures
        digits_value(high + low) == digits_value(high) * pow10(low.len()) + digits_value(low),
    decreases low.len(),
{
    if low.len() == 0 {
        assert(high + low == high);
    } else {
        let shorter = low.drop_last();
        assert((high + low).drop_last() == high + shorter);
        assert((high + low).last() == low.last());
        lemma_digits_value_concat(high, shorter);
        let h = digits_value(high);
        let p = pow10(shorter.len());
        let s = digits_value(shorter);
        assert(pow10(low.len()) == 10 * p);
        assert(10 * (h * p + s) == h * (10 * p) + 10 * s) by (nonlinear_arith);
    }
}

/// A string of `n` digits spells a number below ten to the `n`.
pub proof fn lemma_digits_value_bound(digits: Seq<char>)
    requires
        all_digits(digits),
    ensures
        0 <= digits_value(digits) < pow10(digits.len()),
    decreases digits.len(),
{
    if digits.len() > 0 {
        let shorter = digits.drop_last();
        assert forall|i: int| 0 <= i < shorter.len() implies is_digit(#[trigger] shorter[i]) by {
            assert(shorter[i] == digits[i]);
        }
        lemma_digits_value_bound(shorter);
        assert(is_digit(digits[digits.len() - 1]));
    }
}

/// A string of digits spells at least what any of its prefixes spells.
pub proof fn lemma_digits_value_prefix(digits: Seq<char>, n: int)
    requires
        all_digits(digits),
        0 <= n <= digits.len(),
    ensures
        0 <= digits_value(digits.take(n)) <= digits_value(digits),
{
    let high = digits.take(n);
    let low = digits.skip(n);
    assert(digits == high + low);
    assert(all_digits(high));
    assert(all_digits(low));
    lemma_digits_value_concat(high, low);
    lemma_digits_value_bound(high);
    lemma_digits_value_bound(low);
    let unit = pow10(low.len());
    assert(digits_value(high) * unit >= digits_value(high)) by (nonlinear_arith)
        requires
            digits_value(high) >= 0,
            unit >= 1,
    ;
}

/// A string of zeros spells zero.
pub proof fn lemma_digits_value_zero(digits: Seq<char>)
    requires
        forall|i: int| 0 <= i < digits.len() ==> #[trigger] digits[i] == '0',
    ensures
        digits_value(digits) == 0,
    decreases digits.len(),
{
    if digits.len() > 0 {
        let shorter = digits.drop_last();
        assert forall|i: int| 0 <= i < shorter.len() implies #[trigger] shorter[i] == '0' by {
            assert(shorter[i] == digits[i]);
        }
        lemma_digits_value_zero(shorter);
        assert(digits[digits.len() - 1] == '0');
    }
}

/// A string of digits with a digit other than zero spells a positive number.
pub proof fn lemma_digits_value_positive(digits: Seq<char>, at: int)
    requires
        all_digits(digits),
        0 <= at < digits.len(),
        digits[at] != '0',
    ensures
        digits_value(digits) >= 1,
    decreases digits.len(),
{
    let shorter = digits.drop_last();
    assert forall|i: int| 0 <= i < shorter.len() implies is_digit(#[trigger] shorter[i]) by {
        assert(shorter[i] == digits[i]);
    }
    assert(is_digit(digits[digits.len() - 1]));
    if at == digits.len() - 1 {
        lemma_digits_value_bound(shorter);
    } else {
        assert(shorter[at] == digits[at]);
        lemma_digits_value_positive(shorter, at);
    }
}

/// The channel of a decimal is the integer nearest to 255 times the
/// decimal, with halves rounded up, unless that integer is beyond 255.
/// Here the decimal is `amount / unit`, a whole number over a power of ten.
pub proof fn lemma_channel_is_nearest(mantissa: int, scale: int)
    requires
        mantissa >= 0,
    ensures
        ({
            let channel = channel_of_value(false, mantissa, scale);
            let amount = if scale >= 0 {
                mantissa * pow10(scale as nat)
            } else {
                mantissa
            };
            let unit = if scale >= 0 {
                1
            } else {
                pow10((-scale) as nat)
            };
            &&& (2 * channel - 1) * unit <= 510 * amount
            &&& channel < 255 ==> 510 * amount < (2 * channel + 1) * unit
        }),
{
    let amount = if scale >= 0 {
        mantissa * pow10(scale as nat)
    } else {
        mantissa
    };
    let unit = if scale >= 0 {
        1
    } else {
        pow10((-scale) as nat)
    };
    if scale >= 0 {
        lemma_pow10_adds(scale as nat, 0);
        assert(510 * mantissa * pow10(scale as nat) == 510 * amount) by (nonlinear_arith)
            requires
                amount == mantissa * pow10(scale as nat),
        ;
        assert(amount >= 0) by (nonlinear_arith)
            requires
                amount == mantissa * pow10(scale as nat),
                mantissa >= 0,
                pow10(scale as nat) >= 1,
        ;
    } else {
        lemma_pow10_adds((-scale) as nat, 0);
    }
    let doubled = doubled_steps(mantissa, scale);
    assert(doubled == (510 * amount) / unit);
    vstd::arithmetic::div_mod::lemma_fundamental_div_mod(510 * amount, unit);
    vstd::arithmetic::div_mod::lemma_mod_pos_bound(510 * amount, unit);
    vstd::arithmetic::div_mod::lemma_div_pos_is_pos(510 * amount, unit);
    let rounded = (doubled + 1) / 2;
    let channel = channel_of_value(false, mantissa, scale) as int;
    assert((2 * channel - 1) * unit <= doubled * unit) by (nonlinear_arith)
        requires
            2 * channel - 1 <= doubled,
            unit >= 1,
    ;
    assert(unit * doubled == doubled * unit) by (nonlinear_arith);
    if channel < 255 {
        assert((doubled + 1) * unit <= (2 * channel + 1) * unit) by (nonlinear_arith)
            requires
                doubled + 1 <= 2 * channel + 1,
                unit >= 1,
        ;
        assert((doubled + 1) * unit == doubled * unit + unit) by (nonlinear_arith);
    }
}

/// What the digits after the decimal point carry into the doubled steps:
/// the floor of 510 times the fraction that `digits` spell.
spec fn carry_of(digits: Seq<char>) -> int {
    (510 * digits_value(digits)) / pow10(digits.len())
}

/// One more digit in front of a fraction: its carry follows from the digit
/// and the carry of the rest.
proof fn lemma_carry_step(digit: int, rest: int, unit: int)
    requires
        digit >= 0,
        rest >= 0,
        unit >= 1,
    ensures
        (510 * (digit * unit + rest)) / (10 * unit) == (510 * digit + (510 * rest) / unit) / 10,
{
    let whole = 510 * (digit * unit + rest);
    assert(whole == 510 * rest + (510 * digit) * unit) by (nonlinear_arith)
        requires
            whole == 510 * (digit * unit + rest),
    ;
    lemma_hoist_over_denominator(510 * rest, 510 * digit, unit as nat);
    assert(whole / unit == 510 * digit + (510 * rest) / unit);
    assert(whole >= 0) by (nonlinear_arith)
        requires
            whole == 510 * (digit * unit + rest),
            digit >= 0,
            unit >= 1,
            rest >= 0,
    ;
    lemma_div_denominator(whole, unit, 10);
    assert(unit * 10 == 10 * unit);
}

/// The carry of a fraction is below 510.
proof fn lemma_carry_bound(digits: Seq<char>)
    requires
        all_digits(digits),
    ensures
        0 <= carry_of(digits) <= 509,
{
    lemma_digits_value_bound(digits);
    lemma_pow10_adds(digits.len(), 0);
    let unit = pow10(digits.len());
    let value = digits_value(digits);
    assert(510 * value <= 510 * unit - 510);
    assert(510 * unit - 510 == unit * 509 + (unit - 510));
    lemma_div_is_ordered(0, 510 * value, unit);
    assert(0int / unit == 0) by {
        lemma_basic_div(0, unit);
    }
    if carry_of(digits) >= 510 {
        vstd::arithmetic::div_mod::lemma_fundamental_div_mod(510 * value, unit);
        let q = (510 * value) / unit;
        assert(unit * q >= unit * 510) by (nonlinear_arith)
            requires
                q >= 510,
                unit >= 1,
        ;
        assert((510 * value) % unit >= 0) by {
            vstd::arithmetic::div_mod::lemma_mod_pos_bound(510 * value, unit);
        }
    }
}

/// Where a digit other than zero stands before the decimal point, the
/// number is at least one and its channel is saturated.
proof fn lemma_whole_part_saturates(digits: Seq<char>, whole: int, scale: int, at: int)
    requires
        all_digits(digits),
        0 <= at < whole <= digits.len(),
        digits[at] != '0',
        scale >= 0 || whole == digits.len() + scale,
    ensures
        channel_of_value(false, digits_value(digits), scale) == 255,
{
    let high = digits.take(whole);
    let low = digits.skip(whole);
    assert(digits == high + low);
    assert(all_digits(high));
    assert(all_digits(low));
    lemma_digits_value_concat(high, low);
    lemma_digits_value_positive(high, at);
    lemma_digits_value_bound(low);
    let unit = pow10(low.len());
    let value = digits_value(digits);
    assert(value >= unit) by (nonlinear_arith)
        requires
            value == digits_value(high) * unit + digits_value(low),
            digits_value(high) >= 1,
            digits_value(low) >= 0,
            unit >= 1,
    ;
    if scale >= 0 {
        lemma_pow10_adds(scale as nat, 0);
        let shift = pow10(scale as nat);
        assert(510 * value * shift >= 510) by (nonlinear_arith)
            requires
                value >= 1,
                shift >= 1,
        ;
    } else {
        assert(low.len() == -scale);
        lemma_div_is_ordered(unit * 510, 510 * value, unit);
        lemma_div_multiples_vanish(510, unit);
    }
}

/// Where only zeros stand before the decimal point, the doubled steps are
/// the carry of the digits after it, divided by ten once more for every
/// place by which the point lies further left than the first digit.
proof fn lemma_fraction_steps(digits: Seq<char>, whole: int, scale: int, zeros: nat)
    requires
        all_digits(digits),
        0 <= whole <= digits.len(),
        forall|i: int| 0 <= i < whole ==> #[trigger] digits[i] == '0',
        scale >= 0 ==> whole == digits.len() && zeros == 0,
        scale < 0 && digits.len() + scale >= 0 ==> whole == digits.len() + scale && zeros == 0,
        digits.len() + scale < 0 ==> whole == 0 && zeros == -(digits.len() + scale),
    ensures
        doubled_steps(digits_value(digits), scale) == carry_of(digits.skip(whole)) / pow10(zeros),
{
    let high = digits.take(whole);
    let low = digits.skip(whole);
    assert(digits == high + low);
    assert(all_digits(low));
    lemma_digits_value_concat(high, low);
    lemma_digits_value_zero(high);
    lemma_digits_value_bound(low);
    lemma_pow10_adds(low.len(), zeros);
    let value = digits_value(digits);
    assert(value == digits_value(low));
    if scale >= 0 {
        assert(low.len() == 0);
        assert(510 * value * pow10(scale as nat) == 0) by (nonlinear_arith)
            requires
                value == 0,
        ;
    } else {
        assert(low.len() + zeros == -scale);
        lemma_pow10_adds(zeros, 0);
        lemma_div_denominator(510 * value, pow10(low.len()), pow10(zeros));
    }
}

/// Scales that agree in sign and lie far enough from zero give the same
/// channel: a whole number of any size saturates unless it is zero, and a
/// number with three zeros after the decimal point rounds to zero.
proof fn lemma_far_scale(digits: Seq<char>, near: int, far: int)
    requires
        all_digits(digits),
        0 <= near <= far || far <= near <= -(digits.len() + 3),
    ensures
        channel_of_value(false, digits_value(digits), near) == channel_of_value(
            false,
            digits_value(digits),
            far,
        ),
{
    let value = digits_value(digits);
    lemma_digits_value_bound(digits);
    if near >= 0 {
        let p = pow10(near as nat);
        let q = pow10(far as nat);
        lemma_pow10_adds(near as nat, 0);
        lemma_pow10_adds(far as nat, 0);
        if value == 0 {
            assert(510 * value * p == 0 && 510 * value * q == 0) by (nonlinear_arith)
                requires
                    value == 0,
            ;
        } else {
            assert(510 * value * p >= 510 && 510 * value * q >= 510) by (nonlinear_arith)
                requires
                    value >= 1,
                    p >= 1,
                    q >= 1,
            ;
        }
    } else {
        let len = digits.len();
        lemma_pow10_adds(len, 3);
        assert(pow10(3) == 1000) by {
            assert(pow10(0) == 1);
            assert(pow10(1) == 10);
            assert(pow10(2) == 100);
        }
        assert(510 * value < pow10(len) * 1000) by (nonlinear_arith)
            requires
                0 <= value < pow10(len),
        ;
        lemma_pow10_increases(len + 3, (-near) as nat);
        lemma_pow10_increases(len + 3, (-far) as nat);
        lemma_basic_div(510 * value, pow10((-near) as nat));
        lemma_basic_div(510 * value, pow10((-far) as nat));
    }
}

} // verus!
