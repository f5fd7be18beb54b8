//! The minimum-size argument: a decimal number, then an optional unit.

use vstd::arithmetic::div_mod::{lemma_div_denominator, lemma_hoist_over_denominator};
use vstd::arithmetic::power::{lemma_pow0, lemma_pow_adds, lemma_pow1, lemma_pow_positive, pow};
use vstd::prelude::*;

verus! {

/// Why a size specification was turned down.
#[derive(Debug, Clone, Copy, PartialEq, Eq, Structural)]
pub enum SizeSpecError {
    /// What stands before the unit is not a decimal number.
    InvalidNumber,
    /// The unit is none of B, KB, MB, GB and TB.
    UnknownUnit,
}

/// A letter of the Latin alphabet without marks, capital or small.
pub open spec fn is_letter(c: char) -> bool {
    ('a' <= c && c <= 'z') || ('A' <= c && c <= 'Z')
}

/// One of the digits 0 to 9.
pub open spec fn is_digit(c: char) -> bool {
    '0' <= c && c <= '9'
}

/// The number that a digit stands for.
pub open spec fn digit_value(c: char) -> nat
    recommends
        is_digit(c),
{
    (c as u32 - '0' as u32) as nat
}

/// Where the unit begins: the index of the first letter, or the length
/// where there is none.
pub open spec fn unit_start(s: Seq<char>) -> nat
    decreases s.len(),
{
    if s.len() == 0 || is_letter(s[0]) {
        0
    } else {
        1 + unit_start(s.drop_first())
    }
}

/// The number of digits that `s` begins with.
pub open spec fn digit_run(s: Seq<char>) -> nat
    decreases s.len(),
{
    if s.len() == 0 || !is_digit(s[0]) {
        0
    } else {
        1 + digit_run(s.drop_first())
    }
}

/// Every character is a digit.
pub open spec fn all_digits(s: Seq<char>) -> bool {
    forall|i: int| 0 <= i < s.len() ==> is_digit(#[trigger] s[i])
}

/// The number that a sequence of digits writes in base ten.
pub open spec fn digits_value(s: Seq<char>) -> nat
    decreases s.len(),
{
    if s.len() == 0 {
        0
    } else {
        digits_value(s.drop_last()) * 10 + digit_value(s.last())
    }
}

/// The number begins with a plus or a minus.
pub open spec fn has_sign(s: Seq<char>) -> bool {
    s.len() > 0 && (s[0] == '+' || s[0] == '-')
}

/// The number begins with a minus.
pub open spec fn is_negative(s: Seq<char>) -> bool {
    s.len() > 0 && s[0] == '-'
}

/// The number without its sign.
pub open spec fn unsigned_part(s: Seq<char>) -> Seq<char> {
    if has_sign(s) {
        s.skip(1)
    } else {
        s
    }
}

/// The digits before and after the decimal point of an unsigned number:
/// digits, then at most one point and more digits, with one digit at least.
pub open spec fn decimal_parts(s: Seq<char>) -> Option<(Seq<char>, Seq<char>)> {
    let whole = s.take(digit_run(s) as int);
    let rest = s.skip(digit_run(s) as int);
    if rest.len() == 0 {
        if whole.len() > 0 {
            Some((whole, Seq::<char>::empty()))
        } else {
            None
        }
    } else if rest[0] == '.' && all_digits(rest.skip(1)) && whole.len() + rest.len() > 1 {
        Some((whole, rest.skip(1)))
    } else {
        None
    }
}

/// `c` is the capital letter `capital` or its small form.
pub open spec fn is_either_case(c: char, capital: char) -> bool {
    c == capital || c as u32 == capital as u32 + 32
}

/// The number of bytes in one unit, in binary multiples. No unit means
/// bytes; the case of the letters does not count.
pub open spec fn unit_multiplier(unit: Seq<char>) -> Option<nat> {
    if unit.len() == 0 {
        Some(1)
    } else if unit.len() == 1 && is_either_case(unit[0], 'B') {
        Some(1)
    } else if unit.len() == 2 && is_either_case(unit[1], 'B') {
        if is_either_case(unit[0], 'K') {
            Some(1024)
        } else if is_either_case(unit[0], 'M') {
            Some(1024 * 1024)
        } else if is_either_case(unit[0], 'G') {
            Some(1024 * 1024 * 1024)
        } else if is_either_case(unit[0], 'T') {
            Some(1024 * 1024 * 1024 * 1024)
        } else {
            None
        }
    } else {
        None
    }
}

/// The whole bytes in `whole.fraction` units of `multiplier` bytes each:
/// the product, rounded down.
pub open spec fn scaled_bytes(whole: Seq<char>, fraction: Seq<char>, multiplier: nat) -> int {
    (digits_value(whole + fraction) * multiplier) as int / pow(10, fraction.len())
}

/// What a size specification means. The unit begins at the first letter.
/// A negative number means no bytes, and a number of bytes that a `u64`
/// cannot hold means the greatest that it can.
pub open spec fn size_spec_value(s: Seq<char>) -> Result<u64, SizeSpecError> {
    let number = s.take(unit_start(s) as int);
    let unit = s.skip(unit_start(s) as int);
    match decimal_parts(unsigned_part(number)) {
        None => Err(SizeSpecError::InvalidNumber),
        Some((whole, fraction)) => match unit_multiplier(unit) {
            None => Err(SizeSpecError::UnknownUnit),
            Some(multiplier) => {
                let bytes = scaled_bytes(whole, fraction, multiplier);
                if is_negative(number) {
                    Ok(0u64)
                } else if bytes > u64::MAX {
                    Ok(u64::MAX)
                } else {
                    Ok(bytes as u64)
                }
            },
        },
    }
}

/// The characters of a string, one by one.
fn chars_of(s: &str) -> (chars: Vec<char>)
    ensures
        chars@ == s@,
{
    let mut chars: Vec<char> = Vec::new();
    for c in it: s.chars()
        invariant
            chars@ == it.seq().take(it.index() as int),
            it.seq() == s@,
    {
        chars.push(c);
    }
    chars
}


fn letter(c: char) -> (b: bool)
    ensures
        b == is_letter(c),
{
    ('a' <= c && c <= 'z') || ('A' <= c && c <= 'Z')
}

fn digit(c: char) -> (b: bool)
    ensures
        b == is_digit(c),
{
    '0' <= c && c <= '9'
}

fn either_case(c: char, capital: char) -> (b: bool)
    ensures
        b == is_either_case(c, capital),
{
    c == capital || c as u32 == capital as u32 + 32
}

fn find_unit_start(chars: &Vec<char>) -> (cut: usize)
    ensures
        cut == unit_start(chars@),
        cut <= chars.len(),
{
    let mut i: usize = 0;
    proof {
        assert(chars@.skip(0) =~= chars@);
    }
    while i < chars.len() && !letter(chars[i])
        invariant
            i <= chars.len(),
            unit_start(chars@) == i + unit_start(chars@.skip(i as int)),
        decreases chars.len() - i,
    {
        assert(chars@.skip(i as int).drop_first() =~= chars@.skip(i + 1));
        i += 1;
    }
    i
}

/// The end of the digits that begin at `from` and stop before `to`.
fn find_digits_end(chars: &Vec<char>, from: usize, to: usize) -> (end: usize)
    requires
        from <= to <= chars.len(),
    ensures
        from <= end <= to,
        end - from == digit_run(chars@.subrange(from as int, to as int)),
{
    let mut i: usize = from;
    while i < to && digit(chars[i])
        invariant
            from <= i <= to <= chars.len(),
            digit_run(chars@.subrange(from as int, to as int)) == (i - from) + digit_run(
                chars@.subrange(i as int, to as int),
            ),
        decreases to - i,
    {
        assert(chars@.subrange(i as int, to as int).drop_first() =~= chars@.subrange(
            i + 1,
            to as int,
        ));
        i += 1;
    }
    i
}

fn only_digits(chars: &Vec<char>, from: usize, to: usize) -> (b: bool)
    requires
        from <= to <= chars.len(),
    ensures
        b == all_digits(chars@.subrange(from as int, to as int)),
{
    let mut i: usize = from;
    while i < to
        invariant
            from <= i <= to <= chars.len(),
            all_digits(chars@.subrange(from as int, i as int)),
        decreases to - i,
    {
        if !digit(chars[i]) {
            assert(chars@.subrange(from as int, to as int)[i - from] == chars@[i as int]);
            return false;
        }
        assert forall|j: int| 0 <= j < i + 1 - from implies is_digit(
            #[trigger] chars@.subrange(from as int, i + 1)[j],
        ) by {
            if j < i - from {
                assert(chars@.subrange(from as int, i as int)[j] == chars@[from + j]);
            }
        }
        i += 1;
    }
    true
}

/// The digits that `s` begins with are digits, and the one after them is none.
proof fn lemma_digit_run(s: Seq<char>)
    ensures
        digit_run(s) <= s.len(),
        all_digits(s.take(digit_run(s) as int)),
        digit_run(s) < s.len() ==> !is_digit(s[digit_run(s) as int]),
    decreases s.len(),
{
    if s.len() > 0 && is_digit(s[0]) {
        let tail = s.drop_first();
        lemma_digit_run(tail);
        let n = digit_run(s) as int;
        assert forall|i: int| 0 <= i < n implies is_digit(#[trigger] s.take(n)[i]) by {
            if i > 0 {
                assert(s.take(n)[i] == tail.take(n - 1)[i - 1]);
            }
        }
        if digit_run(s) < s.len() {
            assert(s[n] == tail[n - 1]);
        }
    }
}

/// Digits written one after the other: the first ones count for as many
/// powers of ten as digits follow them.
proof fn lemma_digits_value_concat(a: Seq<char>, b: Seq<char>)
    ensures
        digits_value(a + b) == digits_value(a) * pow(10, b.len()) + digits_value(b),
    decreases b.len(),
{
    if b.len() == 0 {
        assert(a + b =~= a);
        lemma_pow0(10);
    } else {
        let front = b.drop_last();
        lemma_digits_value_concat(a, front);
        assert((a + b).drop_last() =~= a + front);
        assert((a + b).last() == b.last());
        lemma_pow_adds(10, front.len(), 1);
        lemma_pow1(10);
        assert(front.len() + 1 == b.len());
        let p = pow(10, front.len());
        let va = digits_value(a) as int;
        assert(pow(10, b.len()) == p * 10);
        assert((va * p + digits_value(front)) * 10 == va * (p * 10) + digits_value(front) * 10)
            by (nonlinear_arith);
    }
}

/// More digits at the end never make the number smaller.
proof fn lemma_digits_value_grows(s: Seq<char>, n: int)
    requires
        0 <= n <= s.len(),
        all_digits(s),
    ensures
        digits_value(s.take(n)) <= digits_value(s),
    decreases s.len() - n,
{
    if n < s.len() {
        lemma_digits_value_grows(s, n + 1);
        assert(s.take(n + 1).drop_last() =~= s.take(n));
        assert(is_digit(s[n]));
    } else {
        assert(s.take(n) =~= s);
    }
}

/// The number that the digits from `from` to `to` write, or `None` where a
/// `u64` cannot hold it.
fn whole_value(chars: &Vec<char>, from: usize, to: usize) -> (value: Option<u64>)
    requires
        from <= to <= chars.len(),
        all_digits(chars@.subrange(from as int, to as int)),
    ensures
        match value {
            Some(v) => v == digits_value(chars@.subrange(from as int, to as int)),
            None => digits_value(chars@.subrange(from as int, to as int)) > u64::MAX,
        },
{
    let ghost digits = chars@.subrange(from as int, to as int);
    let mut value: u64 = 0;
    let mut i: usize = from;
    while i < to
        invariant
            from <= i <= to <= chars.len(),
            digits == chars@.subrange(from as int, to as int),
            all_digits(digits),
            value == digits_value(digits.take(i - from)),
        decreases to - i,
    {
        let c = chars[i];
        proof {
            assert(digits[i - from] == c);
            assert(digits.take(i + 1 - from).drop_last() =~= digits.take(i - from));
            assert(digits.take(i + 1 - from).last() == c);
            lemma_digits_value_grows(digits, i + 1 - from);
        }
        let d: u64 = (c as u32 - '0' as u32) as u64;
        if value > (u64::MAX - d) / 10 {
            return None;
        }
        value = value * 10 + d;
        i += 1;
    }
    proof {
        assert(digits.take(to - from) =~= digits);
    }
    Some(value)
}

/// The whole bytes in the fraction `0.` and the digits from `from` to `to`,
/// of a unit of `multiplier` bytes.
fn fraction_bytes(chars: &Vec<char>, from: usize, to: usize, multiplier: u64) -> (bytes: u64)
    requires
        from <= to <= chars.len(),
        all_digits(chars@.subrange(from as int, to as int)),
        0 < multiplier <= 0x100_0000_0000,
    ensures
        bytes == (digits_value(chars@.subrange(from as int, to as int)) * multiplier) as int / pow(
            10,
            (to - from) as nat,
        ),
        bytes < multiplier,
{
    let mut carry: u64 = 0;
    let mut i: usize = to;
    proof {
        lemma_pow0(10);
        assert(chars@.subrange(to as int, to as int) =~= Seq::<char>::empty());
        assert(digits_value(chars@.subrange(to as int, to as int)) == 0);
        assert(0int / 1 == 0);
    }
    while i > from
        invariant
            from <= i <= to <= chars.len(),
            all_digits(chars@.subrange(from as int, to as int)),
            0 < multiplier <= 0x100_0000_0000,
            carry < multiplier,
            carry == (digits_value(chars@.subrange(i as int, to as int)) * multiplier) as int / pow(
                10,
                (to - i) as nat,
            ),
        decreases i,
    {
        let c = chars[i - 1];
        assert(chars@.subrange(from as int, to as int)[i - 1 - from] == c);
        let d: u64 = (c as u32 - '0' as u32) as u64;
        proof {
            let tail = chars@.subrange(i as int, to as int);
            let p = pow(10, tail.len());
            let v = digits_value(tail) as int;
            let m = multiplier as int;
            assert(chars@.subrange(i - 1, to as int) =~= seq![c] + tail);
            lemma_digits_value_concat(seq![c], tail);
            assert(seq![c].drop_last() =~= Seq::<char>::empty());
            assert(seq![c].last() == c);
            assert(digits_value(seq![c].drop_last()) == 0);
            assert(digits_value(seq![c]) == d);
            lemma_pow_positive(10, tail.len());
            lemma_pow_adds(10, tail.len(), 1);
            lemma_pow1(10);
            assert(pow(10, (to - (i - 1)) as nat) == p * 10);
            assert((d * p + v) * m == v * m + (d * m) * p) by (nonlinear_arith);
            lemma_hoist_over_denominator(v * m, d * m, p as nat);
            lemma_div_denominator(v * m + (d * m) * p, p, 10);
            assert(d * m <= 9 * m) by (nonlinear_arith)
                requires
                    d <= 9,
                    m > 0,
            ;
        }
        carry = (d * multiplier + carry) / 10;
        i -= 1;
    }
    carry
}


/// The multiplier of the unit that begins at `cut`.
fn multiplier_at(chars: &Vec<char>, cut: usize) -> (multiplier: Option<u64>)
    requires
        cut <= chars.len(),
    ensures
        match multiplier {
            Some(m) => unit_multiplier(chars@.skip(cut as int)) == Some(m as nat) && 0 < m
                <= 0x100_0000_0000,
            None => unit_multiplier(chars@.skip(cut as int)) is None,
        },
{
    let ghost unit = chars@.skip(cut as int);
    let len = chars.len() - cut;
    if len == 0 {
        Some(1)
    } else if len == 1 {
        assert(unit[0] == chars@[cut as int]);
        if either_case(chars[cut], 'B') {
            Some(1)
        } else {
            None
        }
    } else if len == 2 {
        assert(unit[0] == chars@[cut as int]);
        assert(unit[1] == chars@[cut + 1]);
        if !either_case(chars[cut + 1], 'B') {
            None
        } else if either_case(chars[cut], 'K') {
            Some(1024)
        } else if either_case(chars[cut], 'M') {
            Some(1024 * 1024)
        } else if either_case(chars[cut], 'G') {
            Some(1024 * 1024 * 1024)
        } else if either_case(chars[cut], 'T') {
            Some(1024 * 1024 * 1024 * 1024)
        } else {
            None
        }
    } else {
        None
    }
}

/// The bytes of a number with a fraction are those of its whole part and
/// those of its fraction, each rounded down by itself.
proof fn lemma_scaled_bytes_splits(whole: Seq<char>, fraction: Seq<char>, multiplier: nat)
    ensures
        scaled_bytes(whole, fraction, multiplier) == digits_value(whole) * multiplier
            + scaled_bytes(Seq::<char>::empty(), fraction, multiplier),
        scaled_bytes(Seq::<char>::empty(), fraction, multiplier) >= 0,
{
    let p = pow(10, fraction.len());
    let w = digits_value(whole) as int;
    let f = digits_value(fraction) as int;
    let m = multiplier as int;
    lemma_pow_positive(10, fraction.len());
    lemma_digits_value_concat(whole, fraction);
    assert(Seq::<char>::empty() + fraction =~= fraction);
    assert((w * p + f) * m == f * m + (w * m) * p) by (nonlinear_arith);
    lemma_hoist_over_denominator(f * m, w * m, p as nat);
    assert(f * m >= 0) by (nonlinear_arith)
        requires
            f >= 0,
            m >= 0,
    ;
    assert((f * m) / p >= 0) by (nonlinear_arith)
        requires
            f * m >= 0,
            p > 0,
    ;
}

/// Reads a size: a decimal number, with a sign and a fraction if wanted,
/// then nothing or one of the units B, KB, MB, GB and TB in either case,
/// which count 1024 of the unit before.
pub fn parse_size(size_str: &str) -> (result: Result<u64, SizeSpecError>)
    ensures
        result == size_spec_value(size_str@),
{
    let chars = chars_of(size_str);
    let cut = find_unit_start(&chars);
    let negative = cut > 0 && chars[0] == '-';
    let start: usize = if cut > 0 && (chars[0] == '+' || chars[0] == '-') {
        1
    } else {
        0
    };
    let ghost number = chars@.take(cut as int);
    let ghost body = unsigned_part(number);
    assert(body =~= chars@.subrange(start as int, cut as int));
    let whole_end = find_digits_end(&chars, start, cut);
    let ghost whole = body.take(digit_run(body) as int);
    let ghost rest = body.skip(digit_run(body) as int);
    assert(whole =~= chars@.subrange(start as int, whole_end as int));
    assert(rest =~= chars@.subrange(whole_end as int, cut as int));
    let fraction_start: usize = if whole_end < cut {
        assert(rest[0] == chars@[whole_end as int]);
        if chars[whole_end] != '.' {
            return Err(SizeSpecError::InvalidNumber);
        }
        whole_end + 1
    } else {
        cut
    };
    let ghost fraction = chars@.subrange(fraction_start as int, cut as int);
    assert(whole_end < cut ==> rest.skip(1) =~= fraction);
    if !only_digits(&chars, fraction_start, cut) {
        return Err(SizeSpecError::InvalidNumber);
    }
    if whole_end - start == 0 && cut - fraction_start == 0 {
        return Err(SizeSpecError::InvalidNumber);
    }
    assert(decimal_parts(body) == Some((whole, fraction)));
    let multiplier = match multiplier_at(&chars, cut) {
        Some(m) => m,
        None => {
            return Err(SizeSpecError::UnknownUnit);
        },
    };
    if negative {
        return Ok(0);
    }
    proof {
        lemma_digit_run(body);
        lemma_scaled_bytes_splits(whole, fraction, multiplier as nat);
    }
    match whole_value(&chars, start, whole_end) {
        None => {
            assert(digits_value(whole) * multiplier >= digits_value(whole)) by (nonlinear_arith)
                requires
                    multiplier >= 1,
            ;
            Ok(u64::MAX)
        },
        Some(w) => {
            let f = fraction_bytes(&chars, fraction_start, cut, multiplier);
            assert(w * multiplier <= 0xffff_ffff_ffff_ffff * 0x100_0000_0000) by (nonlinear_arith)
                requires
                    w <= 0xffff_ffff_ffff_ffff,
                    multiplier <= 0x100_0000_0000,
            ;
            let total: u128 = (w as u128) * (multiplier as u128) + (f as u128);
            if total > u64::MAX as u128 {
                Ok(u64::MAX)
            } else {
                Ok(total as u64)
            }
        },
    }
}

} // verus!
