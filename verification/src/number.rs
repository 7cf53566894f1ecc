//! Decimal numbers as text, read into fixed-point quantities.
//!
//! A number is an optional sign, digits, and optionally a point and more
//! digits, with at least one digit in all; white space around it is
//! ignored. Digits beyond the sixth after the point are dropped.

use vstd::prelude::*;
use crate::fixed::SCALE;

verus! {

/// Whether `c` is white space.
pub open spec fn is_space(c: char) -> bool {
    let p = c as u32;
    ||| 0x09 <= p <= 0x0D
    ||| p == 0x20
    ||| p == 0x85
    ||| p == 0xA0
    ||| p == 0x1680
    ||| 0x2000 <= p <= 0x200A
    ||| p == 0x2028
    ||| p == 0x2029
    ||| p == 0x202F
    ||| p == 0x205F
    ||| p == 0x3000
}

/// Whether `c` is one of the digits `0` to `9`.
pub open spec fn is_digit(c: char) -> bool {
    0x30 <= c as u32 <= 0x39
}

/// The value of a digit.
pub open spec fn digit(c: char) -> nat {
    (c as u32 - 0x30) as nat
}

/// Whether `text` holds digits only.
pub open spec fn all_digits(text: Seq<char>) -> bool {
    forall|i: int| 0 <= i < text.len() ==> is_digit(#[trigger] text[i])
}

/// The number that a run of digits writes; zero for no digits.
pub open spec fn decimal(digits: Seq<char>) -> nat
    decreases digits.len(),
{
    if digits.len() == 0 {
        0
    } else {
        decimal(digits.drop_last()) * 10 + digit(digits.last())
    }
}

/// `text` without the white space it starts with.
pub open spec fn trim_start(text: Seq<char>) -> Seq<char>
    decreases text.len(),
{
    if text.len() > 0 && is_space(text[0]) {
        trim_start(text.skip(1))
    } else {
        text
    }
}

/// `text` without the white space it ends with.
pub open spec fn trim_end(text: Seq<char>) -> Seq<char>
    decreases text.len(),
{
    if text.len() > 0 && is_space(text.last()) {
        trim_end(text.drop_last())
    } else {
        text
    }
}

/// `text` without the white space around it.
pub open spec fn trimmed(text: Seq<char>) -> Seq<char> {
    trim_end(trim_start(text))
}

/// Position of the first point in `text`, or its length where it has none.
pub open spec fn first_point(text: Seq<char>) -> int
    decreases text.len(),
{
    if text.len() == 0 || text[0] == '.' {
        0
    } else {
        1 + first_point(text.skip(1))
    }
}

/// The first six digits after the point as millionths, with zeros for
/// the digits that are not there.
pub open spec fn micros(fraction: Seq<char>) -> nat {
    decimal(padded(fraction))
}

/// The first six digits of `fraction`, filled up with zeros.
pub open spec fn padded(fraction: Seq<char>) -> Seq<char> {
    Seq::new(
        6,
        |i: int|
            if i < fraction.len() {
                fraction[i]
            } else {
                '0'
            },
    )
}

/// The fixed-point value of an unsigned decimal number, `None` where
/// `body` is none.
pub open spec fn magnitude(body: Seq<char>) -> Option<nat> {
    let point = first_point(body);
    let whole = body.take(point);
    let fraction = if point < body.len() {
        body.skip(point + 1)
    } else {
        Seq::empty()
    };
    if all_digits(whole) && all_digits(fraction) && whole.len() + fraction.len() > 0 {
        Some(decimal(whole) * (SCALE as nat) + micros(fraction))
    } else {
        None
    }
}

/// The fixed-point value of a field, `None` where the field is no number
/// or its value does not fit 64 bits.
pub open spec fn number_of(field: Seq<char>) -> Option<i64> {
    let text = trimmed(field);
    let negative = text.len() > 0 && text[0] == '-';
    let signed = text.len() > 0 && (text[0] == '-' || text[0] == '+');
    let body = if signed {
        text.skip(1)
    } else {
        text
    };
    match magnitude(body) {
        Some(m) => {
            let value = if negative {
                -(m as int)
            } else {
                m as int
            };
            if i64::MIN <= value <= i64::MAX {
                Some(value as i64)
            } else {
                None
            }
        },
        None => None,
    }
}

/// Decides [`is_space`].
pub fn space(c: char) -> (r: bool)
    ensures
        r == is_space(c),
{
    let p: u32 = c as u32;
    (0x09 <= p && p <= 0x0D) || p == 0x20 || p == 0x85 || p == 0xA0 || p == 0x1680 || (0x2000 <= p
        && p <= 0x200A) || p == 0x2028 || p == 0x2029 || p == 0x202F || p == 0x205F || p == 0x3000
}

/// The value of `c` where it is a digit.
pub fn digit_value(c: char) -> (r: Option<u64>)
    ensures
        r is Some == is_digit(c),
        r is Some ==> r->0 == digit(c) && r->0 <= 9,
{
    let p: u32 = c as u32;
    if 0x30 <= p && p <= 0x39 {
        Some((p - 0x30) as u64)
    } else {
        None
    }
}

/// A run of digits writes a number no smaller than any run it starts with.
pub proof fn lemma_decimal_grows(digits: Seq<char>, k: int)
    requires
        0 <= k <= digits.len(),
    ensures
        decimal(digits.take(k)) <= decimal(digits),
    decreases digits.len(),
{
    if k == digits.len() {
        assert(digits.take(k) =~= digits);
    } else {
        let front = digits.drop_last();
        lemma_decimal_grows(front, k);
        assert(front.take(k) =~= digits.take(k));
        assert(decimal(front) * 10 >= decimal(front)) by (nonlinear_arith);
    }
}

/// The first point is where a point stands with none before it.
pub proof fn lemma_first_point(text: Seq<char>, k: int)
    requires
        0 <= k <= text.len(),
        forall|j: int| 0 <= j < k ==> text[j] != '.',
        k == text.len() || text[k] == '.',
    ensures
        first_point(text) == k,
    decreases text.len(),
{
    if k > 0 {
        let rest = text.skip(1);
        assert forall|j: int| 0 <= j < k - 1 implies rest[j] != '.' by {
            assert(rest[j] == text[j + 1]);
        }
        lemma_first_point(rest, k - 1);
    }
}

/// No point stands before the first point, which lies within the text.
pub proof fn lemma_first_point_bounds(text: Seq<char>)
    ensures
        0 <= first_point(text) <= text.len(),
        forall|j: int| 0 <= j < first_point(text) ==> text[j] != '.',
        first_point(text) < text.len() ==> text[first_point(text)] == '.',
    decreases text.len(),
{
    if !(text.len() == 0 || text[0] == '.') {
        let rest = text.skip(1);
        lemma_first_point_bounds(rest);
        assert forall|j: int| 0 <= j < first_point(text) implies text[j] != '.' by {
            if j > 0 {
                assert(rest[j - 1] == text[j]);
            }
        }
        if first_point(text) < text.len() {
            assert(rest[first_point(rest)] == text[first_point(text)]);
        }
    }
}

/// Ten to the power of `n`.
pub open spec fn pow10(n: nat) -> nat
    decreases n,
{
    if n == 0 {
        1
    } else {
        10 * pow10((n - 1) as nat)
    }
}

/// The powers of ten up to a million.
pub proof fn lemma_pow10_values()
    ensures
        pow10(0) == 1,
        pow10(1) == 10,
        pow10(2) == 100,
        pow10(3) == 1_000,
        pow10(4) == 10_000,
        pow10(5) == 100_000,
        pow10(6) == 1_000_000,
{
    reveal_with_fuel(pow10, 8);
}

/// The range of `text` between `from` and `to` without the white space
/// around it.
pub fn trim_range(text: &Vec<char>, from: usize, to: usize) -> (r: (usize, usize))
    requires
        from <= to <= text.len(),
    ensures
        from <= r.0 <= r.1 <= to,
        text@.subrange(r.0 as int, r.1 as int) == trimmed(text@.subrange(from as int, to as int)),
{
    let mut a: usize = from;
    while a < to && space(text[a])
        invariant
            from <= a <= to <= text.len(),
            trim_start(text@.subrange(from as int, to as int)) == trim_start(
                text@.subrange(a as int, to as int),
            ),
        decreases to - a,
    {
        proof {
            let here = text@.subrange(a as int, to as int);
            assert(here[0] == text@[a as int]);
            assert(here.skip(1) =~= text@.subrange(a + 1, to as int));
        }
        a += 1;
    }
    proof {
        let here = text@.subrange(a as int, to as int);
        if a < to {
            assert(here[0] == text@[a as int]);
        }
        assert(trim_start(here) == here);
    }
    let mut b: usize = to;
    while a < b && space(text[b - 1])
        invariant
            a <= b <= to <= text.len(),
            trim_end(text@.subrange(a as int, to as int)) == trim_end(
                text@.subrange(a as int, b as int),
            ),
        decreases b - a,
    {
        proof {
            let here = text@.subrange(a as int, b as int);
            assert(here.last() == text@[b - 1]);
            assert(here.drop_last() =~= text@.subrange(a as int, b - 1));
        }
        b -= 1;
    }
    proof {
        let here = text@.subrange(a as int, b as int);
        if a < b {
            assert(here.last() == text@[b - 1]);
        }
        assert(trim_end(here) == here);
    }
    (a, b)
}

/// Largest magnitude that a 64-bit signed number can have: two to the 63rd.
pub const MAGNITUDE_LIMIT: u64 = 0x8000_0000_0000_0000;

/// Reads the unsigned decimal number between `from` and `to`: its
/// fixed-point value where that is at most [`MAGNITUDE_LIMIT`], `None`
/// where it is more or the text is no number.
pub fn parse_magnitude(text: &Vec<char>, from: usize, to: usize) -> (r: Option<u64>)
    requires
        from <= to <= text.len(),
    ensures
        r == match magnitude(text@.subrange(from as int, to as int)) {
            Some(m) => if m <= MAGNITUDE_LIMIT {
                Some(m as u64)
            } else {
                None
            },
            None => None,
        },
{
    let ghost body = text@.subrange(from as int, to as int);
    proof {
        lemma_first_point_bounds(body);
        lemma_pow10_values();
    }
    let mut i: usize = from;
    let mut whole: u64 = 0;
    proof {
        assert(body.take(0).len() == 0);
    }
    while i < to && text[i] != '.'
        invariant
            from <= i <= to <= text.len(),
            body == text@.subrange(from as int, to as int),
            forall|j: int| 0 <= j < i - from ==> body[j] != '.' && is_digit(#[trigger] body[j]),
            whole == decimal(body.take(i - from)),
            whole <= 9_223_372_036_854,
            0 <= first_point(body) <= body.len(),
            forall|j: int| 0 <= j < first_point(body) ==> body[j] != '.',
            first_point(body) < body.len() ==> body[first_point(body)] == '.',
        decreases to - i,
    {
        let ghost k = i - from;
        proof {
            assert(body[k] == text@[i as int]);
            // the first point lies beyond this position
            assert(first_point(body) > k);
            assert(body.take(first_point(body))[k] == body[k]);
            assert(body.take(k + 1).drop_last() =~= body.take(k));
            assert(body.take(k + 1).last() == body[k]);
        }
        match digit_value(text[i]) {
            None => {
                return None;
            },
            Some(d) => {
                let next: u64 = whole * 10 + d;
                if next > 9_223_372_036_854 {
                    proof {
                        let lead = body.take(first_point(body));
                        lemma_decimal_grows(lead, k + 1);
                        assert(lead.take(k + 1) =~= body.take(k + 1));
                        assert(decimal(lead) >= next);
                        assert(decimal(lead) * 1_000_000 > MAGNITUDE_LIMIT) by (nonlinear_arith)
                            requires
                                decimal(lead) >= 9_223_372_036_855,
                                MAGNITUDE_LIMIT == 0x8000_0000_0000_0000,
                        ;
                    }
                    return None;
                }
                whole = next;
            },
        }
        i += 1;
    }
    let ghost point = i - from;
    proof {
        if i < to {
            assert(body[point] == text@[i as int]);
        }
        lemma_first_point(body, point);
        assert(all_digits(body.take(point))) by {
            assert forall|j: int| 0 <= j < body.take(point).len() implies is_digit(
                #[trigger] body.take(point)[j],
            ) by {
                assert(body.take(point)[j] == body[j]);
            }
        }
    }
    let ghost fraction = if point < body.len() {
        body.skip(point + 1)
    } else {
        Seq::empty()
    };
    let mut micro: u64 = 0;
    let mut count: usize = 0;
    let mut seen: usize = 0;
    proof {
        assert(padded(fraction).take(0).len() == 0);
    }
    if i < to {
        let mut j: usize = i + 1;
        while j < to
            invariant
                from <= i < j <= to <= text.len(),
                body == text@.subrange(from as int, to as int),
                point == i - from,
                point < body.len(),
                fraction == body.skip(point + 1),
                point == first_point(body),
                seen == j - (i + 1),
                count == if seen < 6 { seen } else { 6 },
                forall|d: int| 0 <= d < seen ==> is_digit(#[trigger] fraction[d]),
                micro == decimal(padded(fraction).take(count as int)),
                micro < pow10(count as nat),
                pow10(6) == 1_000_000,
            decreases to - j,
        {
            proof {
                assert(fraction[seen as int] == text@[j as int]);
            }
            match digit_value(text[j]) {
                None => {
                    proof {
                        assert(!is_digit(fraction[seen as int]));
                        assert(!all_digits(fraction));
                    }
                    return None;
                },
                Some(d) => {
                    if count < 6 {
                        proof {
                            let six = padded(fraction);
                            assert(six.take(count + 1).drop_last() =~= six.take(count as int));
                            assert(six.take(count + 1).last() == fraction[seen as int]);
                            assert(pow10((count + 1) as nat) == 10 * pow10(count as nat));
                            lemma_pow10_values();
                        }
                        micro = micro * 10 + d;
                        count += 1;
                    }
                },
            }
            seen += 1;
            j += 1;
        }
    }
    proof {
        assert(seen == fraction.len());
        assert(all_digits(fraction));
    }
    while count < 6
        invariant
            count <= 6,
            count >= (if fraction.len() < 6 { fraction.len() } else { 6 }),
            micro == decimal(padded(fraction).take(count as int)),
            micro < pow10(count as nat),
            pow10(6) == 1_000_000,
        decreases 6 - count,
    {
        proof {
            let six = padded(fraction);
            assert(six.take(count + 1).drop_last() =~= six.take(count as int));
            assert(six.take(count + 1).last() == '0');
            assert(pow10((count + 1) as nat) == 10 * pow10(count as nat));
            lemma_pow10_values();
        }
        micro = micro * 10;
        count += 1;
    }
    proof {
        assert(padded(fraction).take(6) =~= padded(fraction));
        assert(micro == micros(fraction));
    }
    if i - from + seen == 0 {
        return None;
    }
    let m: u64 = whole * 1_000_000 + micro;
    if m > MAGNITUDE_LIMIT {
        None
    } else {
        Some(m)
    }
}

/// Reads the number between `from` and `to`, as [`number_of`] defines it.
pub fn parse_number(text: &Vec<char>, from: usize, to: usize) -> (r: Option<i64>)
    requires
        from <= to <= text.len(),
    ensures
        r == number_of(text@.subrange(from as int, to as int)),
{
    let (a, b) = trim_range(text, from, to);
    let ghost inner = text@.subrange(a as int, b as int);
    let negative = a < b && text[a] == '-';
    let signed = a < b && (text[a] == '-' || text[a] == '+');
    proof {
        if a < b {
            assert(inner[0] == text@[a as int]);
            assert(inner.skip(1) =~= text@.subrange(a + 1, b as int));
        }
    }
    let start = if signed {
        a + 1
    } else {
        a
    };
    match parse_magnitude(text, start, b) {
        None => None,
        Some(m) => {
            if negative {
                if m == MAGNITUDE_LIMIT {
                    Some(i64::MIN)
                } else {
                    Some(-(m as i64))
                }
            } else if m == MAGNITUDE_LIMIT {
                None
            } else {
                Some(m as i64)
            }
        },
    }
}

/// The characters of a text.
pub fn to_chars(text: &str) -> (chars: Vec<char>)
    ensures
        chars@ == text@,
{
    let mut chars: Vec<char> = Vec::new();
    for c in it: text.chars()
        invariant
            it.seq() == text@,
            chars@.len() == it.index(),
            forall|j: int| 0 <= j < chars@.len() ==> chars@[j] == it.seq()[j],
    {
        chars.push(c);
    }
    proof {
        assert(chars@ =~= text@);
    }
    chars
}

/// Reads a field as a number, as [`number_of`] defines it.
pub fn parse_field(field: &str) -> (r: Option<i64>)
    ensures
        r == number_of(field@),
{
    let chars = to_chars(field);
    proof {
        assert(chars@.subrange(0, chars.len() as int) =~= chars@);
    }
    parse_number(&chars, 0, chars.len())
}

} // verus!
