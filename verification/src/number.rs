//! Numbers as text: writing them, and telling which texts are numbers.

use vstd::prelude::*;

use crate::text::{ascii_lower, ascii_lowercase, find_char, from_chars, lemma_first_index, lower_char,
    same_text, to_chars};

verus! {

// ---------------------------------------------------------------------------
// Writing
// ---------------------------------------------------------------------------

/// The character for a digit.
pub open spec fn digit_char(d: nat) -> char {
    (48 + d) as char
}

/// `n` in decimal, without leading zeros.
pub open spec fn decimal_of(n: nat) -> Seq<char>
    decreases n,
{
    if n < 10 {
        seq![digit_char(n)]
    } else {
        decimal_of(n / 10).push(digit_char(n % 10))
    }
}

/// Writes `n` in decimal.
pub fn decimal(n: u64) -> (result: String)
    ensures
        result@ == decimal_of(n as nat),
    decreases n,
{
    if n < 10 {
        let mut out = String::new();
        out.push((48u8 + n as u8) as char);
        assert(out@ =~= decimal_of(n as nat));
        out
    } else {
        let mut out = decimal(n / 10);
        out.push((48u8 + (n % 10) as u8) as char);
        out
    }
}

// ---------------------------------------------------------------------------
// Integers
// ---------------------------------------------------------------------------

/// True for the ASCII digits.
pub open spec fn is_digit(c: char) -> bool {
    '0' <= c <= '9'
}

/// True when `text` holds ASCII digits only.
pub open spec fn all_digits(text: Seq<char>) -> bool {
    forall|i: int| 0 <= i < text.len() ==> is_digit(#[trigger] text[i])
}

/// The number that a text of digits stands for.
pub open spec fn digits_value(text: Seq<char>) -> nat
    decreases text.len(),
{
    if text.len() == 0 {
        0
    } else {
        digits_value(text.drop_last()) * 10 + (text.last() as u32 - 48) as nat
    }
}

/// True when `text` starts with a plus or a minus sign.
pub open spec fn has_sign(text: Seq<char>) -> bool {
    text.len() > 0 && (text[0] == '+' || text[0] == '-')
}

/// `text` without its sign, if it starts with one.
pub open spec fn without_sign(text: Seq<char>) -> Seq<char> {
    if has_sign(text) {
        text.skip(1)
    } else {
        text
    }
}

/// True when `text` is an integer of 64 bits: an optional sign, then digits only and at
/// least one, whose value is in range.
pub open spec fn is_integer_text(text: Seq<char>) -> bool {
    let body = without_sign(text);
    &&& body.len() > 0
    &&& all_digits(body)
    &&& if text[0] == '-' {
        digits_value(body) <= 0x8000_0000_0000_0000
    } else {
        digits_value(body) <= 0x7fff_ffff_ffff_ffff
    }
}

/// More digits never make the number smaller.
proof fn lemma_digits_grow(text: Seq<char>, n: int)
    requires
        0 <= n <= text.len(),
    ensures
        digits_value(text.take(n)) <= digits_value(text),
    decreases text.len() - n,
{
    if n < text.len() {
        lemma_digits_grow(text, n + 1);
        assert(text.take(n + 1).drop_last() =~= text.take(n));
    } else {
        assert(text.take(n) =~= text);
    }
}

/// True when `text` is an integer of 64 bits.
pub fn is_integer(text: &str) -> (result: bool)
    ensures
        result == is_integer_text(text@),
{
    let chars = to_chars(text);
    if chars.len() == 0 {
        return false;
    }
    let negative = chars[0] == '-';
    let start: usize = if negative || chars[0] == '+' {
        1
    } else {
        0
    };
    let ghost body = without_sign(text@);
    assert(body =~= text@.skip(start as int));
    let limit: u128 = if negative {
        0x8000_0000_0000_0000
    } else {
        0x7fff_ffff_ffff_ffff
    };
    if start == chars.len() {
        return false;
    }
    let mut value: u128 = 0;
    let mut i: usize = start;
    assert(body.take(0) =~= Seq::<char>::empty());
    while i < chars.len()
        invariant
            chars@ == text@,
            start <= i <= chars@.len(),
            body == chars@.skip(start as int),
            body == without_sign(text@),
            limit <= 0x8000_0000_0000_0000,
            limit == (if text@[0] == '-' {
                0x8000_0000_0000_0000u128
            } else {
                0x7fff_ffff_ffff_ffffu128
            }),
            value == digits_value(body.take(i - start)),
            value <= limit,
            forall|j: int| 0 <= j < i - start ==> is_digit(#[trigger] body[j]),
        decreases chars@.len() - i,
    {
        let c = chars[i];
        assert(body[i - start] == c);
        if c < '0' || '9' < c {
            return false;
        }
        assert(body.take(i + 1 - start).drop_last() =~= body.take(i - start));
        value = value * 10 + ((c as u8) - 48) as u128;
        proof {
            lemma_digits_grow(body, i + 1 - start);
        }
        if value > limit {
            return false;
        }
        i = i + 1;
    }
    assert(body.take(i - start) =~= body);
    true
}

// ---------------------------------------------------------------------------
// Decimal numbers
// ---------------------------------------------------------------------------

/// Digits with at most one point among them, and at least one digit.
pub open spec fn is_mantissa(text: Seq<char>) -> bool {
    ||| text.len() > 0 && all_digits(text)
    ||| text.len() > 1 && exists|point: int|
        0 <= point < text.len() && #[trigger] text[point] == '.' && all_digits(text.take(point))
            && all_digits(text.skip(point + 1))
}

/// Nothing, or an `e`, an optional sign, and at least one digit.
pub open spec fn is_exponent(text: Seq<char>) -> bool {
    text.len() > 0 ==> {
        &&& text[0] == 'e'
        &&& without_sign(text.skip(1)).len() > 0
        &&& all_digits(without_sign(text.skip(1)))
    }
}

/// True when `text` is the decimal notation of a number: an optional sign, then, in
/// letters of either case, `inf`, `infinity`, `nan`, or a mantissa and an exponent.
pub open spec fn is_number_text(text: Seq<char>) -> bool {
    let body = ascii_lowercase(without_sign(text));
    ||| body == "inf"@
    ||| body == "infinity"@
    ||| body == "nan"@
    ||| exists|m: int| #![trigger body.take(m)]
        0 <= m <= body.len() && is_mantissa(body.take(m)) && is_exponent(body.skip(m))
}

/// True when `chars[from..to]` are digits.
fn digits_between(chars: &Vec<char>, from: usize, to: usize) -> (result: bool)
    requires
        from <= to <= chars@.len(),
    ensures
        result == all_digits(chars@.subrange(from as int, to as int)),
{
    let ghost part = chars@.subrange(from as int, to as int);
    let mut i: usize = from;
    while i < to
        invariant
            from <= i <= to <= chars@.len(),
            part == chars@.subrange(from as int, to as int),
            forall|j: int| 0 <= j < i - from ==> is_digit(#[trigger] part[j]),
        decreases to - i,
    {
        let c = chars[i];
        assert(part[i - from] == c);
        if c < '0' || '9' < c {
            return false;
        }
        i = i + 1;
    }
    true
}

/// True when `chars[..end]` is a mantissa.
fn mantissa_before(chars: &Vec<char>, end: usize) -> (result: bool)
    requires
        end <= chars@.len(),
    ensures
        result == is_mantissa(chars@.take(end as int)),
{
    let ghost m = chars@.take(end as int);
    assert(chars@.subrange(0, end as int) =~= m);
    if end > 0 && digits_between(chars, 0, end) {
        return true;
    }
    if end < 2 {
        return false;
    }
    let mut i: usize = 0;
    while i < end
        invariant
            end <= chars@.len(),
            2 <= end,
            m == chars@.take(end as int),
            i <= end,
            !all_digits(m),
            forall|j: int| 0 <= j < i ==> is_digit(#[trigger] m[j]),
        decreases end - i,
    {
        let c = chars[i];
        assert(m[i as int] == c);
        if c == '.' {
            assert(all_digits(m.take(i as int)));
            assert(chars@.subrange(i + 1, end as int) =~= m.skip(i + 1));
            let rest = digits_between(chars, i + 1, end);
            proof {
                if is_mantissa(m) {
                    let point = choose|point: int|
                        0 <= point < m.len() && #[trigger] m[point] == '.' && all_digits(
                            m.take(point),
                        ) && all_digits(m.skip(point + 1));
                    if point < i {
                        assert(is_digit(m[point]));
                    } else if point > i {
                        assert(m.take(point)[i as int] == '.');
                    }
                }
            }
            return rest;
        }
        if c < '0' || '9' < c {
            proof {
                if is_mantissa(m) {
                    let point = choose|point: int|
                        0 <= point < m.len() && #[trigger] m[point] == '.' && all_digits(
                            m.take(point),
                        ) && all_digits(m.skip(point + 1));
                    if point < i {
                        assert(is_digit(m[point]));
                    } else {
                        assert(m.take(point)[i as int] == c);
                    }
                }
            }
            return false;
        }
        i = i + 1;
    }
    assert(all_digits(m));
    false
}

/// True when `chars[start..]` is an exponent.
fn exponent_from(chars: &Vec<char>, start: usize) -> (result: bool)
    requires
        start <= chars@.len(),
    ensures
        result == is_exponent(chars@.skip(start as int)),
{
    let ghost x = chars@.skip(start as int);
    let total: usize = chars.len();
    if start == total {
        return true;
    }
    assert(x[0] == chars@[start as int]);
    if chars[start] != 'e' {
        return false;
    }
    let mut at: usize = start + 1;
    let ghost tail = x.skip(1);
    assert(tail =~= chars@.skip(start + 1));
    if at < total && (chars[at] == '+' || chars[at] == '-') {
        at = at + 1;
    }
    assert(without_sign(tail) =~= chars@.subrange(at as int, total as int));
    at < total && digits_between(chars, at, total)
}

/// A mantissa holds no letter.
proof fn lemma_mantissa_chars(m: Seq<char>, i: int)
    requires
        is_mantissa(m),
        0 <= i < m.len(),
    ensures
        m[i] != 'e',
{
    if !all_digits(m) {
        let point = choose|point: int|
            0 <= point < m.len() && #[trigger] m[point] == '.' && all_digits(m.take(point))
                && all_digits(m.skip(point + 1));
        if i < point {
            assert(is_digit(m.take(point)[i]));
        } else if i > point {
            assert(is_digit(m.skip(point + 1)[i - point - 1]));
        }
    } else {
        assert(is_digit(m[i]));
    }
}

/// True when `text` is the decimal notation of a number.
pub fn is_number(text: &str) -> (result: bool)
    ensures
        result == is_number_text(text@),
{
    let raw = to_chars(text);
    let start: usize = if raw.len() > 0 && (raw[0] == '+' || raw[0] == '-') {
        1
    } else {
        0
    };
    let ghost body = ascii_lowercase(without_sign(text@));
    let mut chars: Vec<char> = Vec::new();
    let mut i: usize = start;
    while i < raw.len()
        invariant
            raw@ == text@,
            start <= i <= raw@.len(),
            body == ascii_lowercase(without_sign(text@)),
            without_sign(text@) == raw@.skip(start as int),
            chars@ == body.take(i - start),
        decreases raw@.len() - i,
    {
        chars.push(lower_char(raw[i]));
        assert(body[i - start] == ascii_lower(raw@[i as int]));
        assert(body.take(i - start).push(body[i - start]) =~= body.take(i + 1 - start));
        i = i + 1;
    }
    assert(chars@ =~= body);
    let total: usize = chars.len();
    let word = from_chars(&chars, 0, total);
    assert(word@ =~= body);
    if same_text(word.as_str(), "inf") || same_text(word.as_str(), "infinity") || same_text(
        word.as_str(),
        "nan",
    ) {
        return true;
    }
    proof {
        lemma_first_index(chars@, 'e');
    }
    let split: usize = match find_char(&chars, 'e') {
        Some(at) => at,
        None => total,
    };
    proof {
        assert forall|m: int| #![trigger body.take(m)]
            0 <= m <= body.len() && is_mantissa(body.take(m)) && is_exponent(
                body.skip(m),
            ) implies m == split by {
            if m < body.len() {
                assert(body.skip(m)[0] == body[m]);
            }
            if split < m {
                lemma_mantissa_chars(body.take(m), split as int);
            }
        }
    }
    mantissa_before(&chars, split) && exponent_from(&chars, split)
}

// ---------------------------------------------------------------------------
// Laws
// ---------------------------------------------------------------------------

/// A number is written with the digits that read back as it, and with no zero in front.
pub proof fn law_decimal_reads_back(n: nat)
    ensures
        digits_value(decimal_of(n)) == n,
        decimal_of(n).len() > 0,
        forall|i: int| 0 <= i < decimal_of(n).len() ==> '0' <= #[trigger] decimal_of(n)[i] <= '9',
        n > 0 ==> decimal_of(n)[0] != '0',
        n == 0 ==> decimal_of(n).len() == 1,
    decreases n,
{
    let text = decimal_of(n);
    if n < 10 {
        assert(text.drop_last() =~= Seq::empty());
        assert(digits_value(Seq::<char>::empty()) == 0);
    } else {
        law_decimal_reads_back(n / 10);
        assert(text.drop_last() =~= decimal_of(n / 10));
        assert(text[0] == decimal_of(n / 10)[0]);
    }
}

/// The first digit of a number counts as many tens as digits follow it.
pub proof fn law_digits_are_decimal(text: Seq<char>)
    requires
        text.len() > 0,
        forall|i: int| 0 <= i < text.len() ==> '0' <= #[trigger] text[i] <= '9',
    ensures
        digits_value(text) == (text[0] as int - '0' as int) * vstd::arithmetic::power::pow(
            10,
            (text.len() - 1) as nat,
        ) + digits_value(text.skip(1)),
    decreases text.len(),
{
    reveal(vstd::arithmetic::power::pow);
    if text.len() == 1 {
        assert(text.drop_last() =~= Seq::empty());
        assert(text.skip(1) =~= Seq::empty());
        assert(digits_value(Seq::<char>::empty()) == 0);
        assert(vstd::arithmetic::power::pow(10, 0) == 1);
    } else {
        let front = text.drop_last();
        law_digits_are_decimal(front);
        assert(text.skip(1).drop_last() =~= front.skip(1));
        assert(text.skip(1).last() == text.last());
        let d = text[0] as int - '0' as int;
        let p = vstd::arithmetic::power::pow(10, (front.len() - 1) as nat);
        let q = digits_value(front.skip(1));
        assert(vstd::arithmetic::power::pow(10, front.len()) == 10 * p);
        assert((d * p + q) * 10 == d * (10 * p) + q * 10) by (nonlinear_arith);
    }
}

/// True when `text` is the digits, behind the sign.
pub open spec fn signed(text: Seq<char>, sign: Seq<char>, digits: Seq<char>) -> bool {
    &&& text == sign + digits
    &&& digits.len() > 0
    &&& forall|i: int| 0 <= i < digits.len() ==> '0' <= #[trigger] digits[i] <= '9'
}

/// The texts of integers are digits, at least one, with or without a sign, that stay within
/// the range of 64 bits.
pub proof fn law_integer_texts(text: Seq<char>)
    ensures
        is_integer_text(text) <==> {
            ||| exists|digits: Seq<char>| #[trigger]
                signed(text, Seq::empty(), digits) && digits_value(digits) <= i64::MAX
            ||| exists|digits: Seq<char>| #[trigger]
                signed(text, seq!['+'], digits) && digits_value(digits) <= i64::MAX
            ||| exists|digits: Seq<char>| #[trigger]
                signed(text, seq!['-'], digits) && digits_value(digits) <= i64::MAX + 1
        },
{
    let body = without_sign(text);
    if is_integer_text(text) {
        assert forall|i: int| 0 <= i < body.len() implies '0' <= #[trigger] body[i] <= '9' by {
            assert(is_digit(body[i]));
        }
        if has_sign(text) {
            assert(text =~= seq![text[0]] + body);
            assert(signed(text, seq![text[0]], body));
        } else {
            assert(text =~= Seq::<char>::empty() + body);
            assert(signed(text, Seq::empty(), body));
        }
    }
    assert forall|digits: Seq<char>, sign: Seq<char>| #[trigger]
        signed(text, sign, digits) && (sign.len() == 0 || sign == seq!['+'] || sign == seq![
            '-',
        ]) implies body == digits && all_digits(body) && body.len() > 0 && (sign.len() > 0
        ==> text[0] == sign[0]) && (sign.len() == 0 ==> text[0] != '-') by {
        assert(digits[0] == text[sign.len() as int]);
        assert(body =~= digits);
        assert forall|i: int| 0 <= i < body.len() implies is_digit(#[trigger] body[i]) by {
            assert('0' <= digits[i] <= '9');
        }
    }
}

/// A number may have a sign in front, which makes no difference to whether it is one.
pub proof fn law_sign_of_a_number(text: Seq<char>)
    requires
        text.len() > 0 ==> text[0] != '+' && text[0] != '-',
    ensures
        is_number_text(seq!['+'] + text) == is_number_text(text),
        is_number_text(seq!['-'] + text) == is_number_text(text),
{
    assert(without_sign(seq!['+'] + text) =~= text);
    assert(without_sign(seq!['-'] + text) =~= text);
    assert(without_sign(text) == text);
}

/// The case of letters makes no difference to whether a text is a number.
pub proof fn law_case_of_a_number(a: Seq<char>, b: Seq<char>)
    requires
        ascii_lowercase(a) == ascii_lowercase(b),
    ensures
        is_number_text(a) == is_number_text(b),
{
    let x = ascii_lowercase(a);
    let y = ascii_lowercase(b);
    assert(x.len() == a.len() && y.len() == b.len());
    if a.len() > 0 {
        assert(x[0] == y[0]);
        assert(ascii_lower(a[0]) == ascii_lower(b[0]));
        assert(has_sign(a) == has_sign(b));
        if has_sign(a) {
            assert(ascii_lowercase(a.skip(1)) =~= x.skip(1));
            assert(ascii_lowercase(b.skip(1)) =~= y.skip(1));
        }
    }
    assert(ascii_lowercase(without_sign(a)) == ascii_lowercase(without_sign(b)));
}

/// True when `text` is written as a whole part, a point and a fraction, and an `e`, a sign
/// and an exponent; the last three may be missing, and so may the point where there is no
/// fraction.
pub open spec fn spelled(
    text: Seq<char>,
    whole: Seq<char>,
    point: Seq<char>,
    fraction: Seq<char>,
    e: Seq<char>,
    sign: Seq<char>,
    exponent: Seq<char>,
) -> bool {
    &&& text == whole + point + fraction + e + sign + exponent
    &&& whole.len() + fraction.len() > 0
    &&& forall|i: int| 0 <= i < whole.len() ==> '0' <= #[trigger] whole[i] <= '9'
    &&& forall|i: int| 0 <= i < fraction.len() ==> '0' <= #[trigger] fraction[i] <= '9'
    &&& forall|i: int| 0 <= i < exponent.len() ==> '0' <= #[trigger] exponent[i] <= '9'
    &&& point == seq!['.'] || point.len() == 0 && fraction.len() == 0
    &&& sign == seq!['+'] || sign == seq!['-'] || sign.len() == 0
    &&& e == seq!['e'] && exponent.len() > 0 || e.len() == 0 && sign.len() == 0 && exponent.len()
        == 0
}

/// The texts of numbers, in small letters and without a sign: the words for infinity and
/// for no number, and the decimal notations.
pub proof fn law_number_texts(text: Seq<char>)
    requires
        text.len() > 0 ==> text[0] != '+' && text[0] != '-',
        ascii_lowercase(text) == text,
    ensures
        is_number_text(text) <==> {
            ||| text == seq!['i', 'n', 'f']
            ||| text == seq!['i', 'n', 'f', 'i', 'n', 'i', 't', 'y']
            ||| text == seq!['n', 'a', 'n']
            ||| exists|
                whole: Seq<char>,
                point: Seq<char>,
                fraction: Seq<char>,
                e: Seq<char>,
                sign: Seq<char>,
                exponent: Seq<char>,
            | spelled(text, whole, point, fraction, e, sign, exponent)
        },
{
    reveal_strlit("inf");
    reveal_strlit("infinity");
    reveal_strlit("nan");
    assert("inf"@ =~= seq!['i', 'n', 'f']);
    assert("infinity"@ =~= seq!['i', 'n', 'f', 'i', 'n', 'i', 't', 'y']);
    assert("nan"@ =~= seq!['n', 'a', 'n']);
    assert(without_sign(text) == text);
    if exists|m: int| #![trigger text.take(m)]
        0 <= m <= text.len() && is_mantissa(text.take(m)) && is_exponent(text.skip(m)) {
        let m = choose|m: int| #![trigger text.take(m)]
            0 <= m <= text.len() && is_mantissa(text.take(m)) && is_exponent(text.skip(m));
        lemma_spell(text, m);
    }
    assert forall|
        whole: Seq<char>,
        point: Seq<char>,
        fraction: Seq<char>,
        e: Seq<char>,
        sign: Seq<char>,
        exponent: Seq<char>,
    | #[trigger]
        spelled(text, whole, point, fraction, e, sign, exponent) implies is_number_text(text) by {
        lemma_read(text, whole, point, fraction, e, sign, exponent);
    }
}

/// A mantissa and an exponent are spelled as a number is.
proof fn lemma_spell(text: Seq<char>, m: int)
    requires
        0 <= m <= text.len(),
        is_mantissa(text.take(m)),
        is_exponent(text.skip(m)),
    ensures
        exists|
            whole: Seq<char>,
            point: Seq<char>,
            fraction: Seq<char>,
            e: Seq<char>,
            sign: Seq<char>,
            exponent: Seq<char>,
        | spelled(text, whole, point, fraction, e, sign, exponent),
{
    let none = Seq::<char>::empty();
    let front = text.take(m);
    let back = text.skip(m);
    let (whole, point, fraction) = if all_digits(front) {
        (front, none, none)
    } else {
        let p = choose|p: int|
            0 <= p < front.len() && #[trigger] front[p] == '.' && all_digits(front.take(p))
                && all_digits(front.skip(p + 1));
        (front.take(p), seq!['.'], front.skip(p + 1))
    };
    assert(front =~= whole + point + fraction);
    assert(all_digits(whole) && all_digits(fraction));
    let (e, sign, exponent) = if back.len() == 0 {
        (none, none, none)
    } else {
        let tail = back.skip(1);
        (
            seq!['e'],
            if has_sign(tail) {
                seq![tail[0]]
            } else {
                none
            },
            without_sign(tail),
        )
    };
    assert(back =~= e + sign + exponent);
    assert(all_digits(exponent));
    assert forall|i: int| 0 <= i < whole.len() implies '0' <= #[trigger] whole[i] <= '9' by {
        assert(is_digit(whole[i]));
    }
    assert forall|i: int| 0 <= i < fraction.len() implies '0' <= #[trigger] fraction[i] <= '9' by {
        assert(is_digit(fraction[i]));
    }
    assert forall|i: int| 0 <= i < exponent.len() implies '0' <= #[trigger] exponent[i] <= '9' by {
        assert(is_digit(exponent[i]));
    }
    assert(text =~= front + back);
    assert(text =~= whole + point + fraction + e + sign + exponent);
    assert(spelled(text, whole, point, fraction, e, sign, exponent));
}

/// What is spelled as a number is one.
proof fn lemma_read(
    text: Seq<char>,
    whole: Seq<char>,
    point: Seq<char>,
    fraction: Seq<char>,
    e: Seq<char>,
    sign: Seq<char>,
    exponent: Seq<char>,
)
    requires
        text.len() > 0 ==> text[0] != '+' && text[0] != '-',
        ascii_lowercase(text) == text,
        spelled(text, whole, point, fraction, e, sign, exponent),
    ensures
        is_number_text(text),
{
    let front = whole + point + fraction;
    let back = e + sign + exponent;
    let m = front.len() as int;
    assert(text.take(m) =~= front);
    assert(text.skip(m) =~= back);
    assert(without_sign(text) == text);
    assert forall|i: int| 0 <= i < whole.len() implies is_digit(#[trigger] whole[i]) by {
        assert('0' <= whole[i] <= '9');
    }
    assert forall|i: int| 0 <= i < fraction.len() implies is_digit(#[trigger] fraction[i]) by {
        assert('0' <= fraction[i] <= '9');
    }
    assert forall|i: int| 0 <= i < exponent.len() implies is_digit(#[trigger] exponent[i]) by {
        assert('0' <= exponent[i] <= '9');
    }
    if point.len() == 0 {
        assert(front =~= whole);
    } else {
        let p = whole.len() as int;
        assert(front[p] == '.');
        assert(front.take(p) =~= whole);
        assert(front.skip(p + 1) =~= fraction);
    }
    assert(is_mantissa(front));
    if back.len() > 0 {
        assert(back[0] == 'e');
        assert(back.skip(1) =~= sign + exponent);
        if sign.len() == 0 {
            assert(exponent[0] == back.skip(1)[0]);
            assert(is_digit(exponent[0]));
            assert(without_sign(back.skip(1)) =~= exponent);
        } else {
            assert(without_sign(back.skip(1)) =~= exponent);
        }
    }
    assert(is_exponent(back));
}

} // verus!
