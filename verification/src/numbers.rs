//! Numbers as they stand in a lexicon source: which texts are decimal
//! numbers, and which integer a text denotes.

use vstd::prelude::*;
use crate::text::{chars_of, lemma_run_len_is, run_len, string_of};

verus! {

/// Whether `c` is one of the ten digits.
pub open spec fn is_digit(c: char) -> bool {
    '0' <= c <= '9'
}

/// The test that a digit passes.
pub open spec fn digit() -> spec_fn(char) -> bool {
    |c: char| is_digit(c)
}

/// The number that the digit `c` stands for.
pub open spec fn digit_value(c: char) -> nat {
    if is_digit(c) {
        (c as int - '0' as int) as nat
    } else {
        0
    }
}

/// Whether `s` is one digit or more, and nothing else.
pub open spec fn is_digits(s: Seq<char>) -> bool {
    s.len() > 0 && run_len(s, digit()) == s.len()
}

/// The number that `s` denotes in base ten.
pub open spec fn digits_value(s: Seq<char>) -> nat
    decreases s.len(),
{
    if s.len() == 0 {
        0
    } else {
        digits_value(s.drop_last()) * 10 + digit_value(s.last())
    }
}

/// Whether `c` is a sign.
pub open spec fn is_sign(c: char) -> bool {
    c == '+' || c == '-'
}

/// `s` without the sign in front of it, if there is one.
pub open spec fn unsigned(s: Seq<char>) -> Seq<char> {
    if s.len() > 0 && is_sign(s[0]) {
        s.skip(1)
    } else {
        s
    }
}

/// The integer that `s` denotes: an optional sign, then digits and nothing
/// else. `None` where `s` is no such text.
pub open spec fn integer_value(s: Seq<char>) -> Option<int> {
    if !is_digits(unsigned(s)) {
        None
    } else if s[0] == '-' {
        Some(-(digits_value(unsigned(s)) as int))
    } else {
        Some(digits_value(unsigned(s)) as int)
    }
}

/// Whether `s` is an exponent: `e` or `E`, an optional sign, then digits.
pub open spec fn is_exponent(s: Seq<char>) -> bool {
    s.len() > 0 && (s[0] == 'e' || s[0] == 'E') && is_digits(unsigned(s.skip(1)))
}

/// Whether `s` is nothing, or an exponent.
pub open spec fn is_exponent_or_empty(s: Seq<char>) -> bool {
    s.len() == 0 || is_exponent(s)
}

/// Whether `s` is a decimal number without a sign: digits, with or without
/// a point among, before or after them, and at least one digit in all;
/// then, if anything, an exponent.
pub open spec fn is_decimal(s: Seq<char>) -> bool {
    let whole = run_len(s, digit()) as int;
    let rest = s.skip(whole);
    if rest.len() > 0 && rest[0] == '.' {
        let fraction = run_len(rest.skip(1), digit()) as int;
        whole + fraction >= 1 && is_exponent_or_empty(rest.skip(1 + fraction))
    } else {
        whole >= 1 && is_exponent_or_empty(rest)
    }
}

/// Whether `s` spells a word, each letter in either case.
pub open spec fn spells(s: Seq<char>, lower: Seq<char>, upper: Seq<char>) -> bool {
    s.len() == lower.len() && forall|k: int|
        0 <= k < s.len() ==> #[trigger] s[k] == lower[k] || s[k] == upper[k]
}

/// Whether `s` names infinity or what is not a number.
pub open spec fn is_special(s: Seq<char>) -> bool {
    spells(s, "inf"@, "INF"@) || spells(s, "infinity"@, "INFINITY"@) || spells(
        s,
        "nan"@,
        "NAN"@,
    )
}

/// Whether `s` is a number: an optional sign, then a decimal number or one
/// of the names that stand for infinity and for what is not a number.
pub open spec fn is_number_text(s: Seq<char>) -> bool {
    is_decimal(unsigned(s)) || is_special(unsigned(s))
}

/// `s` with a point in place of each comma.
pub open spec fn with_points(s: Seq<char>) -> Seq<char> {
    s.map_values(|c: char| if c == ',' { '.' } else { c })
}

/// A prefix never denotes more than the whole.
pub proof fn lemma_digits_value_grows(s: Seq<char>, k: int)
    requires
        0 <= k <= s.len(),
    ensures
        digits_value(s.take(k)) <= digits_value(s),
    decreases s.len() - k,
{
    if k < s.len() {
        lemma_digits_value_grows(s, k + 1);
        assert(s.take(k + 1).drop_last() == s.take(k));
    } else {
        assert(s.take(k) == s);
    }
}

/// Whether `c` is a digit.
pub fn is_digit_char(c: char) -> (b: bool)
    ensures
        b == is_digit(c),
{
    '0' <= c && c <= '9'
}

/// The end of the digits that start at `from`.
fn skip_digits(chars: &Vec<char>, from: usize) -> (to: usize)
    requires
        from <= chars.len(),
    ensures
        from <= to <= chars.len(),
        to - from == run_len(chars@.skip(from as int), digit()),
{
    let mut to = from;
    while to < chars.len() && is_digit_char(chars[to])
        invariant
            from <= to <= chars.len(),
            forall|k: int| from <= k < to ==> is_digit(#[trigger] chars@[k]),
        decreases chars.len() - to,
    {
        to += 1;
    }
    proof {
        let rest = chars@.skip(from as int);
        assert forall|k: int| 0 <= k < to - from implies digit()(#[trigger] rest[k]) by {
            assert(rest[k] == chars@[from + k]);
        }
        lemma_run_len_is(rest, digit(), (to - from) as nat);
    }
    to
}

/// Where what follows a sign at `from` starts.
fn skip_sign(chars: &Vec<char>, from: usize) -> (to: usize)
    requires
        from <= chars.len(),
    ensures
        from <= to <= chars.len(),
        chars@.skip(to as int) == unsigned(chars@.skip(from as int)),
{
    if from < chars.len() && (chars[from] == '+' || chars[from] == '-') {
        assert(chars@.skip(from as int).skip(1) == chars@.skip(from + 1));
        from + 1
    } else {
        from
    }
}

/// Whether what starts at `from` is digits to the end.
fn digits_to_end(chars: &Vec<char>, from: usize) -> (b: bool)
    requires
        from <= chars.len(),
    ensures
        b == is_digits(chars@.skip(from as int)),
{
    let to = skip_digits(chars, from);
    from < chars.len() && to == chars.len()
}

/// Whether what starts at `from` is nothing, or an exponent.
fn exponent_to_end(chars: &Vec<char>, from: usize) -> (b: bool)
    requires
        from <= chars.len(),
    ensures
        b == is_exponent_or_empty(chars@.skip(from as int)),
{
    if from == chars.len() {
        true
    } else if chars[from] == 'e' || chars[from] == 'E' {
        assert(chars@.skip(from as int).skip(1) == chars@.skip(from + 1));
        let start = skip_sign(chars, from + 1);
        digits_to_end(chars, start)
    } else {
        false
    }
}

/// Whether what starts at `from` spells a word to the end.
fn spells_to_end(chars: &Vec<char>, from: usize, lower: &str, upper: &str) -> (b: bool)
    requires
        from <= chars.len(),
        lower@.len() == upper@.len(),
    ensures
        b == spells(chars@.skip(from as int), lower@, upper@),
{
    let low = chars_of(lower);
    let up = chars_of(upper);
    if chars.len() - from != low.len() {
        return false;
    }
    let ghost rest = chars@.skip(from as int);
    let mut k: usize = 0;
    while k < low.len()
        invariant
            k <= low.len(),
            low.len() == up.len(),
            from + low.len() == chars.len(),
            rest == chars@.skip(from as int),
            low@ == lower@,
            up@ == upper@,
            forall|j: int| 0 <= j < k ==> #[trigger] rest[j] == low@[j] || rest[j] == up@[j],
        decreases low.len() - k,
    {
        let c = chars[from + k];
        assert(rest[k as int] == c);
        if c != low[k] && c != up[k] {
            return false;
        }
        k += 1;
    }
    true
}

/// Whether `text` is a number.
pub fn is_number(text: &str) -> (b: bool)
    ensures
        b == is_number_text(text@),
{
    let chars = chars_of(text);
    assert(chars@.skip(0) == chars@);
    let start = skip_sign(&chars, 0);
    let ghost body = chars@.skip(start as int);
    let whole_end = skip_digits(&chars, start);
    proof {
        assert(body.skip(whole_end - start) == chars@.skip(whole_end as int));
    }
    let decimal = if whole_end < chars.len() && chars[whole_end] == '.' {
        let fraction_end = skip_digits(&chars, whole_end + 1);
        proof {
            let rest = body.skip(whole_end - start);
            assert(rest[0] == chars@[whole_end as int]);
            assert(rest.skip(1) == chars@.skip(whole_end + 1));
            assert(rest.skip(1 + (fraction_end - whole_end - 1)) == chars@.skip(
                fraction_end as int,
            ));
        }
        fraction_end - start >= 2 && exponent_to_end(&chars, fraction_end)
    } else {
        proof {
            let rest = body.skip(whole_end - start);
            if rest.len() > 0 {
                assert(rest[0] == chars@[whole_end as int]);
            }
        }
        whole_end > start && exponent_to_end(&chars, whole_end)
    };
    if decimal {
        return true;
    }
    proof {
        reveal_strlit("inf");
        reveal_strlit("INF");
        reveal_strlit("infinity");
        reveal_strlit("INFINITY");
        reveal_strlit("nan");
        reveal_strlit("NAN");
    }
    spells_to_end(&chars, start, "inf", "INF") || spells_to_end(
        &chars,
        start,
        "infinity",
        "INFINITY",
    ) || spells_to_end(&chars, start, "nan", "NAN")
}

/// `text` with a point in place of each comma.
pub fn commas_to_points(text: &str) -> (out: String)
    ensures
        out@ == with_points(text@),
{
    let chars = chars_of(text);
    let mut out: Vec<char> = Vec::new();
    let mut i: usize = 0;
    while i < chars.len()
        invariant
            i <= chars.len(),
            out@ == with_points(chars@.take(i as int)),
        decreases chars.len() - i,
    {
        let c = chars[i];
        out.push(if c == ',' {
            '.'
        } else {
            c
        });
        assert(out@ == with_points(chars@.take(i + 1)));
        i += 1;
    }
    assert(chars@.take(chars.len() as int) == chars@);
    string_of(&out, 0, out.len())
}

/// The integer that `text` denotes, if it denotes one that fits.
pub fn parse_integer(text: &str) -> (value: Option<i32>)
    ensures
        value == match integer_value(text@) {
            Some(v) => if i32::MIN <= v <= i32::MAX {
                Some(v as i32)
            } else {
                None
            },
            None => None,
        },
{
    let chars = chars_of(text);
    assert(chars@.skip(0) == chars@);
    let start = skip_sign(&chars, 0);
    if !digits_to_end(&chars, start) {
        return None;
    }
    let negative = chars[0] == '-';
    let ghost body = chars@.skip(start as int);
    let mut magnitude: i64 = 0;
    let mut i: usize = start;
    proof {
        crate::text::lemma_run_len_bounds(body, digit());
        assert(body.take(0) == Seq::<char>::empty());
    }
    while i < chars.len()
        invariant
            start <= i <= chars.len(),
            chars@ == text@,
            body == chars@.skip(start as int),
            body == unsigned(chars@),
            is_digits(body),
            forall|k: int| 0 <= k < body.len() ==> is_digit(#[trigger] body[k]),
            magnitude == digits_value(body.take(i - start)),
            magnitude <= 0x8000_0000,
        decreases chars.len() - i,
    {
        let c = chars[i];
        proof {
            assert(body[i - start] == c);
            assert(body.take(i - start + 1).drop_last() == body.take(i - start));
            lemma_digits_value_grows(body, i - start + 1);
        }
        let d: i64 = (c as u32 - '0' as u32) as i64;
        magnitude = magnitude * 10 + d;
        if magnitude > 0x8000_0000 {
            return None;
        }
        i += 1;
    }
    assert(body.take(body.len() as int) == body);
    if negative {
        Some((-magnitude) as i32)
    } else if magnitude == 0x8000_0000 {
        None
    } else {
        Some(magnitude as i32)
    }
}

/// The digit that stands for `d`, a number below ten.
pub open spec fn digit_char(d: nat) -> char {
    ('0' as int + d) as char
}

/// `n` written in base ten, without leading zeros.
pub open spec fn decimal_text(n: nat) -> Seq<char>
    decreases n,
{
    if n < 10 {
        seq![digit_char(n)]
    } else {
        decimal_text(n / 10).push(digit_char(n % 10))
    }
}

/// `n` written in base ten.
pub fn decimal(n: u128) -> (out: String)
    ensures
        out@ == decimal_text(n as nat),
    decreases n,
{
    if n < 10 {
        let mut out = String::new();
        out.push((('0' as u8) + (n as u8)) as char);
        out
    } else {
        let mut out = decimal(n / 10);
        out.push((('0' as u8) + ((n % 10) as u8)) as char);
        out
    }
}

} // verus!
