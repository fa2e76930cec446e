//! Number literals: classification of their characters, the shape of valid
//! number text, and the exact conversion between decimal text and signed
//! 64-bit integers.

use vstd::prelude::*;

verus! {

/// A decimal digit `0` through `9`.
pub open spec fn is_digit_char(c: char) -> bool {
    48 <= c as u32 && c as u32 <= 57
}

/// An exponent marker.
pub open spec fn is_exp_char(c: char) -> bool {
    c == 'e' || c == 'E'
}

/// A character that may occur in a number literal.
pub open spec fn is_num_char(c: char) -> bool {
    is_digit_char(c) || is_exp_char(c) || c == '-' || c == '+' || c == '.'
}

/// The positional rules shared by complete number text and by the prefix the
/// scanner has accumulated so far: a sign only at the start or right after an
/// exponent marker, a decimal point and an exponent marker only right after a
/// digit, at most one exponent marker, and no decimal point after it.
pub open spec fn num_shape(s: Seq<char>) -> bool {
    &&& s.len() >= 1
    &&& (is_digit_char(s[0]) || s[0] == '-')
    &&& forall|i: int| 0 <= i < s.len() ==> is_num_char(#[trigger] s[i])
    &&& forall|i: int| 1 <= i < s.len() && #[trigger] s[i] == '-' ==> is_exp_char(s[i - 1])
    &&& forall|i: int| 0 <= i < s.len() && #[trigger] s[i] == '+' ==> i >= 1 && is_exp_char(
        s[i - 1],
    )
    &&& forall|i: int| 0 <= i < s.len() && #[trigger] s[i] == '.' ==> i >= 1 && is_digit_char(
        s[i - 1],
    )
    &&& forall|i: int| 0 <= i < s.len() && is_exp_char(#[trigger] s[i]) ==> i >= 1
        && is_digit_char(s[i - 1])
    &&& forall|i: int, j: int|
        0 <= i < j < s.len() && is_exp_char(s[i]) ==> !is_exp_char(s[j]) && s[j] != '.'
    &&& forall|i: int, j: int| 0 <= i < j < s.len() && s[i] == '.' ==> s[j] != '.'
}

/// Complete, valid JSON number text: the positional rules hold and the text
/// ends with a digit.
pub open spec fn is_number_text(s: Seq<char>) -> bool {
    num_shape(s) && is_digit_char(s[s.len() - 1])
}

/// Valid integer literal text: an optional leading minus sign followed by one
/// or more digits.
pub open spec fn is_int_text(s: Seq<char>) -> bool {
    &&& s.len() >= 1
    &&& (is_digit_char(s[0]) || (s[0] == '-' && s.len() >= 2))
    &&& forall|i: int| 1 <= i < s.len() ==> is_digit_char(#[trigger] s[i])
}

/// The numeric value of a digit character.
pub open spec fn digit_val(c: char) -> int {
    c as u32 - 48
}

/// The value of a sequence of digit characters read as a decimal numeral.
pub open spec fn digits_val(s: Seq<char>) -> int
    decreases s.len(),
{
    if s.len() == 0 {
        0
    } else {
        digits_val(s.drop_last()) * 10 + digit_val(s.last())
    }
}

/// The value of integer literal text, sign included.
pub open spec fn int_text_val(s: Seq<char>) -> int {
    if s.len() >= 1 && s[0] == '-' {
        -digits_val(s.subrange(1, s.len() as int))
    } else {
        digits_val(s)
    }
}

/// A decimal numeral's value is never negative.
pub proof fn lemma_digits_val_nonneg(s: Seq<char>)
    requires
        forall|i: int| 0 <= i < s.len() ==> is_digit_char(#[trigger] s[i]),
    ensures
        digits_val(s) >= 0,
    decreases s.len(),
{
    if s.len() > 0 {
        lemma_digits_val_nonneg(s.drop_last());
    }
}

/// Extending a numeral to the right never shrinks its value.
pub proof fn lemma_digits_val_prefix(s: Seq<char>, n: int)
    requires
        0 <= n <= s.len(),
        forall|i: int| 0 <= i < s.len() ==> is_digit_char(#[trigger] s[i]),
    ensures
        digits_val(s.take(n)) <= digits_val(s),
    decreases s.len() - n,
{
    if n < s.len() {
        lemma_digits_val_prefix(s, n + 1);
        assert(s.take(n + 1).drop_last() =~= s.take(n));
        assert(s.take(n + 1).last() == s[n]);
        lemma_digits_val_nonneg(s.take(n));
        assert(digits_val(s.take(n + 1)) == digits_val(s.take(n)) * 10 + digit_val(s[n]));
    } else {
        assert(s.take(n) =~= s);
    }
}

/// Converts the text of an integer literal to the signed 64-bit value it
/// denotes.  Returns `None` exactly when the value does not fit.
pub fn parse_int_text(text: &Vec<char>) -> (r: Option<i64>)
    requires
        is_int_text(text@),
    ensures
        r matches Some(n) ==> n as int == int_text_val(text@),
        r is None <==> !(i64::MIN <= int_text_val(text@) <= i64::MAX),
{
    let neg = text[0] == '-';
    let start: usize = if neg { 1 } else { 0 };
    let ghost digits = text@.subrange(start as int, text@.len() as int);
    let mut i: usize = start;
    // The accumulator runs negative so that `i64::MIN` itself is reachable.
    let mut acc: i64 = 0;
    proof {
        assert(digits.take(0) =~= Seq::<char>::empty());
    }
    while i < text.len()
        invariant
            start <= i <= text@.len(),
            neg == (text@[0] == '-'),
            start == if neg { 1int } else { 0int },
            text@.len() >= 1,
            is_int_text(text@),
            digits == text@.subrange(start as int, text@.len() as int),
            forall|k: int| 0 <= k < digits.len() ==> is_digit_char(#[trigger] digits[k]),
            acc <= 0,
            acc == -digits_val(digits.take(i - start)),
        decreases text@.len() - i,
    {
        let c = text[i];
        assert(digits[i - start] == text@[i as int]);
        assert(is_digit_char(c));
        let d: i64 = (c as u32) as i64 - 48;
        let shifted = match acc.checked_mul(10) {
            Some(x) => x,
            None => {
                proof {
                    lemma_int_overflow(digits, i - start, d as int);
                    if start == 1 {
                        assert(int_text_val(text@) == -digits_val(digits));
                    } else {
                        assert(digits =~= text@);
                    }
                }
                return None;
            },
        };
        let next = match shifted.checked_sub(d) {
            Some(x) => x,
            None => {
                proof {
                    lemma_int_overflow(digits, i - start, d as int);
                    if start == 1 {
                        assert(int_text_val(text@) == -digits_val(digits));
                    } else {
                        assert(digits =~= text@);
                    }
                }
                return None;
            },
        };
        proof {
            assert(digits.take(i - start + 1).drop_last() =~= digits.take(i - start));
            assert(digits.take(i - start + 1).last() == digits[i - start]);
        }
        acc = next;
        i = i + 1;
    }
    proof {
        assert(digits.take(text@.len() - start) =~= digits);
    }
    if neg {
        proof {
            assert(int_text_val(text@) == -digits_val(digits));
        }
        Some(acc)
    } else {
        proof {
            assert(digits =~= text@);
            assert(int_text_val(text@) == digits_val(text@));
        }
        if acc == i64::MIN {
            None
        } else {
            Some(-acc)
        }
    }
}

/// Whether the text contains a decimal point.
pub open spec fn has_dot(t: Seq<char>) -> bool {
    exists|k: int| 0 <= k < t.len() && t[k] == '.'
}

/// Whether the text contains an exponent marker.
pub open spec fn has_exp(t: Seq<char>) -> bool {
    exists|k: int| 0 <= k < t.len() && is_exp_char(#[trigger] t[k])
}

/// Appending a character to a text keeps track of what it contains.
pub proof fn lemma_has_push(t: Seq<char>, c: char)
    ensures
        has_dot(t.push(c)) <==> (has_dot(t) || c == '.'),
        has_exp(t.push(c)) <==> (has_exp(t) || is_exp_char(c)),
{
    let t1 = t.push(c);
    if has_dot(t) {
        let k = choose|k: int| 0 <= k < t.len() && t[k] == '.';
        assert(t1[k] == '.');
    }
    if c == '.' {
        assert(t1[t.len() as int] == '.');
    }
    if has_dot(t1) {
        let k = choose|k: int| 0 <= k < t1.len() && t1[k] == '.';
        if k < t.len() {
            assert(t[k] == '.');
        }
    }
    if has_exp(t) {
        let k = choose|k: int| 0 <= k < t.len() && is_exp_char(t[k]);
        assert(is_exp_char(t1[k]));
    }
    if is_exp_char(c) {
        assert(is_exp_char(t1[t.len() as int]));
    }
    if has_exp(t1) {
        let k = choose|k: int| 0 <= k < t1.len() && is_exp_char(t1[k]);
        if k < t.len() {
            assert(is_exp_char(t[k]));
        }
    }
}

/// The digit character for a value between 0 and 9.
pub open spec fn digit_char(d: int) -> char {
    if d == 0 {
        '0'
    } else if d == 1 {
        '1'
    } else if d == 2 {
        '2'
    } else if d == 3 {
        '3'
    } else if d == 4 {
        '4'
    } else if d == 5 {
        '5'
    } else if d == 6 {
        '6'
    } else if d == 7 {
        '7'
    } else if d == 8 {
        '8'
    } else {
        '9'
    }
}

/// The shortest decimal numeral for a non-negative value.
pub open spec fn spec_digits(m: int) -> Seq<char>
    decreases m,
{
    if m < 10 {
        seq![digit_char(m)]
    } else {
        spec_digits(m / 10).push(digit_char(m % 10))
    }
}

/// The decimal rendering of an integer, sign included.
pub open spec fn spec_int_text(n: int) -> Seq<char> {
    if n < 0 {
        seq!['-'] + spec_digits(-n)
    } else {
        spec_digits(n)
    }
}

/// The digit character for a value below ten.
fn digit_to_char(d: u64) -> (r: char)
    requires
        d < 10,
    ensures
        r == digit_char(d as int),
{
    if d == 0 {
        '0'
    } else if d == 1 {
        '1'
    } else if d == 2 {
        '2'
    } else if d == 3 {
        '3'
    } else if d == 4 {
        '4'
    } else if d == 5 {
        '5'
    } else if d == 6 {
        '6'
    } else if d == 7 {
        '7'
    } else if d == 8 {
        '8'
    } else {
        '9'
    }
}

/// Appends the decimal numeral of a non-negative value.
pub fn push_digits(m: u64, out: &mut Vec<char>)
    ensures
        final(out)@ == old(out)@ + spec_digits(m as int),
    decreases m,
{
    if m < 10 {
        out.push(digit_to_char(m));
        assert(out@ =~= old(out)@ + spec_digits(m as int));
    } else {
        push_digits(m / 10, out);
        out.push(digit_to_char(m % 10));
        assert(out@ =~= old(out)@ + spec_digits(m as int));
    }
}

/// Appends the decimal rendering of a signed 64-bit integer.
pub fn push_int(n: i64, out: &mut Vec<char>)
    ensures
        final(out)@ == old(out)@ + spec_int_text(n as int),
{
    if n < 0 {
        out.push('-');
        let m: u64 = if n == i64::MIN {
            9_223_372_036_854_775_808u64
        } else {
            (-n) as u64
        };
        push_digits(m, out);
        assert(out@ =~= old(out)@ + spec_int_text(n as int));
    } else {
        push_digits(n as u64, out);
    }
}

/// The numeral produced for a non-negative value reads back as that value,
/// and is made of digits alone.
pub proof fn lemma_digits_round_trip(m: int)
    requires
        m >= 0,
    ensures
        spec_digits(m).len() >= 1,
        forall|i: int| 0 <= i < spec_digits(m).len() ==> is_digit_char(#[trigger] spec_digits(m)[i]),
        digits_val(spec_digits(m)) == m,
    decreases m,
{
    if m < 10 {
        assert(digit_val(digit_char(m)) == m);
        assert(digits_val(spec_digits(m)) == digits_val(Seq::<char>::empty()) * 10 + digit_val(
            digit_char(m),
        )) by {
            assert(spec_digits(m).drop_last() =~= Seq::<char>::empty());
        }
    } else {
        lemma_digits_round_trip(m / 10);
        assert(spec_digits(m).drop_last() =~= spec_digits(m / 10));
        assert(spec_digits(m).last() == digit_char(m % 10));
        assert(digit_val(digit_char(m % 10)) == m % 10);
        assert(digits_val(spec_digits(m)) == (m / 10) * 10 + m % 10);
    }
}

/// Round-trip law for integer scalars: the decimal text rendered for a signed
/// 64-bit integer is valid integer literal text, and reading it back yields
/// the same integer.
pub proof fn lemma_int_round_trip(n: i64)
    ensures
        is_int_text(spec_int_text(n as int)),
        int_text_val(spec_int_text(n as int)) == n as int,
{
    if n < 0 {
        lemma_digits_round_trip(-(n as int));
        let s = spec_int_text(n as int);
        assert(s[0] == '-');
        assert(s.subrange(1, s.len() as int) =~= spec_digits(-(n as int)));
    } else {
        lemma_digits_round_trip(n as int);
    }
}

/// When one more digit pushes the running value past `2^63`, the whole
/// numeral is out of range for a signed 64-bit integer, whichever sign it
/// carries.
proof fn lemma_int_overflow(digits: Seq<char>, k: int, d: int)
    requires
        0 <= k < digits.len(),
        forall|i: int| 0 <= i < digits.len() ==> is_digit_char(#[trigger] digits[i]),
        d == digit_val(digits[k]),
        digits_val(digits.take(k)) * 10 + d > 0x8000_0000_0000_0000,
    ensures
        digits_val(digits) > 0x8000_0000_0000_0000,
{
    assert(digits.take(k + 1).drop_last() =~= digits.take(k));
    assert(digits.take(k + 1).last() == digits[k]);
    assert(digits_val(digits.take(k + 1)) == digits_val(digits.take(k)) * 10 + d);
    lemma_digits_val_prefix(digits, k + 1);
}

} // verus!
