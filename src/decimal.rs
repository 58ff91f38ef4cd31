//! Decimal integer text: an optional `+` or `-` sign followed by one or more
//! ASCII digits, with no surrounding whitespace.

use vstd::prelude::*;

verus! {

pub open spec fn is_digit(c: char) -> bool {
    '0' <= c && c <= '9'
}

pub open spec fn digit_value(c: char) -> nat {
    ((c as u32) - 48) as nat
}

pub open spec fn all_digits(s: Seq<char>) -> bool {
    forall|i: int| 0 <= i < s.len() ==> is_digit(#[trigger] s[i])
}

/// The number that a run of digits denotes, most significant digit first.
pub open spec fn digits_value(s: Seq<char>) -> nat
    decreases s.len(),
{
    if s.len() == 0 {
        0
    } else {
        digits_value(s.drop_last()) * 10 + digit_value(s.last())
    }
}

/// The integer that `s` denotes, or `None` where `s` is not decimal integer text.
pub open spec fn signed_value(s: Seq<char>) -> Option<int> {
    if s.len() > 0 && (s[0] == '+' || s[0] == '-') {
        let rest = s.drop_first();
        if rest.len() > 0 && all_digits(rest) {
            if s[0] == '-' {
                Some(-(digits_value(rest) as int))
            } else {
                Some(digits_value(rest) as int)
            }
        } else {
            None
        }
    } else if s.len() > 0 && all_digits(s) {
        Some(digits_value(s) as int)
    } else {
        None
    }
}

/// `v`, kept only where it lies in `lo..=hi`.
pub open spec fn value_within(v: Option<int>, lo: int, hi: int) -> Option<int> {
    match v {
        Some(x) => if lo <= x <= hi {
            Some(x)
        } else {
            None
        },
        None => None,
    }
}

pub open spec fn digit_char(d: nat) -> char {
    ((d + 48) as u32) as char
}

/// The shortest digits that denote `n`.
pub open spec fn digits_text(n: nat) -> Seq<char>
    decreases n,
{
    if n < 10 {
        seq![digit_char(n)]
    } else {
        digits_text(n / 10).push(digit_char(n % 10))
    }
}

/// The usual decimal form of `v`: a minus sign for a negative value, no plus sign.
pub open spec fn decimal_text(v: int) -> Seq<char> {
    if v < 0 {
        seq!['-'] + digits_text((-v) as nat)
    } else {
        digits_text(v as nat)
    }
}

/// A number type that can be read from decimal text.
pub trait FromText: Sized {
    /// The value that `s` denotes, or `None` where `s` is not text of this type.
    spec fn text_value(s: Seq<char>) -> Option<Self>;

    /// Reads `text[start..end]`.
    fn from_text(text: &Vec<char>, start: usize, end: usize) -> (r: Option<Self>)
        requires
            start <= end <= text.len(),
        ensures
            r == Self::text_value(text@.subrange(start as int, end as int)),
    ;
}

impl FromText for i32 {
    open spec fn text_value(s: Seq<char>) -> Option<i32> {
        match value_within(signed_value(s), i32::MIN as int, i32::MAX as int) {
            Some(v) => Some(v as i32),
            None => None,
        }
    }

    fn from_text(text: &Vec<char>, start: usize, end: usize) -> (r: Option<i32>) {
        match parse_signed(text, start, end, i32::MIN as i128, i32::MAX as i128) {
            Some(v) => Some(v as i32),
            None => None,
        }
    }
}

impl FromText for i64 {
    open spec fn text_value(s: Seq<char>) -> Option<i64> {
        match value_within(signed_value(s), i64::MIN as int, i64::MAX as int) {
            Some(v) => Some(v as i64),
            None => None,
        }
    }

    fn from_text(text: &Vec<char>, start: usize, end: usize) -> (r: Option<i64>) {
        match parse_signed(text, start, end, i64::MIN as i128, i64::MAX as i128) {
            Some(v) => Some(v as i64),
            None => None,
        }
    }
}

proof fn lemma_digits_value_step(s: Seq<char>, i: int)
    requires
        0 <= i < s.len(),
    ensures
        digits_value(s.take(i + 1)) == digits_value(s.take(i)) * 10 + digit_value(s[i]),
{
    assert(s.take(i + 1).drop_last() =~= s.take(i));
}

proof fn lemma_prefix_value_le(s: Seq<char>, k: int)
    requires
        0 <= k <= s.len(),
    ensures
        digits_value(s.take(k)) <= digits_value(s),
    decreases s.len(),
{
    if k == s.len() {
        assert(s.take(k) =~= s);
    } else {
        lemma_prefix_value_le(s.drop_last(), k);
        assert(s.drop_last().take(k) =~= s.take(k));
    }
}

/// Reads `text[start..end]` as decimal integer text whose value lies in `lo..=hi`.
fn parse_signed(text: &Vec<char>, start: usize, end: usize, lo: i128, hi: i128) -> (r: Option<
    i128,
>)
    requires
        start <= end <= text.len(),
        i64::MIN <= lo <= 0 <= hi <= i64::MAX,
    ensures
        match r {
            Some(v) => value_within(signed_value(text@.subrange(start as int, end as int)), lo as int, hi as int)
                == Some(v as int),
            None => value_within(signed_value(text@.subrange(start as int, end as int)), lo as int, hi as int) is None,
        },
{
    let ghost s = text@.subrange(start as int, end as int);
    if start == end {
        return None;
    }
    let first = text[start];
    assert(s[0] == first);
    let negative = first == '-';
    let signed = first == '+' || first == '-';
    let ds: usize = if signed { start + 1 } else { start };
    let ghost digits = text@.subrange(ds as int, end as int);
    assert(signed ==> s.drop_first() =~= digits);
    assert(!signed ==> s =~= digits);
    if ds == end {
        return None;
    }
    let limit: i128 = if negative { -lo } else { hi };
    let mut acc: i128 = 0;
    let mut i: usize = ds;
    while i < end
        invariant
            start <= ds <= i <= end <= text.len(),
            digits == text@.subrange(ds as int, end as int),
            s == text@.subrange(start as int, end as int),
            s.len() > 0 && s[0] == first,
            signed == (first == '+' || first == '-'),
            negative == (first == '-'),
            signed ==> s.drop_first() == digits,
            !signed ==> s == digits,
            i64::MIN <= lo <= 0 <= hi <= i64::MAX,
            limit == if negative { -lo } else { hi as int },
            0 <= acc <= limit <= i64::MAX + 1,
            acc == digits_value(digits.take(i - ds)),
            all_digits(digits.take(i - ds)),
        decreases end - i,
    {
        let c = text[i];
        assert(digits[i - ds] == c);
        if !('0' <= c && c <= '9') {
            assert(!all_digits(digits));
            return None;
        }
        proof {
            lemma_digits_value_step(digits, i - ds);
            assert(digits.take(i - ds + 1) =~= digits.take(i - ds).push(c));
        }
        acc = acc * 10 + ((c as u32) - 48) as i128;
        i = i + 1;
        if acc > limit {
            proof {
                if all_digits(digits) {
                    lemma_prefix_value_le(digits, i - ds);
                }
            }
            return None;
        }
    }
    assert(digits.take(i - ds) =~= digits);
    if negative {
        Some(-acc)
    } else {
        Some(acc)
    }
}

/// The digits of `n` are digits, and denote `n`.
pub proof fn lemma_digits_text(n: nat)
    ensures
        digits_text(n).len() > 0,
        all_digits(digits_text(n)),
        digits_value(digits_text(n)) == n,
    decreases n,
{
    if n < 10 {
        let t = digits_text(n);
        assert(t.drop_last() =~= Seq::<char>::empty());
        assert(digits_value(t.drop_last()) == 0);
    } else {
        lemma_digits_text(n / 10);
        let t = digits_text(n);
        assert(t.drop_last() =~= digits_text(n / 10));
        assert((n / 10) * 10 + n % 10 == n);
    }
}

/// The decimal form of an integer reads back as that integer.
pub proof fn lemma_decimal_text_round_trip(v: int)
    ensures
        signed_value(decimal_text(v)) == Some(v),
{
    if v < 0 {
        lemma_digits_text((-v) as nat);
        assert(decimal_text(v).drop_first() =~= digits_text((-v) as nat));
    } else {
        lemma_digits_text(v as nat);
        assert(is_digit(decimal_text(v)[0]));
    }
}

} // verus!
