//! Text of the form `<left><separator><right>`, split at the first separator.

use vstd::prelude::*;

use crate::decimal::{
    decimal_text, is_digit, lemma_decimal_text_round_trip, lemma_digits_text, FromText,
};

verus! {

/// `k` is the position of the first `c` in `s`.
pub open spec fn is_first_index(s: Seq<char>, c: char, k: int) -> bool {
    &&& 0 <= k < s.len()
    &&& s[k] == c
    &&& forall|j: int| 0 <= j < k ==> s[j] != c
}

/// The position of the first `c` in `s`, if `c` occurs in it.
pub open spec fn first_index(s: Seq<char>, c: char) -> Option<int> {
    if exists|k: int| is_first_index(s, c, k) {
        Some(choose|k: int| is_first_index(s, c, k))
    } else {
        None
    }
}

/// The text before and the text after the first `c` in `s`.
pub open spec fn split_at_first(s: Seq<char>, c: char) -> Option<(Seq<char>, Seq<char>)> {
    match first_index(s, c) {
        Some(k) => Some((s.take(k), s.skip(k + 1))),
        None => None,
    }
}

/// The two values written on either side of the first `c` in `s`, in that
/// order; `None` where `c` does not occur or either side is not text of `T`.
pub open spec fn pair_value<T: FromText>(s: Seq<char>, c: char) -> Option<(T, T)> {
    match split_at_first(s, c) {
        Some((left, right)) => match (T::text_value(left), T::text_value(right)) {
            (Some(a), Some(b)) => Some((a, b)),
            _ => None,
        },
        None => None,
    }
}

proof fn lemma_first_index_unique(s: Seq<char>, c: char, k: int)
    requires
        is_first_index(s, c, k),
    ensures
        first_index(s, c) == Some(k),
{
    let j = choose|j: int| is_first_index(s, c, j);
    assert(is_first_index(s, c, j));
    if j < k {
        assert(s[j] != c);
    } else if j > k {
        assert(s[k] != c);
    }
}

/// The characters of `s`, in order.
pub fn chars_of(s: &str) -> (r: Vec<char>)
    ensures
        r@ == s@,
{
    let mut r: Vec<char> = Vec::new();
    for c in it: s.chars()
        invariant
            r@ == it.seq().take(it.index() as int),
    {
        r.push(c);
    }
    r
}

/// The position of the first `separator` in `text`.
pub fn find_separator(text: &Vec<char>, separator: char) -> (r: Option<usize>)
    ensures
        r is None <==> !text@.contains(separator),
        match r {
            Some(k) => first_index(text@, separator) == Some(k as int),
            None => first_index(text@, separator) is None,
        },
{
    let mut i: usize = 0;
    while i < text.len()
        invariant
            i <= text.len(),
            forall|j: int| 0 <= j < i ==> text@[j] != separator,
        decreases text.len() - i,
    {
        if text[i] == separator {
            proof {
                lemma_first_index_unique(text@, separator, i as int);
            }
            return Some(i);
        }
        i = i + 1;
    }
    assert(forall|k: int| !is_first_index(text@, separator, k));
    None
}

/// The characters before and after the first `separator` in `s`; `None` where
/// `separator` does not occur in `s`.
pub fn split_pair(s: &str, separator: char) -> (r: Option<(Vec<char>, Vec<char>)>)
    ensures
        r is None <==> !s@.contains(separator),
        match r {
            Some((left, right)) => split_at_first(s@, separator) == Some((left@, right@)),
            None => split_at_first(s@, separator) is None,
        },
{
    let text = chars_of(s);
    match find_separator(&text, separator) {
        None => None,
        Some(k) => {
            let mut left: Vec<char> = Vec::new();
            let mut right: Vec<char> = Vec::new();
            let mut i: usize = 0;
            while i < text.len()
                invariant
                    k < text.len(),
                    i <= text.len(),
                    left@ == text@.take(if i <= k { i as int } else { k as int }),
                    right@ == text@.subrange(k + 1, if i <= k + 1 { k + 1 } else { i as int }),
                decreases text.len() - i,
            {
                if i < k {
                    left.push(text[i]);
                    assert(text@.take(i + 1) =~= text@.take(i as int).push(text@[i as int]));
                } else if i > k {
                    right.push(text[i]);
                    assert(text@.subrange(k + 1, i + 1) =~= text@.subrange(k + 1, i as int).push(
                        text@[i as int],
                    ));
                }
                i = i + 1;
            }
            assert(right@ =~= text@.skip(k + 1));
            Some((left, right))
        },
    }
}

/// Reads `s` as two values of `T` on either side of the first `separator`.
pub fn parse_pair<T: FromText>(s: &str, separator: char) -> (r: Option<(T, T)>)
    ensures
        r == pair_value::<T>(s@, separator),
        !s@.contains(separator) ==> r is None,
{
    let text = chars_of(s);
    match find_separator(&text, separator) {
        None => None,
        Some(k) => {
            assert(text@.subrange(0, k as int) =~= text@.take(k as int));
            assert(text@.subrange(k + 1, text.len() as int) =~= text@.skip(k + 1));
            match (T::from_text(&text, 0, k), T::from_text(&text, k + 1, text.len())) {
                (Some(left), Some(right)) => Some((left, right)),
                _ => None,
            }
        },
    }
}

proof fn lemma_split_written_pair(a: int, b: int, separator: char)
    requires
        !is_digit(separator),
        separator != '-',
    ensures
        split_at_first(decimal_text(a) + seq![separator] + decimal_text(b), separator) == Some(
            (decimal_text(a), decimal_text(b)),
        ),
{
    let ta = decimal_text(a);
    let tb = decimal_text(b);
    let s = ta + seq![separator] + tb;
    if a < 0 {
        lemma_digits_text((-a) as nat);
    } else {
        lemma_digits_text(a as nat);
    }
    assert forall|j: int| 0 <= j < ta.len() implies s[j] != separator by {
        assert(s[j] == ta[j]);
        if a < 0 && j > 0 {
            assert(ta[j] == crate::decimal::digits_text((-a) as nat)[j - 1]);
        }
    }
    assert(s[ta.len() as int] == separator);
    lemma_first_index_unique(s, separator, ta.len() as int);
    assert(s.take(ta.len() as int) =~= ta);
    assert(s.skip(ta.len() as int + 1) =~= tb);
}

/// Two `i32` values written in decimal on either side of a separator that is
/// neither a digit nor a minus sign read back as the same two values.
pub proof fn lemma_pair_round_trip_i32(a: i32, b: i32, separator: char)
    requires
        !is_digit(separator),
        separator != '-',
    ensures
        pair_value::<i32>(decimal_text(a as int) + seq![separator] + decimal_text(b as int), separator)
            == Some((a, b)),
{
    lemma_split_written_pair(a as int, b as int, separator);
    lemma_decimal_text_round_trip(a as int);
    lemma_decimal_text_round_trip(b as int);
}

/// Two `i64` values written in decimal on either side of a separator that is
/// neither a digit nor a minus sign read back as the same two values.
pub proof fn lemma_pair_round_trip_i64(a: i64, b: i64, separator: char)
    requires
        !is_digit(separator),
        separator != '-',
    ensures
        pair_value::<i64>(decimal_text(a as int) + seq![separator] + decimal_text(b as int), separator)
            == Some((a, b)),
{
    lemma_split_written_pair(a as int, b as int, separator);
    lemma_decimal_text_round_trip(a as int);
    lemma_decimal_text_round_trip(b as int);
}

} // verus!
