//! Parsing of separated pairs of numbers, such as the `"<re>,<im>"` corner
//! coordinates and `"<width>x<height>"` image sizes of a Mandelbrot renderer.

mod decimal;
mod pair;

pub use decimal::{
    all_digits, decimal_text, digit_char, digit_value, digits_text, digits_value, is_digit,
    lemma_decimal_text_round_trip, lemma_digits_text, signed_value, value_within, FromText,
};

pub use pair::{
    chars_of, find_separator, first_index, is_first_index, lemma_pair_round_trip_i32,
    lemma_pair_round_trip_i64, pair_value, parse_pair, split_at_first, split_pair,
};
