use mandelbrot::{chars_of, find_separator, parse_pair, split_pair};

#[test]
fn test_parse_pair() {
    assert_eq!(parse_pair::<i32>("", ','), None);
    assert_eq!(parse_pair::<i32>("10,", ','), None);
    assert_eq!(parse_pair::<i32>(",10", ','), None);
    assert_eq!(parse_pair::<i32>("10,20", ','), Some((10, 20)));
    assert_eq!(parse_pair::<i32>("0.5x", 'x'), None);
    assert_eq!(parse_pair::<i32>("0.5x1.5", 'x'), None);
}

#[test]
fn parse_pair_image_size() {
    assert_eq!(parse_pair::<i32>("1000x750", 'x'), Some((1000, 750)));
}

#[test]
fn parse_pair_signs() {
    assert_eq!(parse_pair::<i32>("-3,+4", ','), Some((-3, 4)));
    assert_eq!(parse_pair::<i32>("-0,007", ','), Some((0, 7)));
    assert_eq!(parse_pair::<i32>("-,4", ','), None);
    assert_eq!(parse_pair::<i32>("+,4", ','), None);
    assert_eq!(parse_pair::<i32>("1,--4", ','), None);
}

#[test]
fn parse_pair_without_separator() {
    assert_eq!(parse_pair::<i32>("1020", ','), None);
    assert_eq!(parse_pair::<i64>("12 34", ','), None);
}

#[test]
fn parse_pair_uses_first_separator() {
    assert_eq!(parse_pair::<i32>("10,20,30", ','), None);
    assert_eq!(parse_pair::<i32>("10,,20", ','), None);
}

#[test]
fn parse_pair_rejects_whitespace() {
    assert_eq!(parse_pair::<i32>(" 10,20", ','), None);
    assert_eq!(parse_pair::<i32>("10, 20", ','), None);
    assert_eq!(parse_pair::<i32>("10,20\n", ','), None);
}

#[test]
fn parse_pair_i32_limits() {
    assert_eq!(
        parse_pair::<i32>("-2147483648,2147483647", ','),
        Some((i32::MIN, i32::MAX))
    );
    assert_eq!(parse_pair::<i32>("2147483648,0", ','), None);
    assert_eq!(parse_pair::<i32>("0,-2147483649", ','), None);
    assert_eq!(parse_pair::<i32>("0,99999999999999999999999", ','), None);
}

#[test]
fn parse_pair_i64_limits() {
    assert_eq!(
        parse_pair::<i64>("-9223372036854775808;9223372036854775807", ';'),
        Some((i64::MIN, i64::MAX))
    );
    assert_eq!(parse_pair::<i64>("9223372036854775808;0", ';'), None);
    assert_eq!(parse_pair::<i64>("2147483648;-2147483649", ';'), Some((2147483648, -2147483649)));
}

#[test]
fn parse_pair_non_ascii() {
    assert_eq!(parse_pair::<i32>("12é34", 'é'), Some((12, 34)));
    assert_eq!(parse_pair::<i32>("١,2", ','), None);
}

#[test]
fn parse_pair_agrees_with_std() {
    let texts = ["0", "-0", "+0", "42", "-42", "+42", "", "-", "+", "4a", "0x10", "2147483647", "-2147483648", "2147483648"];
    for left in texts.iter() {
        for right in texts.iter() {
            let s = format!("{}:{}", left, right);
            let expected = match (left.parse::<i32>(), right.parse::<i32>()) {
                (Ok(a), Ok(b)) => Some((a, b)),
                _ => None,
            };
            assert_eq!(parse_pair::<i32>(&s, ':'), expected, "{}", s);
        }
    }
}

#[test]
fn parse_pair_round_trip() {
    let values: [i32; 7] = [0, 7, -7, 10, -120, i32::MIN, i32::MAX];
    for sep in [',', 'x', ';', '+', ' '] {
        for &a in values.iter() {
            for &b in values.iter() {
                let s = format!("{}{}{}", a, sep, b);
                assert_eq!(parse_pair::<i32>(&s, sep), Some((a, b)), "{}", s);
            }
        }
    }
    let wide: [i64; 4] = [i64::MIN, -1, 0, i64::MAX];
    for &a in wide.iter() {
        for &b in wide.iter() {
            let s = format!("{}x{}", a, b);
            assert_eq!(parse_pair::<i64>(&s, 'x'), Some((a, b)));
        }
    }
}

#[test]
fn split_pair_complex_literal() {
    let (re, im) = split_pair("1.25,-0.625", ',').unwrap();
    assert_eq!(re.iter().collect::<String>(), "1.25");
    assert_eq!(im.iter().collect::<String>(), "-0.625");
}

#[test]
fn split_pair_empty_sides() {
    let (re, im) = split_pair(",-0.625", ',').unwrap();
    assert!(re.is_empty());
    assert_eq!(im.iter().collect::<String>(), "-0.625");
    let (re, im) = split_pair("a,", ',').unwrap();
    assert_eq!(re, vec!['a']);
    assert!(im.is_empty());
    assert_eq!(split_pair("1.25", ','), None);
    assert_eq!(split_pair("", ','), None);
}

#[test]
fn split_pair_keeps_later_separators() {
    let (left, right) = split_pair("a,b,c", ',').unwrap();
    assert_eq!(left, vec!['a']);
    assert_eq!(right, vec!['b', ',', 'c']);
}

#[test]
fn find_separator_first() {
    let text = vec!['1', 'x', '2', 'x'];
    assert_eq!(find_separator(&text, 'x'), Some(1));
    assert_eq!(find_separator(&text, ','), None);
    assert_eq!(find_separator(&Vec::new(), ','), None);
}

#[test]
fn chars_of_keeps_order() {
    assert_eq!(chars_of("aé,1"), vec!['a', 'é', ',', '1']);
    assert!(chars_of("").is_empty());
}
