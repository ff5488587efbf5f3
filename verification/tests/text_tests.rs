use asciify::text::{
    check_float_literal, chars_of, is_nan_text, is_white_space_char, parse_u32, split_chars,
    trim_chars, FloatErrorKind, IntErrorKind,
};

fn v(s: &str) -> Vec<char> {
    s.chars().collect()
}

fn std_u32(s: &str) -> Result<u32, IntErrorKind> {
    match s.parse::<u32>() {
        Ok(n) => Ok(n),
        Err(e) => Err(match e.kind() {
            std::num::IntErrorKind::Empty => IntErrorKind::Empty,
            std::num::IntErrorKind::PosOverflow => IntErrorKind::PosOverflow,
            _ => IntErrorKind::InvalidDigit,
        }),
    }
}

fn std_float(s: &str) -> Result<(), FloatErrorKind> {
    match s.parse::<f32>() {
        Ok(_) => Ok(()),
        Err(_) if s.is_empty() => Err(FloatErrorKind::Empty),
        Err(_) => Err(FloatErrorKind::Invalid),
    }
}

#[test]
fn u32_parsing_agrees_with_std() {
    for s in [
        "", "0", "7", "+7", "-7", "+", "-", "++1", "007", "4294967295", "4294967296",
        "99999999999", "99999999999x", "12a", "a12", " 1", "1 ", "١", "٣٤", "1_000",
    ] {
        assert_eq!(parse_u32(&v(s)), std_u32(s), "input {:?}", s);
    }
}

#[test]
fn u32_values() {
    assert_eq!(parse_u32(&v("4294967295")), Ok(4294967295));
    assert_eq!(parse_u32(&v("+0042")), Ok(42));
}

#[test]
fn float_literals_agree_with_std() {
    for s in [
        "", "1", "1.6", "-1.6", "+.5", "5.", ".", "+", "-", "e5", "1e5", "1E-5", "1e+5", "1e",
        "1e+", ".e1", "1.e1", ".5e1", "inf", "INF", "-Infinity", "infinit", "nan", "NaN", "+nan",
        "nana", "1.2.3", " 1", "1 ", "0x10", "1_0", "١", "1e1.5", "--1", "e", "E", "1.5E3",
    ] {
        assert_eq!(check_float_literal(&v(s)), std_float(s), "input {:?}", s);
    }
}

#[test]
fn nan_literals_agree_with_std() {
    for s in ["nan", "NaN", "-NAN", "+nan", "1.0", "inf", "", "nana"] {
        let expected = s.parse::<f32>().map(|f| f.is_nan()).unwrap_or(false);
        assert_eq!(is_nan_text(&v(s)), expected, "input {:?}", s);
    }
}

#[test]
fn white_space_agrees_with_std() {
    for u in 0u32..0x3100 {
        if let Some(c) = char::from_u32(u) {
            assert_eq!(is_white_space_char(c), c.is_whitespace(), "char {:#x}", u);
        }
    }
}

#[test]
fn trimming_agrees_with_std() {
    for s in ["", "  ", " a ", "\ta b\n", "\u{2003}x\u{2003}", "abc", "\u{85}q"] {
        let expected: Vec<char> = s.trim().chars().collect();
        assert_eq!(trim_chars(&v(s)), expected, "input {:?}", s);
    }
}

#[test]
fn splitting_agrees_with_std() {
    for s in ["", ",", "a,b", ",a,", "1,2,3,4", "abc"] {
        let expected: Vec<Vec<char>> = s.split(',').map(|p| p.chars().collect()).collect();
        assert_eq!(split_chars(&v(s), ','), expected, "input {:?}", s);
    }
}

#[test]
fn chars_of_keeps_order() {
    assert_eq!(chars_of("şəkil"), vec!['ş', 'ə', 'k', 'i', 'l']);
}
