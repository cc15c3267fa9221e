use babel_crypt::number::{NumberError, parse_number};
use babel_crypt::text::{chars_of, contains, push_decimal, replace, space, split, string_of, trim};

#[test]
fn white_space() {
    for n in 0..=0x10ffffu32 {
        if let Some(c) = char::from_u32(n) {
            assert_eq!(space(c), c.is_whitespace(), "{:x}", n);
        }
    }
}

#[test]
fn trimming() {
    for text in ["", " ", "a", " a b\t", "\u{3000}x\u{a0}", "\r\nx"] {
        assert_eq!(string_of(&trim(&chars_of(text))), text.trim());
    }
}

#[test]
fn splitting() {
    for text in ["", ",", "a", "a,b", ",a,,b,"] {
        let parts: Vec<String> = split(&chars_of(text), ',').iter().map(|p| p.iter().collect()).collect();
        let expected: Vec<&str> = text.split(',').collect();
        assert_eq!(parts, expected);
    }
}

#[test]
fn replacing() {
    for text in ["", "aa", "aaa", "x.babel.txt", ".babel.txt.babel.txt", "baab"] {
        for from in ["aa", ".babel.txt", "b"] {
            assert_eq!(replace(&chars_of(text), from, ".dec"), text.replace(from, ".dec"));
        }
    }
}

#[test]
fn containing() {
    for text in ["", "0", "0.0", "x1_0.0", "00.", "0.00", "1.0"] {
        assert_eq!(contains(&chars_of(text), "0.0"), text.contains("0.0"));
    }
}

#[test]
fn decimals() {
    for n in [0u64, 7, 10, 99, 1000000007, u64::MAX] {
        let mut text = String::new();
        push_decimal(&mut text, n);
        assert_eq!(text, format!("{}", n));
    }
}

#[test]
fn numbers() {
    for text in [
        "0", "007", "+5", "18446744073709551615", "18446744073709551616", "99999999999999999999x", "", "+", "-", "-1",
        "1 ", "x", "++1", "1_0", "\u{665}",
    ] {
        let ours = parse_number(&chars_of(text), u64::MAX);
        match (ours, text.parse::<u64>()) {
            (Ok(a), Ok(b)) => assert_eq!(a, b),
            (Err(e), Err(f)) => {
                let mut words = String::new();
                e.push_words(&mut words);
                assert_eq!(words, format!("{}", f), "{}", text);
            }
            (a, b) => panic!("{}: {:?} {:?}", text, a, b),
        }
    }
}

#[test]
fn numbers_above_a_limit() {
    assert!(matches!(parse_number(&chars_of("255"), 255), Ok(255)));
    assert!(matches!(parse_number(&chars_of("256"), 255), Err(NumberError::TooLarge)));
}
