use example_cli::text::{chars_of, first_two_words, is_whitespace, push_decimal, trim_chars};

#[test]
fn whitespace_agrees_with_std_on_every_char() {
    for code in 0u32..=0x10FFFF {
        if let Some(c) = char::from_u32(code) {
            assert_eq!(is_whitespace(c), c.is_whitespace(), "char U+{:04X}", code);
        }
    }
}

#[test]
fn trim_agrees_with_std() {
    let samples = [
        "", " ", "abc", "  abc  ", "\t a b \r\n", "\u{3000}x\u{85}", "\u{a0}", "x\u{2028}", " \u{200b} ",
    ];
    for s in samples {
        let trimmed: String = trim_chars(&chars_of(s)).into_iter().collect();
        assert_eq!(trimmed, s.trim(), "input {:?}", s);
    }
}

#[test]
fn first_two_words_agree_with_split_whitespace() {
    let samples = ["", "   ", "GET", "GET /", "  GET \t /path  HTTP/1.1 ", "a\u{3000}b c"];
    for s in samples {
        let (a, b) = first_two_words(&chars_of(s));
        let mut words = s.split_whitespace();
        assert_eq!(a.map(|w| w.into_iter().collect::<String>()), words.next().map(String::from));
        assert_eq!(b.map(|w| w.into_iter().collect::<String>()), words.next().map(String::from));
    }
}

#[test]
fn decimal_rendering() {
    for n in [0u64, 7, 10, 99, 100, 12345, u64::MAX] {
        let mut s = String::from("n=");
        push_decimal(&mut s, n);
        assert_eq!(s, format!("n={}", n));
    }
}
