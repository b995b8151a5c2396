use porecrusher::text::{chars_of, parse_decimal, split_lines, split_words, string_from_chars};

fn strings(v: Vec<Vec<char>>) -> Vec<String> {
    v.into_iter().map(|w| w.into_iter().collect()).collect()
}

#[test]
fn lines_like_str_lines() {
    for s in ["", "a", "a\n", "a\n\nb", "a\r\nb\r\n", "\n\n", "x\r", "a\rb\n", "é\nü"] {
        let got = strings(split_lines(&chars_of(s)));
        let want: Vec<String> = s.lines().map(String::from).collect();
        assert_eq!(got, want, "on {s:?}");
    }
}

#[test]
fn words_like_split_whitespace() {
    for s in ["", "  ", "a", " a  b\tc\n", "x\u{3000}y\u{a0}z", "one two  "] {
        let got = strings(split_words(&chars_of(s)));
        let want: Vec<String> = s.split_whitespace().map(String::from).collect();
        assert_eq!(got, want, "on {s:?}");
    }
}

#[test]
fn decimals_like_usize_from_str() {
    for s in ["0", "42", "+7", "", "+", "-1", "1a", " 1", "007", "18446744073709551615", "18446744073709551616"] {
        let got = parse_decimal(&chars_of(s));
        let want = s.parse::<usize>().ok();
        assert_eq!(got, want, "on {s:?}");
    }
}

#[test]
fn chars_and_back() {
    let s = "Å ring";
    let cs = chars_of(s);
    assert_eq!(cs, vec!['Å', ' ', 'r', 'i', 'n', 'g']);
    assert_eq!(string_from_chars(&cs), s);
}
