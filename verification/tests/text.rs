use dolomedes::text::{
    chars_of, decimal_chars, lines_of, parse_u16_chars, rsplit_once_chars, split_once_chars,
    trim_chars,
};

fn s(v: &[char]) -> String {
    v.iter().collect()
}

#[test]
fn decimal_numerals() {
    assert_eq!(s(&decimal_chars(0)), "0");
    assert_eq!(s(&decimal_chars(7)), "7");
    assert_eq!(s(&decimal_chars(10)), "10");
    assert_eq!(s(&decimal_chars(65535)), "65535");
    for n in [0u16, 1, 9, 10, 99, 100, 31460, 65535] {
        assert_eq!(parse_u16_chars(&decimal_chars(n)), Some(n));
    }
}

#[test]
fn u16_parsing_follows_from_str() {
    assert_eq!(parse_u16_chars(&chars_of("+12")), Some(12));
    assert_eq!(parse_u16_chars(&chars_of("007")), Some(7));
    assert_eq!(parse_u16_chars(&chars_of("65536")), None);
    assert_eq!(parse_u16_chars(&chars_of("")), None);
    assert_eq!(parse_u16_chars(&chars_of("+")), None);
    assert_eq!(parse_u16_chars(&chars_of(" 1")), None);
}

#[test]
fn lines_follow_str_lines() {
    let text = "a\r\nb\n\nc\rd\n";
    let got: Vec<String> = lines_of(&chars_of(text)).iter().map(|l| s(l)).collect();
    let want: Vec<String> = text.lines().map(|l| l.to_string()).collect();
    assert_eq!(got, want);
    assert!(lines_of(&chars_of("")).is_empty());
}

#[test]
fn trim_and_split() {
    assert_eq!(s(&trim_chars(&chars_of("\t x y \u{3000}"))), "x y");
    let (a, b) = split_once_chars(&chars_of("k=v=w"), '=').unwrap();
    assert_eq!((s(&a), s(&b)), ("k".to_string(), "v=w".to_string()));
    let (a, b) = rsplit_once_chars(&chars_of("::1:80"), ':').unwrap();
    assert_eq!((s(&a), s(&b)), ("::1".to_string(), "80".to_string()));
    assert!(split_once_chars(&chars_of("none"), '=').is_none());
}
