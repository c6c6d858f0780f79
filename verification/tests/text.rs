use rust_express::text::{
    chars_of, find_from_exec, is_space_exec, lower_char_exec, lower_is, matches_at_exec,
    parse_number_exec, push_all, push_decimal, push_signed_decimal, push_str, replace_exec,
    same_text, scan_exec, slice_of, split_all, split_once, string_of, trim_end_exec,
    trim_start_exec,
};

fn cs(s: &str) -> Vec<char> {
    s.chars().collect()
}

#[test]
fn strings_and_characters() {
    assert_eq!(chars_of("h\u{e9}!"), vec!['h', '\u{e9}', '!']);
    assert_eq!(chars_of(""), Vec::<char>::new());
    assert_eq!(string_of(&cs("hello"), 1, 3), "el");
    assert_eq!(slice_of(&cs("hello"), 2, 5), cs("llo"));
    assert!(same_text("a", "a"));
    assert!(!same_text("a", "b"));
}

#[test]
fn finding_and_splitting() {
    let s = cs("a\r\nb\r\n\r\nc");
    let brk = cs("\r\n");
    assert_eq!(find_from_exec(&s, &brk, 0), 1);
    assert_eq!(find_from_exec(&s, &brk, 2), 4);
    assert_eq!(find_from_exec(&s, &brk, 5), 6);
    assert_eq!(find_from_exec(&s, &brk, 7), 9);
    assert!(matches_at_exec(&s, &brk, 4));
    assert!(!matches_at_exec(&s, &brk, 5));
    assert!(!matches_at_exec(&s, &brk, 8));
    assert_eq!(split_once(&cs("k: v: w"), &cs(": ")), (cs("k"), cs("v: w"), true));
    assert_eq!(split_once(&cs("none"), &cs(": ")), (cs("none"), cs(""), false));
    assert_eq!(split_all(&cs("/a//b/"), '/'), vec![cs(""), cs("a"), cs(""), cs("b"), cs("")]);
    assert_eq!(split_all(&cs(""), '/'), vec![cs("")]);
}

#[test]
fn white_space_and_words() {
    for c in [' ', '\t', '\n', '\r', '\u{b}', '\u{c}', '\u{85}', '\u{a0}', '\u{2003}', '\u{3000}'] {
        assert!(is_space_exec(c));
    }
    for c in ['a', '0', '\u{200b}', '\u{8}', '\u{e}'] {
        assert!(!is_space_exec(c));
    }
    let all: bool = (0u32..0x11_0000).filter_map(char::from_u32).all(|c| is_space_exec(c) == c.is_whitespace());
    assert!(all);
    let line = cs("  GET   /x ");
    assert_eq!(scan_exec(&line, 0, false), 2);
    assert_eq!(scan_exec(&line, 2, true), 5);
    assert_eq!(scan_exec(&line, 5, false), 8);
    assert_eq!(scan_exec(&line, 8, true), 10);
    assert_eq!(scan_exec(&line, 10, false), 11);
}

#[test]
fn lower_case() {
    assert_eq!(lower_char_exec('A'), 'a');
    assert_eq!(lower_char_exec('Z'), 'z');
    assert_eq!(lower_char_exec('a'), 'a');
    assert_eq!(lower_char_exec('['), '[');
    assert_eq!(lower_char_exec('\u{c9}'), '\u{c9}');
    assert!(lower_is(&cs("Content-LENGTH"), "content-length"));
    assert!(!lower_is(&cs("content-length "), "content-length"));
    assert!(!lower_is(&cs("host"), "Host"));
}

#[test]
fn decimal_numerals() {
    let mut out = cs("n=");
    push_decimal(&mut out, 0);
    push_str(&mut out, ",");
    push_decimal(&mut out, 7);
    push_str(&mut out, ",");
    push_decimal(&mut out, 1203);
    push_str(&mut out, ",");
    push_decimal(&mut out, u64::MAX);
    push_str(&mut out, ",");
    push_signed_decimal(&mut out, -45);
    push_all(&mut out, &cs(","));
    push_signed_decimal(&mut out, i64::MAX);
    let text: String = out.iter().collect();
    assert_eq!(text, "n=0,7,1203,18446744073709551615,-45,9223372036854775807");
}

#[test]
fn numbers_are_parsed_as_std_does() {
    for text in ["0", "7", "+7", "007", "12345", "", "+", "-1", "1 ", " 1", "1a", "++1", "18446744073709551615", "18446744073709551616", "99999999999999999999999999"] {
        assert_eq!(parse_number_exec(&cs(text)), text.parse::<usize>().ok());
    }
    assert_eq!(parse_number_exec(&cs("120")), Some(120));
}

#[test]
fn trimming_and_replacing() {
    assert_eq!(trim_start_exec(&cs("::id"), ':'), cs("id"));
    assert_eq!(trim_start_exec(&cs(":::"), ':'), cs(""));
    assert_eq!(trim_end_exec(&cs("ab\"\""), '"'), cs("ab"));
    assert_eq!(trim_end_exec(&cs("ab"), '"'), cs("ab"));
    assert_eq!(replace_exec(&cs("aXXbXXXc"), &cs("XX"), &cs("-")), cs("a-b-Xc"));
    assert_eq!(replace_exec(&cs("aaa"), &cs("aa"), &cs("b")), cs("ba"));
    assert_eq!(replace_exec(&cs("abc"), &cs(""), &cs("-")), cs("abc"));
    assert_eq!(replace_exec(&cs(""), &cs("a"), &cs("b")), cs(""));
}
