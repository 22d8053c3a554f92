use lbf_eval::text::{
    char_is_ascii_space, char_is_space, join_line_chars, parse_i8, slice_chars, splice_chars,
    split_chars, split_tokens, starts_with, to_chars, trim_chars,
};

fn c(s: &str) -> Vec<char> {
    s.chars().collect()
}

fn cs(v: &[&str]) -> Vec<Vec<char>> {
    v.iter().map(|s| c(s)).collect()
}

#[test]
fn characters_of_a_string() {
    assert_eq!(to_chars(""), c(""));
    assert_eq!(to_chars("a\u{e9}\u{2028}z"), vec!['a', '\u{e9}', '\u{2028}', 'z']);
    assert_eq!(slice_chars(&c("abcdef"), 2, 4), c("cd"));
    assert_eq!(slice_chars(&c("abcdef"), 3, 3), c(""));
}

#[test]
fn whitespace_classes_are_those_of_std() {
    for u in 0..0x3100u32 {
        if let Some(ch) = char::from_u32(u) {
            assert_eq!(char_is_space(ch), ch.is_whitespace(), "{:x}", u);
            assert_eq!(char_is_ascii_space(ch), ch.is_ascii_whitespace(), "{:x}", u);
        }
    }
    assert!(!char_is_space('\u{10ffff}'));
}

#[test]
fn trimming_is_that_of_std() {
    for s in ["", " ", "a", "  a b  ", "\t\r\n x\u{a0}", "\u{2003}x y\u{3000}", "x\u{200b}"] {
        assert_eq!(trim_chars(&c(s)), c(s.trim()), "{:?}", s);
    }
}

#[test]
fn splitting_on_a_character() {
    assert_eq!(split_chars(&c(""), '.'), cs(&[""]));
    assert_eq!(split_chars(&c("a"), '.'), cs(&["a"]));
    assert_eq!(split_chars(&c("."), '.'), cs(&["", ""]));
    assert_eq!(split_chars(&c(".a..b."), '.'), cs(&["", "a", "", "b", ""]));
    for s in ["", "x", "a.b", "..", ".inputs a\n.end"] {
        let std: Vec<Vec<char>> = s.split('.').map(c).collect();
        assert_eq!(split_chars(&c(s), '.'), std);
    }
}

#[test]
fn tokens_are_those_of_std() {
    assert_eq!(split_tokens(&c("")), cs(&[]));
    assert_eq!(split_tokens(&c("  a  bc\td\n")), cs(&["a", "bc", "d"]));
    // a no-break space is no ASCII whitespace and stays part of a token
    assert_eq!(split_tokens(&c("a\u{a0}b c")), cs(&["a\u{a0}b", "c"]));
    for s in ["", " ", "a", " a", "a ", "a \x0c b\r\nc", "-1 +2 3"] {
        let std: Vec<Vec<char>> = s.split_ascii_whitespace().map(c).collect();
        assert_eq!(split_tokens(&c(s)), std);
    }
}

#[test]
fn joining_and_splicing_lines() {
    assert_eq!(join_line_chars(&cs(&[])), c(""));
    assert_eq!(join_line_chars(&cs(&["a"])), c("a"));
    assert_eq!(join_line_chars(&cs(&["a", "", "b"])), c("a\n\nb"));
    assert_eq!(splice_chars(&c("")), c(""));
    assert_eq!(splice_chars(&c("a \\\nb")), c("a  b"));
    assert_eq!(splice_chars(&c("\\\n")), c(" "));
    assert_eq!(splice_chars(&c("\\\\\n\n\\")), c("\\ \n\\"));
    assert_eq!(splice_chars(&c("a\nb\\c")), c("a\nb\\c"));
    for s in ["x\\\n\\\ny", "\\\n\\\n", "\n\\\n", "\\n"] {
        assert_eq!(splice_chars(&c(s)), c(&s.replace("\\\n", " ")));
    }
}

#[test]
fn prefixes() {
    assert!(starts_with(&c("inputs a"), "inputs"));
    assert!(starts_with(&c("inputs"), "inputs"));
    assert!(starts_with(&c("x"), ""));
    assert!(!starts_with(&c("input"), "inputs"));
    assert!(!starts_with(&c("outputs"), "inputs"));
    assert!(!starts_with(&c(""), "end"));
}

#[test]
fn eight_bit_numbers_are_those_of_std() {
    assert_eq!(parse_i8(&c("0")), Some(0));
    assert_eq!(parse_i8(&c("-128")), Some(-128));
    assert_eq!(parse_i8(&c("127")), Some(127));
    assert_eq!(parse_i8(&c("+7")), Some(7));
    assert_eq!(parse_i8(&c("-0")), Some(0));
    assert_eq!(parse_i8(&c("0000000000000000000000000000012")), Some(12));
    assert_eq!(parse_i8(&c("128")), None);
    assert_eq!(parse_i8(&c("-129")), None);
    assert_eq!(parse_i8(&c("99999999999999999999999999999999999999999")), None);
    assert_eq!(parse_i8(&c("")), None);
    assert_eq!(parse_i8(&c("-")), None);
    assert_eq!(parse_i8(&c("+")), None);
    assert_eq!(parse_i8(&c("1a")), None);
    assert_eq!(parse_i8(&c("--1")), None);
    assert_eq!(parse_i8(&c(" 1")), None);
    assert_eq!(parse_i8(&c("\u{661}")), None);
    for n in -300i32..300 {
        for s in [n.to_string(), format!("{:+}", n), format!("0{}", n.abs())] {
            assert_eq!(parse_i8(&c(&s)), s.parse::<i8>().ok(), "{}", s);
        }
    }
}
