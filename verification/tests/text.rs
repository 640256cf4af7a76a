use hack_assembler::text::{
    chars_of, find_char, find_comment, is_whitespace_char, is_word, string_of,
    strip_whitespace, trim_bounds,
};

fn chars(s: &str) -> Vec<char> {
    s.chars().collect()
}

#[test]
fn white_space_is_what_the_standard_library_calls_so() {
    let mut code: u32 = 0;
    while code <= 0x10FFFF {
        if let Some(c) = char::from_u32(code) {
            assert_eq!(is_whitespace_char(c), c.is_whitespace());
        }
        code += 1;
    }
}

#[test]
fn string_of_keeps_every_character() {
    assert_eq!(string_of(&chars("")), "");
    assert_eq!(string_of(&chars("a")), "a");
    assert_eq!(string_of(&chars("D=M;JGT")), "D=M;JGT");
    let summer = "\u{e9}t\u{e9} \u{6771}\u{4eac}";
    assert_eq!(string_of(&chars(summer)), summer);
}

#[test]
fn chars_of_keeps_every_character() {
    assert_eq!(chars_of(""), Vec::<char>::new());
    assert_eq!(chars_of("@R0"), vec!['@', 'R', '0']);
    assert_eq!(chars_of("\u{e9}\u{6771}"), vec!['\u{e9}', '\u{6771}']);
}

#[test]
fn strip_whitespace_keeps_the_rest_in_order() {
    assert_eq!(strip_whitespace(&chars("")), chars(""));
    assert_eq!(strip_whitespace(&chars(" \t \n")), chars(""));
    assert_eq!(strip_whitespace(&chars(" D = M ; J G T ")), chars("D=M;JGT"));
    assert_eq!(strip_whitespace(&chars("a\u{a0}b\u{2009}c\u{3000}")), chars("abc"));
    assert_eq!(strip_whitespace(&chars("a\u{200b}b")), chars("a\u{200b}b"));
}

#[test]
fn trim_bounds_leave_out_white_space_at_both_ends_only() {
    assert_eq!(trim_bounds(&chars("")), (0, 0));
    assert_eq!(trim_bounds(&chars("   ")), (3, 3));
    assert_eq!(trim_bounds(&chars("  a b  ")), (2, 5));
    assert_eq!(trim_bounds(&chars("ab")), (0, 2));
    assert_eq!(trim_bounds(&chars("\t\u{a0}x y\r\n")), (2, 5));
    for text in ["", " ", " x", "x ", " x y ", "\u{2028}q\u{2029}", "\n\n", "a\tb"] {
        let all = chars(text);
        let (from, to) = trim_bounds(&all);
        assert_eq!(string_of(&all[from..to]), text.trim());
    }
}

#[test]
fn find_char_gives_the_first_or_the_length() {
    assert_eq!(find_char(&chars(""), '='), 0);
    assert_eq!(find_char(&chars("D=M"), '='), 1);
    assert_eq!(find_char(&chars("D=M=A"), '='), 1);
    assert_eq!(find_char(&chars("=M"), '='), 0);
    assert_eq!(find_char(&chars("D;JMP"), '='), 5);
}

#[test]
fn find_comment_gives_the_first_or_the_length() {
    assert_eq!(find_comment(&chars("")), 0);
    assert_eq!(find_comment(&chars("/")), 1);
    assert_eq!(find_comment(&chars("//")), 0);
    assert_eq!(find_comment(&chars("a/b")), 3);
    assert_eq!(find_comment(&chars("D=M // x // y")), 4);
    assert_eq!(find_comment(&chars("a/")), 2);
    assert_eq!(find_comment(&chars("a///")), 1);
    assert_eq!(find_comment(&chars("/a//")), 2);
}

#[test]
fn is_word_compares_whole_texts() {
    assert!(is_word(&chars(""), ""));
    assert!(is_word(&chars("JMP"), "JMP"));
    assert!(!is_word(&chars("JM"), "JMP"));
    assert!(!is_word(&chars("JMPP"), "JMP"));
    assert!(!is_word(&chars("JMQ"), "JMP"));
    assert!(!is_word(&chars(""), "J"));
    assert!(!is_word(&chars("J"), ""));
    assert!(is_word(&chars("\u{e9}"), "\u{e9}"));
}
