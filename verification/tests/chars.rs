use markdown_html::chars::chars_of;
use markdown_html::chars::string_of;
use markdown_html::chars::trimmed;

#[test]
fn chars_of_gives_each_character() {
    assert_eq!(chars_of("a\u{e9}\n"), vec!['a', '\u{e9}', '\n']);
    assert_eq!(chars_of(""), Vec::<char>::new());
}

#[test]
fn string_of_copies_a_range() {
    let chars = chars_of("h\u{e9}llo w\u{f6}rld");
    assert_eq!(string_of(&chars, 0, chars.len()), "h\u{e9}llo w\u{f6}rld");
    assert_eq!(string_of(&chars, 1, 5), "\u{e9}llo");
    assert_eq!(string_of(&chars, 6, 11), "w\u{f6}rld");
    assert_eq!(string_of(&chars, 3, 3), "");
    assert_eq!(string_of(&chars, 11, 11), "");
}

#[test]
fn trimmed_strips_both_ends() {
    assert_eq!(trimmed("  a b \t"), "a b");
    assert_eq!(trimmed("a"), "a");
    assert_eq!(trimmed(""), "");
    assert_eq!(trimmed(" \t\n\r\u{c} "), "");
    assert_eq!(trimmed("\n x\u{a0}\n"), "x\u{a0}");
    assert_eq!(trimmed("\u{b}x"), "\u{b}x");
}
