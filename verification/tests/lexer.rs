use markdown_html::chars::chars_of;
use markdown_html::lexer::blockquote;
use markdown_html::lexer::bold;
use markdown_html::lexer::divider;
use markdown_html::lexer::endline;
use markdown_html::lexer::headings;
use markdown_html::lexer::inline_code;
use markdown_html::lexer::italics;
use markdown_html::lexer::next_token;
use markdown_html::lexer::lexes_fully;
use markdown_html::lexer::parse;
use markdown_html::lexer::scan;
use markdown_html::Token;

fn text(s: &str) -> Token {
    Token::Text { text: s.to_owned() }
}

#[test]
fn test_markdown() {
    let input = r"
# Big heading
Hello!
### Small heading
divider?
---
divided.
> blockquote
> deez
> nuts
**bold text**
*italic text*
unclosed *italic
`let x = 69;`
";

    let tokens = parse(input.to_owned());

    let expected = vec![
        Token::Heading {
            level: 1,
        },
        Token::Text {
            text: "Big heading".to_owned(),
        },
        Token::EndLine,
        Token::Text {
            text: "Hello!".to_owned(),
        },
        Token::EndLine,
        Token::Heading {
            level: 3,
        },
        Token::Text {
            text: "Small heading".to_owned(),
        },
        Token::EndLine,
        Token::Text {
            text: "divider?".to_owned(),
        },
        Token::EndLine,
        Token::Divider,
        Token::EndLine,
        Token::Text {
            text: "divided.".to_owned(),
        },
        Token::EndLine,
        Token::Blockquote,
        Token::Text {
            text: "blockquote".to_owned(),
        },
        Token::EndLine,
        Token::Blockquote,
        Token::Text {
            text: "deez".to_owned(),
        },
        Token::EndLine,
        Token::Blockquote,
        Token::Text {
            text: "nuts".to_owned(),
        },
        Token::EndLine,
        Token::Bold,
        Token::Text {
            text: "bold text".to_owned(),
        },
        Token::Bold,
        Token::EndLine,
        Token::Italics,
        Token::Text {
            text: "italic text".to_owned(),
        },
        Token::Italics,
        Token::EndLine,
        Token::Text {
            text: "unclosed ".to_owned(),
        },
        Token::Italics,
        Token::Text {
            text: "italic".to_owned(),
        },
        Token::EndLine,
        Token::InlineCode,
        Token::Text {
            text: "let x = 69;".to_owned(),
        },
        Token::InlineCode,
        Token::EndLine,
    ];

    // The input opens with a newline, which is a token of its own.
    assert_eq!(tokens[0], Token::EndLine);
    assert_eq!(tokens.len(), expected.len() + 1);
    for (i, tok) in tokens.iter().skip(1).enumerate() {
        println!("{:?}\t{:?}", tok, expected[i]);
        assert_eq!(*tok, expected[i]);
    }
}

#[test]
fn lex_empty_source() {
    assert_eq!(parse(String::new()), Vec::<Token>::new());
}

#[test]
fn lex_without_trailing_newline() {
    assert_eq!(parse("Hello!".to_owned()), vec![text("Hello!")]);
}

#[test]
fn lex_only_markers() {
    assert_eq!(
        parse("***`**".to_owned()),
        vec![Token::Bold, Token::Italics, Token::InlineCode, Token::Bold]
    );
}

#[test]
fn lex_heading_level_counts_hashes() {
    assert_eq!(
        parse("#### four\n".to_owned()),
        vec![Token::Heading { level: 4 }, text("four"), Token::EndLine]
    );
    assert_eq!(parse("#".to_owned()), vec![Token::Heading { level: 1 }]);
    assert_eq!(
        parse("##\t  x".to_owned()),
        vec![Token::Heading { level: 2 }, text("x")]
    );
}

#[test]
fn lex_bold_before_italics() {
    assert_eq!(
        parse("**a*".to_owned()),
        vec![Token::Bold, text("a"), Token::Italics]
    );
    assert_eq!(
        parse("***".to_owned()),
        vec![Token::Bold, Token::Italics]
    );
}

#[test]
fn lex_divider_needs_three_dashes() {
    assert_eq!(parse("---".to_owned()), vec![Token::Divider]);
    assert_eq!(parse("--".to_owned()), vec![text("--")]);
    assert_eq!(parse("----".to_owned()), vec![Token::Divider, text("-")]);
}

#[test]
fn lex_markers_inside_text_are_text() {
    assert_eq!(parse("a # b > c --- d".to_owned()), vec![text("a # b > c --- d")]);
}

#[test]
fn lex_skips_spaces_before_a_token() {
    assert_eq!(
        parse("  \t# a".to_owned()),
        vec![Token::Heading { level: 1 }, text("a")]
    );
    assert_eq!(
        parse("**bold** world".to_owned()),
        vec![Token::Bold, text("bold"), Token::Bold, text("world")]
    );
    assert_eq!(parse(" \t \n".to_owned()), vec![Token::EndLine]);
    assert_eq!(parse("   ".to_owned()), Vec::<Token>::new());
}

#[test]
fn lex_text_keeps_inner_and_trailing_spaces() {
    assert_eq!(
        parse("a  b \n".to_owned()),
        vec![text("a  b "), Token::EndLine]
    );
}

#[test]
fn lex_text_is_not_ascii_only() {
    assert_eq!(
        parse("h\u{e9}llo \u{4e16}\u{754c}*".to_owned()),
        vec![text("h\u{e9}llo \u{4e16}\u{754c}"), Token::Italics]
    );
}

#[test]
fn scan_reports_what_it_consumed() {
    let input = chars_of("ab\n  ");
    let (tokens, end) = scan(&input);
    assert_eq!(tokens, vec![text("ab"), Token::EndLine]);
    assert_eq!(end, 5);
}

#[test]
fn scan_stops_before_a_carriage_return() {
    let input = chars_of("ab \r\ncd");
    let (tokens, end) = scan(&input);
    assert_eq!(tokens, vec![text("ab ")]);
    assert_eq!(end, 3);

    let input = chars_of("# x\n  \rrest");
    let (tokens, end) = scan(&input);
    assert_eq!(
        tokens,
        vec![Token::Heading { level: 1 }, text("x"), Token::EndLine]
    );
    assert_eq!(end, 6);
}

#[test]
fn scan_of_source_without_carriage_return_is_complete() {
    for source in ["", "a", "# a\n> b\n---\n", "*`**", " \t ", "\n\n\n"] {
        let input = chars_of(source);
        let (_, end) = scan(&input);
        assert_eq!(end, input.len());
    }
}

#[test]
fn token_clone_is_equal() {
    let t = text("abc");
    assert_eq!(t.clone(), t);
    let h = Token::Heading { level: 7 };
    assert_eq!(h.clone(), h);
}

#[test]
fn lexes_fully_without_carriage_return() {
    assert!(lexes_fully(""));
    assert!(lexes_fully("# a\n> b\n *c* `d`\n"));
    assert!(!lexes_fully("a\r\n"));
    assert!(!lexes_fully("\r"));
    assert!(!lexes_fully("a\nb\n   \r"));
}

#[test]
fn rules_apply_at_an_index() {
    let input = chars_of("x## \ty---*`**>\n");
    assert_eq!(headings(&input, 1), Some((Token::Heading { level: 2 }, 5)));
    assert_eq!(headings(&input, 2), Some((Token::Heading { level: 1 }, 5)));
    assert_eq!(headings(&input, 0), None);
    assert_eq!(headings(&input, input.len()), None);
    assert_eq!(divider(&input, 6), Some((Token::Divider, 9)));
    assert_eq!(divider(&input, 7), None);
    assert_eq!(divider(&input, input.len()), None);
    assert_eq!(italics(&input, 9), Some((Token::Italics, 10)));
    assert_eq!(bold(&input, 9), None);
    assert_eq!(inline_code(&input, 10), Some((Token::InlineCode, 11)));
    assert_eq!(inline_code(&input, 9), None);
    assert_eq!(bold(&input, 11), Some((Token::Bold, 13)));
    assert_eq!(italics(&input, 11), Some((Token::Italics, 12)));
    assert_eq!(bold(&input, 12), None);
    assert_eq!(blockquote(&input, 13), Some((Token::Blockquote, 14)));
    assert_eq!(blockquote(&input, 12), None);
    assert_eq!(endline(&input, 14), Some((Token::EndLine, 15)));
    assert_eq!(endline(&input, 13), None);
    assert_eq!(endline(&input, 15), None);
}

#[test]
fn text_rule_takes_the_longest_run() {
    let input = chars_of("ab c*d\ne");
    assert_eq!(markdown_html::lexer::text(&input, 0), Some((text("ab c"), 4)));
    assert_eq!(markdown_html::lexer::text(&input, 2), Some((text(" c"), 4)));
    assert_eq!(markdown_html::lexer::text(&input, 4), None);
    assert_eq!(markdown_html::lexer::text(&input, 5), Some((text("d"), 6)));
    assert_eq!(markdown_html::lexer::text(&input, 6), None);
    assert_eq!(markdown_html::lexer::text(&input, 7), Some((text("e"), 8)));
    assert_eq!(markdown_html::lexer::text(&input, 8), None);
}

#[test]
fn next_token_skips_spaces_first() {
    let input = chars_of(" \t**  a \n \r");
    assert_eq!(next_token(&input, 0), Some((Token::Bold, 4)));
    assert_eq!(next_token(&input, 4), Some((text("a "), 8)));
    assert_eq!(next_token(&input, 8), Some((Token::EndLine, 9)));
    assert_eq!(next_token(&input, 9), None);
    assert_eq!(next_token(&input, 11), None);
}
