//! The lexer: from source text to a flat sequence of tokens.
//!
//! At each position the scan first skips spaces and tabs and then tries
//! the rules in a fixed order: the six markers, free text, the line end.
//! So markers are never swallowed into text, `**` is never read as two
//! `*`, and a text token keeps the spaces inside and behind it but not
//! those in front of it.
//!
//! A position at which no rule applies ends the scan. That is the end of
//! the source or a carriage return, which no rule consumes: a source
//! with a carriage return cannot be tokenized as a whole.

use crate::chars::chars_of;
use crate::chars::string_of;
use crate::Token;
use crate::TokenView;
use vstd::prelude::*;

verus! {

/// Horizontal whitespace: a space or a tab.
pub open spec fn is_space(c: char) -> bool {
    c == ' ' || c == '\t'
}

/// A character that free text may hold: any but `*`, a backtick, a newline
/// and a carriage return.
pub open spec fn is_text_char(c: char) -> bool {
    c != '*' && c != '`' && c != '\n' && c != '\r'
}

/// Whether `s` holds `c` at index `at`.
pub open spec fn has_char(s: Seq<char>, at: int, c: char) -> bool {
    0 <= at < s.len() && s[at] == c
}

/// The end of the longest run of spaces and tabs that starts at `at`.
pub open spec fn spaces_end(s: Seq<char>, at: int) -> int
    decreases s.len() - at,
{
    if 0 <= at < s.len() && is_space(s[at]) {
        spaces_end(s, at + 1)
    } else {
        at
    }
}

/// The end of the longest run of `#` that starts at `at`.
pub open spec fn hashes_end(s: Seq<char>, at: int) -> int
    decreases s.len() - at,
{
    if has_char(s, at, '#') {
        hashes_end(s, at + 1)
    } else {
        at
    }
}

/// The end of the longest run of text characters that starts at `at`.
pub open spec fn text_end(s: Seq<char>, at: int) -> int
    decreases s.len() - at,
{
    if 0 <= at < s.len() && is_text_char(s[at]) {
        text_end(s, at + 1)
    } else {
        at
    }
}

/// One or more `#`, then any spaces and tabs: a heading marker whose level
/// is the number of `#`. The text of the heading is not part of it.
pub open spec fn heading_at(s: Seq<char>, at: int) -> Option<(TokenView, int)> {
    if has_char(s, at, '#') {
        let end = hashes_end(s, at);
        Some((TokenView::Heading { level: (end - at) as nat }, spaces_end(s, end)))
    } else {
        None
    }
}

/// Exactly `---`.
pub open spec fn divider_at(s: Seq<char>, at: int) -> Option<(TokenView, int)> {
    if has_char(s, at, '-') && has_char(s, at + 1, '-') && has_char(s, at + 2, '-') {
        Some((TokenView::Divider, at + 3))
    } else {
        None
    }
}

/// `>`.
pub open spec fn blockquote_at(s: Seq<char>, at: int) -> Option<(TokenView, int)> {
    if has_char(s, at, '>') {
        Some((TokenView::Blockquote, at + 1))
    } else {
        None
    }
}

/// `**`.
pub open spec fn bold_at(s: Seq<char>, at: int) -> Option<(TokenView, int)> {
    if has_char(s, at, '*') && has_char(s, at + 1, '*') {
        Some((TokenView::Bold, at + 2))
    } else {
        None
    }
}

/// `*`.
pub open spec fn italics_at(s: Seq<char>, at: int) -> Option<(TokenView, int)> {
    if has_char(s, at, '*') {
        Some((TokenView::Italics, at + 1))
    } else {
        None
    }
}

/// A backtick.
pub open spec fn inline_code_at(s: Seq<char>, at: int) -> Option<(TokenView, int)> {
    if has_char(s, at, '`') {
        Some((TokenView::InlineCode, at + 1))
    } else {
        None
    }
}

/// The longest run of text characters, if it is not empty.
pub open spec fn text_at(s: Seq<char>, at: int) -> Option<(TokenView, int)> {
    if 0 <= at < s.len() && is_text_char(s[at]) {
        let end = text_end(s, at);
        Some((TokenView::Text { text: s.subrange(at, end) }, end))
    } else {
        None
    }
}

/// A newline.
pub open spec fn endline_at(s: Seq<char>, at: int) -> Option<(TokenView, int)> {
    if has_char(s, at, '\n') {
        Some((TokenView::EndLine, at + 1))
    } else {
        None
    }
}

/// The first of the marker rules that applies at `at`: heading, divider,
/// blockquote, bold, italics, inline code, in this order.
pub open spec fn marker_at(s: Seq<char>, at: int) -> Option<(TokenView, int)> {
    if heading_at(s, at) is Some {
        heading_at(s, at)
    } else if divider_at(s, at) is Some {
        divider_at(s, at)
    } else if blockquote_at(s, at) is Some {
        blockquote_at(s, at)
    } else if bold_at(s, at) is Some {
        bold_at(s, at)
    } else if italics_at(s, at) is Some {
        italics_at(s, at)
    } else {
        inline_code_at(s, at)
    }
}

/// The first of all rules that applies at `at`: a marker, else free
/// text, else a line end.
pub open spec fn rule_at(s: Seq<char>, at: int) -> Option<(TokenView, int)> {
    if marker_at(s, at) is Some {
        marker_at(s, at)
    } else if text_at(s, at) is Some {
        text_at(s, at)
    } else {
        endline_at(s, at)
    }
}

/// The next token from `at` on, with the index just after it: what the
/// rules give after the spaces and tabs at `at`, which belong to no
/// token. `None` where no rule applies there.
pub open spec fn token_at(s: Seq<char>, at: int) -> Option<(TokenView, int)> {
    rule_at(s, spaces_end(s, at))
}

/// The tokens of `s` from `at` on, up to the first index at which no rule
/// applies.
pub open spec fn tokens_from(s: Seq<char>, at: int) -> Seq<TokenView>
    decreases s.len() - at,
{
    match token_at(s, at) {
        Some((token, next)) => {
            proof {
                lemma_token_advances(s, at);
            }
            seq![token] + tokens_from(s, next)
        },
        None => Seq::empty(),
    }
}

/// The index at which the scan that starts at `at` stops: the first index
/// reached, after spaces and tabs, at which no rule applies. What stands
/// from there on was not consumed.
pub open spec fn scan_end(s: Seq<char>, at: int) -> int
    decreases s.len() - at,
{
    match token_at(s, at) {
        Some((token, next)) => {
            proof {
                lemma_token_advances(s, at);
            }
            scan_end(s, next)
        },
        None => spaces_end(s, at),
    }
}

/// The tokens of a whole source text.
pub open spec fn lex(s: Seq<char>) -> Seq<TokenView> {
    tokens_from(s, 0)
}

/// The values of a sequence of tokens, in the same order.
pub open spec fn token_views(tokens: Seq<Token>) -> Seq<TokenView> {
    tokens.map_values(|t: Token| t@)
}

/// Whether the outcome of a rule in code is the one that its definition
/// gives.
pub open spec fn agrees(out: Option<(Token, usize)>, rule: Option<(TokenView, int)>) -> bool {
    match out {
        Some((token, next)) => rule == Some((token@, next as int)),
        None => rule is None,
    }
}

proof fn lemma_spaces_end(s: Seq<char>, at: int)
    requires
        0 <= at <= s.len(),
    ensures
        at <= spaces_end(s, at) <= s.len(),
        forall|k: int| at <= k < spaces_end(s, at) ==> is_space(#[trigger] s[k]),
        spaces_end(s, at) < s.len() ==> !is_space(s[spaces_end(s, at)]),
    decreases s.len() - at,
{
    if at < s.len() && is_space(s[at]) {
        lemma_spaces_end(s, at + 1);
    }
}

proof fn lemma_hashes_end(s: Seq<char>, at: int)
    requires
        0 <= at <= s.len(),
    ensures
        at <= hashes_end(s, at) <= s.len(),
        has_char(s, at, '#') ==> at < hashes_end(s, at),
        forall|k: int| at <= k < hashes_end(s, at) ==> #[trigger] s[k] == '#',
    decreases s.len() - at,
{
    if has_char(s, at, '#') {
        lemma_hashes_end(s, at + 1);
    }
}

proof fn lemma_text_end(s: Seq<char>, at: int)
    requires
        0 <= at <= s.len(),
    ensures
        at <= text_end(s, at) <= s.len(),
        at < s.len() && is_text_char(s[at]) ==> at < text_end(s, at),
        forall|k: int| at <= k < text_end(s, at) ==> is_text_char(#[trigger] s[k]),
        text_end(s, at) < s.len() ==> !is_text_char(s[text_end(s, at)]),
    decreases s.len() - at,
{
    if at < s.len() && is_text_char(s[at]) {
        lemma_text_end(s, at + 1);
    }
}

/// A token is never empty and never reaches past the end of the source.
pub proof fn lemma_token_advances(s: Seq<char>, at: int)
    ensures
        token_at(s, at) matches Some((token, next)) ==> 0 <= at < next <= s.len(),
{
    if 0 <= at <= s.len() {
        lemma_spaces_end(s, at);
        let start = spaces_end(s, at);
        lemma_hashes_end(s, start);
        lemma_spaces_end(s, hashes_end(s, start));
        lemma_text_end(s, start);
    }
}

/// The scan passes over every character but a carriage return: it stops
/// at the first carriage return at or after `at`, or at the end of the
/// source where there is none.
pub proof fn lemma_scan_end(s: Seq<char>, at: int)
    requires
        0 <= at <= s.len(),
    ensures
        at <= scan_end(s, at) <= s.len(),
        forall|k: int| at <= k < scan_end(s, at) ==> #[trigger] s[k] != '\r',
        scan_end(s, at) < s.len() ==> s[scan_end(s, at)] == '\r',
    decreases s.len() - at,
{
    lemma_token_advances(s, at);
    lemma_spaces_end(s, at);
    let start = spaces_end(s, at);
    lemma_hashes_end(s, start);
    lemma_spaces_end(s, hashes_end(s, start));
    lemma_text_end(s, start);
    match token_at(s, at) {
        Some((token, next)) => {
            lemma_scan_end(s, next);
        },
        None => {},
    }
}

/// The scan consumes the whole source exactly when the source holds no
/// carriage return.
pub proof fn lemma_scan_complete(s: Seq<char>)
    ensures
        scan_end(s, 0) == s.len() <==> !s.contains('\r'),
{
    lemma_scan_end(s, 0);
    if s.contains('\r') {
        let k = choose|k: int| 0 <= k < s.len() && s[k] == '\r';
        assert(s[k] == '\r');
    }
}

/// Whether a line starts at index `at`: at the start of the source or
/// just after a newline.
pub open spec fn line_start(s: Seq<char>, at: int) -> bool {
    0 <= at <= s.len() && (at == 0 || s[at - 1] == '\n')
}

/// No token reaches across a newline: a scan that starts at or before the
/// start of a line, in a source without carriage returns, comes to that
/// start, and the tokens from there on end the tokens of the scan.
pub proof fn lemma_scan_meets_line_start(s: Seq<char>, from: int, line: int)
    requires
        !s.contains('\r'),
        0 <= from <= line,
        line_start(s, line),
    ensures
        exists|n: int|
            0 <= n <= tokens_from(s, from).len() && #[trigger] tokens_from(s, from).skip(n)
                == tokens_from(s, line),
    decreases line - from,
{
    if from == line {
        assert(tokens_from(s, from).skip(0) == tokens_from(s, line));
    } else {
        lemma_spaces_end(s, from);
        let start = spaces_end(s, from);
        assert(start <= line - 1) by {
            if start > line - 1 {
                assert(is_space(s[line - 1]));
            }
        }
        assert(s.contains(s[start]));
        lemma_hashes_end(s, start);
        lemma_spaces_end(s, hashes_end(s, start));
        lemma_text_end(s, start);
        let (token, next) = token_at(s, from).unwrap();
        assert(next <= line) by {
            if next > line {
                let k = line - 1;
                assert(start <= k < next);
                if heading_at(s, start) is Some {
                    let mid = hashes_end(s, start);
                    if k < mid {
                        assert(s[k] == '#');
                    } else {
                        assert(is_space(s[k]));
                    }
                } else if text_at(s, start) is Some && marker_at(s, start) is None {
                    assert(is_text_char(s[k]));
                }
            }
        }
        lemma_scan_meets_line_start(s, next, line);
        let n = choose|n: int|
            0 <= n <= tokens_from(s, next).len() && #[trigger] tokens_from(s, next).skip(n)
                == tokens_from(s, line);
        assert(tokens_from(s, from).skip(n + 1) == tokens_from(s, next).skip(n));
    }
}

/// A run of exactly `count` `#` ends after them.
pub proof fn lemma_hashes_run(s: Seq<char>, at: int, count: nat)
    requires
        0 <= at,
        at + count <= s.len(),
        forall|k: int| at <= k < at + count ==> #[trigger] s[k] == '#',
        !has_char(s, at + count, '#'),
    ensures
        hashes_end(s, at) == at + count,
    decreases count,
{
    if count > 0 {
        lemma_hashes_run(s, at + 1, (count - 1) as nat);
    }
}

/// Whether the line that starts at index `at` of `s` is exactly `---`.
pub open spec fn divider_line(s: Seq<char>, at: int) -> bool {
    &&& line_start(s, at)
    &&& has_char(s, at, '-')
    &&& has_char(s, at + 1, '-')
    &&& has_char(s, at + 2, '-')
    &&& (at + 3 == s.len() || has_char(s, at + 3, '\n'))
}

/// A line that is exactly `---` gives a divider token.
pub proof fn lemma_divider_line_token(s: Seq<char>, at: int)
    requires
        !s.contains('\r'),
        divider_line(s, at),
    ensures
        exists|n: int| 0 <= n < lex(s).len() && #[trigger] lex(s)[n] is Divider,
{
    let tokens = lex(s);
    lemma_scan_meets_line_start(s, 0, at);
    let n = choose|n: int|
        0 <= n <= tokens.len() && #[trigger] tokens.skip(n) == tokens_from(s, at);
    assert(spaces_end(s, at) == at);
    assert(token_at(s, at) == Some((TokenView::Divider, at + 3)));
    assert(tokens_from(s, at).len() > 0 && tokens_from(s, at)[0] is Divider);
    assert(tokens.skip(n).len() == tokens.len() - n);
    assert(tokens.skip(n)[0] == tokens[n]);
}

/// Whether the line that starts at index `at` of `s` is a heading of the
/// given level and text: `level` times `#`, then any spaces and tabs,
/// then `text`, which is the longest run of text characters there, is not
/// empty and starts with no marker.
pub open spec fn heading_line(s: Seq<char>, at: int, level: nat, text: Seq<char>) -> bool {
    &&& line_start(s, at)
    &&& level >= 1
    &&& at + level <= s.len()
    &&& forall|k: int| at <= k < at + level ==> #[trigger] s[k] == '#'
    &&& !has_char(s, at + level, '#')
    &&& text.len() > 0
    &&& text == s.subrange(spaces_end(s, at + level), text_end(s, spaces_end(s, at + level)))
    &&& marker_at(s, spaces_end(s, at + level)) is None
}

/// A heading line gives a heading token of its level, and its text as
/// the next token.
pub proof fn lemma_heading_line_tokens(s: Seq<char>, at: int, level: nat, text: Seq<char>)
    requires
        !s.contains('\r'),
        heading_line(s, at, level, text),
    ensures
        exists|n: int|
            0 <= n && n + 1 < lex(s).len() && #[trigger] lex(s)[n] == (TokenView::Heading {
                level,
            }) && lex(s)[n + 1] == (TokenView::Text { text }),
{
    let tokens = lex(s);
    lemma_scan_meets_line_start(s, 0, at);
    let n = choose|n: int|
        0 <= n <= tokens.len() && #[trigger] tokens.skip(n) == tokens_from(s, at);
    let here = tokens_from(s, at);
    assert(s[at] == '#');
    assert(spaces_end(s, at) == at);
    lemma_hashes_run(s, at, level);
    let start = spaces_end(s, at + level);
    assert(token_at(s, at) == Some((TokenView::Heading { level }, start)));
    lemma_token_advances(s, at);
    lemma_spaces_end(s, at + level);
    assert(spaces_end(s, start) == start);
    lemma_text_end(s, start);
    let end = text_end(s, start);
    assert(start < end);
    assert(text_at(s, start) == Some((TokenView::Text { text }, end)));
    assert(marker_at(s, start) is None);
    assert(token_at(s, start) == Some((TokenView::Text { text }, end)));
    lemma_token_advances(s, start);
    let after = tokens_from(s, start);
    assert(after == seq![TokenView::Text { text }] + tokens_from(s, end));
    assert(here == seq![TokenView::Heading { level }] + after);
    assert(here.len() >= 2 && here[0] == (TokenView::Heading { level }) && here[1]
        == (TokenView::Text { text }));
    assert(tokens.skip(n).len() == tokens.len() - n);
    assert(tokens.skip(n)[0] == tokens[n]);
    assert(tokens.skip(n)[1] == tokens[n + 1]);
}

/// The level of a heading marker is the length of a run of `#` that is
/// not empty, so it is never zero.
pub proof fn lemma_heading_levels(s: Seq<char>, at: int, i: int)
    requires
        0 <= at <= s.len(),
        0 <= i < tokens_from(s, at).len(),
    ensures
        tokens_from(s, at)[i] matches TokenView::Heading { level } ==> level >= 1,
    decreases s.len() - at,
{
    lemma_token_advances(s, at);
    match token_at(s, at) {
        Some((token, next)) => {
            if i == 0 {
                let start = spaces_end(s, at);
                lemma_spaces_end(s, at);
                lemma_hashes_end(s, start);
            } else {
                lemma_heading_levels(s, next, i - 1);
            }
        },
        None => {},
    }
}

/// What a text token may hold: at least one character, none of them a
/// `*`, a backtick, a newline or a carriage return, and the first one
/// neither a space nor a tab.
pub open spec fn is_clean_text(text: Seq<char>) -> bool {
    &&& text.len() > 0
    &&& !is_space(text[0])
    &&& forall|k: int| 0 <= k < text.len() ==> is_text_char(#[trigger] text[k])
}

/// Markers are never swallowed into text: every text token of a scan is
/// clean.
pub proof fn lemma_text_tokens(s: Seq<char>, at: int, i: int)
    requires
        0 <= at <= s.len(),
        0 <= i < tokens_from(s, at).len(),
    ensures
        tokens_from(s, at)[i] matches TokenView::Text { text } ==> is_clean_text(text),
    decreases s.len() - at,
{
    lemma_token_advances(s, at);
    match token_at(s, at) {
        Some((token, next)) => {
            if i == 0 {
                let start = spaces_end(s, at);
                lemma_spaces_end(s, at);
                lemma_text_end(s, start);
            } else {
                lemma_text_tokens(s, next, i - 1);
            }
        },
        None => {},
    }
}

fn skip_spaces(input: &[char], at: usize) -> (end: usize)
    requires
        at <= input.len(),
    ensures
        end == spaces_end(input@, at as int),
        at <= end <= input.len(),
{
    let mut end: usize = at;
    while end < input.len() && (input[end] == ' ' || input[end] == '\t')
        invariant
            at <= end <= input.len(),
            spaces_end(input@, end as int) == spaces_end(input@, at as int),
        decreases input.len() - end,
    {
        end += 1;
    }
    end
}

/// The heading marker at `at`, if there is one.
pub fn headings(input: &[char], at: usize) -> (out: Option<(Token, usize)>)
    requires
        at <= input.len(),
    ensures
        agrees(out, heading_at(input@, at as int)),
        out matches Some((token, next)) ==> at < next <= input.len(),
{
    let mut end: usize = at;
    while end < input.len() && input[end] == '#'
        invariant
            at <= end <= input.len(),
            hashes_end(input@, end as int) == hashes_end(input@, at as int),
        decreases input.len() - end,
    {
        end += 1;
    }
    if end == at {
        None
    } else {
        let next = skip_spaces(input, end);
        Some((Token::Heading { level: end - at }, next))
    }
}

/// The divider at `at`, if there is one.
pub fn divider(input: &[char], at: usize) -> (out: Option<(Token, usize)>)
    requires
        at <= input.len(),
    ensures
        agrees(out, divider_at(input@, at as int)),
        out matches Some((token, next)) ==> at < next <= input.len(),
{
    if input.len() - at >= 3 && input[at] == '-' && input[at + 1] == '-' && input[at + 2] == '-' {
        Some((Token::Divider, at + 3))
    } else {
        None
    }
}

/// The blockquote marker at `at`, if there is one.
pub fn blockquote(input: &[char], at: usize) -> (out: Option<(Token, usize)>)
    requires
        at <= input.len(),
    ensures
        agrees(out, blockquote_at(input@, at as int)),
        out matches Some((token, next)) ==> at < next <= input.len(),
{
    if at < input.len() && input[at] == '>' {
        Some((Token::Blockquote, at + 1))
    } else {
        None
    }
}

/// The bold marker at `at`, if there is one.
pub fn bold(input: &[char], at: usize) -> (out: Option<(Token, usize)>)
    requires
        at <= input.len(),
    ensures
        agrees(out, bold_at(input@, at as int)),
        out matches Some((token, next)) ==> at < next <= input.len(),
{
    if input.len() - at >= 2 && input[at] == '*' && input[at + 1] == '*' {
        Some((Token::Bold, at + 2))
    } else {
        None
    }
}

/// The italics marker at `at`, if there is one.
pub fn italics(input: &[char], at: usize) -> (out: Option<(Token, usize)>)
    requires
        at <= input.len(),
    ensures
        agrees(out, italics_at(input@, at as int)),
        out matches Some((token, next)) ==> at < next <= input.len(),
{
    if at < input.len() && input[at] == '*' {
        Some((Token::Italics, at + 1))
    } else {
        None
    }
}

/// The inline code marker at `at`, if there is one.
pub fn inline_code(input: &[char], at: usize) -> (out: Option<(Token, usize)>)
    requires
        at <= input.len(),
    ensures
        agrees(out, inline_code_at(input@, at as int)),
        out matches Some((token, next)) ==> at < next <= input.len(),
{
    if at < input.len() && input[at] == '`' {
        Some((Token::InlineCode, at + 1))
    } else {
        None
    }
}

fn text_char(c: char) -> (out: bool)
    ensures
        out == is_text_char(c),
{
    c != '*' && c != '`' && c != '\n' && c != '\r'
}

/// The free text at `at`, if there is any.
pub fn text(input: &[char], at: usize) -> (out: Option<(Token, usize)>)
    requires
        at <= input.len(),
    ensures
        agrees(out, text_at(input@, at as int)),
        out matches Some((token, next)) ==> at < next <= input.len(),
{
    let mut end: usize = at;
    while end < input.len() && text_char(input[end])
        invariant
            at <= end <= input.len(),
            text_end(input@, end as int) == text_end(input@, at as int),
        decreases input.len() - end,
    {
        end += 1;
    }
    if end == at {
        None
    } else {
        Some((Token::Text { text: string_of(input, at, end) }, end))
    }
}

/// The line end at `at`, if there is one.
pub fn endline(input: &[char], at: usize) -> (out: Option<(Token, usize)>)
    requires
        at <= input.len(),
    ensures
        agrees(out, endline_at(input@, at as int)),
        out matches Some((token, next)) ==> at < next <= input.len(),
{
    if at < input.len() && input[at] == '\n' {
        Some((Token::EndLine, at + 1))
    } else {
        None
    }
}

fn marker(input: &[char], at: usize) -> (out: Option<(Token, usize)>)
    requires
        at <= input.len(),
    ensures
        agrees(out, marker_at(input@, at as int)),
        out matches Some((token, next)) ==> at < next <= input.len(),
{
    let mut out = headings(input, at);
    if out.is_none() {
        out = divider(input, at);
    }
    if out.is_none() {
        out = blockquote(input, at);
    }
    if out.is_none() {
        out = bold(input, at);
    }
    if out.is_none() {
        out = italics(input, at);
    }
    if out.is_none() {
        out = inline_code(input, at);
    }
    out
}

/// The token at `at`, with the index just after it, or `None` where no
/// rule applies.
pub fn next_token(input: &[char], at: usize) -> (out: Option<(Token, usize)>)
    requires
        at <= input.len(),
    ensures
        agrees(out, token_at(input@, at as int)),
        out matches Some((token, next)) ==> at < next <= input.len(),
{
    let start = skip_spaces(input, at);
    let mut out = marker(input, start);
    if out.is_none() {
        out = text(input, start);
    }
    if out.is_none() {
        out = endline(input, start);
    }
    out
}

/// Scans `input` from its start until no rule applies. Returns the tokens
/// and the number of characters that were consumed; what follows them
/// was not.
pub fn scan(input: &[char]) -> (out: (Vec<Token>, usize))
    ensures
        token_views(out.0@) == lex(input@),
        out.1 == scan_end(input@, 0),
        out.1 <= input.len(),
{
    let mut tokens: Vec<Token> = Vec::new();
    let mut at: usize = 0;
    loop
        invariant
            at <= input.len(),
            token_views(tokens@) + tokens_from(input@, at as int) == lex(input@),
            scan_end(input@, at as int) == scan_end(input@, 0),
        ensures
            token_views(tokens@) == lex(input@),
            at == scan_end(input@, 0),
            at <= input.len(),
        decreases input.len() - at,
    {
        match next_token(input, at) {
            Some((token, next)) => {
                proof {
                    let before = token_views(tokens@);
                    let after = token_views(tokens@.push(token));
                    assert(after == before + seq![token@]);
                    assert(after + tokens_from(input@, next as int) == before + tokens_from(
                        input@,
                        at as int,
                    ));
                }
                tokens.push(token);
                at = next;
            },
            None => {
                assert(token_views(tokens@) + Seq::<TokenView>::empty() == token_views(tokens@));
                at = skip_spaces(input, at);
                break ;
            },
        }
    }
    (tokens, at)
}

/// Whether the scan consumes the whole of `markdown`, which it does
/// exactly when `markdown` holds no carriage return.
pub fn lexes_fully(markdown: &str) -> (out: bool)
    ensures
        out == !markdown@.contains('\r'),
        out == (scan_end(markdown@, 0) == markdown@.len()),
{
    let input = chars_of(markdown);
    let mut i: usize = 0;
    proof {
        lemma_scan_complete(markdown@);
    }
    while i < input.len()
        invariant
            i <= input.len(),
            input@ == markdown@,
            scan_end(markdown@, 0) == markdown@.len() <==> !markdown@.contains('\r'),
            forall|k: int| 0 <= k < i ==> input@[k] != '\r',
        decreases input.len() - i,
    {
        if input[i] == '\r' {
            assert(markdown@[i as int] == '\r');
            return false;
        }
        i += 1;
    }
    true
}

/// Tokenizes the raw input.
///
/// The source must hold no carriage return: no rule consumes one, so the
/// scan would stop in front of it and leave the rest of the source
/// unread.
pub fn parse(markdown: String) -> (tokens: Vec<Token>)
    requires
        !markdown@.contains('\r'),
    ensures
        token_views(tokens@) == lex(markdown@),
        scan_end(markdown@, 0) == markdown@.len(),
        forall|i: int|
            0 <= i < tokens@.len() ==> (#[trigger] tokens@[i] matches Token::Heading { level }
                ==> level >= 1),
        forall|i: int|
            0 <= i < tokens@.len() ==> (#[trigger] tokens@[i] matches Token::Text { text }
                ==> is_clean_text(text@)),
{
    let input = chars_of(markdown.as_str());
    let (tokens, end) = scan(input.as_slice());
    proof {
        lemma_scan_complete(markdown@);
        assert forall|i: int| 0 <= i < tokens@.len() implies (#[trigger] tokens@[i] matches Token::Heading {
            level,
        } ==> level >= 1) by {
            lemma_heading_levels(markdown@, 0, i);
            assert(token_views(tokens@)[i] == tokens@[i]@);
        }
        assert forall|i: int| 0 <= i < tokens@.len() implies (#[trigger] tokens@[i] matches Token::Text {
            text,
        } ==> is_clean_text(text@)) by {
            lemma_text_tokens(markdown@, 0, i);
            assert(token_views(tokens@)[i] == tokens@[i]@);
        }
    }
    tokens
}

} // verus!
