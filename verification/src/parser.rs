//! The parser: from tokens to elements.
//!
//! The token sequence is reduced block by block. A block is a heading, a
//! divider, a run of quoted lines, a paragraph of inline elements, or a
//! blank line. Every block ends with the line end that follows it, if one
//! does; a block that no line end follows is complete all the same.
//!
//! A heading and a quoted line take the one text token that follows
//! their marker. Whatever else stands on the line starts the next block,
//! so no token but a line end is ever dropped. Within a paragraph a
//! marker either opens a pair round exactly one text token or stands for
//! its own spelling. Every sequence of tokens reduces; nothing is
//! rejected.

use crate::chars::trim;
use crate::chars::trimmed;
use crate::element_views;
use crate::lexer::token_views;
use crate::Element;
use crate::ElementView;
use crate::Token;
use crate::TokenView;
use vstd::pervasive::unreached;
use vstd::prelude::*;
use vstd::string::StringExecFns;

verus! {

/// The input of the parser: the tokens that are still to be read.
#[derive(Clone, Copy, Debug)]
pub struct Tokens<'a> {
    pub v: &'a [Token],
}

impl<'a> View for Tokens<'a> {
    type V = Seq<TokenView>;

    open spec fn view(&self) -> Seq<TokenView> {
        token_views(self.v@)
    }
}

impl<'a> Tokens<'a> {
    /// The number of tokens that are left.
    pub fn input_len(&self) -> (len: usize)
        ensures
            len == self.v@.len(),
            len == self@.len(),
    {
        self.v.len()
    }

    /// The first `count` tokens.
    pub fn take(&self, count: usize) -> (head: Tokens<'a>)
        requires
            count <= self.v@.len(),
        ensures
            head.v@ == self.v@.take(count as int),
    {
        Tokens { v: &self.v[0..count] }
    }

    /// The tokens after the first `count`, then the first `count`.
    pub fn take_split(&self, count: usize) -> (parts: (Tokens<'a>, Tokens<'a>))
        requires
            count <= self.v@.len(),
        ensures
            parts.0.v@ == self.v@.skip(count as int),
            parts.1.v@ == self.v@.take(count as int),
    {
        let a = Tokens { v: &self.v[0..count] };
        let b = Tokens { v: &self.v[count..self.v.len()] };
        (b, a)
    }

    /// `count` itself where that many tokens are left, `None` where fewer
    /// are.
    pub fn slice_index(&self, count: usize) -> (index: Option<usize>)
        ensures
            index == if count <= self.v@.len() {
                Some(count)
            } else {
                None
            },
    {
        if self.v.len() >= count {
            Some(count)
        } else {
            None
        }
    }
}

/// Splits off the first `count` tokens: the rest, then those tokens.
/// `None` where fewer than `count` are left.
pub fn take<'a>(count: usize, i: Tokens<'a>) -> (out: Option<(Tokens<'a>, Tokens<'a>)>)
    ensures
        out is Some <==> count <= i.v@.len(),
        out matches Some((rest, head)) ==> rest.v@ == i.v@.skip(count as int) && head.v@
            == i.v@.take(count as int),
{
    match i.slice_index(count) {
        None => None,
        Some(index) => Some(i.take_split(index)),
    }
}

/// A marker of inline style.
pub open spec fn is_marker(t: TokenView) -> bool {
    t is Bold || t is Italics || t is InlineCode
}

/// How a token without content is written in the source. Tokens with
/// content have no fixed spelling.
pub open spec fn spelling(t: TokenView) -> Seq<char> {
    match t {
        TokenView::Bold => "**"@,
        TokenView::Italics => "*"@,
        TokenView::InlineCode => "`"@,
        TokenView::EndLine => "\n"@,
        TokenView::Divider => "---"@,
        TokenView::Blockquote => ">"@,
        _ => Seq::empty(),
    }
}

/// The element that a pair of `marker` tokens makes of the text between
/// them.
pub open spec fn styled(marker: TokenView, text: Seq<char>) -> ElementView {
    match marker {
        TokenView::Bold => ElementView::Bold { text },
        TokenView::Italics => ElementView::Italics { text },
        _ => ElementView::InlineCode { text },
    }
}

/// One token equal to `kind`, read as plain text that holds its spelling.
pub open spec fn single(ts: Seq<TokenView>, kind: TokenView) -> Option<(ElementView, nat)> {
    if ts.len() > 0 && ts[0] == kind {
        Some((ElementView::PlainText { text: spelling(kind) }, 1))
    } else {
        None
    }
}

/// One text token, read as plain text.
pub open spec fn plain_rule(ts: Seq<TokenView>) -> Option<(ElementView, nat)> {
    if ts.len() > 0 && ts[0] is Text {
        Some((ElementView::PlainText { text: ts[0]->text }, 1))
    } else {
        None
    }
}

/// `marker`, one text token, `marker` again: the text in that style.
pub open spec fn pair_rule(ts: Seq<TokenView>, marker: TokenView) -> Option<(ElementView, nat)> {
    if ts.len() >= 3 && ts[0] == marker && ts[1] is Text && ts[2] == marker {
        Some((styled(marker, ts[1]->text), 3))
    } else {
        None
    }
}

/// A marker that opens no pair, read as plain text that holds its
/// spelling.
pub open spec fn unclosed_rule(ts: Seq<TokenView>) -> Option<(ElementView, nat)> {
    if single(ts, TokenView::Bold) is Some {
        single(ts, TokenView::Bold)
    } else if single(ts, TokenView::Italics) is Some {
        single(ts, TokenView::Italics)
    } else {
        single(ts, TokenView::InlineCode)
    }
}

/// The inline element at the head of `ts`, with the number of tokens that
/// it covers: plain text, a closed pair of markers round one text token,
/// or a lone marker as literal text. `None` where `ts` is empty or starts
/// with a heading, a divider, a blockquote marker or a line end.
pub open spec fn inline_rule(ts: Seq<TokenView>) -> Option<(ElementView, nat)> {
    if plain_rule(ts) is Some {
        plain_rule(ts)
    } else if pair_rule(ts, TokenView::Bold) is Some {
        pair_rule(ts, TokenView::Bold)
    } else if pair_rule(ts, TokenView::Italics) is Some {
        pair_rule(ts, TokenView::Italics)
    } else if pair_rule(ts, TokenView::InlineCode) is Some {
        pair_rule(ts, TokenView::InlineCode)
    } else {
        unclosed_rule(ts)
    }
}

/// The inline elements at the head of `ts`, as many as there are, with
/// the number of tokens that they cover.
pub open spec fn inline_run(ts: Seq<TokenView>) -> (Seq<ElementView>, nat)
    decreases ts.len(),
{
    match inline_rule(ts) {
        Some((element, n)) => {
            let (more, m) = inline_run(ts.skip(n as int));
            (seq![element] + more, n + m)
        },
        None => (Seq::empty(), 0),
    }
}

/// 1 where `ts` has at least `at + 1` tokens and the one at `at` is a line
/// end, else 0.
pub open spec fn line_end(ts: Seq<TokenView>, at: nat) -> nat {
    if at < ts.len() && ts[at as int] is EndLine {
        1
    } else {
        0
    }
}

/// A paragraph: one or more inline elements, and the line end after them
/// if there is one.
pub open spec fn text_rule(ts: Seq<TokenView>) -> Option<(ElementView, nat)> {
    let (elements, n) = inline_run(ts);
    if n > 0 {
        Some((ElementView::Text { elements }, n + line_end(ts, n)))
    } else {
        None
    }
}

/// After a heading or blockquote marker at the head of `ts`: the text
/// token that follows it directly, if one does, and the number of tokens
/// that marker and text cover.
pub open spec fn marked_text(ts: Seq<TokenView>) -> (Seq<char>, nat) {
    if ts.len() > 1 && ts[1] is Text {
        (ts[1]->text, 2)
    } else {
        (Seq::empty(), 1)
    }
}

/// A heading: the marker, the text token that follows it directly, if one
/// does, and the line end after them, if there is one.
pub open spec fn heading_rule(ts: Seq<TokenView>) -> Option<(ElementView, nat)> {
    if ts.len() > 0 && ts[0] is Heading {
        let (text, n) = marked_text(ts);
        Some((ElementView::Heading { level: ts[0]->level, text }, n + line_end(ts, n)))
    } else {
        None
    }
}

/// A divider, and the line end after it, if there is one.
pub open spec fn divider_rule(ts: Seq<TokenView>) -> Option<(ElementView, nat)> {
    if ts.len() > 0 && ts[0] is Divider {
        Some((ElementView::Divider, 1 + line_end(ts, 1)))
    } else {
        None
    }
}

/// The text of the run of quoted lines at the head of `ts`, which starts
/// with a blockquote marker, and the number of tokens that the run
/// covers. A quoted line is the marker, the text token that follows it
/// directly, if one does, and the line end. Its text is trimmed. The run
/// goes on while a quoted line ends with a line end and the next token is
/// a blockquote marker again; the texts of its lines are joined by a
/// newline.
pub open spec fn quote_run(ts: Seq<TokenView>) -> (Seq<char>, nat)
    decreases ts.len(),
{
    let (text, n) = marked_text(ts);
    if n + 1 < ts.len() && ts[n as int] is EndLine && ts[n as int + 1] is Blockquote {
        let (more, m) = quote_run(ts.skip(n as int + 1));
        (trim(text) + "\n"@ + more, n + 1 + m)
    } else {
        (trim(text), n + line_end(ts, n))
    }
}

/// A blockquote: the quoted lines that follow one another, as one
/// element.
pub open spec fn blockquote_rule(ts: Seq<TokenView>) -> Option<(ElementView, nat)> {
    if ts.len() > 0 && ts[0] is Blockquote {
        let (text, n) = quote_run(ts);
        Some((ElementView::Blockquote { text }, n))
    } else {
        None
    }
}

/// The block at the head of `ts`, with the number of tokens that it
/// covers: a heading, a divider, a blockquote or a paragraph. `None`
/// where `ts` is empty or starts with a line end.
pub open spec fn block_rule(ts: Seq<TokenView>) -> Option<(ElementView, nat)> {
    if heading_rule(ts) is Some {
        heading_rule(ts)
    } else if divider_rule(ts) is Some {
        divider_rule(ts)
    } else if blockquote_rule(ts) is Some {
        blockquote_rule(ts)
    } else {
        text_rule(ts)
    }
}

/// The elements of a token sequence: its blocks in order. A line end
/// where a block would start is a blank line, and gives no element.
pub open spec fn elements_of(ts: Seq<TokenView>) -> Seq<ElementView>
    decreases ts.len(),
{
    if ts.len() == 0 {
        Seq::empty()
    } else {
        match block_rule(ts) {
            Some((element, n)) => {
                proof {
                    lemma_block_advances(ts);
                }
                seq![element] + elements_of(ts.skip(n as int))
            },
            None => elements_of(ts.skip(1)),
        }
    }
}

/// The inline elements at the head of a token sequence cover no more
/// tokens than there are, and at least one where the first token is text
/// or a marker.
pub proof fn lemma_inline_run(ts: Seq<TokenView>)
    ensures
        inline_run(ts).1 <= ts.len(),
        inline_run(ts).1 > 0 <==> inline_rule(ts) is Some,
        inline_run(ts).1 > 0 <==> inline_run(ts).0.len() > 0,
    decreases ts.len(),
{
    match inline_rule(ts) {
        Some((element, n)) => {
            lemma_inline_run(ts.skip(n as int));
        },
        None => {},
    }
}

/// A run of quoted lines covers at least its first marker and no more
/// tokens than there are.
pub proof fn lemma_quote_run(ts: Seq<TokenView>)
    requires
        ts.len() > 0,
    ensures
        0 < quote_run(ts).1 <= ts.len(),
    decreases ts.len(),
{
    let (text, n) = marked_text(ts);
    if n + 1 < ts.len() && ts[n as int] is EndLine && ts[n as int + 1] is Blockquote {
        lemma_quote_run(ts.skip(n as int + 1));
    }
}

/// A block covers at least one token and no more tokens than there are.
pub proof fn lemma_block_advances(ts: Seq<TokenView>)
    ensures
        block_rule(ts) matches Some((element, n)) ==> 0 < n <= ts.len(),
{
    lemma_inline_run(ts);
    if ts.len() > 0 {
        lemma_quote_run(ts);
    }
}

/// Whether the outcome of a rule in code is the one that its definition
/// gives: the same element, and as the rest of the input what follows
/// the tokens that the element covers.
pub open spec fn agrees<'a>(
    out: Option<(Tokens<'a>, Element)>,
    i: Tokens<'a>,
    rule: Option<(ElementView, nat)>,
) -> bool {
    match out {
        Some((rest, element)) => rule matches Some((e, n)) && element@ == e && 0 < n <= i.v@.len()
            && rest.v@ == i.v@.skip(n as int),
        None => rule is None,
    }
}

/// An element is flat where it is no paragraph, or a paragraph none of
/// whose children is a paragraph.
pub open spec fn is_flat(e: ElementView) -> bool {
    e matches ElementView::Text { elements } ==> forall|k: int|
        0 <= k < elements.len() ==> !(#[trigger] elements[k] is Text)
}

/// No inline element is a paragraph.
pub proof fn lemma_inline_run_flat(ts: Seq<TokenView>, k: int)
    requires
        0 <= k < inline_run(ts).0.len(),
    ensures
        !(inline_run(ts).0[k] is Text),
    decreases ts.len(),
{
    match inline_rule(ts) {
        Some((element, n)) => {
            if k > 0 {
                lemma_inline_run_flat(ts.skip(n as int), k - 1);
            }
        },
        None => {},
    }
}

/// Paragraphs do not nest: every element of a parsed document is flat.
pub proof fn lemma_elements_flat(ts: Seq<TokenView>, k: int)
    requires
        0 <= k < elements_of(ts).len(),
    ensures
        is_flat(elements_of(ts)[k]),
    decreases ts.len(),
{
    lemma_block_advances(ts);
    match block_rule(ts) {
        Some((element, n)) => {
            if k == 0 {
                if element is Text {
                    let elements = element->elements;
                    assert forall|j: int| 0 <= j < elements.len() implies !(
                    #[trigger] elements[j] is Text) by {
                        lemma_inline_run_flat(ts, j);
                    }
                }
            } else {
                lemma_elements_flat(ts.skip(n as int), k - 1);
            }
        },
        None => {
            lemma_elements_flat(ts.skip(1), k);
        },
    }
}

/// A heading element has the level of the heading token that it was made
/// of: every heading level in a parsed document is the level of some
/// heading token.
pub proof fn lemma_heading_levels(ts: Seq<TokenView>, k: int)
    requires
        0 <= k < elements_of(ts).len(),
        elements_of(ts)[k] is Heading,
    ensures
        exists|j: int|
            0 <= j < ts.len() && #[trigger] ts[j] is Heading && ts[j]->level == elements_of(
                ts,
            )[k]->level,
    decreases ts.len(),
{
    lemma_block_advances(ts);
    match block_rule(ts) {
        Some((element, n)) => {
            if k == 0 {
                assert(ts[0] is Heading);
            } else {
                let rest = ts.skip(n as int);
                lemma_heading_levels(rest, k - 1);
                let j = choose|j: int|
                    0 <= j < rest.len() && #[trigger] rest[j] is Heading && rest[j]->level
                        == elements_of(rest)[k - 1]->level;
                assert(ts[j + n] == rest[j]);
            }
        },
        None => {
            let rest = ts.skip(1);
            lemma_heading_levels(rest, k);
            let j = choose|j: int|
                0 <= j < rest.len() && #[trigger] rest[j] is Heading && rest[j]->level
                    == elements_of(rest)[k]->level;
            assert(ts[j + 1] == rest[j]);
        },
    }
}

/// The tokens that a run of inline elements covers are text tokens and
/// markers.
pub proof fn lemma_inline_run_tokens(ts: Seq<TokenView>, d: int)
    requires
        0 <= d < inline_run(ts).1,
    ensures
        d < ts.len(),
        ts[d] is Text || is_marker(ts[d]),
    decreases ts.len(),
{
    lemma_inline_run(ts);
    match inline_rule(ts) {
        Some((element, n)) => {
            if d >= n {
                let rest = ts.skip(n as int);
                lemma_inline_run_tokens(rest, d - n);
                assert(rest[d - n] == ts[d]);
            }
        },
        None => {},
    }
}

/// The tokens that a run of quoted lines covers are blockquote markers,
/// text tokens and line ends.
pub proof fn lemma_quote_run_tokens(ts: Seq<TokenView>, d: int)
    requires
        ts.len() > 0,
        ts[0] is Blockquote,
        0 <= d < quote_run(ts).1,
    ensures
        d < ts.len(),
        ts[d] is Blockquote || ts[d] is Text || ts[d] is EndLine,
    decreases ts.len(),
{
    lemma_quote_run(ts);
    let (text, n) = marked_text(ts);
    if n + 1 < ts.len() && ts[n as int] is EndLine && ts[n as int + 1] is Blockquote {
        if d > n {
            let rest = ts.skip(n as int + 1);
            lemma_quote_run_tokens(rest, d - n - 1);
            assert(rest[d - n - 1] == ts[d]);
        }
    }
}

/// No divider is lost: where a token sequence holds a divider token, its
/// elements hold a divider.
pub proof fn lemma_divider_kept(ts: Seq<TokenView>, d: int)
    requires
        0 <= d < ts.len(),
        ts[d] is Divider,
    ensures
        exists|k: int| 0 <= k < elements_of(ts).len() && #[trigger] elements_of(ts)[k] is Divider,
    decreases ts.len(),
{
    lemma_block_advances(ts);
    match block_rule(ts) {
        Some((element, n)) => {
            if d < n {
                if heading_rule(ts) is Some {
                } else if divider_rule(ts) is Some {
                } else if blockquote_rule(ts) is Some {
                    lemma_quote_run_tokens(ts, d);
                } else {
                    if d < inline_run(ts).1 {
                        lemma_inline_run_tokens(ts, d);
                    }
                }
                assert(element is Divider);
                assert(elements_of(ts)[0] is Divider);
            } else {
                let rest = ts.skip(n as int);
                assert(rest[d - n] == ts[d]);
                lemma_divider_kept(rest, d - n);
                let k = choose|k: int|
                    0 <= k < elements_of(rest).len() && #[trigger] elements_of(rest)[k] is Divider;
                assert(elements_of(ts)[k + 1] == elements_of(rest)[k]);
            }
        },
        None => {
            lemma_inline_run(ts);
            let rest = ts.skip(1);
            assert(rest[d - 1] == ts[d]);
            lemma_divider_kept(rest, d - 1);
            let k = choose|k: int|
                0 <= k < elements_of(rest).len() && #[trigger] elements_of(rest)[k] is Divider;
            assert(elements_of(ts)[k] is Divider);
        },
    }
}

/// No heading is lost: a heading token gives a heading element of its
/// level, whose text is the text token that follows the heading token
/// directly, or nothing where none does.
pub proof fn lemma_heading_kept(ts: Seq<TokenView>, d: int)
    requires
        0 <= d < ts.len(),
        ts[d] is Heading,
    ensures
        exists|k: int|
            0 <= k < elements_of(ts).len() && #[trigger] elements_of(ts)[k]
                == (ElementView::Heading {
                level: ts[d]->level,
                text: marked_text(ts.skip(d)).0,
            }),
    decreases ts.len(),
{
    lemma_block_advances(ts);
    let wanted = ElementView::Heading { level: ts[d]->level, text: marked_text(ts.skip(d)).0 };
    match block_rule(ts) {
        Some((element, n)) => {
            if d < n {
                if heading_rule(ts) is Some {
                    assert(d == 0);
                    assert(ts.skip(0) == ts);
                } else if divider_rule(ts) is Some {
                } else if blockquote_rule(ts) is Some {
                    lemma_quote_run_tokens(ts, d);
                } else {
                    if d < inline_run(ts).1 {
                        lemma_inline_run_tokens(ts, d);
                    }
                }
                assert(elements_of(ts)[0] == wanted);
            } else {
                let rest = ts.skip(n as int);
                assert(rest[d - n] == ts[d]);
                assert(rest.skip(d - n) == ts.skip(d));
                lemma_heading_kept(rest, d - n);
                let k = choose|k: int|
                    0 <= k < elements_of(rest).len() && #[trigger] elements_of(rest)[k] == wanted;
                assert(elements_of(ts)[k + 1] == elements_of(rest)[k]);
            }
        },
        None => {
            lemma_inline_run(ts);
            let rest = ts.skip(1);
            assert(rest[d - 1] == ts[d]);
            assert(rest.skip(d - 1) == ts.skip(d));
            lemma_heading_kept(rest, d - 1);
            let k = choose|k: int|
                0 <= k < elements_of(rest).len() && #[trigger] elements_of(rest)[k] == wanted;
            assert(elements_of(ts)[k] == wanted);
        },
    }
}

/// A marker at the head of the input never stops the reduction. Where a
/// text token and the same marker follow it, the three make one styled
/// element; else the marker alone is read as the text that spells it.
pub proof fn lemma_marker_reduces(ts: Seq<TokenView>)
    requires
        ts.len() > 0,
        is_marker(ts[0]),
    ensures
        inline_rule(ts) == if ts.len() >= 3 && ts[1] is Text && ts[2] == ts[0] {
            Some((styled(ts[0], ts[1]->text), 3nat))
        } else {
            Some((ElementView::PlainText { text: spelling(ts[0]) }, 1nat))
        },
{
}

/// The tokens of quoted lines: for each line a blockquote marker, the
/// line as a text token, and a line end.
pub open spec fn quoted_lines(lines: Seq<Seq<char>>) -> Seq<TokenView>
    decreases lines.len(),
{
    if lines.len() == 0 {
        Seq::empty()
    } else {
        seq![TokenView::Blockquote, TokenView::Text { text: lines[0] }, TokenView::EndLine]
            + quoted_lines(lines.drop_first())
    }
}

/// The lines, each trimmed, with a newline between one and the next.
pub open spec fn joined(lines: Seq<Seq<char>>) -> Seq<char>
    decreases lines.len(),
{
    if lines.len() == 0 {
        Seq::empty()
    } else if lines.len() == 1 {
        trim(lines[0])
    } else {
        trim(lines[0]) + "\n"@ + joined(lines.drop_first())
    }
}

/// Quoted lines that follow one another make one blockquote, which holds
/// every line, trimmed, and a newline between one and the next.
pub proof fn lemma_quoted_lines(lines: Seq<Seq<char>>)
    requires
        lines.len() > 0,
    ensures
        elements_of(quoted_lines(lines)) == seq![ElementView::Blockquote { text: joined(lines) }],
{
    let ts = quoted_lines(lines);
    lemma_quoted_run(lines);
    let rest = ts.skip(ts.len() as int);
    assert(rest.len() == 0);
    assert(heading_rule(ts) is None && divider_rule(ts) is None);
    assert(block_rule(ts) == Some((ElementView::Blockquote { text: joined(lines) }, ts.len())));
    assert(elements_of(rest) == Seq::<ElementView>::empty());
    assert(elements_of(ts) == seq![ElementView::Blockquote { text: joined(lines) }] + elements_of(
        rest,
    ));
}

proof fn lemma_quoted_run(lines: Seq<Seq<char>>)
    requires
        lines.len() > 0,
    ensures
        quoted_lines(lines).len() == 3 * lines.len(),
        quoted_lines(lines)[0] is Blockquote,
        quote_run(quoted_lines(lines)) == (joined(lines), quoted_lines(lines).len()),
    decreases lines.len(),
{
    let ts = quoted_lines(lines);
    let rest = quoted_lines(lines.drop_first());
    assert(ts.skip(3) == rest);
    if lines.len() == 1 {
        assert(rest.len() == 0);
    } else {
        lemma_quoted_run(lines.drop_first());
        assert(ts[3] == rest[0]);
    }
}

proof fn lemma_views_skip(tokens: Seq<Token>, n: int)
    requires
        0 <= n <= tokens.len(),
    ensures
        token_views(tokens.skip(n)) == token_views(tokens).skip(n),
{
}

/// Reads one token of the given kind as plain text that holds its
/// spelling.
fn one<'a>(i: Tokens<'a>, kind: &Token, written: &str) -> (out: Option<(Tokens<'a>, Element)>)
    requires
        !(kind is Text) && !(kind is Heading),
        written@ == spelling(kind@),
    ensures
        agrees(out, i, single(i@, kind@)),
{
    match take(1, i) {
        None => None,
        Some((rest, head)) => {
            assert(head.v@[0] == i.v@[0]);
            if same_kind(&head.v[0], kind) {
                Some((rest, Element::PlainText { text: String::from_str(written) }))
            } else {
                None
            }
        },
    }
}

fn same_kind(a: &Token, b: &Token) -> (out: bool)
    requires
        !(b is Text) && !(b is Heading),
    ensures
        out == (a@ == b@),
{
    match (a, b) {
        (Token::Divider, Token::Divider) => true,
        (Token::Blockquote, Token::Blockquote) => true,
        (Token::Bold, Token::Bold) => true,
        (Token::Italics, Token::Italics) => true,
        (Token::InlineCode, Token::InlineCode) => true,
        (Token::EndLine, Token::EndLine) => true,
        _ => false,
    }
}

/// A line end.
pub fn is_endline<'a>(i: Tokens<'a>) -> (out: Option<(Tokens<'a>, Element)>)
    ensures
        agrees(out, i, single(i@, TokenView::EndLine)),
{
    one(i, &Token::EndLine, "\n")
}

/// A bold marker, as literal text.
pub fn is_bold<'a>(i: Tokens<'a>) -> (out: Option<(Tokens<'a>, Element)>)
    ensures
        agrees(out, i, single(i@, TokenView::Bold)),
{
    one(i, &Token::Bold, "**")
}

/// An italics marker, as literal text.
pub fn is_italic<'a>(i: Tokens<'a>) -> (out: Option<(Tokens<'a>, Element)>)
    ensures
        agrees(out, i, single(i@, TokenView::Italics)),
{
    one(i, &Token::Italics, "*")
}

/// An inline code marker, as literal text.
pub fn is_inline_code<'a>(i: Tokens<'a>) -> (out: Option<(Tokens<'a>, Element)>)
    ensures
        agrees(out, i, single(i@, TokenView::InlineCode)),
{
    one(i, &Token::InlineCode, "`")
}

/// A text token, as plain text.
pub fn plain<'a>(i: Tokens<'a>) -> (out: Option<(Tokens<'a>, Element)>)
    ensures
        agrees(out, i, plain_rule(i@)),
{
    match take(1, i) {
        None => None,
        Some((rest, head)) => {
            assert(head.v@[0] == i.v@[0]);
            match &head.v[0] {
                Token::Text { text } => Some((rest, Element::PlainText { text: text.clone() })),
                _ => None,
            }
        },
    }
}

/// The text between two markers of one kind, in that kind's style.
fn pair<'a>(i: Tokens<'a>, kind: &Token, written: &str) -> (out: Option<(Tokens<'a>, Element)>)
    requires
        is_marker(kind@),
        written@ == spelling(kind@),
    ensures
        agrees(out, i, pair_rule(i@, kind@)),
{
    let after_open = match one(i, kind, written) {
        Some((rest, _)) => rest,
        None => {
            return None;
        },
    };
    let (after_text, text) = match plain(after_open) {
        Some((rest, Element::PlainText { text })) => (rest, text),
        _ => {
            return None;
        },
    };
    let after_close = match one(after_text, kind, written) {
        Some((rest, _)) => rest,
        None => {
            return None;
        },
    };
    proof {
        lemma_views_skip(i.v@, 1);
        lemma_views_skip(i.v@, 2);
        assert(after_open.v@.skip(1) == i.v@.skip(2));
        assert(after_text.v@.skip(1) == i.v@.skip(3));
    }
    let element = match kind {
        Token::Bold => Element::Bold { text },
        Token::Italics => Element::Italics { text },
        _ => Element::InlineCode { text },
    };
    Some((after_close, element))
}

/// Bold text: a text token between two bold markers.
pub fn bold<'a>(i: Tokens<'a>) -> (out: Option<(Tokens<'a>, Element)>)
    ensures
        agrees(out, i, pair_rule(i@, TokenView::Bold)),
{
    pair(i, &Token::Bold, "**")
}

/// Text in italics: a text token between two italics markers.
pub fn italic<'a>(i: Tokens<'a>) -> (out: Option<(Tokens<'a>, Element)>)
    ensures
        agrees(out, i, pair_rule(i@, TokenView::Italics)),
{
    pair(i, &Token::Italics, "*")
}

/// Inline code: a text token between two inline code markers.
pub fn inline_code<'a>(i: Tokens<'a>) -> (out: Option<(Tokens<'a>, Element)>)
    ensures
        agrees(out, i, pair_rule(i@, TokenView::InlineCode)),
{
    pair(i, &Token::InlineCode, "`")
}

/// A marker that opens no pair, as literal text.
pub fn unclosed_tags<'a>(i: Tokens<'a>) -> (out: Option<(Tokens<'a>, Element)>)
    ensures
        agrees(out, i, unclosed_rule(i@)),
{
    let mut out = is_bold(i);
    if out.is_none() {
        out = is_italic(i);
    }
    if out.is_none() {
        out = is_inline_code(i);
    }
    out
}

/// The inline element at the head of the input.
pub fn inline<'a>(i: Tokens<'a>) -> (out: Option<(Tokens<'a>, Element)>)
    ensures
        agrees(out, i, inline_rule(i@)),
{
    let mut out = plain(i);
    if out.is_none() {
        out = bold(i);
    }
    if out.is_none() {
        out = italic(i);
    }
    if out.is_none() {
        out = inline_code(i);
    }
    if out.is_none() {
        out = unclosed_tags(i);
    }
    out
}

/// Steps over the line end at the head of the input, if there is one.
fn end_line<'a>(i: Tokens<'a>) -> (rest: Tokens<'a>)
    ensures
        rest.v@ == i.v@.skip(line_end(i@, 0) as int),
{
    match is_endline(i) {
        Some((rest, _)) => rest,
        None => {
            assert(i.v@.skip(0) == i.v@);
            i
        },
    }
}

/// A paragraph: the inline elements up to the end of the line.
pub fn text<'a>(i: Tokens<'a>) -> (out: Option<(Tokens<'a>, Element)>)
    ensures
        agrees(out, i, text_rule(i@)),
{
    let mut elements: Vec<Element> = Vec::new();
    let mut rest = i;
    let ghost mut n: nat = 0;
    proof {
        assert(i.v@.skip(0) == i.v@);
    }
    loop
        invariant
            n <= i.v@.len(),
            rest.v@ == i.v@.skip(n as int),
            element_views(elements@) + inline_run(rest@).0 == inline_run(i@).0,
            n + inline_run(rest@).1 == inline_run(i@).1,
            n > 0 <==> elements@.len() > 0,
        ensures
            n <= i.v@.len(),
            rest.v@ == i.v@.skip(n as int),
            element_views(elements@) == inline_run(i@).0,
            n == inline_run(i@).1,
            n > 0 <==> elements@.len() > 0,
        decreases rest.v@.len(),
    {
        match inline(rest) {
            Some((after, element)) => {
                proof {
                    let m = inline_rule(rest@).unwrap().1;
                    lemma_views_skip(rest.v@, m as int);
                    assert(after.v@ == i.v@.skip((n + m) as int));
                    assert(element_views(elements@.push(element)) == element_views(elements@)
                        + seq![element@]);
                    assert(element_views(elements@) + seq![element@] + inline_run(after@).0
                        == element_views(elements@) + (seq![element@] + inline_run(after@).0));
                    n = n + m;
                }
                elements.push(element);
                rest = after;
            },
            None => {
                assert(element_views(elements@) + Seq::<ElementView>::empty() == element_views(
                    elements@,
                ));
                break ;
            },
        }
    }
    if elements.len() == 0 {
        None
    } else {
        let after = end_line(rest);
        proof {
            lemma_views_skip(i.v@, n as int);
            assert(after.v@ == i.v@.skip((n + line_end(i@, n)) as int));
        }
        Some((after, Element::Text { elements }))
    }
}

/// The text token that follows the marker at the head of the input
/// directly, if one does, and the input after marker and text.
fn text_after_marker<'a>(i: Tokens<'a>) -> (out: (Tokens<'a>, String))
    requires
        i.v@.len() > 0,
    ensures
        out.1@ == marked_text(i@).0,
        out.0.v@ == i.v@.skip(marked_text(i@).1 as int),
{
    let after_marker = match take(1, i) {
        Some((rest, _)) => rest,
        None => unreached(),
    };
    proof {
        lemma_views_skip(i.v@, 1);
    }
    match plain(after_marker) {
        Some((rest, Element::PlainText { text })) => {
            assert(rest.v@ == i.v@.skip(2));
            (rest, text)
        },
        _ => (after_marker, String::new()),
    }
}

/// A heading.
pub fn heading<'a>(i: Tokens<'a>) -> (out: Option<(Tokens<'a>, Element)>)
    ensures
        agrees(out, i, heading_rule(i@)),
{
    if i.input_len() == 0 {
        return None;
    }
    match &i.v[0] {
        Token::Heading { level } => {
            let (after_text, text) = text_after_marker(i);
            let rest = end_line(after_text);
            proof {
                let n = marked_text(i@).1;
                lemma_views_skip(i.v@, n as int);
                assert(rest.v@ == i.v@.skip((n + line_end(i@, n)) as int));
            }
            Some((rest, Element::Heading { level: *level, text }))
        },
        _ => None,
    }
}

/// A divider.
pub fn divider<'a>(i: Tokens<'a>) -> (out: Option<(Tokens<'a>, Element)>)
    ensures
        agrees(out, i, divider_rule(i@)),
{
    match one(i, &Token::Divider, "---") {
        Some((after, _)) => {
            let rest = end_line(after);
            proof {
                lemma_views_skip(i.v@, 1);
                assert(rest.v@ == i.v@.skip((1 + line_end(i@, 1)) as int));
            }
            Some((rest, Element::Divider))
        },
        None => None,
    }
}

fn starts_quote<'a>(i: Tokens<'a>) -> (out: bool)
    ensures
        out == (i@.len() > 0 && i@[0] is Blockquote),
{
    if i.input_len() == 0 {
        false
    } else {
        match &i.v[0] {
            Token::Blockquote => true,
            _ => false,
        }
    }
}

/// A blockquote: the quoted lines that follow one another, joined into
/// one element.
pub fn blockquote<'a>(i: Tokens<'a>) -> (out: Option<(Tokens<'a>, Element)>)
    ensures
        agrees(out, i, blockquote_rule(i@)),
{
    if !starts_quote(i) {
        return None;
    }
    let mut text = String::new();
    let mut rest = i;
    let ghost mut n: nat = 0;
    proof {
        assert(i.v@.skip(0) == i.v@);
        lemma_quote_run(i@);
    }
    loop
        invariant_except_break
            rest@.len() > 0,
            rest@[0] is Blockquote,
            text@ + quote_run(rest@).0 == quote_run(i@).0,
            n + quote_run(rest@).1 == quote_run(i@).1,
        invariant
            n <= i.v@.len(),
            rest.v@ == i.v@.skip(n as int),
            0 < quote_run(i@).1 <= i.v@.len(),
        ensures
            text@ == quote_run(i@).0,
            n == quote_run(i@).1,
        decreases rest.v@.len(),
    {
        let ghost here = rest@;
        let ghost m = marked_text(here).1;
        let ghost before = text@;
        let (after_text, line) = text_after_marker(rest);
        let line = trimmed(line.as_str());
        text.append(line.as_str());
        proof {
            lemma_views_skip(rest.v@, m as int);
            lemma_quote_run(here);
        }
        match is_endline(after_text) {
            Some((next, _)) => {
                proof {
                    lemma_views_skip(after_text.v@, 1);
                    assert(next.v@ == rest.v@.skip(m as int + 1));
                    lemma_views_skip(rest.v@, m as int + 1);
                    assert(next.v@ == i.v@.skip((n + m + 1) as int));
                }
                if starts_quote(next) {
                    text.append("\n");
                    proof {
                        assert(text@ + quote_run(next@).0 == before + (line@ + "\n"@ + quote_run(
                            next@,
                        ).0));
                        n = n + m + 1;
                    }
                    rest = next;
                } else {
                    proof {
                        n = n + m + 1;
                    }
                    rest = next;
                    break ;
                }
            },
            None => {
                proof {
                    assert(after_text.v@ == i.v@.skip((n + m) as int));
                    n = n + m;
                }
                rest = after_text;
                break ;
            },
        }
    }
    Some((rest, Element::Blockquote { text }))
}

/// The block at the head of the input.
pub fn block<'a>(i: Tokens<'a>) -> (out: Option<(Tokens<'a>, Element)>)
    ensures
        agrees(out, i, block_rule(i@)),
{
    let mut out = heading(i);
    if out.is_none() {
        out = divider(i);
    }
    if out.is_none() {
        out = blockquote(i);
    }
    if out.is_none() {
        out = text(i);
    }
    out
}

/// Parses the token stream into elements.
pub fn parse(tokens: Vec<Token>) -> (elems: Vec<Element>)
    ensures
        element_views(elems@) == elements_of(token_views(tokens@)),
        forall|k: int| 0 <= k < elems@.len() ==> is_flat(#[trigger] elems@[k]@),
{
    let mut elems: Vec<Element> = Vec::new();
    let mut rest = Tokens { v: tokens.as_slice() };
    while rest.input_len() > 0
        invariant
            element_views(elems@) + elements_of(rest@) == elements_of(token_views(tokens@)),
        decreases rest.v@.len(),
    {
        match block(rest) {
            Some((after, element)) => {
                proof {
                    let n = block_rule(rest@).unwrap().1;
                    lemma_views_skip(rest.v@, n as int);
                    assert(element_views(elems@.push(element)) == element_views(elems@) + seq![
                        element@,
                    ]);
                    assert(element_views(elems@) + seq![element@] + elements_of(after@)
                        == element_views(elems@) + (seq![element@] + elements_of(after@)));
                }
                elems.push(element);
                rest = after;
            },
            None => {
                proof {
                    lemma_views_skip(rest.v@, 1);
                }
                rest = match take(1, rest) {
                    Some((after, _)) => after,
                    None => rest,
                };
            },
        }
    }
    proof {
        assert(element_views(elems@) + Seq::<ElementView>::empty() == element_views(elems@));
        assert forall|k: int| 0 <= k < elems@.len() implies is_flat(#[trigger] elems@[k]@) by {
            lemma_elements_flat(token_views(tokens@), k);
            assert(element_views(elems@)[k] == elems@[k]@);
        }
    }
    elems
}

} // verus!
