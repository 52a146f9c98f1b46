//! What holds of the conversion as a whole.

use crate::convert;
use crate::generator;
use crate::lexer;
use crate::parser;
use crate::ElementView;
use crate::TokenView;
use vstd::prelude::*;

verus! {

/// A line that is exactly `---` gives a divider: the HTML of a source
/// without carriage returns that holds such a line holds `<hr />`.
pub proof fn lemma_divider_line(s: Seq<char>, at: int)
    requires
        !s.contains('\r'),
        lexer::divider_line(s, at),
    ensures
        generator::occurs_in("<hr />"@, convert(s)),
{
    let tokens = lexer::lex(s);
    lexer::lemma_divider_line_token(s, at);
    let n = choose|n: int| 0 <= n < tokens.len() && #[trigger] tokens[n] is Divider;
    parser::lemma_divider_kept(tokens, n);
    let elements = parser::elements_of(tokens);
    let k = choose|k: int| 0 <= k < elements.len() && #[trigger] elements[k] is Divider;
    generator::lemma_html_of_holds_each(elements, k);
}

/// A heading line gives a heading: the HTML of a source without carriage
/// returns that holds a heading line of some level and text holds
/// `<hN>text</hN>`, with that level for `N`.
pub proof fn lemma_heading_line(s: Seq<char>, at: int, level: nat, text: Seq<char>)
    requires
        !s.contains('\r'),
        lexer::heading_line(s, at, level, text),
    ensures
        generator::occurs_in(
            "<h"@ + generator::decimal(level) + ">"@ + text + "</h"@ + generator::decimal(level)
                + ">"@,
            convert(s),
        ),
{
    let tokens = lexer::lex(s);
    lexer::lemma_heading_line_tokens(s, at, level, text);
    let n = choose|n: int|
        0 <= n && n + 1 < tokens.len() && #[trigger] tokens[n] == (TokenView::Heading { level })
            && tokens[n + 1] == (TokenView::Text { text });
    parser::lemma_heading_kept(tokens, n);
    let elements = parser::elements_of(tokens);
    let wanted = ElementView::Heading { level, text };
    assert(tokens.skip(n)[1] == tokens[n + 1]);
    assert(parser::marked_text(tokens.skip(n)) == (text, 2nat));
    let k = choose|k: int| 0 <= k < elements.len() && #[trigger] elements[k] == wanted;
    generator::lemma_html_of_holds_each(elements, k);
}

/// The level of every heading of a converted document is at least one:
/// it is the length of a run of `#` in the source.
pub proof fn lemma_heading_levels(s: Seq<char>, k: int)
    requires
        0 <= k < parser::elements_of(lexer::lex(s)).len(),
    ensures
        parser::elements_of(lexer::lex(s))[k] matches ElementView::Heading { level, .. } ==> level
            >= 1,
{
    let tokens = lexer::lex(s);
    if parser::elements_of(tokens)[k] is Heading {
        parser::lemma_heading_levels(tokens, k);
        let j = choose|j: int|
            0 <= j < tokens.len() && #[trigger] tokens[j] is Heading && tokens[j]->level
                == parser::elements_of(tokens)[k]->level;
        lexer::lemma_heading_levels(s, 0, j);
    }
}

} // verus!
