//! Conversion of a small Markdown dialect to HTML.
//!
//! The work is done in three stages, each a function of its input alone:
//! the [`lexer`] scans the source text into [`Token`]s, the [`parser`]
//! reduces the tokens to [`Element`]s, and the [`generator`] renders the
//! elements as HTML. [`parse`] runs the three in turn.
//!
//! The dialect knows headings (`#`), dividers (`---`), blockquotes (`>`),
//! bold (`**`), italics (`*`) and inline code (a backtick). Inline styles
//! do not nest, and text is not escaped.

use vstd::prelude::*;

pub mod chars;
pub mod generator;
pub mod laws;
pub mod lexer;
pub mod parser;

verus! {

/// A lexical unit of the Markdown source.
#[derive(Debug, PartialEq, Eq)]
pub enum Token {
    Heading { level: usize },
    Divider,
    Blockquote,
    Bold,
    Italics,
    InlineCode,
    Text { text: String },
    EndLine,
}

/// The mathematical value of a [`Token`].
pub ghost enum TokenView {
    Heading { level: nat },
    Divider,
    Blockquote,
    Bold,
    Italics,
    InlineCode,
    Text { text: Seq<char> },
    EndLine,
}

impl View for Token {
    type V = TokenView;

    open spec fn view(&self) -> TokenView {
        match *self {
            Token::Heading { level } => TokenView::Heading { level: level as nat },
            Token::Divider => TokenView::Divider,
            Token::Blockquote => TokenView::Blockquote,
            Token::Bold => TokenView::Bold,
            Token::Italics => TokenView::Italics,
            Token::InlineCode => TokenView::InlineCode,
            Token::Text { text } => TokenView::Text { text: text@ },
            Token::EndLine => TokenView::EndLine,
        }
    }
}

impl Clone for Token {
    fn clone(&self) -> (out: Token)
        ensures
            out@ == self@,
    {
        match self {
            Token::Heading { level } => Token::Heading { level: *level },
            Token::Divider => Token::Divider,
            Token::Blockquote => Token::Blockquote,
            Token::Bold => Token::Bold,
            Token::Italics => Token::Italics,
            Token::InlineCode => Token::InlineCode,
            Token::Text { text } => Token::Text { text: text.clone() },
            Token::EndLine => Token::EndLine,
        }
    }
}

/// A node of the document tree.
#[derive(Debug, PartialEq, Eq)]
pub enum Element {
    Heading { level: usize, text: String },
    Divider,
    Blockquote { text: String },
    Bold { text: String },
    Italics { text: String },
    PlainText { text: String },
    InlineCode { text: String },
    Text { elements: Vec<Element> },
}

/// The mathematical value of an [`Element`].
pub ghost enum ElementView {
    Heading { level: nat, text: Seq<char> },
    Divider,
    Blockquote { text: Seq<char> },
    Bold { text: Seq<char> },
    Italics { text: Seq<char> },
    PlainText { text: Seq<char> },
    InlineCode { text: Seq<char> },
    Text { elements: Seq<ElementView> },
}

impl View for Element {
    type V = ElementView;

    open spec fn view(&self) -> ElementView
        decreases self,
    {
        match self {
            Element::Heading { level, text } => ElementView::Heading { level: *level as nat, text: text@ },
            Element::Divider => ElementView::Divider,
            Element::Blockquote { text } => ElementView::Blockquote { text: text@ },
            Element::Bold { text } => ElementView::Bold { text: text@ },
            Element::Italics { text } => ElementView::Italics { text: text@ },
            Element::PlainText { text } => ElementView::PlainText { text: text@ },
            Element::InlineCode { text } => ElementView::InlineCode { text: text@ },
            Element::Text { elements } => ElementView::Text { elements: element_views(elements@) },
        }
    }
}

/// The values of a sequence of elements, in the same order.
pub open spec fn element_views(elements: Seq<Element>) -> Seq<ElementView>
    decreases elements,
{
    Seq::new(
        elements.len(),
        |i: int|
            if 0 <= i < elements.len() {
                elements[i].view()
            } else {
                ElementView::Divider
            },
    )
}

impl Clone for Element {
    fn clone(&self) -> (out: Element)
        ensures
            out@ == self@,
        decreases self,
    {
        match self {
            Element::Heading { level, text } => Element::Heading { level: *level, text: text.clone() },
            Element::Divider => Element::Divider,
            Element::Blockquote { text } => Element::Blockquote { text: text.clone() },
            Element::Bold { text } => Element::Bold { text: text.clone() },
            Element::Italics { text } => Element::Italics { text: text.clone() },
            Element::PlainText { text } => Element::PlainText { text: text.clone() },
            Element::InlineCode { text } => Element::InlineCode { text: text.clone() },
            Element::Text { elements } => {
                let mut copy: Vec<Element> = Vec::new();
                let mut i: usize = 0;
                while i < elements.len()
                    invariant
                        *self is Text,
                        self->elements == *elements,
                        i <= elements.len(),
                        copy.len() == i,
                        forall|k: int| 0 <= k < i ==> copy@[k]@ == elements@[k]@,
                    decreases elements.len() - i,
                {
                    copy.push(elements[i].clone());
                    i += 1;
                }
                let out = Element::Text { elements: copy };
                assert(out@->elements =~= self@->elements);
                out
            },
        }
    }
}

/// The HTML of a Markdown source text: its tokens, reduced to elements,
/// rendered in order.
pub open spec fn convert(markdown: Seq<char>) -> Seq<char> {
    generator::html_of(parser::elements_of(lexer::lex(markdown)))
}

/// Converts Markdown to HTML.
///
/// The source must hold no carriage return: the lexer has no rule that
/// consumes one. Every other text is converted.
pub fn parse(markdown: String) -> (html: String)
    requires
        !markdown@.contains('\r'),
    ensures
        html@ == convert(markdown@),
{
    let tokens = lexer::parse(markdown);
    let tree = parser::parse(tokens);
    generator::generate(tree)
}

} // verus!
