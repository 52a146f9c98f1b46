//! Rendering of the document tree as HTML.

use crate::element_views;
use crate::Element;
use crate::ElementView;
use vstd::prelude::*;
use vstd::string::StringExecFns;

verus! {

/// The decimal digit `d`, for `d` below ten.
pub open spec fn digit(d: nat) -> Seq<char> {
    if d == 0 {
        "0"@
    } else if d == 1 {
        "1"@
    } else if d == 2 {
        "2"@
    } else if d == 3 {
        "3"@
    } else if d == 4 {
        "4"@
    } else if d == 5 {
        "5"@
    } else if d == 6 {
        "6"@
    } else if d == 7 {
        "7"@
    } else if d == 8 {
        "8"@
    } else {
        "9"@
    }
}

/// The decimal numeral of `n`, without leading zeros.
pub open spec fn decimal(n: nat) -> Seq<char>
    decreases n,
{
    if n < 10 {
        digit(n)
    } else {
        decimal(n / 10) + digit(n % 10)
    }
}

/// The HTML of one element.
pub open spec fn html(e: ElementView) -> Seq<char>
    decreases e,
{
    match e {
        ElementView::Text { elements } => "<p>"@ + html_of(elements) + "</p><br>"@,
        ElementView::Divider => "<hr />"@,
        ElementView::PlainText { text } => text,
        ElementView::Bold { text } => "<b>"@ + text + "</b>"@,
        ElementView::Italics { text } => "<i>"@ + text + "</i>"@,
        ElementView::InlineCode { text } => "<code>"@ + text + "</code>"@,
        ElementView::Blockquote { text } => "<blockquote>"@ + text + "</blockquote>"@,
        ElementView::Heading { level, text } => "<h"@ + decimal(level) + ">"@ + text + "</h"@
            + decimal(level) + ">"@,
    }
}

/// The HTML of a sequence of elements: the HTML of each, in order, with
/// nothing between them.
pub open spec fn html_of(elements: Seq<ElementView>) -> Seq<char>
    decreases elements,
{
    if elements.len() == 0 {
        Seq::empty()
    } else {
        html_of(elements.drop_last()) + html(elements.last())
    }
}

/// The HTML of a document follows the order of its elements: the HTML of
/// two documents put together is the HTML of the first, then that of the
/// second.
pub proof fn lemma_html_of_concat(first: Seq<ElementView>, second: Seq<ElementView>)
    ensures
        html_of(first + second) == html_of(first) + html_of(second),
    decreases second.len(),
{
    if second.len() == 0 {
        assert(first + second == first);
    } else {
        lemma_html_of_concat(first, second.drop_last());
        assert((first + second).drop_last() == first + second.drop_last());
    }
}

/// Whether `part` stands somewhere in `whole`, as one piece.
pub open spec fn occurs_in(part: Seq<char>, whole: Seq<char>) -> bool {
    exists|at: int|
        0 <= at && at + part.len() <= whole.len() && #[trigger] whole.subrange(
            at,
            at + part.len(),
        ) == part
}

/// The HTML of a document holds the HTML of each of its elements.
pub proof fn lemma_html_of_holds_each(elements: Seq<ElementView>, k: int)
    requires
        0 <= k < elements.len(),
    ensures
        occurs_in(html(elements[k]), html_of(elements)),
    decreases elements.len(),
{
    let whole = html_of(elements);
    let front = html_of(elements.drop_last());
    let part = html(elements[k]);
    if k == elements.len() - 1 {
        assert(whole.subrange(front.len() as int, front.len() as int + part.len()) == part);
    } else {
        lemma_html_of_holds_each(elements.drop_last(), k);
        let at = choose|at: int|
            0 <= at && at + part.len() <= front.len() && #[trigger] front.subrange(
                at,
                at + part.len(),
            ) == part;
        assert(whole.subrange(at, at + part.len()) == front.subrange(at, at + part.len()));
    }
}

/// Generation is a function of the elements' values: equal documents have
/// equal HTML, however often it is generated.
pub proof fn lemma_generate_repeats(first: Seq<Element>, second: Seq<Element>)
    requires
        element_views(first) == element_views(second),
    ensures
        html_of(element_views(first)) == html_of(element_views(second)),
{
}

fn digit_str(d: usize) -> (out: &'static str)
    requires
        d < 10,
    ensures
        out@ == digit(d as nat),
{
    if d == 0 {
        "0"
    } else if d == 1 {
        "1"
    } else if d == 2 {
        "2"
    } else if d == 3 {
        "3"
    } else if d == 4 {
        "4"
    } else if d == 5 {
        "5"
    } else if d == 6 {
        "6"
    } else if d == 7 {
        "7"
    } else if d == 8 {
        "8"
    } else {
        "9"
    }
}

/// Appends the decimal numeral of `n` to `out`.
pub fn push_decimal(out: &mut String, n: usize)
    ensures
        final(out)@ == old(out)@ + decimal(n as nat),
    decreases n,
{
    if n >= 10 {
        push_decimal(out, n / 10);
    }
    out.append(digit_str(n % 10));
}

impl Element {
    /// Renders this element, and its children where it has any.
    pub fn gen(&self) -> (out: String)
        ensures
            out@ == html(self@),
        decreases self,
    {
        match self {
            Element::Text { elements } => {
                let mut out = String::from_str("<p>");
                let mut i: usize = 0;
                while i < elements.len()
                    invariant
                        *self is Text,
                        self->elements == *elements,
                        i <= elements.len(),
                        out@ == "<p>"@ + html_of(element_views(elements@).take(i as int)),
                    decreases elements.len() - i,
                {
                    let child = elements[i].gen();
                    proof {
                        let all = element_views(elements@);
                        assert(all.take(i + 1).drop_last() == all.take(i as int));
                    }
                    out.append(child.as_str());
                    i += 1;
                }
                proof {
                    let all = element_views(elements@);
                    assert(all.take(i as int) == all);
                }
                out.append("</p><br>");
                out
            },
            Element::Divider => String::from_str("<hr />"),
            Element::PlainText { text } => text.clone(),
            Element::Bold { text } => {
                let mut out = String::from_str("<b>");
                out.append(text.as_str());
                out.append("</b>");
                out
            },
            Element::Italics { text } => {
                let mut out = String::from_str("<i>");
                out.append(text.as_str());
                out.append("</i>");
                out
            },
            Element::InlineCode { text } => {
                let mut out = String::from_str("<code>");
                out.append(text.as_str());
                out.append("</code>");
                out
            },
            Element::Blockquote { text } => {
                let mut out = String::from_str("<blockquote>");
                out.append(text.as_str());
                out.append("</blockquote>");
                out
            },
            Element::Heading { level, text } => {
                let mut out = String::from_str("<h");
                push_decimal(&mut out, *level);
                out.append(">");
                out.append(text.as_str());
                out.append("</h");
                push_decimal(&mut out, *level);
                out.append(">");
                out
            },
        }
    }
}

/// Generates the HTML of a document: the HTML of each element, in order.
pub fn generate(elems: Vec<Element>) -> (out: String)
    ensures
        out@ == html_of(element_views(elems@)),
{
    let mut out = String::new();
    let mut i: usize = 0;
    while i < elems.len()
        invariant
            i <= elems.len(),
            out@ == html_of(element_views(elems@).take(i as int)),
        decreases elems.len() - i,
    {
        let piece = elems[i].gen();
        proof {
            let all = element_views(elems@);
            assert(all.take(i + 1).drop_last() == all.take(i as int));
        }
        out.append(piece.as_str());
        i += 1;
    }
    proof {
        let all = element_views(elems@);
        assert(all.take(i as int) == all);
    }
    out
}

} // verus!
