use markdown_html::generator::generate;
use markdown_html::generator::push_decimal;
use markdown_html::Element;

fn plain(s: &str) -> Element {
    Element::PlainText { text: s.to_owned() }
}

#[test]
fn generate_nothing() {
    assert_eq!(generate(vec![]), "");
}

#[test]
fn generate_each_variant() {
    assert_eq!(generate(vec![Element::Divider]), "<hr />");
    assert_eq!(generate(vec![plain("t")]), "t");
    assert_eq!(
        generate(vec![Element::Bold { text: "t".to_owned() }]),
        "<b>t</b>"
    );
    assert_eq!(
        generate(vec![Element::Italics { text: "t".to_owned() }]),
        "<i>t</i>"
    );
    assert_eq!(
        generate(vec![Element::InlineCode { text: "t".to_owned() }]),
        "<code>t</code>"
    );
    assert_eq!(
        generate(vec![Element::Blockquote { text: "t".to_owned() }]),
        "<blockquote>t</blockquote>"
    );
    assert_eq!(
        generate(vec![Element::Heading { level: 2, text: "t".to_owned() }]),
        "<h2>t</h2>"
    );
    assert_eq!(
        generate(vec![Element::Text { elements: vec![plain("a"), plain("b")] }]),
        "<p>ab</p><br>"
    );
    assert_eq!(
        generate(vec![Element::Text { elements: vec![] }]),
        "<p></p><br>"
    );
}

#[test]
fn generate_keeps_order() {
    let html = generate(vec![
        Element::Heading { level: 1, text: "Big heading".to_owned() },
        Element::Text { elements: vec![plain("Hello!")] },
        Element::Divider,
        Element::Text {
            elements: vec![
                plain("a "),
                Element::Bold { text: "b".to_owned() },
                plain(" c "),
                Element::Italics { text: "d".to_owned() },
                Element::InlineCode { text: "e".to_owned() },
            ],
        },
        Element::Divider,
    ]);
    assert_eq!(
        html,
        "<h1>Big heading</h1><p>Hello!</p><br><hr /><p>a <b>b</b> c <i>d</i><code>e</code></p><br><hr />"
    );
}

#[test]
fn generate_heading_levels_in_decimal() {
    assert_eq!(
        generate(vec![Element::Heading { level: 0, text: "z".to_owned() }]),
        "<h0>z</h0>"
    );
    assert_eq!(
        generate(vec![Element::Heading { level: 10, text: "x".to_owned() }]),
        "<h10>x</h10>"
    );
    assert_eq!(
        generate(vec![Element::Heading { level: 1234567890, text: String::new() }]),
        "<h1234567890></h1234567890>"
    );
}

#[test]
fn generate_nested_paragraphs() {
    let inner = Element::Text { elements: vec![plain("x")] };
    let outer = Element::Text { elements: vec![inner, Element::Divider] };
    assert_eq!(generate(vec![outer]), "<p><p>x</p><br><hr /></p><br>");
}

#[test]
fn generate_does_not_escape() {
    assert_eq!(
        generate(vec![plain("<script>alert(1)</script> & \"q\"")]),
        "<script>alert(1)</script> & \"q\""
    );
    assert_eq!(
        generate(vec![Element::Bold { text: "</b><i>".to_owned() }]),
        "<b></b><i></b>"
    );
}

#[test]
fn generate_twice_gives_the_same() {
    let elements = vec![
        Element::Heading { level: 3, text: "h".to_owned() },
        Element::Text { elements: vec![plain("p"), Element::Bold { text: "b".to_owned() }] },
        Element::Blockquote { text: "q\nr".to_owned() },
    ];
    let first = generate(elements.clone());
    let second = generate(elements);
    assert_eq!(first, second);
    assert_eq!(first, "<h3>h</h3><p>p<b>b</b></p><br><blockquote>q\nr</blockquote>");
}

#[test]
fn gen_renders_one_element() {
    assert_eq!(Element::Divider.gen(), "<hr />");
    assert_eq!(
        Element::Text { elements: vec![plain("a")] }.gen(),
        "<p>a</p><br>"
    );
}

#[test]
fn element_clone_is_equal() {
    let e = Element::Text {
        elements: vec![plain("a"), Element::Heading { level: 2, text: "h".to_owned() }],
    };
    assert_eq!(e.clone(), e);
}

#[test]
fn push_decimal_appends_the_numeral() {
    let mut s = String::from("n=");
    push_decimal(&mut s, 0);
    assert_eq!(s, "n=0");
    push_decimal(&mut s, 907);
    assert_eq!(s, "n=0907");
    let mut s = String::new();
    push_decimal(&mut s, usize::MAX);
    assert_eq!(s, usize::MAX.to_string());
}
