use saba_core::dom::{
    create_element, create_text, Attribute, ElementKind, NodeKind, Window,
};
use saba_core::parser::{HtmlParser, InsertionMode};
use saba_core::token::HtmlTokenizer;

fn parse(html: &str) -> Window {
    let mut parser = HtmlParser::new(HtmlTokenizer::new(html.to_string()));
    parser.construction_tree()
}

fn children(w: &Window, id: usize) -> Vec<usize> {
    let mut out = Vec::new();
    let mut next = w.node(id).first_child();
    while let Some(c) = next {
        out.push(c);
        next = w.node(c).next_sibling();
    }
    out
}

fn outline(w: &Window, id: usize) -> String {
    let node = w.node(id);
    let mut inner = String::new();
    for c in children(w, id) {
        if !inner.is_empty() {
            inner.push(',');
        }
        inner.push_str(&outline(w, c));
    }
    match node.kind() {
        NodeKind::Document => format!("Document[{}]", inner),
        NodeKind::Element(e) => {
            let mut attrs = String::new();
            for a in e.attributes() {
                attrs.push_str(&format!(" {}={:?}", a.name(), a.value()));
            }
            format!("{:?}{}[{}]", e.kind(), attrs, inner)
        }
        NodeKind::Text(s) => format!("{:?}", s),
    }
}

fn assert_tree(w: &Window) {
    assert!(w.len() >= 1);
    assert!(matches!(w.node(0).kind(), NodeKind::Document));
    assert_eq!(w.node(0).parent(), None);
    let mut seen = vec![0usize; w.len()];
    let mut queue = vec![0usize];
    let mut at = 0;
    while at < queue.len() {
        let id = queue[at];
        at += 1;
        seen[id] += 1;
        for c in children(w, id) {
            assert_eq!(w.node(c).parent(), Some(id));
            queue.push(c);
        }
        assert_eq!(&children(w, id), w.node(id).children());
        assert_eq!(w.node(id).last_child(), children(w, id).last().copied());
        assert_eq!(w.last_child(id), w.node(id).last_child());
    }
    for id in 0..w.len() {
        assert_eq!(seen[id], 1);
        if id > 0 {
            let p = w.node(id).parent().unwrap();
            assert!(w.node(p).children().contains(&id));
            assert!(!matches!(w.node(id).kind(), NodeKind::Document));
        }
    }
}

#[test]
fn empty_input_gives_empty_document() {
    let w = parse("");
    assert_eq!(outline(&w, 0), "Document[]");
    assert_tree(&w);
}

#[test]
fn full_document() {
    let w = parse("<html><head></head><body><p>hi</p></body></html>");
    assert_eq!(outline(&w, 0), "Document[Html[Head[],Body[P[\"hi\"]]]]");
    assert_tree(&w);
}

#[test]
fn missing_wrappers_are_synthesized() {
    let w = parse("<p>hi</p>");
    assert_eq!(outline(&w, 0), "Document[Html[Head[],Body[P[\"hi\"]]]]");
    assert_tree(&w);
}

#[test]
fn headings_keep_their_order() {
    let w = parse("<html><body><h1>A</h1><h2>B</h2></body></html>");
    assert_eq!(outline(&w, 0), "Document[Html[Head[],Body[H1[\"A\"],H2[\"B\"]]]]");
    assert_tree(&w);
}

#[test]
fn anchor_keeps_its_attribute() {
    let w = parse("<a href=\"x\">link</a>");
    assert_eq!(outline(&w, 0), "Document[Html[Head[],Body[A href=\"x\"[\"link\"]]]]");
    let body = children(&w, children(&w, 0)[0])[1];
    let a = children(&w, body)[0];
    match w.node(a).kind() {
        NodeKind::Element(e) => {
            assert_eq!(e.kind(), ElementKind::A);
            assert_eq!(e.attributes().len(), 1);
            assert_eq!(e.attributes()[0].name(), "href");
            assert_eq!(e.attributes()[0].value(), "x");
            assert_eq!(e.attributes()[0], Attribute::with("href", "x"));
        }
        _ => panic!("the anchor is an element"),
    }
    assert_eq!(w.node(a).element_kind(), Some(ElementKind::A));
    let text = children(&w, a)[0];
    assert_eq!(w.node(text).kind(), &NodeKind::Text("link".to_string()));
    assert_eq!(w.node(text).element_kind(), None);
    assert_tree(&w);
}

#[test]
fn style_text_goes_below_style() {
    let w = parse("<style>p{}</style><body>x</body>");
    assert_eq!(outline(&w, 0), "Document[Html[Head[Style[\"p{}\"]],Body[\"x\"]]]");
    assert_tree(&w);
}

#[test]
fn stray_end_tag_is_ignored() {
    let w = parse("<body></div></body>");
    assert_eq!(outline(&w, 0), "Document[Html[Head[],Body[]]]");
    assert_tree(&w);
}

#[test]
fn script_text_is_not_tokenized() {
    let w = parse("<script>if (a<b) { x = \"</p>\"; }</script><p>t</p>");
    assert_eq!(
        outline(&w, 0),
        "Document[Html[Head[Script[\"if (a<b) { x = \\\"</p>\\\"; }\"]],Body[P[\"t\"]]]]"
    );
    assert_tree(&w);
}

#[test]
fn raw_end_tag_matches_in_either_case() {
    let w = parse("<STYLE>a</Style>b<p>c");
    assert_eq!(outline(&w, 0), "Document[Html[Head[Style[\"a\"]],Body[P[\"c\"]]]]");
    assert_tree(&w);
}

#[test]
fn unfinished_raw_text_ends_with_the_input() {
    let w = parse("<style>a</styl");
    assert_eq!(outline(&w, 0), "Document[Html[Head[Style[\"a</styl\"]]]]");
    assert_tree(&w);
}

#[test]
fn adjacent_characters_share_one_text_node() {
    let w = parse("<p>a b\nc</p>");
    assert_eq!(outline(&w, 0), "Document[Html[Head[],Body[P[\"a b\\nc\"]]]]");
    assert_eq!(w.len(), 6);
    assert_tree(&w);
}

#[test]
fn text_after_a_child_starts_a_new_text_node() {
    let w = parse("<p>a<a>b</a>c</p>");
    assert_eq!(outline(&w, 0), "Document[Html[Head[],Body[P[\"a\",A[\"b\"],\"c\"]]]]");
    assert_tree(&w);
}

#[test]
fn leading_characters_are_skipped() {
    let w = parse("<!doctype html>\n<html><body>x</body></html>");
    assert_eq!(outline(&w, 0), "Document[Html[Head[],Body[\"x\"]]]");
    assert_tree(&w);
}

#[test]
fn text_alone_gives_empty_document() {
    let w = parse("hello");
    assert_eq!(outline(&w, 0), "Document[]");
    assert_tree(&w);
}

#[test]
fn whitespace_between_wrappers_is_skipped() {
    let w = parse("<html>\n <head>\n </head>\n <body>\n</body>\n</html>\n");
    assert_eq!(outline(&w, 0), "Document[Html[Head[],Body[\"\\n\"]]]");
    assert_tree(&w);
}

#[test]
fn unknown_tags_in_head_are_dropped() {
    let w = parse("<html><head><meta charset=\"utf-8\"><title>t</title></head><body></body></html>");
    assert_eq!(outline(&w, 0), "Document[Html[Head[],Body[]]]");
    assert_tree(&w);
}

#[test]
fn unknown_tags_in_body_are_dropped() {
    let w = parse("<body><div><p>x</p></div></body>");
    assert_eq!(outline(&w, 0), "Document[Html[Head[],Body[P[\"x\"]]]]");
    assert_tree(&w);
}

#[test]
fn end_tag_closes_down_to_its_element() {
    let w = parse("<body><p><a>x</p>y</body>");
    assert_eq!(outline(&w, 0), "Document[Html[Head[],Body[P[A[\"x\"]],\"y\"]]]");
    assert_tree(&w);
}

#[test]
fn end_tag_without_open_element_changes_nothing() {
    let w = parse("<body><p>x</a>y</p></body>");
    assert_eq!(outline(&w, 0), "Document[Html[Head[],Body[P[\"xy\"]]]]");
    assert_tree(&w);
}

#[test]
fn html_end_tag_in_body_closes_body_and_html() {
    let mut parser = HtmlParser::new(HtmlTokenizer::new("<body>x</html>".to_string()));
    let w = parser.construction_tree();
    assert_eq!(outline(&w, 0), "Document[Html[Head[],Body[\"x\"]]]");
    assert_eq!(parser.mode(), InsertionMode::AfterAfterBody);
    assert!(parser.open_elements().is_empty());
    assert_tree(&w);
}

#[test]
fn html_end_tag_below_an_open_element_is_ignored() {
    let mut parser = HtmlParser::new(HtmlTokenizer::new("<body><p>x</html>y".to_string()));
    let w = parser.construction_tree();
    assert_eq!(outline(&w, 0), "Document[Html[Head[],Body[P[\"xy\"]]]]");
    assert_eq!(parser.mode(), InsertionMode::InBody);
    assert_eq!(parser.open_elements().len(), 3);
    assert_tree(&w);
}

#[test]
fn content_after_html_end_goes_below_the_document() {
    let w = parse("<body>x</html><p>y</p>z");
    assert_eq!(outline(&w, 0), "Document[Html[Head[],Body[\"x\"]],P[\"y\"]]");
    assert_tree(&w);
}

#[test]
fn content_after_body_end_goes_below_html() {
    let w = parse("<body>x</body>y<p>z</p>");
    assert_eq!(outline(&w, 0), "Document[Html[Head[],Body[\"x\"],P[\"z\"]]]");
    assert_tree(&w);
}

#[test]
fn duplicate_attributes_are_kept() {
    let w = parse("<p id=a id=b>");
    assert_eq!(outline(&w, 0), "Document[Html[Head[],Body[P id=\"a\" id=\"b\"[]]]]");
    assert_tree(&w);
}

#[test]
fn html_attributes_are_kept() {
    let w = parse("<html lang='en'><head></head></html>");
    assert_eq!(outline(&w, 0), "Document[Html lang=\"en\"[Head[],Body[]]]");
    assert_tree(&w);
}

#[test]
fn open_elements_are_elements_of_the_document() {
    let mut parser = HtmlParser::new(HtmlTokenizer::new("<body><p><a>x".to_string()));
    let w = parser.construction_tree();
    let kinds: Vec<Option<ElementKind>> =
        parser.open_elements().iter().map(|id| w.node(*id).element_kind()).collect();
    assert_eq!(
        kinds,
        vec![
            Some(ElementKind::Html),
            Some(ElementKind::Body),
            Some(ElementKind::P),
            Some(ElementKind::A)
        ]
    );
    let mut below = 0;
    for id in parser.open_elements() {
        assert_eq!(w.node(*id).parent(), Some(below));
        below = *id;
    }
    assert_eq!(parser.window(), &w);
}

#[test]
fn parsing_twice_gives_equal_documents() {
    let html = "<html><head><style>p{}</style></head><body><h1 id=t>T</h1><p>a<a href=x>b</a></p>";
    assert_eq!(parse(html), parse(html));
    assert_eq!(outline(&parse(html), 0), outline(&parse(html), 0));
}

#[test]
fn second_run_returns_the_same_document() {
    let mut parser = HtmlParser::new(HtmlTokenizer::new("<p>hi</p>".to_string()));
    let first = parser.construction_tree();
    let second = parser.construction_tree();
    assert_eq!(first, second);
}

#[test]
fn new_parser_starts_in_initial_mode() {
    let parser = HtmlParser::new(HtmlTokenizer::new("<p>".to_string()));
    assert_eq!(parser.mode(), InsertionMode::Initial);
    assert!(parser.open_elements().is_empty());
    assert_eq!(parser.window().len(), 1);
}

#[test]
fn window_appends_children_in_order() {
    let mut w = Window::new();
    assert_eq!(w.document(), 0);
    assert_eq!(w.len(), 1);
    assert_eq!(w.last_child(0), None);
    let html = w.append_child(0, create_element(ElementKind::Html, Vec::new()));
    let head = w.append_child(html, create_element(ElementKind::Head, Vec::new()));
    let body = w.append_child(
        html,
        create_element(ElementKind::Body, vec![Attribute::with("class", "c")]),
    );
    let text = w.append_child(body, create_text("a".to_string()));
    assert_eq!((html, head, body, text), (1, 2, 3, 4));
    assert_eq!(w.node(html).first_child(), Some(head));
    assert_eq!(w.node(html).last_child(), Some(body));
    assert_eq!(w.last_child(html), Some(body));
    assert_eq!(w.node(head).next_sibling(), Some(body));
    assert_eq!(w.node(body).next_sibling(), None);
    assert_eq!(w.node(body).parent(), Some(html));
    assert_eq!(w.node(text).parent(), Some(body));
    w.append_char(text, 'b');
    assert_eq!(w.node(text).kind(), &NodeKind::Text("ab".to_string()));
    w.append_char(body, 'c');
    assert_eq!(outline(&w, 0), "Document[Html[Head[],Body class=\"c\"[\"ab\"]]]");
    assert_tree(&w);
    assert_eq!(w.clone(), w);
}

#[test]
fn long_input_is_parsed_in_one_pass() {
    let mut html = String::from("<html><head><style>");
    for _ in 0..20000 {
        html.push_str("p{} ");
    }
    html.push_str("</style></head><body>");
    for i in 0..20000 {
        html.push_str("<p class=\"c\">");
        html.push_str(&format!("{}", i));
        html.push_str("</p>");
    }
    html.push_str("</body></html>");
    let w = parse(&html);
    assert_eq!(w.len(), 1 + 3 + 2 + 2 * 20000);
    let body = children(&w, children(&w, 0)[0])[1];
    assert_eq!(w.node(body).children().len(), 20000);
    let last = w.node(body).last_child().unwrap();
    let text = w.node(last).first_child().unwrap();
    assert_eq!(w.node(text).kind(), &NodeKind::Text("19999".to_string()));
}

#[test]
fn cloned_parser_gives_the_same_document() {
    let parser = HtmlParser::new(HtmlTokenizer::new("<p>a</p><h1>b</h1>".to_string()));
    let mut first = parser.clone();
    let mut second = parser;
    assert_eq!(first.construction_tree(), second.construction_tree());
    assert_eq!(first.mode(), second.mode());
    assert_eq!(first.open_elements(), second.open_elements());
}
