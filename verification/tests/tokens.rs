use saba_core::dom::{Attribute, ElementKind};
use saba_core::text::{ascii_lower, is_ascii_alpha, is_ascii_upper, is_whitespace, same_text, to_chars};
use saba_core::token::{HtmlToken, HtmlTokenizer};

fn tokens(html: &str) -> Vec<HtmlToken> {
    let mut t = HtmlTokenizer::new(html.to_string());
    let mut out = Vec::new();
    while let Some(token) = t.next() {
        out.push(token);
        assert!(out.len() <= 2 * html.chars().count() + 2);
    }
    assert_eq!(t.next(), None);
    assert_eq!(t.next(), None);
    out
}

fn start(tag: &str, self_closing: bool, attributes: Vec<Attribute>) -> HtmlToken {
    HtmlToken::StartTag { tag: tag.to_string(), self_closing, attributes }
}

fn end(tag: &str) -> HtmlToken {
    HtmlToken::EndTag { tag: tag.to_string() }
}

fn chars(s: &str) -> Vec<HtmlToken> {
    s.chars().map(HtmlToken::Char).collect()
}

fn text_of(tokens: &[HtmlToken]) -> String {
    let mut out = String::new();
    for t in tokens {
        if let HtmlToken::Char(c) = t {
            out.push(*c);
        }
    }
    out
}

#[test]
fn empty_input_is_eof_then_none() {
    let mut t = HtmlTokenizer::new(String::new());
    assert_eq!(t.next(), Some(HtmlToken::Eof));
    assert_eq!(t.next(), None);
    assert_eq!(t.next(), None);
}

#[test]
fn plain_text_round_trips() {
    let input = "a b\n\tc >\"'=/ é 漢";
    let got = tokens(input);
    let mut expected = chars(input);
    expected.push(HtmlToken::Eof);
    assert_eq!(got, expected);
    assert_eq!(text_of(&got), input);
}

#[test]
fn start_and_end_tag() {
    let mut expected = vec![start("p", false, vec![])];
    expected.extend(chars("hi"));
    expected.push(end("p"));
    expected.push(HtmlToken::Eof);
    assert_eq!(tokens("<p>hi</p>"), expected);
}

#[test]
fn tag_names_are_lower_cased() {
    assert_eq!(
        tokens("<DiV></BODY>"),
        vec![start("div", false, vec![]), end("body"), HtmlToken::Eof]
    );
}

#[test]
fn attributes_in_all_three_forms() {
    assert_eq!(
        tokens("<a href=\"x y\" Title='T t' id=i1 hidden>"),
        vec![
            start(
                "a",
                false,
                vec![
                    Attribute::with("href", "x y"),
                    Attribute::with("title", "T t"),
                    Attribute::with("id", "i1"),
                    Attribute::with("hidden", ""),
                ]
            ),
            HtmlToken::Eof
        ]
    );
}

#[test]
fn attribute_with_spaces_around_equals() {
    assert_eq!(
        tokens("<a href = \"x\" \n b>"),
        vec![
            start("a", false, vec![Attribute::with("href", "x"), Attribute::with("b", "")]),
            HtmlToken::Eof
        ]
    );
}

#[test]
fn attribute_without_value_before_close() {
    assert_eq!(
        tokens("<a b=>"),
        vec![start("a", false, vec![Attribute::with("b", "")]), HtmlToken::Eof]
    );
}

#[test]
fn quoted_value_directly_followed_by_a_name() {
    assert_eq!(
        tokens("<a b=\"1\"c='2'>"),
        vec![
            start("a", false, vec![Attribute::with("b", "1"), Attribute::with("c", "2")]),
            HtmlToken::Eof
        ]
    );
}

#[test]
fn self_closing_tag() {
    assert_eq!(
        tokens("<br/><img src=a />"),
        vec![
            start("br", true, vec![]),
            start("img", true, vec![Attribute::with("src", "a")]),
            HtmlToken::Eof
        ]
    );
}

#[test]
fn slash_inside_a_tag_without_close() {
    assert_eq!(
        tokens("<a/b>"),
        vec![start("a", false, vec![Attribute::with("b", "")]), HtmlToken::Eof]
    );
}

#[test]
fn unquoted_value_may_hold_a_slash() {
    assert_eq!(
        tokens("<a href=/x/>"),
        vec![start("a", false, vec![Attribute::with("href", "/x/")]), HtmlToken::Eof]
    );
}

#[test]
fn end_tag_drops_its_attributes() {
    assert_eq!(tokens("</p class=x>"), vec![end("p"), HtmlToken::Eof]);
}

#[test]
fn less_than_before_a_non_letter_is_text() {
    let mut expected = chars("1 < 2");
    expected.push(HtmlToken::Eof);
    assert_eq!(tokens("1 < 2"), expected);
    let mut expected = chars("<<");
    expected.push(start("p", false, vec![]));
    expected.push(HtmlToken::Eof);
    assert_eq!(tokens("<<<p>"), expected);
}

#[test]
fn less_than_at_the_end_is_text() {
    assert_eq!(
        tokens("a<"),
        vec![HtmlToken::Char('a'), HtmlToken::Char('<'), HtmlToken::Eof]
    );
}

#[test]
fn malformed_end_tag_is_dropped() {
    assert_eq!(tokens("</>a"), vec![HtmlToken::Char('a'), HtmlToken::Eof]);
    assert_eq!(tokens("</ p>"), vec![HtmlToken::Char('p'), HtmlToken::Char('>'), HtmlToken::Eof]);
    assert_eq!(tokens("</"), vec![HtmlToken::Eof]);
}

#[test]
fn unfinished_tag_is_dropped_at_the_end() {
    assert_eq!(tokens("a<p"), vec![HtmlToken::Char('a'), HtmlToken::Eof]);
    assert_eq!(tokens("<p class=\"x"), vec![HtmlToken::Eof]);
    assert_eq!(tokens("<p class"), vec![HtmlToken::Eof]);
    assert_eq!(tokens("<p /"), vec![HtmlToken::Eof]);
}

#[test]
fn raw_text_runs_up_to_its_end_tag() {
    let mut t = HtmlTokenizer::new("<style>a<b></p></STYLE>c<p>".to_string());
    assert_eq!(t.next(), Some(start("style", false, vec![])));
    t.enter_rawtext("style");
    let mut got = Vec::new();
    while let Some(token) = t.next() {
        got.push(token);
    }
    let mut expected = chars("a<b></p>");
    expected.push(end("style"));
    expected.push(HtmlToken::Char('c'));
    expected.push(start("p", false, vec![]));
    expected.push(HtmlToken::Eof);
    assert_eq!(got, expected);
}

#[test]
fn raw_text_for_script_ignores_other_end_tags() {
    let mut t = HtmlTokenizer::new("x</style></script >y</script>z".to_string());
    t.enter_rawtext("script");
    let mut got = Vec::new();
    while let Some(token) = t.next() {
        got.push(token);
    }
    let mut expected = chars("x</style></script >y");
    expected.push(end("script"));
    expected.push(HtmlToken::Char('z'));
    expected.push(HtmlToken::Eof);
    assert_eq!(got, expected);
}

#[test]
fn raw_text_without_end_tag_runs_to_the_end() {
    let mut t = HtmlTokenizer::new("a</sty".to_string());
    t.enter_rawtext("style");
    let mut got = Vec::new();
    while let Some(token) = t.next() {
        got.push(token);
    }
    let mut expected = chars("a</sty");
    expected.push(HtmlToken::Eof);
    assert_eq!(got, expected);
}

#[test]
fn token_clone_is_equal() {
    let t = start("a", true, vec![Attribute::with("href", "x")]);
    assert_eq!(t.clone(), t);
    assert_eq!(end("a").clone(), end("a"));
    assert_eq!(HtmlToken::Char('c').clone(), HtmlToken::Char('c'));
    assert_eq!(HtmlToken::Eof.clone(), HtmlToken::Eof);
}

#[test]
fn attribute_grows_by_characters() {
    let mut a = Attribute::new();
    assert_eq!(a.name(), "");
    assert_eq!(a.value(), "");
    a.add_char('i', true);
    a.add_char('d', true);
    a.add_char('7', false);
    assert_eq!(a.name(), "id");
    assert_eq!(a.value(), "7");
    assert_eq!(a, Attribute::with("id", "7"));
    assert_eq!(a.clone(), a);
}

#[test]
fn element_kinds_by_name() {
    let known = [
        ("html", ElementKind::Html),
        ("head", ElementKind::Head),
        ("style", ElementKind::Style),
        ("script", ElementKind::Script),
        ("body", ElementKind::Body),
        ("p", ElementKind::P),
        ("h1", ElementKind::H1),
        ("h2", ElementKind::H2),
        ("a", ElementKind::A),
    ];
    for (name, kind) in known {
        assert_eq!(ElementKind::from_name(name).unwrap(), kind);
        assert_eq!(kind.name(), name);
    }
}

#[test]
fn unknown_tag_names() {
    for name in ["", "div", "HTML", "h3", "pp", "html ", "title", "meta"] {
        match ElementKind::from_name(name) {
            Ok(kind) => panic!("{:?} is not {:?}", name, kind),
            Err(e) => assert_eq!(e.name, name),
        }
    }
}

#[test]
fn character_classes() {
    assert!(is_whitespace(' '));
    assert!(is_whitespace('\n'));
    assert!(!is_whitespace('\t'));
    assert!(!is_whitespace('a'));
    assert!(is_ascii_alpha('a') && is_ascii_alpha('z') && is_ascii_alpha('A') && is_ascii_alpha('Z'));
    assert!(!is_ascii_alpha('@') && !is_ascii_alpha('[') && !is_ascii_alpha('`') && !is_ascii_alpha('{'));
    assert!(!is_ascii_alpha('1') && !is_ascii_alpha('é'));
    assert!(is_ascii_upper('A') && is_ascii_upper('Z'));
    assert!(!is_ascii_upper('a') && !is_ascii_upper('@') && !is_ascii_upper('['));
    assert_eq!(ascii_lower('A'), 'a');
    assert_eq!(ascii_lower('Z'), 'z');
    assert_eq!(ascii_lower('q'), 'q');
    assert_eq!(ascii_lower('1'), '1');
    assert_eq!(ascii_lower('É'), 'É');
}

#[test]
fn text_helpers() {
    assert_eq!(to_chars("aé漢"), vec!['a', 'é', '漢']);
    assert_eq!(to_chars(""), Vec::<char>::new());
    assert!(same_text("", ""));
    assert!(same_text("héllo", "héllo"));
    assert!(!same_text("hello", "hellp"));
    assert!(!same_text("hello", "hell"));
    assert!(!same_text("a", "é"));
}

#[test]
fn cloned_tokenizer_goes_on_from_the_same_place() {
    let mut t = HtmlTokenizer::new("ab<p>".to_string());
    assert_eq!(t.next(), Some(HtmlToken::Char('a')));
    let mut u = t.clone();
    assert_eq!(t.next(), Some(HtmlToken::Char('b')));
    assert_eq!(u.next(), Some(HtmlToken::Char('b')));
    assert_eq!(u.next(), Some(start("p", false, vec![])));
    assert_eq!(u.next(), Some(HtmlToken::Eof));
    assert_eq!(u.next(), None);
    assert_eq!(t.next(), Some(start("p", false, vec![])));
}

#[test]
fn tag_and_attribute_names_come_out_in_lower_case() {
    assert_eq!(
        tokens("<A HREF=X Data-Id='Y'></A>"),
        vec![
            start("a", false, vec![Attribute::with("href", "X"), Attribute::with("data-id", "Y")]),
            end("a"),
            HtmlToken::Eof
        ]
    );
}
