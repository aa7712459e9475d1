use collada_converter::collada::{checkCollada, skip, waitEndTag, waitStartTag, Parser};
use collada_converter::xml::{XmlAttribute, Event, XmlName};

fn name(n: &str) -> XmlName {
    XmlName { local_name: String::from(n), namespace: None }
}

fn start(n: &str) -> Event {
    Event::StartElement { name: name(n), attributes: Vec::new() }
}

fn end(n: &str) -> Event {
    Event::EndElement { name: name(n) }
}

fn ws() -> Event {
    Event::Whitespace(String::from(" "))
}

fn parser(events: Vec<Event>) -> Parser {
    Parser::new(events, None)
}

fn is_start(e: &Event, n: &str) -> bool {
    matches!(e, Event::StartElement { name, .. } if name.local_name == n)
}

#[test]
fn next_gives_events_in_order_then_fails() {
    let mut p = parser(vec![start("a"), end("a")]);
    assert!(is_start(&p.next().ok().unwrap(), "a"));
    assert!(matches!(p.next(), Ok(Event::EndElement { .. })));
    assert_eq!(p.next().err().unwrap(), "Unexpected end of file");
    assert_eq!(p.next().err().unwrap(), "Unexpected end of file");
}

#[test]
fn next_reports_end_of_document_as_failure() {
    let mut p = parser(vec![Event::EndDocument, start("a")]);
    assert_eq!(p.next().err().unwrap(), "Unexpected end of file");
    assert!(is_start(&p.next().ok().unwrap(), "a"));
}

#[test]
fn next_reports_reader_failure() {
    let mut p = Parser::new(vec![ws()], Some(String::from("1:5 bad token")));
    assert!(matches!(p.next(), Ok(Event::Whitespace(_))));
    assert_eq!(p.next().err().unwrap(), "Can not parse:1:5 bad token");
}

#[test]
fn skip_reads_through_matching_end_tag() {
    let mut p = parser(vec![start("b"), ws(), end("b"), start("c"), end("c"), end("a"), start("next")]);
    assert!(skip(&mut p, String::from("a")).is_ok());
    assert!(is_start(&p.next().ok().unwrap(), "next"));
}

#[test]
fn skip_reports_mismatched_end_tag() {
    let mut p = parser(vec![start("b"), end("c")]);
    assert_eq!(skip(&mut p, String::from("a")).err().unwrap(), "Expected b, but c have been found");
}

#[test]
fn skip_reports_end_of_file() {
    let mut p = parser(vec![start("b"), end("b")]);
    assert_eq!(skip(&mut p, String::from("a")).err().unwrap(), "Unexpected end of file");
}

#[test]
fn wait_start_tag_passes_filler() {
    let mut p = parser(vec![ws(), Event::Comment(String::from("c")), start("mesh"), end("mesh")]);
    let e = waitStartTag(&mut p, "mesh").ok().unwrap();
    assert!(is_start(&e, "mesh"));
    assert!(matches!(p.next(), Ok(Event::EndElement { .. })));
}

#[test]
fn wait_start_tag_refuses_other_tags() {
    let mut p = parser(vec![ws(), start("other")]);
    assert_eq!(waitStartTag(&mut p, "mesh").err().unwrap(), "Expected \"mesh\" tag");
    let mut p = parser(vec![Event::Characters(String::from("x"))]);
    assert_eq!(waitStartTag(&mut p, "mesh").err().unwrap(), "Expected \"mesh\" tag");
}

#[test]
fn wait_end_tag_passes_filler() {
    let mut p = parser(vec![ws(), end("input"), start("x")]);
    assert!(waitEndTag(&mut p, "input").is_ok());
    assert!(is_start(&p.next().ok().unwrap(), "x"));
}

#[test]
fn wait_end_tag_refuses_other_events() {
    let mut p = parser(vec![end("p")]);
    assert_eq!(waitEndTag(&mut p, "input").err().unwrap(), "Expected \"input\" end tag");
    let mut p = parser(vec![start("input")]);
    assert_eq!(waitEndTag(&mut p, "input").err().unwrap(), "Expected \"input\" end tag");
}

fn root(local: &str, ns: Option<&str>) -> Event {
    Event::StartElement {
        name: XmlName { local_name: String::from(local), namespace: ns.map(String::from) },
        attributes: vec![XmlAttribute { name: String::from("version"), value: String::from("1.4.1") }],
    }
}

const NS: &str = "http://www.collada.org/2005/11/COLLADASchema";

#[test]
fn check_collada_accepts_collada_root() {
    let mut p = parser(vec![Event::StartDocument, root("COLLADA", Some(NS)), ws()]);
    assert!(checkCollada(&mut p));
    assert!(matches!(p.next(), Ok(Event::Whitespace(_))));
}

#[test]
fn check_collada_refuses_other_documents() {
    let mut p = parser(vec![Event::StartDocument, root("collada", Some(NS))]);
    assert!(!checkCollada(&mut p));
    let mut p = parser(vec![Event::StartDocument, root("COLLADA", Some("http://example.org"))]);
    assert!(!checkCollada(&mut p));
    let mut p = parser(vec![Event::StartDocument, root("COLLADA", None)]);
    assert!(!checkCollada(&mut p));
    let mut p = parser(vec![root("COLLADA", Some(NS))]);
    assert!(!checkCollada(&mut p));
    let mut p = parser(vec![]);
    assert!(!checkCollada(&mut p));
}

#[test]
fn documents_are_read_into_events() {
    let doc = b"<?xml version=\"1.0\"?>\n<COLLADA xmlns=\"http://www.collada.org/2005/11/COLLADASchema\" version=\"1.4.1\"><asset a=\"1\"><!--c--></asset>text</COLLADA>";
    let mut p = collada_converter::collada::parse_document(doc);
    assert!(checkCollada(&mut p));
    match p.next().ok().unwrap() {
        Event::StartElement { name, attributes } => {
            assert_eq!(name.local_name, "asset");
            assert_eq!(attributes.len(), 1);
            assert_eq!(attributes[0].name, "a");
            assert_eq!(attributes[0].value, "1");
        },
        _ => panic!("expected the asset start tag"),
    }
    assert!(matches!(p.next(), Ok(Event::EndElement { name }) if name.local_name == "asset"));
    assert!(matches!(p.next(), Ok(Event::Characters(t)) if t == "text"));
    assert!(matches!(p.next(), Ok(Event::EndElement { name }) if name.local_name == "COLLADA"));
    assert_eq!(p.next().err().unwrap(), "Unexpected end of file");
    assert_eq!(p.next().err().unwrap(), "Unexpected end of file");
}

#[test]
fn malformed_documents_end_in_the_reader_failure() {
    let mut p = collada_converter::collada::parse_document(b"<a><b></a>");
    assert!(!checkCollada(&mut p));
    assert!(matches!(p.next(), Ok(Event::StartElement { name, .. }) if name.local_name == "b"));
    let m = p.next().err().unwrap();
    assert!(m.starts_with("Can not parse:"), "{}", m);
    assert_eq!(p.next().err().unwrap(), m);
}
