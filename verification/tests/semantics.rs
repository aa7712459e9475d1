use collada_converter::lexer::{Cursor, Lexeme};
use collada_converter::{Error, Semantics, SemanticsSourceLayerType};

fn parse_error(text: &str) -> String {
    let owned = String::from(text);
    match Semantics::parse(&owned) {
        Ok(_) => panic!("expected an error for {:?}", text),
        Err(Error::SemanticsParse(m)) => m,
        Err(e) => panic!("unexpected error kind: {}", e.message()),
    }
}

#[test]
fn parses_sources_and_layers() {
    let text = String::from("VERTEX(X:float,Y:float,Z:float) NORMAL&(X:float, Y:integer)");
    let sem = Semantics::parse(&text).ok().unwrap();
    assert_eq!(sem.sources.len(), 2);
    let v = &sem.sources[0];
    assert_eq!(v.name, "VERTEX");
    assert!(!v.is_index);
    assert_eq!(v.layers.len(), 3);
    assert_eq!(v.layers[0].name, "X");
    assert_eq!(v.layers[2].name, "Z");
    assert!(v.layers.iter().all(|l| l.layer_type == SemanticsSourceLayerType::Float));
    let n = &sem.sources[1];
    assert_eq!(n.name, "NORMAL");
    assert!(n.is_index);
    assert_eq!(n.layers.len(), 2);
    assert_eq!(n.layers[1].name, "Y");
    assert_eq!(n.layers[1].layer_type, SemanticsSourceLayerType::Int);
}

#[test]
fn empty_and_blank_texts_have_no_sources() {
    for t in ["", "   ", "\t\r\n "] {
        let text = String::from(t);
        let sem = Semantics::parse(&text).ok().unwrap();
        assert_eq!(sem.sources.len(), 0);
    }
}

#[test]
fn white_space_between_lexemes_is_ignored() {
    let text = String::from("  TEXCOORD \n & ( S : float ,\tT : float )  ");
    let sem = Semantics::parse(&text).ok().unwrap();
    assert_eq!(sem.sources.len(), 1);
    assert_eq!(sem.sources[0].name, "TEXCOORD");
    assert!(sem.sources[0].is_index);
    assert_eq!(sem.sources[0].layers.len(), 2);
    assert_eq!(sem.sources[0].layers[0].name, "S");
    assert_eq!(sem.sources[0].layers[1].name, "T");
}

#[test]
fn missing_opening_bracket() {
    assert_eq!(parse_error("VERTEX X:float"), "Expected (, but \"X\" has been found");
    assert_eq!(parse_error("VERTEX&"), "Expected (, but end of semantics has been found");
}

#[test]
fn missing_source_name() {
    assert_eq!(parse_error("(X:float)"), "Expected name of source, but '(' has been found");
    assert_eq!(parse_error("A(X:float) ,"), "Expected name of source, but ',' has been found");
}

#[test]
fn missing_layer_name() {
    assert_eq!(parse_error("VERTEX()"), "Expected name of layer, but ')' has been found");
}

#[test]
fn missing_colon_after_layer() {
    assert_eq!(
        parse_error("VERTEX(X float)"),
        "Expected :<type> after X in full vertex semantics, bot \"float\" has been found"
    );
}

#[test]
fn unknown_layer_type() {
    assert_eq!(parse_error("VERTEX(X:double)"), "Expected float or integer, but \"double\" has been found");
    assert_eq!(parse_error("VERTEX(X:&)"), "Expected float or integer, but '&' has been found");
}

#[test]
fn missing_separator_after_layer() {
    assert_eq!(parse_error("VERTEX(X:float"), "Expected ',' or ')', but end of semantics has been found");
    assert_eq!(parse_error("VERTEX(X:float:"), "Expected ',' or ')', but ':' has been found");
}

#[test]
fn unexpected_character() {
    assert_eq!(parse_error("VERTEX(X:float;Y:float)"), "Unexpected character ';' in semantics");
}

#[test]
fn parse_error_message_has_prefix() {
    let text = String::from("VERTEX()");
    let e = Semantics::parse(&text).err().unwrap();
    assert_eq!(e.message(), "Semantics parse error: Expected name of layer, but ')' has been found");
}

#[test]
fn error_messages() {
    assert_eq!(Error::ColladaError(String::from("x")).message(), "Collada error:x");
    assert_eq!(Error::StringParseError(String::from("y")).message(), "String parse error: y");
    assert_eq!(Error::Other(String::from("z")).message(), "z");
}

#[test]
fn cursor_reads_lexemes_in_order() {
    let mut c = Cursor::new("ab_1 &(:,)");
    assert!(matches!(c.next(), Ok(Lexeme::String("ab_1"))));
    assert!(matches!(c.next(), Ok(Lexeme::Ampersand)));
    assert!(matches!(c.next(), Ok(Lexeme::Bracket('('))));
    assert!(matches!(c.next(), Ok(Lexeme::Colon)));
    assert!(matches!(c.next(), Ok(Lexeme::Comma)));
    assert!(matches!(c.next(), Ok(Lexeme::Bracket(')'))));
    assert!(matches!(c.next(), Ok(Lexeme::EOF)));
    assert!(matches!(c.next(), Ok(Lexeme::EOF)));
}

#[test]
fn lexemes_print_as_in_messages() {
    assert_eq!(Lexeme::EOF.print(), "end of semantics");
    assert_eq!(Lexeme::String("w").print(), "\"w\"");
    assert_eq!(Lexeme::Ampersand.print(), "'&'");
    assert_eq!(Lexeme::Bracket(')').print(), "')'");
    assert_eq!(Lexeme::Colon.print(), "':'");
    assert_eq!(Lexeme::Comma.print(), "','");
}

#[test]
fn written_semantics_parse_back() {
    let sources: Vec<(&str, bool, Vec<(&str, SemanticsSourceLayerType)>)> = vec![
        ("VERTEX", false, vec![("X", SemanticsSourceLayerType::Float), ("Y", SemanticsSourceLayerType::Int)]),
        ("uv_0", true, vec![("S", SemanticsSourceLayerType::Float)]),
    ];
    let text = sources
        .iter()
        .map(|(name, index, layers)| {
            let ls: Vec<String> = layers
                .iter()
                .map(|(n, t)| format!("{}:{}", n, if *t == SemanticsSourceLayerType::Float { "float" } else { "integer" }))
                .collect();
            format!("{}{}({})", name, if *index { "&" } else { "" }, ls.join(","))
        })
        .collect::<Vec<String>>()
        .join(" ");
    let sem = Semantics::parse(&text).ok().unwrap();
    assert_eq!(sem.sources.len(), sources.len());
    for (parsed, (name, index, layers)) in sem.sources.iter().zip(sources.iter()) {
        assert_eq!(parsed.name, *name);
        assert_eq!(parsed.is_index, *index);
        assert_eq!(parsed.layers.len(), layers.len());
        for (pl, (n, t)) in parsed.layers.iter().zip(layers.iter()) {
            assert_eq!(pl.name, *n);
            assert_eq!(pl.layer_type, *t);
        }
    }
}
