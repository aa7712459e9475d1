use collada_converter::collada::Parser;
use collada_converter::source_content::{read_source_content, SourceColumn};
use collada_converter::xml::{Event, XmlAttribute, XmlName};

fn start(n: &str, attrs: &[(&str, &str)]) -> Event {
    Event::StartElement {
        name: XmlName { local_name: String::from(n), namespace: None },
        attributes: attrs
            .iter()
            .map(|(k, v)| XmlAttribute { name: String::from(*k), value: String::from(*v) })
            .collect(),
    }
}

fn end(n: &str) -> Event {
    Event::EndElement { name: XmlName { local_name: String::from(n), namespace: None } }
}

fn text(t: &str) -> Event {
    Event::Characters(String::from(t))
}

fn source(array: &str, values: &str, params: &[(&str, Option<&str>)]) -> Vec<Event> {
    let mut ev = vec![start(array, &[("id", "a"), ("count", "6")]), text(values), end(array)];
    ev.push(start("technique_common", &[]));
    ev.push(start("accessor", &[("source", "#a"), ("stride", "2")]));
    for (n, t) in params {
        match t {
            Some(t) => ev.push(start("param", &[("name", n), ("type", t)])),
            None => ev.push(start("param", &[("name", n)])),
        }
        ev.push(end("param"));
    }
    ev.extend(vec![end("accessor"), end("technique_common"), end("source"), start("next", &[])]);
    ev
}

#[test]
fn columns_take_every_stride_th_value() {
    let ev = source("float_array", "1 2.5\n-3 4\t5e2  6", &[("S", Some("float")), ("T", None)]);
    let mut p = Parser::new(ev, None);
    let cols = read_source_content(&mut p, "map-0").ok().unwrap();
    assert_eq!(cols.len(), 2);
    match &cols[0] {
        SourceColumn::Float(n, v) => {
            assert_eq!(n, "S");
            assert_eq!(v, &vec![String::from("1"), String::from("-3"), String::from("5e2")]);
        },
        _ => panic!("expected a float column"),
    }
    match &cols[1] {
        SourceColumn::Float(n, v) => {
            assert_eq!(n, "T");
            assert_eq!(v, &vec![String::from("2.5"), String::from("4"), String::from("6")]);
        },
        _ => panic!("expected a float column"),
    }
    assert!(matches!(p.next(), Ok(Event::StartElement { name, .. }) if name.local_name == "next"));
}

#[test]
fn int_columns_are_numbers() {
    let ev = source("int_array", "1 -2 +3 2147483647 -2147483648 0", &[("A", Some("int")), ("B", Some("int"))]);
    let mut p = Parser::new(ev, None);
    let cols = read_source_content(&mut p, "weights").ok().unwrap();
    assert!(matches!(&cols[0], SourceColumn::Int(n, v) if n == "A" && v == &vec![1, 3, -2147483648]));
    assert!(matches!(&cols[1], SourceColumn::Int(n, v) if n == "B" && v == &vec![-2, 2147483647, 0]));
}

#[test]
fn int_columns_refuse_other_text() {
    for bad in ["2147483648", "-2147483649", "1.5", "-", "+-1", "--1"] {
        let values = format!("1 {}", bad);
        let ev = source("int_array", &values, &[("A", Some("int")), ("B", Some("int"))]);
        let mut p = Parser::new(ev, None);
        assert_eq!(read_source_content(&mut p, "w").err().unwrap(), format!("Can not parse int \"{}\"", bad));
    }
}

#[test]
fn values_must_fill_the_params() {
    let ev = source("float_array", "1 2 3", &[("S", None), ("T", None)]);
    let mut p = Parser::new(ev, None);
    assert_eq!(read_source_content(&mut p, "map-0").err().unwrap(), "Values of source \"map-0\" do not fit its params");
    let ev = source("float_array", "1 2", &[]);
    let mut p = Parser::new(ev, None);
    assert_eq!(read_source_content(&mut p, "map-0").err().unwrap(), "Values of source \"map-0\" do not fit its params");
}

#[test]
fn params_need_names() {
    let ev = vec![start("param", &[("type", "float")])];
    let mut p = Parser::new(ev, None);
    assert_eq!(read_source_content(&mut p, "normals").err().unwrap(), "Param of source \"normals\" needs name");
}

#[test]
fn source_must_close_with_its_end_tag() {
    let ev = vec![end("mesh")];
    let mut p = Parser::new(ev, None);
    assert_eq!(read_source_content(&mut p, "normals").err().unwrap(), "Unexpected end tag \"mesh\"");
    let mut p = Parser::new(vec![start("float_array", &[])], None);
    assert_eq!(read_source_content(&mut p, "normals").err().unwrap(), "Unexpected end of file");
}
