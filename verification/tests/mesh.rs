use collada_converter::collada::{skip, Parser};
use collada_converter::convert::{ModelReader, ModelStep};
use collada_converter::geometry::Geometry;
use collada_converter::reader::{MeshFailure, MeshReader, MeshStep};
use collada_converter::source::{Source, SourceData};
use collada_converter::xml::{XmlAttribute, Event, XmlName};

fn name(n: &str) -> XmlName {
    XmlName { local_name: String::from(n), namespace: None }
}

fn start(n: &str, attrs: &[(&str, &str)]) -> Event {
    Event::StartElement {
        name: name(n),
        attributes: attrs
            .iter()
            .map(|(k, v)| XmlAttribute { name: String::from(*k), value: String::from(*v) })
            .collect(),
    }
}

fn end(n: &str) -> Event {
    Event::EndElement { name: name(n) }
}

fn text(t: &str) -> Event {
    Event::Characters(String::from(t))
}

fn ws() -> Event {
    Event::Whitespace(String::from("\n  "))
}

fn floats(n: &str, v: &[f32]) -> SourceData {
    SourceData::Float(String::from(n), v.iter().map(|x| x.to_bits()).collect())
}

/// The content of the sources as the caller would read it, by source type.
fn source_of(ty: &str) -> Source {
    match ty {
        "positions" => Source {
            data: vec![floats("X", &[0.0, 1.0, 2.0]), floats("Y", &[0.5, 1.5, 2.5]), floats("Z", &[-1.0, -2.0, -3.0])],
        },
        "normals" => Source { data: vec![floats("X", &[0.0]), floats("Y", &[0.0]), floats("Z", &[1.0])] },
        "map-0" => Source { data: vec![floats("S", &[0.25, 0.5, 0.75]), floats("T", &[1.0, 0.0, 1.0])] },
        "colors" => Source { data: vec![floats("R", &[0.3])] },
        _ => panic!("unknown source {}", ty),
    }
}

fn source_events(id: &str) -> Vec<Event> {
    vec![start("source", &[("id", id)]), start("float_array", &[]), text("0 1 2"), end("float_array"), end("source"), ws()]
}

fn polylist_events(count: &str, p: &str) -> Vec<Event> {
    vec![
        start("polylist", &[("material", "Material-material"), ("count", count)]),
        start("input", &[("semantic", "VERTEX"), ("source", "#Cube-mesh-vertices"), ("offset", "0")]),
        end("input"),
        start("input", &[("semantic", "NORMAL"), ("source", "#Cube-mesh-normals"), ("offset", "1")]),
        end("input"),
        start("input", &[("semantic", "TEXCOORD"), ("source", "#Cube-mesh-map-0"), ("offset", "2")]),
        end("input"),
        start("vcount", &[]),
        text("3 "),
        end("vcount"),
        start("p", &[]),
        text(p),
        end("p"),
        end("polylist"),
    ]
}

fn mesh_events(p: &str) -> Vec<Event> {
    let mut ev = vec![ws(), start("mesh", &[]), ws()];
    ev.extend(source_events("Cube-mesh-positions"));
    ev.extend(source_events("Cube-mesh-normals"));
    ev.extend(source_events("Cube-mesh-map-0"));
    ev.push(start("vertices", &[("id", "Cube-mesh-vertices")]));
    ev.push(start("input", &[("semantic", "POSITION"), ("source", "#Cube-mesh-positions")]));
    ev.push(end("input"));
    ev.push(end("vertices"));
    ev.extend(polylist_events("1", p));
    ev.push(end("mesh"));
    ev
}

const GOOD_P: &str = "0 0 0 0 0 0 0 0 1 1 1 0 0 0 1 1 2 2 2 0 0 0 2 2";

/// Reads a mesh as a converter does, with the sources of `source_of`.
fn read_mesh(parser: &mut Parser, mesh_id: &str) -> Result<Vec<Geometry>, MeshFailure> {
    let mut reader = MeshReader::start(parser, &String::from(mesh_id)).map_err(MeshFailure::Error)?;
    loop {
        match reader.resume(parser)? {
            MeshStep::NeedSource { id: _, source_type } => {
                skip(parser, String::from("source")).map_err(MeshFailure::Error)?;
                reader.provide_source(Ok(source_of(&source_type))).map_err(MeshFailure::Error)?;
            },
            MeshStep::Finished => return Ok(reader.into_geometries()),
        }
    }
}

fn expected_vertex_data() -> Vec<u8> {
    let pos = [[0.0f32, 0.5, -1.0], [1.0, 1.5, -2.0], [2.0, 2.5, -3.0]];
    let tc = [[0.25f32, 1.0], [0.5, 0.0], [0.75, 1.0]];
    let mut out = Vec::new();
    for k in 0..3 {
        for v in pos[k] {
            out.extend_from_slice(&v.to_le_bytes());
        }
        for v in [0.0f32, 0.0, 1.0] {
            out.extend_from_slice(&v.to_le_bytes());
        }
        for v in tc[k] {
            out.extend_from_slice(&v.to_le_bytes());
        }
    }
    out
}

fn error_of(r: Result<Vec<Geometry>, MeshFailure>) -> String {
    match r {
        Err(MeshFailure::Error(m)) => m,
        Err(MeshFailure::Panic(m)) => panic!("unexpected panic report: {}", m),
        Ok(_) => panic!("expected an error"),
    }
}

#[test]
fn mesh_with_one_triangle() {
    let mut parser = Parser::new(mesh_events(GOOD_P), None);
    let geometries = read_mesh(&mut parser, "Cube-mesh").ok().unwrap();
    assert_eq!(geometries.len(), 1);
    let g = &geometries[0];
    assert_eq!(g.polygons_count(), 1);
    assert_eq!(g.material().map(|m| m.as_str()), Some("Material-material"));
    assert_eq!(g.data(), &expected_vertex_data());
    assert_eq!(g.data().len(), 96);
}

#[test]
fn mesh_with_too_few_indexes() {
    let mut parser = Parser::new(mesh_events("0 0 0"), None);
    assert_eq!(
        error_of(read_mesh(&mut parser, "Cube-mesh")),
        "convertAsList.len()*polygonsCount*3 != polygonIndexes.len()"
    );
}

#[test]
fn mesh_with_index_out_of_range_reports_panic() {
    let p = "0 0 0 0 0 0 0 0 1 1 1 0 0 0 1 1 2 2 2 0 0 0 2 9";
    let mut parser = Parser::new(mesh_events(p), None);
    assert!(matches!(read_mesh(&mut parser, "Cube-mesh"), Err(MeshFailure::Panic(_))));
}

#[test]
fn mesh_needs_mesh_start_tag() {
    let mut parser = Parser::new(vec![start("source", &[])], None);
    assert_eq!(error_of(read_mesh(&mut parser, "Cube-mesh")), "Expected \"mesh\" tag");
}

#[test]
fn source_ids_begin_with_mesh_id() {
    let mut ev = vec![start("mesh", &[])];
    ev.extend(source_events("Other-positions"));
    let mut parser = Parser::new(ev, None);
    assert_eq!(
        error_of(read_mesh(&mut parser, "Cube-mesh")),
        "Source ID shoult begin with ID of mesh : Cube-mesh / Other-positions"
    );
    let mut parser = Parser::new(vec![start("mesh", &[]), start("source", &[])], None);
    assert_eq!(error_of(read_mesh(&mut parser, "Cube-mesh")), "Source of mesh needs id");
}

#[test]
fn source_id_equal_to_mesh_id_reports_panic() {
    let mut ev = vec![start("mesh", &[])];
    ev.extend(source_events("Cube-mesh"));
    let mut parser = Parser::new(ev, None);
    assert!(matches!(read_mesh(&mut parser, "Cube-mesh"), Err(MeshFailure::Panic(_))));
}

#[test]
fn duplicate_source_ids_are_refused() {
    let mut ev = vec![start("mesh", &[])];
    ev.extend(source_events("Cube-mesh-positions"));
    ev.extend(source_events("Cube-mesh-positions"));
    let mut parser = Parser::new(ev, None);
    assert_eq!(error_of(read_mesh(&mut parser, "Cube-mesh")), "Duplicate source id Cube-mesh-positions");
}

#[test]
fn source_read_failure_names_the_source() {
    let mut parser = Parser::new(vec![start("mesh", &[]), start("source", &[("id", "Cube-mesh-positions")])], None);
    let mut reader = MeshReader::start(&mut parser, &String::from("Cube-mesh")).ok().unwrap();
    match reader.resume(&mut parser) {
        Ok(MeshStep::NeedSource { id, source_type }) => {
            assert_eq!(id, "Cube-mesh-positions");
            assert_eq!(source_type, "positions");
        },
        _ => panic!("expected a source"),
    }
    let r = reader.provide_source(Err(String::from("bad array")));
    assert_eq!(r.err().unwrap(), "Source id: Cube-mesh-positions error : bad array");
}

#[test]
fn vertices_input_needs_known_source() {
    let ev = vec![
        start("mesh", &[]),
        start("vertices", &[("id", "Cube-mesh-vertices")]),
        start("input", &[("semantic", "POSITION"), ("source", "#Cube-mesh-positions")]),
    ];
    let mut parser = Parser::new(ev, None);
    assert_eq!(
        error_of(read_mesh(&mut parser, "Cube-mesh")),
        "Source with id \"Cube-mesh-positions\" does not exists"
    );
    let ev = vec![start("mesh", &[]), start("vertices", &[])];
    let mut parser = Parser::new(ev, None);
    assert_eq!(error_of(read_mesh(&mut parser, "Cube-mesh")), "ID does not exists");
}

#[test]
fn unknown_vertex_semantics_are_refused() {
    let mut ev = vec![start("mesh", &[])];
    ev.extend(source_events("Cube-mesh-positions"));
    ev.extend(vec![
        start("polylist", &[("count", "1")]),
        start("input", &[("semantic", "VERTEX"), ("source", "#Cube-mesh-positions")]),
        end("input"),
        start("p", &[]),
        text("0 0 0"),
        end("p"),
        end("polylist"),
    ]);
    let mut parser = Parser::new(ev, None);
    assert_eq!(error_of(read_mesh(&mut parser, "Cube-mesh")), "Unknown vertex semantic \"VERTEX(fXfYfZ)\"");
}

#[test]
fn polylist_needs_count_and_indexes() {
    let ev = vec![start("mesh", &[]), start("polylist", &[])];
    let mut parser = Parser::new(ev, None);
    assert_eq!(error_of(read_mesh(&mut parser, "Cube-mesh")), "Count does not exists");
    let ev = vec![start("mesh", &[]), start("polylist", &[("count", "x1")])];
    let mut parser = Parser::new(ev, None);
    assert_eq!(error_of(read_mesh(&mut parser, "Cube-mesh")), "Can not parse count \"x1\"");
    let ev = vec![start("mesh", &[]), start("polylist", &[("count", "1")]), end("polylist")];
    let mut parser = Parser::new(ev, None);
    assert_eq!(error_of(read_mesh(&mut parser, "Cube-mesh")), "Polygon indexes has not been specified");
}

#[test]
fn unexpected_end_tag_in_mesh() {
    let ev = vec![start("mesh", &[]), end("geometry")];
    let mut parser = Parser::new(ev, None);
    assert_eq!(error_of(read_mesh(&mut parser, "Cube-mesh")), "Unexpected end tag \"geometry\"");
}

fn document(mesh: Vec<Event>) -> Vec<Event> {
    let mut ev = vec![
        Event::StartDocument,
        Event::StartElement {
            name: XmlName {
                local_name: String::from("COLLADA"),
                namespace: Some(String::from("http://www.collada.org/2005/11/COLLADASchema")),
            },
            attributes: vec![],
        },
        ws(),
        start("asset", &[]),
        start("unit", &[("meter", "1")]),
        end("unit"),
        end("asset"),
        start("library_geometries", &[]),
        ws(),
        start("geometry", &[("id", "Cube-mesh"), ("name", "Cube")]),
    ];
    ev.extend(mesh);
    ev.extend(vec![ws(), end("geometry"), end("library_geometries"), end("COLLADA"), Event::EndDocument]);
    ev
}

/// Walks a document as the converter does.
fn convert(parser: &mut Parser) -> Result<Vec<(String, String, usize)>, String> {
    let mut model = ModelReader::start(parser, "model.dae")?;
    let mut found = Vec::new();
    loop {
        match model.resume(parser)? {
            ModelStep::Geometry { id, name } => {
                let read = match read_mesh(parser, &id) {
                    Ok(g) => Ok(g),
                    Err(MeshFailure::Error(e)) => Err(e),
                    Err(MeshFailure::Panic(m)) => panic!("{}", m),
                };
                let geometries = model.finish_geometry(parser, &id, read)?;
                found.push((id, name, geometries.len()));
            },
            ModelStep::Finished => return Ok(found),
        }
    }
}

#[test]
fn document_with_one_geometry() {
    let mut parser = Parser::new(document(mesh_events(GOOD_P)), None);
    let found = convert(&mut parser).ok().unwrap();
    assert_eq!(found, vec![(String::from("Cube-mesh"), String::from("Cube"), 1)]);
}

#[test]
fn document_geometry_errors_name_the_geometry() {
    let mut parser = Parser::new(document(mesh_events("0")), None);
    assert_eq!(
        convert(&mut parser).err().unwrap(),
        "Geometry id : Cube-mesh convertAsList.len()*polygonsCount*3 != polygonIndexes.len()"
    );
}

#[test]
fn document_must_be_collada() {
    let mut parser = Parser::new(vec![Event::StartDocument, start("html", &[])], None);
    assert_eq!(convert(&mut parser).err().unwrap(), "File \"model.dae\" is no collada file");
}

#[test]
fn geometry_needs_name_and_id() {
    let ev = vec![
        Event::StartDocument,
        Event::StartElement {
            name: XmlName {
                local_name: String::from("COLLADA"),
                namespace: Some(String::from("http://www.collada.org/2005/11/COLLADASchema")),
            },
            attributes: vec![],
        },
        start("library_geometries", &[]),
        start("geometry", &[("id", "Cube-mesh")]),
    ];
    let mut parser = Parser::new(ev, None);
    assert_eq!(convert(&mut parser).err().unwrap(), "mesh name has not been specified");
}

#[test]
fn geometry_must_end_after_mesh() {
    let mut mesh = mesh_events(GOOD_P);
    mesh.push(start("extra", &[]));
    let mut parser = Parser::new(document(mesh), None);
    assert_eq!(convert(&mut parser).err().unwrap(), "Expected geometry end tag");
}

#[test]
fn document_ending_early() {
    let ev = vec![
        Event::StartDocument,
        Event::StartElement {
            name: XmlName {
                local_name: String::from("COLLADA"),
                namespace: Some(String::from("http://www.collada.org/2005/11/COLLADASchema")),
            },
            attributes: vec![],
        },
        start("library_geometries", &[]),
        end("library_geometries"),
        end("scene"),
    ];
    let mut parser = Parser::new(ev, None);
    assert_eq!(convert(&mut parser).err().unwrap(), "Unexpected end tag \"scene\"");
    let ev = vec![
        Event::StartDocument,
        Event::StartElement {
            name: XmlName {
                local_name: String::from("COLLADA"),
                namespace: Some(String::from("http://www.collada.org/2005/11/COLLADASchema")),
            },
            attributes: vec![],
        },
        Event::EndDocument,
    ];
    let mut parser = Parser::new(ev, None);
    assert_eq!(convert(&mut parser).err().unwrap(), "Unexpected end of file");
}

#[test]
fn vertices_cannot_take_an_id_in_use() {
    let mut ev = vec![start("mesh", &[])];
    ev.extend(source_events("Cube-mesh-positions"));
    ev.extend(source_events("Cube-mesh-normals"));
    ev.push(start("vertices", &[("id", "Cube-mesh-positions")]));
    ev.push(start("input", &[("semantic", "POSITION"), ("source", "#Cube-mesh-normals")]));
    ev.push(end("input"));
    ev.push(end("vertices"));
    let mut parser = Parser::new(ev, None);
    assert_eq!(
        error_of(read_mesh(&mut parser, "Cube-mesh")),
        "input tag:Source \"Cube-mesh-positions\" already exists"
    );
}

#[test]
fn inputs_of_other_semantics_are_ignored() {
    let mut ev = vec![start("mesh", &[])];
    ev.extend(source_events("Cube-mesh-positions"));
    ev.extend(source_events("Cube-mesh-normals"));
    ev.extend(source_events("Cube-mesh-map-0"));
    ev.extend(source_events("Cube-mesh-colors"));
    ev.push(start("vertices", &[("id", "Cube-mesh-vertices")]));
    ev.push(start("input", &[("semantic", "POSITION"), ("source", "#Cube-mesh-positions")]));
    ev.push(end("input"));
    ev.push(end("vertices"));
    let mut poly = polylist_events("1", "0 0 0 0 0 0 0 0 0 1 1 1 0 0 0 1 1 0 2 2 2 0 0 0 2 2 0");
    poly.insert(7, end("input"));
    poly.insert(7, start("input", &[("semantic", "COLOR"), ("source", "#Cube-mesh-colors"), ("offset", "3")]));
    ev.extend(poly);
    ev.push(end("mesh"));
    let mut parser = Parser::new(ev, None);
    let geometries = read_mesh(&mut parser, "Cube-mesh").ok().unwrap();
    assert_eq!(geometries.len(), 1);
    assert_eq!(geometries[0].data(), &expected_vertex_data());
}

#[test]
fn each_polylist_keeps_its_material() {
    let mut ev = mesh_events(GOOD_P);
    ev.pop();
    let mut second = polylist_events("1", GOOD_P);
    second[0] = start("polylist", &[("material", "Glass-material"), ("count", "1")]);
    ev.extend(second);
    let mut third = polylist_events("1", GOOD_P);
    third[0] = start("polylist", &[("count", "1")]);
    ev.extend(third);
    ev.push(end("mesh"));
    let mut parser = Parser::new(ev, None);
    let geometries = read_mesh(&mut parser, "Cube-mesh").ok().unwrap();
    assert_eq!(geometries.len(), 3);
    assert_eq!(geometries[0].material().map(|m| m.as_str()), Some("Material-material"));
    assert_eq!(geometries[1].material().map(|m| m.as_str()), Some("Glass-material"));
    assert!(geometries[2].material().is_none());
    for g in &geometries {
        assert_eq!(g.data(), &expected_vertex_data());
    }
}

#[test]
fn a_finished_mesh_read_stops_after_its_end_tag() {
    let mut ev = mesh_events(GOOD_P);
    ev.push(start("after", &[]));
    let mut parser = Parser::new(ev, None);
    read_mesh(&mut parser, "Cube-mesh").ok().unwrap();
    assert!(matches!(parser.next(), Ok(Event::StartElement { name, .. }) if name.local_name == "after"));
}

#[test]
fn polylists_report_their_semantics_and_ignored_inputs() {
    let mut ev = vec![start("mesh", &[])];
    ev.extend(source_events("Cube-mesh-positions"));
    ev.extend(source_events("Cube-mesh-normals"));
    ev.extend(source_events("Cube-mesh-map-0"));
    ev.extend(source_events("Cube-mesh-colors"));
    ev.push(start("vertices", &[("id", "Cube-mesh-vertices")]));
    ev.push(start("input", &[("semantic", "POSITION"), ("source", "#Cube-mesh-positions")]));
    ev.push(end("input"));
    ev.push(end("vertices"));
    let mut poly = polylist_events("1", "0 0 0 0 0 0 0 0 0 1 1 1 0 0 0 1 1 0 2 2 2 0 0 0 2 2 0");
    poly.insert(7, end("input"));
    poly.insert(7, start("input", &[("semantic", "COLOR"), ("source", "#Cube-mesh-colors"), ("offset", "3")]));
    ev.extend(poly);
    ev.push(end("mesh"));
    let mut parser = Parser::new(ev, None);
    let mut reader = MeshReader::start(&mut parser, &String::from("Cube-mesh")).ok().unwrap();
    loop {
        match reader.resume(&mut parser).ok().unwrap() {
            MeshStep::NeedSource { id: _, source_type } => {
                skip(&mut parser, String::from("source")).ok().unwrap();
                reader.provide_source(Ok(source_of(&source_type))).ok().unwrap();
            },
            MeshStep::Finished => break,
        }
    }
    let notes = reader.notes();
    assert_eq!(notes.len(), 1);
    assert_eq!(notes[0].semantics, "VERTEX(fXfYfZ) NORMAL(fXfYfZ) TEXCOORD(fSfT)");
    assert_eq!(notes[0].ignored, vec![String::from("COLOR")]);
}
