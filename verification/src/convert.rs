use vstd::prelude::*;
use vstd::string::*;

use crate::collada::{
    checkCollada, collada_header_run, end_message, err_view, lemma_skip_run_len, skip, skip_run,
    Parser,
};
use crate::geometry::Geometry;
use crate::reader::find_attribute;
use crate::text::{concat3, str_eq};
use crate::xml::{last_attribute, XmlAttribute, Event};

verus! {

/// Where a walk through a document stopped.
pub enum ModelStep {
    /// The start tag of a geometry with this id and name has been read; its
    /// mesh is still to be read.
    Geometry { id: String, name: String },
    /// The end tag of the root element has been read.
    Finished,
}

/// Where a walk through a document stops, as a value of the model.
pub enum ModelRun {
    Geometry { id: Seq<char>, name: Seq<char> },
    Finished,
    Failed(Seq<char>),
}

/// The id and name of a geometry from the attributes of its start tag, or the
/// message for the one that is missing; the name is looked for first.
pub open spec fn geometry_names(attrs: Seq<XmlAttribute>) -> Result<(Seq<char>, Seq<char>), Seq<char>> {
    match last_attribute(attrs, "name"@) {
        None => Err("mesh name has not been specified"@),
        Some(n) => match last_attribute(attrs, "id"@) {
            None => Err("mesh id has not been specified"@),
            Some(id) => Ok((id, n)),
        },
    }
}

/// The message for an end tag that closes nothing open.
pub open spec fn unexpected_end_message(name: Seq<char>) -> Seq<char> {
    "Unexpected end tag \""@ + name + "\""@
}

/// Walking through a document, inside `<library_geometries>` or not, up to the
/// next geometry start tag or the end of the root element: where it stops,
/// whether it is then inside the library, and how many events are read.
/// Elements other than the library are skipped whole; inside the library,
/// only geometry start tags and end tags count.
pub open spec fn model_run(evs: Seq<Event>, failure: Option<Seq<char>>, in_library: bool) -> (
    ModelRun,
    bool,
    nat,
)
    decreases evs.len(),
{
    if evs.len() == 0 {
        (ModelRun::Failed(end_message(failure)), in_library, 0)
    } else {
        match evs[0] {
            Event::EndDocument => (ModelRun::Failed("Unexpected end of file"@), in_library, 1),
            Event::StartElement { name, attributes } => if in_library {
                if name.local_name@ == "geometry"@ {
                    match geometry_names(attributes@) {
                        Err(m) => (ModelRun::Failed(m), true, 1),
                        Ok((id, n)) => (ModelRun::Geometry { id, name: n }, true, 1),
                    }
                } else {
                    let (r, l, n) = model_run(evs.drop_first(), failure, true);
                    (r, l, n + 1)
                }
            } else if name.local_name@ == "library_geometries"@ {
                let (r, l, n) = model_run(evs.drop_first(), failure, true);
                (r, l, n + 1)
            } else {
                let (s, n) = skip_run(evs.drop_first(), failure, seq![name.local_name@]);
                match s {
                    Err(m) => (ModelRun::Failed(m), false, n + 1),
                    Ok(_) => {
                        proof {
                            lemma_skip_run_len(evs.drop_first(), failure, seq![name.local_name@]);
                        }
                        let (r, l, n2) = model_run(evs.skip(n as int + 1), failure, false);
                        (r, l, n2 + n + 1)
                    },
                }
            },
            Event::EndElement { name } => if in_library {
                if name.local_name@ == "library_geometries"@ {
                    let (r, l, n) = model_run(evs.drop_first(), failure, false);
                    (r, l, n + 1)
                } else {
                    (ModelRun::Failed(unexpected_end_message(name.local_name@)), true, 1)
                }
            } else if name.local_name@ == "COLLADA"@ {
                (ModelRun::Finished, false, 1)
            } else {
                (ModelRun::Failed(unexpected_end_message(name.local_name@)), false, 1)
            },
            _ => {
                let (r, l, n) = model_run(evs.drop_first(), failure, in_library);
                (r, l, n + 1)
            },
        }
    }
}

/// A walk that stops at a geometry stops right after a `<geometry>` start tag
/// read inside `<library_geometries>`, whose `id` and `name` it reports, and
/// it is still inside the library afterwards, so that the next walk goes on
/// to the library's next geometry.
pub proof fn lemma_geometry_step_in_library(evs: Seq<Event>, failure: Option<Seq<char>>, in_library: bool)
    ensures
        model_run(evs, failure, in_library).0 matches ModelRun::Geometry { id, name } ==> {
            let n = model_run(evs, failure, in_library).2;
            &&& model_run(evs, failure, in_library).1
            &&& 1 <= n <= evs.len()
            &&& evs[n - 1] matches Event::StartElement { name: tag, attributes }
            &&& evs[n - 1]->StartElement_name.local_name@ == "geometry"@
            &&& last_attribute(evs[n - 1]->StartElement_attributes@, "id"@) == Some(id)
            &&& last_attribute(evs[n - 1]->StartElement_attributes@, "name"@) == Some(name)
        },
    decreases evs.len(),
{
    if evs.len() > 0 {
        match evs[0] {
            Event::StartElement { name, attributes } => {
                if in_library {
                    if name.local_name@ != "geometry"@ {
                        let rest = evs.drop_first();
                        lemma_geometry_step_in_library(rest, failure, true);
                        let n2 = model_run(rest, failure, true).2;
                        if model_run(rest, failure, true).0 is Geometry {
                            assert(rest[n2 - 1] == evs[n2 as int]);
                        }
                    }
                } else if name.local_name@ == "library_geometries"@ {
                    let rest = evs.drop_first();
                    lemma_geometry_step_in_library(rest, failure, true);
                    let n2 = model_run(rest, failure, true).2;
                    if model_run(rest, failure, true).0 is Geometry {
                        assert(rest[n2 - 1] == evs[n2 as int]);
                    }
                } else {
                    let (s, n) = skip_run(evs.drop_first(), failure, seq![name.local_name@]);
                    if s is Ok {
                        lemma_skip_run_len(evs.drop_first(), failure, seq![name.local_name@]);
                        let rest = evs.skip(n as int + 1);
                        lemma_geometry_step_in_library(rest, failure, false);
                        let n2 = model_run(rest, failure, false).2;
                        if model_run(rest, failure, false).0 is Geometry {
                            assert(rest[n2 - 1] == evs[n + 1 + n2 - 1]);
                        }
                    }
                }
            },
            Event::EndElement { name } => {
                if in_library && name.local_name@ == "library_geometries"@ {
                    let rest = evs.drop_first();
                    lemma_geometry_step_in_library(rest, failure, false);
                    let n2 = model_run(rest, failure, false).2;
                    if model_run(rest, failure, false).0 is Geometry {
                        assert(rest[n2 - 1] == evs[n2 as int]);
                    }
                }
            },
            Event::EndDocument => {},
            _ => {
                let rest = evs.drop_first();
                lemma_geometry_step_in_library(rest, failure, in_library);
                let n2 = model_run(rest, failure, in_library).2;
                if model_run(rest, failure, in_library).0 is Geometry {
                    assert(rest[n2 - 1] == evs[n2 as int]);
                }
            },
        }
    }
}

/// Inside the library, a `<geometry>` start tag with an `id` and a `name` is
/// reported at once, and the walk stays inside the library: each geometry of
/// the library is reached in turn.
pub proof fn lemma_next_geometry_reported(evs: Seq<Event>, failure: Option<Seq<char>>)
    requires
        evs.len() > 0,
        evs[0] matches Event::StartElement { name, attributes } && name.local_name@ == "geometry"@
            && last_attribute(attributes@, "id"@) is Some && last_attribute(attributes@, "name"@) is Some,
    ensures
        model_run(evs, failure, true) == (
            ModelRun::Geometry {
                id: last_attribute(evs[0]->StartElement_attributes@, "id"@)->0,
                name: last_attribute(evs[0]->StartElement_attributes@, "name"@)->0,
            },
            true,
            1nat,
        ),
{
}

/// Outside the library, an end tag of `<library_geometries>` closes nothing
/// that is open: the walk fails on it.
pub proof fn lemma_stray_library_end_fails(evs: Seq<Event>, failure: Option<Seq<char>>)
    requires
        evs.len() > 0,
        evs[0] matches Event::EndElement { name } && name.local_name@ == "library_geometries"@,
    ensures
        model_run(evs, failure, false).0 is Failed,
        model_run(evs, failure, false).2 == 1,
{
    reveal_strlit("library_geometries");
    reveal_strlit("COLLADA");
    assert("library_geometries"@ != "COLLADA"@) by {
        assert("library_geometries"@.len() != "COLLADA"@.len());
    }
}

/// A walk that finishes stops right after the end tag of the root element,
/// read outside the library.
pub proof fn lemma_finished_at_root_end(evs: Seq<Event>, failure: Option<Seq<char>>, in_library: bool)
    ensures
        model_run(evs, failure, in_library).0 is Finished ==> {
            let n = model_run(evs, failure, in_library).2;
            &&& !model_run(evs, failure, in_library).1
            &&& 1 <= n <= evs.len()
            &&& evs[n - 1] matches Event::EndElement { name }
            &&& evs[n - 1]->EndElement_name.local_name@ == "COLLADA"@
        },
    decreases evs.len(),
{
    if evs.len() > 0 {
        match evs[0] {
            Event::StartElement { name, attributes } => {
                if in_library {
                    if name.local_name@ != "geometry"@ {
                        let rest = evs.drop_first();
                        lemma_finished_at_root_end(rest, failure, true);
                        let n2 = model_run(rest, failure, true).2;
                        if model_run(rest, failure, true).0 is Finished {
                            assert(rest[n2 - 1] == evs[n2 as int]);
                        }
                    }
                } else if name.local_name@ == "library_geometries"@ {
                    let rest = evs.drop_first();
                    lemma_finished_at_root_end(rest, failure, true);
                    let n2 = model_run(rest, failure, true).2;
                    if model_run(rest, failure, true).0 is Finished {
                        assert(rest[n2 - 1] == evs[n2 as int]);
                    }
                } else {
                    let (s, n) = skip_run(evs.drop_first(), failure, seq![name.local_name@]);
                    if s is Ok {
                        lemma_skip_run_len(evs.drop_first(), failure, seq![name.local_name@]);
                        let rest = evs.skip(n as int + 1);
                        lemma_finished_at_root_end(rest, failure, false);
                        let n2 = model_run(rest, failure, false).2;
                        if model_run(rest, failure, false).0 is Finished {
                            assert(rest[n2 - 1] == evs[n + 1 + n2 - 1]);
                        }
                    }
                }
            },
            Event::EndElement { name } => {
                if in_library && name.local_name@ == "library_geometries"@ {
                    let rest = evs.drop_first();
                    lemma_finished_at_root_end(rest, failure, false);
                    let n2 = model_run(rest, failure, false).2;
                    if model_run(rest, failure, false).0 is Finished {
                        assert(rest[n2 - 1] == evs[n2 as int]);
                    }
                }
            },
            Event::EndDocument => {},
            _ => {
                let rest = evs.drop_first();
                lemma_finished_at_root_end(rest, failure, in_library);
                let n2 = model_run(rest, failure, in_library).2;
                if model_run(rest, failure, in_library).0 is Finished {
                    assert(rest[n2 - 1] == evs[n2 as int]);
                }
            },
        }
    }
}

/// The message for a geometry that does not end right after its mesh.
pub open spec fn geometry_end_message() -> Seq<char> {
    "Expected geometry end tag"@
}

/// Reading up to the end tag of a geometry after its mesh, passing over white
/// space and comments: the outcome and how many events are read.
pub open spec fn geometry_end_run(evs: Seq<Event>, failure: Option<Seq<char>>) -> (
    Result<(), Seq<char>>,
    nat,
)
    decreases evs.len(),
{
    if evs.len() == 0 {
        (Err(end_message(failure)), 0)
    } else {
        match evs[0] {
            Event::EndDocument => (Err("Unexpected end of file"@), 1),
            Event::EndElement { name } => if name.local_name@ == "geometry"@ {
                (Ok(()), 1)
            } else {
                (Err(geometry_end_message()), 1)
            },
            Event::Whitespace(_) => {
                let (r, n) = geometry_end_run(evs.drop_first(), failure);
                (r, n + 1)
            },
            Event::Comment(_) => {
                let (r, n) = geometry_end_run(evs.drop_first(), failure);
                (r, n + 1)
            },
            _ => (Err(geometry_end_message()), 1),
        }
    }
}

/// The message for a file that does not start as a COLLADA document.
pub open spec fn not_collada_message(file_name: Seq<char>) -> Seq<char> {
    "File \""@ + file_name + "\" is no collada file"@
}

/// Walks through the elements of a COLLADA document to its geometries. The
/// mesh of each geometry is read by the caller between `resume`, which stops
/// at the geometry's start tag, and `finish_geometry`.
pub struct ModelReader {
    in_library: bool,
}

impl ModelReader {
    /// Whether the walk is inside `<library_geometries>`.
    pub closed spec fn in_library(&self) -> bool {
        self.in_library
    }

    /// Checks that the document read from `inFileName` starts as a COLLADA
    /// document.
    #[allow(non_snake_case)]
    pub fn start(parser: &mut Parser, inFileName: &str) -> (r: Result<ModelReader, String>)
        ensures
            final(parser).remaining() == old(parser).remaining().skip(
                collada_header_run(old(parser).remaining()).1 as int,
            ),
            final(parser).failure() == old(parser).failure(),
            collada_header_run(old(parser).remaining()).0 ==> (r matches Ok(m) && !m.in_library()),
            !collada_header_run(old(parser).remaining()).0 ==> (r matches Err(e) && e@
                == not_collada_message(inFileName@)),
    {
        if !checkCollada(parser) {
            return Err(concat3("File \"", inFileName, "\" is no collada file"));
        }
        Ok(ModelReader { in_library: false })
    }

    /// Walks up to the start tag of the next geometry, whose id and name it
    /// gives, or up to the end of the root element.
    pub fn resume(&mut self, parser: &mut Parser) -> (r: Result<ModelStep, String>)
        ensures
            ({
                let (run, lib, n) = model_run(
                    old(parser).remaining(),
                    old(parser).failure(),
                    old(self).in_library(),
                );
                &&& final(parser).remaining() == old(parser).remaining().skip(n as int)
                &&& final(parser).failure() == old(parser).failure()
                &&& final(self).in_library() == lib
                &&& match run {
                    ModelRun::Geometry { id, name } => r matches Ok(
                        ModelStep::Geometry { id: x, name: y },
                    ) && x@ == id && y@ == name,
                    ModelRun::Finished => r matches Ok(ModelStep::Finished),
                    ModelRun::Failed(m) => r matches Err(e) && e@ == m,
                }
            }),
            r matches Ok(ModelStep::Geometry { .. }) ==> final(self).in_library(),
            r matches Ok(ModelStep::Finished) ==> !final(self).in_library(),
    {
        let ghost all = parser.remaining();
        let ghost f = parser.failure();
        let ghost total = model_run(all, f, self.in_library);
        proof {
            lemma_geometry_step_in_library(all, f, self.in_library);
            lemma_finished_at_root_end(all, f, self.in_library);
        }
        loop
            invariant
                parser.failure() == f,
                all == old(parser).remaining(),
                f == old(parser).failure(),
                total == model_run(all, f, old(self).in_library),
                0 <= all.len() - parser.remaining().len(),
                parser.remaining() == all.skip(all.len() - parser.remaining().len()),
                total.0 == model_run(parser.remaining(), f, self.in_library).0,
                total.1 == model_run(parser.remaining(), f, self.in_library).1,
                total.2 == (all.len() - parser.remaining().len()) + model_run(
                    parser.remaining(),
                    f,
                    self.in_library,
                ).2,
            decreases parser.remaining().len(),
        {
            let ghost cur = parser.remaining();
            let ghost consumed = all.len() - cur.len();
            let ev = match parser.next() {
                Ok(e) => e,
                Err(m) => {
                    assert(parser.remaining() =~= all.skip(total.2 as int));
                    return Err(m);
                },
            };
            assert(parser.remaining() =~= all.skip(consumed + 1));
            match ev {
                Event::StartElement { name, attributes } => {
                    if self.in_library {
                        if str_eq(name.local_name.as_str(), "geometry") {
                            assert(parser.remaining() =~= all.skip(total.2 as int));
                            let mesh_name = match find_attribute(&attributes, "name") {
                                Some(n) => n,
                                None => return Err(
                                    String::from_str("mesh name has not been specified"),
                                ),
                            };
                            let mesh_id = match find_attribute(&attributes, "id") {
                                Some(i) => i,
                                None => return Err(String::from_str("mesh id has not been specified")),
                            };
                            return Ok(ModelStep::Geometry { id: mesh_id, name: mesh_name });
                        }
                    } else if str_eq(name.local_name.as_str(), "library_geometries") {
                        self.in_library = true;
                    } else {
                        let ghost mid = parser.remaining();
                        proof {
                            lemma_skip_run_len(mid, f, seq![name.local_name@]);
                        }
                        match skip(parser, name.local_name) {
                            Ok(()) => {},
                            Err(m) => {
                                assert(parser.remaining() =~= all.skip(total.2 as int));
                                return Err(m);
                            },
                        }
                        let ghost n = skip_run(mid, f, seq![cur[0]->StartElement_name.local_name@]).1;
                        assert(mid.skip(n as int) =~= cur.skip(n as int + 1));
                        assert(parser.remaining() =~= all.skip(consumed + 1 + n));
                    }
                },
                Event::EndElement { name } => {
                    if self.in_library {
                        if str_eq(name.local_name.as_str(), "library_geometries") {
                            self.in_library = false;
                        } else {
                            assert(parser.remaining() =~= all.skip(total.2 as int));
                            return Err(concat3("Unexpected end tag \"", name.local_name.as_str(), "\""));
                        }
                    } else {
                        assert(parser.remaining() =~= all.skip(total.2 as int));
                        if str_eq(name.local_name.as_str(), "COLLADA") {
                            return Ok(ModelStep::Finished);
                        } else {
                            return Err(concat3("Unexpected end tag \"", name.local_name.as_str(), "\""));
                        }
                    }
                },
                _ => {},
            }
        }
    }

    /// Takes the outcome of reading the mesh of the geometry `meshID`, whose
    /// start tag `resume` read, and reads the geometry's end tag.
    #[allow(non_snake_case)]
    pub fn finish_geometry(
        &mut self,
        parser: &mut Parser,
        meshID: &str,
        read: Result<Vec<Geometry>, String>,
    ) -> (r: Result<Vec<Geometry>, String>)
        ensures
            final(self).in_library() == old(self).in_library(),
            final(parser).failure() == old(parser).failure(),
            match read {
                Err(e) => r matches Err(m) && m@ == "Geometry id : "@ + meshID@ + " "@ + e@
                    && final(parser).remaining() == old(parser).remaining(),
                Ok(g) => {
                    let (res, n) = geometry_end_run(old(parser).remaining(), old(parser).failure());
                    &&& final(parser).remaining() == old(parser).remaining().skip(n as int)
                    &&& match res {
                        Ok(_) => r == Ok::<Vec<Geometry>, String>(g),
                        Err(m) => r matches Err(e) && e@ == m,
                    }
                },
            },
    {
        let ghost given = read;
        let geometries = match read {
            Ok(g) => g,
            Err(e) => {
                let mut m = concat3("Geometry id : ", meshID, " ");
                m.append(e.as_str());
                return Err(m);
            },
        };
        let ghost all = parser.remaining();
        let ghost f = parser.failure();
        let ghost total = geometry_end_run(all, f);
        loop
            invariant
                parser.failure() == f,
                all == old(parser).remaining(),
                f == old(parser).failure(),
                total == geometry_end_run(all, f),
                given == read,
                given == Ok::<Vec<Geometry>, String>(geometries),
                0 <= all.len() - parser.remaining().len(),
                parser.remaining() == all.skip(all.len() - parser.remaining().len()),
                total.0 == geometry_end_run(parser.remaining(), f).0,
                total.1 == (all.len() - parser.remaining().len()) + geometry_end_run(
                    parser.remaining(),
                    f,
                ).1,
            decreases parser.remaining().len(),
        {
            let ghost cur = parser.remaining();
            let ghost consumed = all.len() - cur.len();
            let ev = match parser.next() {
                Ok(e) => e,
                Err(m) => {
                    assert(parser.remaining() =~= all.skip(total.1 as int));
                    return Err(m);
                },
            };
            assert(parser.remaining() =~= all.skip(consumed + 1));
            match ev {
                Event::EndElement { name } => {
                    assert(parser.remaining() =~= all.skip(total.1 as int));
                    if !str_eq(name.local_name.as_str(), "geometry") {
                        return Err(String::from_str("Expected geometry end tag"));
                    }
                    return Ok(geometries);
                },
                Event::Whitespace(_) | Event::Comment(_) => {},
                _ => {
                    assert(parser.remaining() =~= all.skip(total.1 as int));
                    return Err(String::from_str("Expected geometry end tag"));
                },
            }
        }
    }
}

} // verus!
