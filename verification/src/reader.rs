use vstd::prelude::*;
use vstd::string::*;

use crate::collada::{
    err_view, waitStartTag, wait_start_run, lemma_skip_run_len, lemma_wait_end_run_len, next_result, skip, skip_run, waitEndTag, wait_end_run, Parser,
};
use crate::geometry::{entry_ok, index_count_message, input_values, triangle_bytes, ConvertTo, Geometry};
use crate::numbers::{parse_usize, words};
use crate::polylist::{check_vcount, indexes_result, parse_indexes, vcount_result};
use crate::source::{Source, SourceData};
use crate::text::{
    chars_of, concat3, has_prefix, str_eq, string_of, trim_both, trim_matches, trim_start,
    trim_start_matches,
};
use crate::xml::{last_attribute, XmlAttribute, Event};

verus! {

/// The sources of a mesh by id, as pairs of id and source, no id twice (see
/// `ids_distinct` and `MeshReader::well_formed`). A `BTreeMap<String, Source>`
/// is not used: with `String` keys, vstd's specification of it did not give
/// even that one `insert` into an empty map leaves one entry.
pub struct SourceMap {
    entries: Vec<(String, Source)>,
}

/// The last position of `key` among the ids of `m`.
pub open spec fn find_key(m: Seq<(Seq<char>, Source)>, key: Seq<char>) -> Option<int>
    decreases m.len(),
{
    if m.len() == 0 {
        None
    } else if m.last().0 == key {
        Some(m.len() - 1)
    } else {
        find_key(m.drop_last(), key)
    }
}

pub proof fn lemma_find_key(m: Seq<(Seq<char>, Source)>, key: Seq<char>)
    ensures
        find_key(m, key) matches Some(i) ==> 0 <= i < m.len() && m[i].0 == key,
        find_key(m, key) is None ==> forall|i: int| 0 <= i < m.len() ==> m[i].0 != key,
    decreases m.len(),
{
    if m.len() > 0 && m.last().0 != key {
        lemma_find_key(m.drop_last(), key);
        assert forall|i: int| 0 <= i < m.len() - 1 implies m[i] == m.drop_last()[i] by {}
    }
}

impl SourceMap {
    pub closed spec fn view_entries(&self) -> Seq<(Seq<char>, Source)> {
        self.entries@.map_values(|e: (String, Source)| (e.0@, e.1))
    }

    pub fn new() -> (m: SourceMap)
        ensures
            m.view_entries() == Seq::<(Seq<char>, Source)>::empty(),
    {
        let m = SourceMap { entries: Vec::new() };
        assert(m.view_entries() =~= Seq::<(Seq<char>, Source)>::empty());
        m
    }

    /// The position of the source with id `key`.
    pub fn find(&self, key: &str) -> (r: Option<usize>)
        ensures
            r matches Some(x) ==> find_key(self.view_entries(), key@) == Some(x as int) && x
                < self.view_entries().len(),
            r is None ==> find_key(self.view_entries(), key@) is None,
    {
        let mut i = self.entries.len();
        assert(self.view_entries().take(i as int) =~= self.view_entries());
        while i > 0
            invariant
                i <= self.entries@.len(),
                find_key(self.view_entries(), key@) == find_key(
                    self.view_entries().take(i as int),
                    key@,
                ),
            decreases i,
        {
            let ghost t = self.view_entries().take(i as int);
            if str_eq(self.entries[i - 1].0.as_str(), key) {
                assert(t.last().0 == key@);
                return Some(i - 1);
            }
            assert(t.drop_last() =~= self.view_entries().take(i - 1));
            i = i - 1;
        }
        None
    }

    /// The source at position `i`.
    pub fn get(&self, i: usize) -> (r: &Source)
        requires
            i < self.view_entries().len(),
        ensures
            *r == self.view_entries()[i as int].1,
    {
        &self.entries[i].1
    }

    /// Takes the source at position `i` out of the map.
    pub fn remove(&mut self, i: usize) -> (r: Source)
        requires
            i < old(self).view_entries().len(),
        ensures
            r == old(self).view_entries()[i as int].1,
            final(self).view_entries() == old(self).view_entries().remove(i as int),
    {
        let (_, s) = self.entries.remove(i);
        assert(self.view_entries() =~= old(self).view_entries().remove(i as int));
        s
    }

    /// Adds a source under `key`.
    pub fn insert(&mut self, key: String, s: Source)
        ensures
            final(self).view_entries() == old(self).view_entries().push((key@, s)),
    {
        self.entries.push((key, s));
        assert(self.view_entries() =~= old(self).view_entries().push((key@, s)));
    }
}

/// The value of the last attribute named `key`.
pub fn find_attribute(attrs: &Vec<XmlAttribute>, key: &str) -> (r: Option<String>)
    ensures
        match last_attribute(attrs@, key@) {
            Some(v) => r matches Some(s) && s@ == v,
            None => r is None,
        },
{
    let mut i = attrs.len();
    assert(attrs@.take(i as int) =~= attrs@);
    while i > 0
        invariant
            i <= attrs@.len(),
            last_attribute(attrs@, key@) == last_attribute(attrs@.take(i as int), key@),
        decreases i,
    {
        let ghost t = attrs@.take(i as int);
        if str_eq(attrs[i - 1].name.as_str(), key) {
            assert(t.last() == attrs@[i - 1]);
            return Some(attrs[i - 1].value.clone());
        }
        assert(t.drop_last() =~= attrs@.take(i - 1));
        i = i - 1;
    }
    None
}

/// Where a reading of the mesh stopped.
pub enum MeshStep {
    /// The start tag of a source with this id has been read; its content is
    /// still to be read, as a source whose type is the text after the mesh
    /// id and one separating character.
    NeedSource { id: String, source_type: String },
    /// The end tag of the mesh has been read.
    Finished,
}

/// Why a reading of the mesh ended early.
pub enum MeshFailure {
    /// The document is not a mesh as the converter reads it.
    Error(String),
    /// A step of the conversion cannot be taken on this document: a program
    /// that is meant to behave as the converter does stops here.
    Panic(String),
}

/// What a source start tag asks for.
pub enum SourceRequest {
    Refused(Seq<char>),
    Unsplittable,
    Read { id: Seq<char>, source_type: Seq<char> },
}

/// The source that a `<source>` start tag with `attrs` opens in the mesh `mesh_id`.
pub open spec fn source_request(mesh_id: Seq<char>, attrs: Seq<XmlAttribute>) -> SourceRequest {
    match last_attribute(attrs, "id"@) {
        None => SourceRequest::Refused("Source of mesh needs id"@),
        Some(sid) => if !has_prefix(sid, mesh_id) {
            SourceRequest::Refused(
                "Source ID shoult begin with ID of mesh : "@ + mesh_id + " / "@ + sid,
            )
        } else if sid.len() > mesh_id.len() && (sid[mesh_id.len() as int] as u32) < 128 {
            SourceRequest::Read {
                id: sid,
                source_type: sid.subrange(mesh_id.len() as int + 1, sid.len() as int),
            }
        } else {
            SourceRequest::Unsplittable
        },
    }
}

/// The message of a source id that cannot be split after the mesh id.
pub open spec fn unsplittable_message() -> Seq<char> {
    "source id has no one-byte character after the mesh id to split at"@
}

/// Reads what a `<source>` start tag asks for.
pub fn request_source(mesh_id: &str, attrs: &Vec<XmlAttribute>) -> (r: Result<(String, String), MeshFailure>)
    ensures
        match source_request(mesh_id@, attrs@) {
            SourceRequest::Refused(m) => r matches Err(MeshFailure::Error(e)) && e@ == m,
            SourceRequest::Unsplittable => r matches Err(MeshFailure::Panic(e)) && e@
                == unsplittable_message(),
            SourceRequest::Read { id, source_type } => r matches Ok((x, t)) && x@ == id && t@
                == source_type,
        },
{
    let sid = match find_attribute(attrs, "id") {
        Some(s) => s,
        None => return Err(MeshFailure::Error(String::from_str("Source of mesh needs id"))),
    };
    if !crate::text::starts_with(sid.as_str(), mesh_id) {
        let mut m = concat3("Source ID shoult begin with ID of mesh : ", mesh_id, " / ");
        m.append(sid.as_str());
        return Err(MeshFailure::Error(m));
    }
    let v = chars_of(sid.as_str());
    let m = chars_of(mesh_id);
    if v.len() > m.len() && (v[m.len()] as u32) < 128 {
        let t = string_of(&v, m.len() + 1, v.len());
        Ok((sid, t))
    } else {
        Err(
            MeshFailure::Panic(
                String::from_str(
                    "source id has no one-byte character after the mesh id to split at",
                ),
            ),
        )
    }
}

/// Reading the inputs of `<vertices>` after its start tag, while the sources
/// are `map`: each `<input source="#id">` moves the source `id` to the key
/// `new_id`. The new sources, or the message of the first error, and how many
/// events are read.
pub open spec fn vertices_run(
    evs: Seq<Event>,
    failure: Option<Seq<char>>,
    map: Seq<(Seq<char>, Source)>,
    new_id: Seq<char>,
) -> (Result<Seq<(Seq<char>, Source)>, Seq<char>>, nat)
    decreases evs.len(),
{
    if evs.len() == 0 {
        (Err(crate::collada::end_message(failure)), 0)
    } else {
        match evs[0] {
            Event::EndDocument => (Err("Unexpected end of file"@), 1),
            Event::StartElement { name, attributes } => if name.local_name@ == "input"@ {
                match last_attribute(attributes@, "source"@) {
                    None => (Err("input tag:Source does not exists"@), 1),
                    Some(sid) => {
                        let key = trim_both(sid, '#');
                        match find_key(map, key) {
                            None => (Err("Source with id \""@ + key + "\" does not exists"@), 1),
                            Some(i) => {
                                let rest_map = map.remove(i);
                                if find_key(rest_map, new_id) is Some {
                                    (Err("input tag:Source \""@ + new_id + "\" already exists"@), 1)
                                } else {
                                    let moved = rest_map.push((new_id, map[i].1));
                                    let (r, n) = wait_end_run(evs.drop_first(), failure, "input"@);
                                    match r {
                                        Err(m) => (Err(m), n + 1),
                                        Ok(_) => {
                                            proof {
                                                lemma_wait_end_run_len(
                                                    evs.drop_first(),
                                                    failure,
                                                    "input"@,
                                                );
                                            }
                                            let (r2, n2) = vertices_run(
                                                evs.skip(n as int + 1),
                                                failure,
                                                moved,
                                                new_id,
                                            );
                                            (r2, n2 + n + 1)
                                        },
                                    }
                                }
                            },
                        }
                    },
                }
            } else {
                let (r, n) = skip_run(evs.drop_first(), failure, seq![name.local_name@]);
                match r {
                    Err(m) => (Err(m), n + 1),
                    Ok(_) => {
                        proof {
                            lemma_skip_run_len(evs.drop_first(), failure, seq![name.local_name@]);
                        }
                        let (r2, n2) = vertices_run(evs.skip(n as int + 1), failure, map, new_id);
                        (r2, n2 + n + 1)
                    },
                }
            },
            Event::EndElement { name } => if name.local_name@ == "vertices"@ {
                (Ok(map), 1)
            } else {
                (Err("expected vertices end tag"@), 1)
            },
            _ => {
                let (r2, n2) = vertices_run(evs.drop_first(), failure, map, new_id);
                (r2, n2 + 1)
            },
        }
    }
}

pub proof fn lemma_vertices_run_len(
    evs: Seq<Event>,
    failure: Option<Seq<char>>,
    map: Seq<(Seq<char>, Source)>,
    new_id: Seq<char>,
)
    ensures
        vertices_run(evs, failure, map, new_id).1 <= evs.len(),
    decreases evs.len(),
{
    if evs.len() > 0 {
        lemma_vertices_run_len(evs.drop_first(), failure, map, new_id);
        match evs[0] {
            Event::StartElement { name, attributes } => {
                lemma_skip_run_len(evs.drop_first(), failure, seq![name.local_name@]);
                lemma_wait_end_run_len(evs.drop_first(), failure, "input"@);
                let (r, n) = skip_run(evs.drop_first(), failure, seq![name.local_name@]);
                lemma_vertices_run_len(evs.skip(n as int + 1), failure, map, new_id);
                if let Some(sid) = last_attribute(attributes@, "source"@) {
                    let key = trim_both(sid, '#');
                    if let Some(i) = find_key(map, key) {
                        let moved = map.remove(i).push((new_id, map[i].1));
                        let (r3, n3) = wait_end_run(evs.drop_first(), failure, "input"@);
                        lemma_vertices_run_len(evs.skip(n3 as int + 1), failure, moved, new_id);
                    }
                }
            },
            _ => {},
        }
    }
}

/// Whether no two sources of `m` share an id.
pub open spec fn ids_distinct(m: Seq<(Seq<char>, Source)>) -> bool {
    forall|i: int, j: int| 0 <= i < j < m.len() ==> #[trigger] m[i].0 != #[trigger] m[j].0
}

proof fn lemma_remove_push_distinct(m: Seq<(Seq<char>, Source)>, i: int, key: Seq<char>, s: Source)
    requires
        ids_distinct(m),
        0 <= i < m.len(),
        find_key(m.remove(i), key) is None,
    ensures
        ids_distinct(m.remove(i).push((key, s))),
{
    let rest = m.remove(i);
    lemma_find_key(rest, key);
    let out = rest.push((key, s));
    assert forall|a: int, b: int| 0 <= a < b < out.len() implies #[trigger] out[a].0 != #[trigger] out[b].0 by {
        if b < rest.len() {
            let ia = if a < i { a } else { a + 1 };
            let ib = if b < i { b } else { b + 1 };
            assert(rest[a] == m[ia]);
            assert(rest[b] == m[ib]);
        } else {
            assert(out[a] == rest[a]);
        }
    }
}

/// Moving sources under one id in `<vertices>` never gives two sources one id.
pub proof fn lemma_vertices_run_distinct(
    evs: Seq<Event>,
    failure: Option<Seq<char>>,
    map: Seq<(Seq<char>, Source)>,
    new_id: Seq<char>,
)
    requires
        ids_distinct(map),
    ensures
        vertices_run(evs, failure, map, new_id).0 matches Ok(m) ==> ids_distinct(m),
    decreases evs.len(),
{
    if evs.len() > 0 {
        match evs[0] {
            Event::StartElement { name, attributes } => {
                if name.local_name@ == "input"@ {
                    if let Some(sid) = last_attribute(attributes@, "source"@) {
                        let key = trim_both(sid, '#');
                        if let Some(i) = find_key(map, key) {
                            lemma_find_key(map, key);
                            if find_key(map.remove(i), new_id) is None {
                                lemma_remove_push_distinct(map, i, new_id, map[i].1);
                                let moved = map.remove(i).push((new_id, map[i].1));
                                let (r3, n3) = wait_end_run(evs.drop_first(), failure, "input"@);
                                lemma_wait_end_run_len(evs.drop_first(), failure, "input"@);
                                lemma_vertices_run_distinct(evs.skip(n3 as int + 1), failure, moved, new_id);
                            }
                        }
                    }
                } else {
                    let (r, n) = skip_run(evs.drop_first(), failure, seq![name.local_name@]);
                    lemma_skip_run_len(evs.drop_first(), failure, seq![name.local_name@]);
                    lemma_vertices_run_distinct(evs.skip(n as int + 1), failure, map, new_id);
                }
            },
            Event::EndElement { .. } => {},
            Event::EndDocument => {},
            _ => lemma_vertices_run_distinct(evs.drop_first(), failure, map, new_id),
        }
    }
}

/// Reads `<vertices>` after its start tag: moves the sources its inputs name
/// to the key `new_id`.
#[allow(non_snake_case)]
pub fn read_vertices(parser: &mut Parser, sources: &mut SourceMap, newID: &String) -> (r: Result<(), String>)
    ensures
        ({
            let (res, n) = vertices_run(
                old(parser).remaining(),
                old(parser).failure(),
                old(sources).view_entries(),
                newID@,
            );
            &&& final(parser).remaining() == old(parser).remaining().skip(n as int)
            &&& final(parser).failure() == old(parser).failure()
            &&& match res {
                Ok(m) => r is Ok && final(sources).view_entries() == m,
                Err(m) => r matches Err(e) && e@ == m,
            }
        }),
{
    let ghost all = parser.remaining();
    let ghost f = parser.failure();
    let ghost total = vertices_run(all, f, sources.view_entries(), newID@);
    loop
        invariant
            parser.failure() == f,
            all == old(parser).remaining(),
            f == old(parser).failure(),
            total == vertices_run(all, f, old(sources).view_entries(), newID@),
            0 <= all.len() - parser.remaining().len(),
            parser.remaining() == all.skip(all.len() - parser.remaining().len()),
            total.0 == vertices_run(parser.remaining(), f, sources.view_entries(), newID@).0,
            total.1 == (all.len() - parser.remaining().len()) + vertices_run(
                parser.remaining(),
                f,
                sources.view_entries(),
                newID@,
            ).1,
        decreases parser.remaining().len(),
    {
        let ghost cur = parser.remaining();
        let ghost consumed = all.len() - cur.len();
        let ghost map = sources.view_entries();
        let ev = match parser.next() {
            Ok(e) => e,
            Err(m) => {
                assert(parser.remaining() =~= all.skip(total.1 as int));
                return Err(m);
            },
        };
        assert(parser.remaining() =~= all.skip(consumed + 1));
        match ev {
            Event::StartElement { name, attributes } => {
                if str_eq(name.local_name.as_str(), "input") {
                    let sid = match find_attribute(&attributes, "source") {
                        Some(s) => s,
                        None => {
                            assert(parser.remaining() =~= all.skip(total.1 as int));
                            return Err(String::from_str("input tag:Source does not exists"));
                        },
                    };
                    let key = trim_matches(sid.as_str(), '#');
                    let i = match sources.find(key.as_str()) {
                        Some(i) => i,
                        None => {
                            assert(parser.remaining() =~= all.skip(total.1 as int));
                            return Err(concat3("Source with id \"", key.as_str(), "\" does not exists"));
                        },
                    };
                    proof {
                        lemma_find_key(map, key@);
                    }
                    let source = sources.remove(i);
                    match sources.find(newID.as_str()) {
                        Some(_) => {
                            assert(find_key(map, key@) == Some(i as int));
                            assert(find_key(map.remove(i as int), newID@) is Some);
                            assert(vertices_run(cur, f, map, newID@).1 == 1);
                            assert(parser.remaining() =~= all.skip(total.1 as int));
                            return Err(concat3("input tag:Source \"", newID.as_str(), "\" already exists"));
                        },
                        None => {},
                    }
                    sources.insert(newID.clone(), source);
                    let ghost mid = parser.remaining();
                    proof {
                        lemma_wait_end_run_len(mid, f, "input"@);
                    }
                    match waitEndTag(parser, "input") {
                        Ok(()) => {},
                        Err(m) => {
                            assert(parser.remaining() =~= all.skip(total.1 as int));
                            return Err(m);
                        },
                    }
                    assert(parser.remaining() =~= all.skip(
                        consumed + 1 + wait_end_run(mid, f, "input"@).1,
                    ));
                    assert(mid.skip(wait_end_run(mid, f, "input"@).1 as int) =~= cur.skip(
                        wait_end_run(mid, f, "input"@).1 as int + 1,
                    ));
                } else {
                    let ghost mid = parser.remaining();
                    proof {
                        lemma_skip_run_len(mid, f, seq![name.local_name@]);
                    }
                    match skip(parser, name.local_name) {
                        Ok(()) => {},
                        Err(m) => {
                            assert(parser.remaining() =~= all.skip(total.1 as int));
                            return Err(m);
                        },
                    }
                    assert(mid.skip(skip_run(mid, f, seq![cur[0]->StartElement_name.local_name@]).1 as int)
                        =~= cur.skip(skip_run(mid, f, seq![cur[0]->StartElement_name.local_name@]).1 as int + 1));
                    assert(parser.remaining() =~= all.skip(
                        consumed + 1 + skip_run(mid, f, seq![cur[0]->StartElement_name.local_name@]).1,
                    ));
                }
            },
            Event::EndElement { name } => {
                assert(parser.remaining() =~= all.skip(total.1 as int));
                if str_eq(name.local_name.as_str(), "vertices") {
                    return Ok(());
                } else {
                    return Err(String::from_str("expected vertices end tag"));
                }
            },
            _ => {},
        }
    }
}

/// The value of the `count` attribute of `<polylist>`, read from attribute
/// `i` on while the last value read is `cur`: the message for the first value
/// that is not a number, else the last value.
pub open spec fn count_scan(attrs: Seq<XmlAttribute>, i: int, cur: Option<usize>) -> Result<Option<usize>, Seq<char>>
    decreases attrs.len() - i,
{
    if i >= attrs.len() || i < 0 {
        Ok(cur)
    } else if attrs[i].name@ == "count"@ {
        match parse_usize(attrs[i].value@) {
            None => Err("Can not parse count \""@ + attrs[i].value@ + "\""@),
            Some(c) => count_scan(attrs, i + 1, Some(c)),
        }
    } else {
        count_scan(attrs, i + 1, cur)
    }
}

/// Reads the `count` attribute of `<polylist>`.
pub fn read_count(attrs: &Vec<XmlAttribute>) -> (r: Result<Option<usize>, String>)
    ensures
        match count_scan(attrs@, 0, None) {
            Ok(c) => r == Ok::<Option<usize>, String>(c),
            Err(m) => r matches Err(e) && e@ == m,
        },
{
    let mut cur: Option<usize> = None;
    let mut i: usize = 0;
    while i < attrs.len()
        invariant
            i <= attrs@.len(),
            count_scan(attrs@, 0, None) == count_scan(attrs@, i as int, cur),
        decreases attrs@.len() - i,
    {
        if str_eq(attrs[i].name.as_str(), "count") {
            let v = chars_of(attrs[i].value.as_str());
            assert(v@.subrange(0, v@.len() as int) =~= v@);
            match crate::numbers::parse_usize_chars(&v, 0, v.len()) {
                Some(c) => {
                    cur = Some(c);
                },
                None => {
                    return Err(concat3("Can not parse count \"", attrs[i].value.as_str(), "\""));
                },
            }
        }
        i = i + 1;
    }
    Ok(cur)
}

/// The name of a parameter with the letter of its type before it.
pub open spec fn kind_name(d: SourceData) -> Seq<char> {
    match d {
        SourceData::Float(n, _) => seq!['f'] + n@,
        SourceData::Int(n, _) => seq!['i'] + n@,
    }
}

/// The names of parameters with the letters of their types, in order.
pub open spec fn data_kinds(data: Seq<SourceData>) -> Seq<char>
    decreases data.len(),
{
    if data.len() == 0 {
        Seq::empty()
    } else {
        data_kinds(data.drop_last()) + kind_name(data.last())
    }
}

/// The inputs that make up a vertex: positions, normals and texture coordinates.
pub open spec fn is_vertex_semantic(s: Seq<char>) -> bool {
    s == "VERTEX"@ || s == "NORMAL"@ || s == "TEXCOORD"@
}

/// The one vertex layout the converter writes.
pub open spec fn accepted_vertex_semantics() -> Seq<char> {
    "VERTEX(fXfYfZ) NORMAL(fXfYfZ) TEXCOORD(fSfT)"@
}

/// What the inputs of a `<polylist>` have gathered so far: the sources with
/// whether each is ignored, the vertex semantics text, the semantics of the
/// ignored inputs, and the polygon indexes.
#[verifier::ext_equal]
pub struct PolyAcc {
    pub inputs: Seq<(Source, bool)>,
    pub semantics: Seq<char>,
    pub ignored: Seq<Seq<char>>,
    pub indexes: Option<Seq<usize>>,
}

/// The converted values of the parameters `data` of one source: `None` for each
/// of an ignored source, else `f32` for each while types remain (`tokens`).
pub open spec fn data_entries(data: Seq<SourceData>, ignore: bool, tokens: nat) -> (Seq<Option<(SourceData, ConvertTo)>>, nat)
    decreases data.len(),
{
    if data.len() == 0 {
        (Seq::empty(), tokens)
    } else if ignore {
        let r = data_entries(data.drop_first(), ignore, tokens);
        (seq![None] + r.0, r.1)
    } else if tokens > 0 {
        let r = data_entries(data.drop_first(), ignore, (tokens - 1) as nat);
        (seq![Some((data[0], ConvertTo::to_f32))] + r.0, r.1)
    } else {
        data_entries(data.drop_first(), ignore, tokens)
    }
}

/// The inputs of the vertex data, from the sources of the polygons in order.
pub open spec fn convert_list(inputs: Seq<(Source, bool)>, tokens: nat) -> Seq<Option<(SourceData, ConvertTo)>>
    decreases inputs.len(),
{
    if inputs.len() == 0 {
        Seq::empty()
    } else {
        let (part, t2) = data_entries(inputs[0].0.data@, inputs[0].1, tokens);
        part + convert_list(inputs.drop_first(), t2)
    }
}

/// How many values the one vertex layout has: eight `f32`.
pub open spec fn accepted_type_count() -> nat {
    8
}

/// What reading a `<polylist>` gives.
pub enum PolyResult {
    Built { data: Seq<u8>, count: usize, material: Option<Seq<char>>, notes: SpecNotes },
    Failed(Seq<char>),
    Panicked(Seq<char>),
}

/// What reading a `<polylist>` reports besides its geometry, as values: the
/// vertex semantics text, trimmed of spaces, and the semantics of the inputs
/// that are ignored, in order.
pub struct SpecNotes {
    pub semantics: Seq<char>,
    pub ignored: Seq<Seq<char>>,
}

/// What reading a `<polylist>` reports besides its geometry: the vertex
/// semantics text, trimmed of spaces, and the semantics of the inputs that are
/// ignored, in order.
pub struct PolyNotes {
    pub semantics: String,
    pub ignored: Vec<String>,
}

impl View for PolyNotes {
    type V = SpecNotes;

    open spec fn view(&self) -> SpecNotes {
        SpecNotes { semantics: self.semantics@, ignored: self.ignored@.map_values(|x: String| x@) }
    }
}

/// The message of a polygon index past the values of its source.
pub open spec fn index_range_message() -> Seq<char> {
    "polygon index out of the range of its source"@
}

/// Builds the geometry from what the `<polylist>` gathered, with the material
/// the `<polylist>` names.
pub open spec fn polylist_finish(acc: PolyAcc, count: usize, material: Option<Seq<char>>) -> PolyResult {
    match acc.indexes {
        None => PolyResult::Failed("Polygon indexes has not been specified"@),
        Some(idx) => {
            let sem = trim_both(acc.semantics, ' ');
            if sem != accepted_vertex_semantics() {
                PolyResult::Failed("Unknown vertex semantic \""@ + sem + "\""@)
            } else {
                let list = convert_list(acc.inputs, accepted_type_count());
                if list.len() * count * 3 != idx.len() {
                    PolyResult::Failed(index_count_message())
                } else if !(forall|k: int|
                    0 <= k < idx.len() ==> #[trigger] entry_ok(
                        list[k % (list.len() as int)],
                        idx[k],
                    )) {
                    PolyResult::Panicked(index_range_message())
                } else {
                    PolyResult::Built {
                        data: triangle_bytes(list, idx),
                        count,
                        material,
                        notes: SpecNotes { semantics: sem, ignored: acc.ignored },
                    }
                }
            }
        },
    }
}

/// The text of an element whose start tag has been read: its next event must
/// be characters. The text, or the message of the failure, and how many
/// events are read.
pub open spec fn content_step(evs: Seq<Event>, failure: Option<Seq<char>>, tag: Seq<char>) -> (
    Result<Seq<char>, Seq<char>>,
    nat,
) {
    match next_result(evs, failure) {
        Err(m) => (Err(m), if evs.len() > 0 {
            1nat
        } else {
            0nat
        }),
        Ok(Event::Characters(t)) => (Ok(t@), 1),
        Ok(_) => (Err("<"@ + tag + "> content does not exists"@), 1),
    }
}

/// Reads the text of an element whose start tag has been read.
pub fn read_content(parser: &mut Parser, tag: &str) -> (r: Result<String, String>)
    ensures
        ({
            let (res, n) = content_step(old(parser).remaining(), old(parser).failure(), tag@);
            &&& final(parser).remaining() == old(parser).remaining().skip(n as int)
            &&& final(parser).failure() == old(parser).failure()
            &&& match res {
                Ok(t) => r matches Ok(x) && x@ == t,
                Err(m) => r matches Err(e) && e@ == m,
            }
        }),
{
    let ghost all = parser.remaining();
    let e = parser.next();
    proof {
        if all.len() == 0 {
            assert(parser.remaining() =~= all.skip(0));
        } else {
            assert(parser.remaining() =~= all.skip(1));
        }
    }
    match e {
        Ok(Event::Characters(t)) => Ok(t),
        Ok(_) => Err(concat3("<", tag, "> content does not exists")),
        Err(m) => Err(m),
    }
}

/// `acc` with one more input of the semantic `sem` from the source `src`.
pub open spec fn with_input(acc: PolyAcc, sem: Seq<char>, src: Source) -> PolyAcc {
    if is_vertex_semantic(sem) {
        PolyAcc {
            inputs: acc.inputs.push((src, false)),
            semantics: acc.semantics + sem + "("@ + data_kinds(src.data@) + ") "@,
            ignored: acc.ignored,
            indexes: acc.indexes,
        }
    } else {
        PolyAcc {
            inputs: acc.inputs.push((src, true)),
            semantics: acc.semantics,
            ignored: acc.ignored.push(sem),
            indexes: acc.indexes,
        }
    }
}

/// Reading the content of a `<polylist>` of `count` polygons after its start
/// tag, with the sources `map`: what the inputs gather, or the message of the
/// first error, and how many events are read.
pub open spec fn poly_loop(
    evs: Seq<Event>,
    failure: Option<Seq<char>>,
    map: Seq<(Seq<char>, Source)>,
    count: usize,
    acc: PolyAcc,
) -> (Result<PolyAcc, Seq<char>>, nat)
    decreases evs.len(),
{
    if evs.len() == 0 {
        (Err(crate::collada::end_message(failure)), 0)
    } else {
        match evs[0] {
            Event::EndDocument => (Err("Unexpected end of file"@), 1),
            Event::StartElement { name, attributes } => if name.local_name@ == "input"@ {
                match last_attribute(attributes@, "semantic"@) {
                    None => (Err("Semantic does not exists"@), 1),
                    Some(sem) => match last_attribute(attributes@, "source"@) {
                        None => (Err("Source does not exists"@), 1),
                        Some(sid) => {
                            let key = trim_start(sid, '#');
                            match find_key(map, key) {
                                None => (Err("Source \""@ + key + "\" does not exists"@), 1),
                                Some(i) => {
                                    let acc2 = with_input(acc, sem, map[i].1);
                                    let (r, n) = wait_end_run(evs.drop_first(), failure, "input"@);
                                    match r {
                                        Err(m) => (Err(m), n + 1),
                                        Ok(_) => {
                                            proof {
                                                lemma_wait_end_run_len(
                                                    evs.drop_first(),
                                                    failure,
                                                    "input"@,
                                                );
                                            }
                                            let (r2, n2) = poly_loop(
                                                evs.skip(n as int + 1),
                                                failure,
                                                map,
                                                count,
                                                acc2,
                                            );
                                            (r2, n2 + n + 1)
                                        },
                                    }
                                },
                            }
                        },
                    },
                }
            } else if name.local_name@ == "vcount"@ || name.local_name@ == "p"@ {
                let tag = name.local_name@;
                let (c, n1) = content_step(evs.drop_first(), failure, tag);
                match c {
                    Err(m) => (Err(m), n1 + 1),
                    Ok(t) => {
                        let checked: Result<PolyAcc, Seq<char>> = if tag == "vcount"@ {
                            match vcount_result(words(t), 0, count) {
                                Err(m) => Err(m),
                                Ok(_) => Ok(acc),
                            }
                        } else {
                            match indexes_result(words(t)) {
                                Err(m) => Err(m),
                                Ok(v) => Ok(
                                    PolyAcc {
                                        inputs: acc.inputs,
                                        semantics: acc.semantics,
                                        ignored: acc.ignored,
                                        indexes: Some(v),
                                    },
                                ),
                            }
                        };
                        match checked {
                            Err(m) => (Err(m), n1 + 1),
                            Ok(acc2) => {
                                let (r, n2) = wait_end_run(evs.skip(n1 as int + 1), failure, tag);
                                match r {
                                    Err(m) => (Err(m), n2 + n1 + 1),
                                    Ok(_) => {
                                        proof {
                                            lemma_wait_end_run_len(
                                                evs.skip(n1 as int + 1),
                                                failure,
                                                tag,
                                            );
                                        }
                                        let (r3, n3) = poly_loop(
                                            evs.skip(n2 as int + n1 as int + 1),
                                            failure,
                                            map,
                                            count,
                                            acc2,
                                        );
                                        (r3, n3 + n2 + n1 + 1)
                                    },
                                }
                            },
                        }
                    },
                }
            } else {
                let (r, n) = skip_run(evs.drop_first(), failure, seq![name.local_name@]);
                match r {
                    Err(m) => (Err(m), n + 1),
                    Ok(_) => {
                        proof {
                            lemma_skip_run_len(evs.drop_first(), failure, seq![name.local_name@]);
                        }
                        let (r2, n2) = poly_loop(evs.skip(n as int + 1), failure, map, count, acc);
                        (r2, n2 + n + 1)
                    },
                }
            },
            Event::EndElement { name } => if name.local_name@ == "polylist"@ {
                (Ok(acc), 1)
            } else {
                (Err("Unexpected end tag \""@ + name.local_name@ + "\""@), 1)
            },
            _ => {
                let (r2, n2) = poly_loop(evs.drop_first(), failure, map, count, acc);
                (r2, n2 + 1)
            },
        }
    }
}

pub proof fn lemma_poly_loop_len(
    evs: Seq<Event>,
    failure: Option<Seq<char>>,
    map: Seq<(Seq<char>, Source)>,
    count: usize,
    acc: PolyAcc,
)
    ensures
        poly_loop(evs, failure, map, count, acc).1 <= evs.len(),
    decreases evs.len(),
{
    if evs.len() > 0 {
        lemma_poly_loop_len(evs.drop_first(), failure, map, count, acc);
        match evs[0] {
            Event::StartElement { name, attributes } => {
                let tag = name.local_name@;
                lemma_skip_run_len(evs.drop_first(), failure, seq![tag]);
                let (r, n) = skip_run(evs.drop_first(), failure, seq![tag]);
                lemma_poly_loop_len(evs.skip(n as int + 1), failure, map, count, acc);
                lemma_wait_end_run_len(evs.drop_first(), failure, "input"@);
                if let (Some(sem), Some(sid)) = (
                    last_attribute(attributes@, "semantic"@),
                    last_attribute(attributes@, "source"@),
                ) {
                    if let Some(i) = find_key(map, trim_start(sid, '#')) {
                        let acc2 = with_input(acc, sem, map[i].1);
                        let (r1, n1) = wait_end_run(evs.drop_first(), failure, "input"@);
                        lemma_poly_loop_len(evs.skip(n1 as int + 1), failure, map, count, acc2);
                    }
                }
                let (c, n1) = content_step(evs.drop_first(), failure, tag);
                if let Ok(t) = c {
                    lemma_wait_end_run_len(evs.skip(n1 as int + 1), failure, tag);
                    let (r2, n2) = wait_end_run(evs.skip(n1 as int + 1), failure, tag);
                    lemma_poly_loop_len(evs.skip(n2 as int + n1 as int + 1), failure, map, count, acc);
                    if let Ok(v) = indexes_result(words(t)) {
                        lemma_poly_loop_len(
                            evs.skip(n2 as int + n1 as int + 1),
                            failure,
                            map,
                            count,
                            PolyAcc {
                                inputs: acc.inputs,
                                semantics: acc.semantics,
                                ignored: acc.ignored,
                                indexes: Some(v),
                            },
                        );
                    }
                }
            },
            _ => {},
        }
    }
}

/// Appends to the vertex semantics the part of one input.
fn append_semantics(semantics: &mut String, sem: &str, data: &Vec<SourceData>)
    ensures
        final(semantics)@ == old(semantics)@ + sem@ + "("@ + data_kinds(data@) + ") "@,
{
    semantics.append(sem);
    semantics.append("(");
    let ghost start = semantics@;
    let mut i: usize = 0;
    while i < data.len()
        invariant
            i <= data@.len(),
            semantics@ == start + data_kinds(data@.take(i as int)),
        decreases data@.len() - i,
    {
        assert(data@.take(i + 1).drop_last() =~= data@.take(i as int));
        match &data[i] {
            SourceData::Float(name, _) => {
                let k = crate::text::char_to_string('f');
                semantics.append(k.as_str());
                semantics.append(name.as_str());
            },
            SourceData::Int(name, _) => {
                let k = crate::text::char_to_string('i');
                semantics.append(k.as_str());
                semantics.append(name.as_str());
            },
        }
        assert(semantics@ =~= start + data_kinds(data@.take(i + 1)));
        i = i + 1;
    }
    assert(data@.take(data@.len() as int) =~= data@);
    semantics.append(") ");
}

/// The view of the inputs gathered so far.
pub open spec fn inputs_view(v: Seq<(&Source, bool)>) -> Seq<(Source, bool)> {
    v.map_values(|e: (&Source, bool)| (*e.0, e.1))
}

/// What the gathered inputs, semantics, ignored semantics and indexes are worth.
pub open spec fn acc_of(
    inputs: Seq<(&Source, bool)>,
    semantics: Seq<char>,
    ignored: Seq<String>,
    indexes: Option<Vec<usize>>,
) -> PolyAcc {
    PolyAcc {
        inputs: inputs_view(inputs),
        semantics,
        ignored: ignored.map_values(|x: String| x@),
        indexes: match indexes {
            Some(v) => Some(v@),
            None => None,
        },
    }
}

/// Reads the content of a `<polylist>` of `count` polygons after its start tag:
/// the inputs with whether each is ignored, the vertex semantics, the indexes.
#[verifier::rlimit(80)]
pub fn read_poly_body<'s>(parser: &mut Parser, sources: &'s SourceMap, count: usize) -> (r: Result<
    (Vec<(&'s Source, bool)>, String, Vec<String>, Option<Vec<usize>>),
    String,
>)
    ensures
        ({
            let empty = PolyAcc { inputs: Seq::empty(), semantics: Seq::empty(), ignored: Seq::empty(), indexes: None };
            let (res, n) = poly_loop(
                old(parser).remaining(),
                old(parser).failure(),
                sources.view_entries(),
                count,
                empty,
            );
            &&& final(parser).remaining() == old(parser).remaining().skip(n as int)
            &&& final(parser).failure() == old(parser).failure()
            &&& match res {
                Ok(acc) => r matches Ok(x) && acc_of(x.0@, x.1@, x.2@, x.3) == acc,
                Err(m) => r matches Err(e) && e@ == m,
            }
        }),
{
    let ghost all = parser.remaining();
    let ghost f = parser.failure();
    let ghost map = sources.view_entries();
    let mut inputs: Vec<(&'s Source, bool)> = Vec::new();
    let mut semantics = String::new();
    let mut ignored: Vec<String> = Vec::new();
    let mut indexes: Option<Vec<usize>> = None;
    let ghost empty = PolyAcc { inputs: Seq::empty(), semantics: Seq::empty(), ignored: Seq::empty(), indexes: None };
    assert(inputs_view(inputs@) =~= Seq::<(Source, bool)>::empty());
    assert(ignored@.map_values(|x: String| x@) =~= Seq::<Seq<char>>::empty());
    assert(acc_of(inputs@, semantics@, ignored@, indexes) =~= empty);
    let ghost total = poly_loop(all, f, map, count, empty);
    loop
        invariant
            parser.failure() == f,
            all == old(parser).remaining(),
            f == old(parser).failure(),
            map == sources.view_entries(),
            total == poly_loop(all, f, map, count, empty),
            empty == (PolyAcc { inputs: Seq::empty(), semantics: Seq::empty(), ignored: Seq::empty(), indexes: None }),
            0 <= all.len() - parser.remaining().len(),
            parser.remaining() == all.skip(all.len() - parser.remaining().len()),
            total.0 == poly_loop(
                parser.remaining(),
                f,
                map,
                count,
                acc_of(inputs@, semantics@, ignored@, indexes),
            ).0,
            total.1 == (all.len() - parser.remaining().len()) + poly_loop(
                parser.remaining(),
                f,
                map,
                count,
                acc_of(inputs@, semantics@, ignored@, indexes),
            ).1,
        decreases parser.remaining().len(),
    {
        let ghost cur = parser.remaining();
        let ghost consumed = all.len() - cur.len();
        let ghost acc = acc_of(inputs@, semantics@, ignored@, indexes);
        let ev = match parser.next() {
            Ok(e) => e,
            Err(m) => {
                assert(poly_loop(cur, f, map, count, acc).0 == Err::<PolyAcc, Seq<char>>(m@));
                assert(parser.remaining() =~= all.skip(total.1 as int));

                return Err(m);
            },
        };
        assert(parser.remaining() =~= all.skip(consumed + 1));
        match ev {
            Event::StartElement { name, attributes } => {
                if str_eq(name.local_name.as_str(), "input") {
                    let sem = match find_attribute(&attributes, "semantic") {
                        Some(x) => x,
                        None => {
                            assert(parser.remaining() =~= all.skip(total.1 as int));
                            return Err(String::from_str("Semantic does not exists"));
                        },
                    };
                    let sid = match find_attribute(&attributes, "source") {
                        Some(x) => x,
                        None => {
                            assert(parser.remaining() =~= all.skip(total.1 as int));
                            return Err(String::from_str("Source does not exists"));
                        },
                    };
                    let key = trim_start_matches(sid.as_str(), '#');
                    let i = match sources.find(key.as_str()) {
                        Some(i) => i,
                        None => {
                            assert(parser.remaining() =~= all.skip(total.1 as int));
                            return Err(concat3("Source \"", key.as_str(), "\" does not exists"));
                        },
                    };
                    let src = sources.get(i);
                    let vertex = str_eq(sem.as_str(), "VERTEX") || str_eq(sem.as_str(), "NORMAL")
                        || str_eq(sem.as_str(), "TEXCOORD");
                    let ghost before_inputs = inputs@;
                    if vertex {
                        append_semantics(&mut semantics, sem.as_str(), &src.data);
                        inputs.push((src, false));
                    } else {
                        let ghost before_ignored = ignored@;
                        ignored.push(sem.clone());
                        assert(ignored@.map_values(|x: String| x@) =~= before_ignored.map_values(
                            |x: String| x@,
                        ).push(sem@));
                        inputs.push((src, true));
                    }
                    assert(acc_of(inputs@, semantics@, ignored@, indexes) =~= with_input(acc, sem@, map[i as int].1));
                    let ghost mid = parser.remaining();
                    proof {
                        lemma_wait_end_run_len(mid, f, "input"@);
                    }
                    match waitEndTag(parser, "input") {
                        Ok(()) => {},
                        Err(m) => {
                            assert(parser.remaining() =~= all.skip(total.1 as int));
                            return Err(m);
                        },
                    }
                    assert(mid.skip(wait_end_run(mid, f, "input"@).1 as int) =~= cur.skip(
                        wait_end_run(mid, f, "input"@).1 as int + 1,
                    ));
                    assert(parser.remaining() =~= all.skip(
                        consumed + 1 + wait_end_run(mid, f, "input"@).1,
                    ));
                } else if str_eq(name.local_name.as_str(), "vcount") {
                    let ghost mid = parser.remaining();
                    let text = match read_content(parser, "vcount") {
                        Ok(t) => t,
                        Err(m) => {
                            assert(parser.remaining() =~= all.skip(total.1 as int));
                            return Err(m);
                        },
                    };
                    match check_vcount(text.as_str(), count) {
                        Ok(()) => {},
                        Err(m) => {
                            assert(parser.remaining() =~= all.skip(total.1 as int));
                            return Err(m);
                        },
                    }
                    let ghost n1 = content_step(mid, f, "vcount"@).1;
                    let ghost mid2 = parser.remaining();
                    assert(mid2 =~= cur.skip(n1 as int + 1));
                    proof {
                        lemma_wait_end_run_len(mid2, f, "vcount"@);
                    }
                    match waitEndTag(parser, "vcount") {
                        Ok(()) => {},
                        Err(m) => {
                            assert(parser.remaining() =~= all.skip(total.1 as int));
                            return Err(m);
                        },
                    }
                    assert(mid2.skip(wait_end_run(mid2, f, "vcount"@).1 as int) =~= cur.skip(
                        wait_end_run(mid2, f, "vcount"@).1 as int + n1 as int + 1,
                    ));
                    assert(parser.remaining() =~= all.skip(
                        consumed + n1 + 1 + wait_end_run(mid2, f, "vcount"@).1,
                    ));
                } else if str_eq(name.local_name.as_str(), "p") {
                    let ghost mid = parser.remaining();
                    let text = match read_content(parser, "p") {
                        Ok(t) => t,
                        Err(m) => {
                            assert(parser.remaining() =~= all.skip(total.1 as int));
                            return Err(m);
                        },
                    };
                    let buffer = match parse_indexes(text.as_str()) {
                        Ok(b) => b,
                        Err(m) => {
                            assert(parser.remaining() =~= all.skip(total.1 as int));
                            return Err(m);
                        },
                    };
                    indexes = Some(buffer);
                    let ghost n1 = content_step(mid, f, "p"@).1;
                    let ghost mid2 = parser.remaining();
                    assert(mid2 =~= cur.skip(n1 as int + 1));
                    proof {
                        lemma_wait_end_run_len(mid2, f, "p"@);
                    }
                    match waitEndTag(parser, "p") {
                        Ok(()) => {},
                        Err(m) => {
                            assert(parser.remaining() =~= all.skip(total.1 as int));
                            return Err(m);
                        },
                    }
                    assert(mid2.skip(wait_end_run(mid2, f, "p"@).1 as int) =~= cur.skip(
                        wait_end_run(mid2, f, "p"@).1 as int + n1 as int + 1,
                    ));
                    assert(parser.remaining() =~= all.skip(
                        consumed + n1 + 1 + wait_end_run(mid2, f, "p"@).1,
                    ));
                } else {
                    let ghost mid = parser.remaining();
                    proof {
                        lemma_skip_run_len(mid, f, seq![name.local_name@]);
                    }
                    match skip(parser, name.local_name) {
                        Ok(()) => {},
                        Err(m) => {
                            assert(parser.remaining() =~= all.skip(total.1 as int));
                            return Err(m);
                        },
                    }
                    assert(mid.skip(skip_run(mid, f, seq![cur[0]->StartElement_name.local_name@]).1 as int)
                        =~= cur.skip(
                        skip_run(mid, f, seq![cur[0]->StartElement_name.local_name@]).1 as int + 1,
                    ));
                    assert(parser.remaining() =~= all.skip(
                        consumed + 1 + skip_run(mid, f, seq![cur[0]->StartElement_name.local_name@]).1,
                    ));
                }
            },
            Event::EndElement { name } => {
                assert(parser.remaining() =~= all.skip(total.1 as int));
                if str_eq(name.local_name.as_str(), "polylist") {
                    return Ok((inputs, semantics, ignored, indexes));
                } else {
                    let m = concat3("Unexpected end tag \"", name.local_name.as_str(), "\"");
                    assert(poly_loop(cur, f, map, count, acc).0 == Err::<PolyAcc, Seq<char>>(m@));
                    return Err(m);
                }
            },
            _ => {},
        }
    }
}

/// Reading a `<polylist>` after its start tag with `attrs`, while the sources
/// are `map`: the geometry, or why there is none, and how many events are read.
pub open spec fn polylist_run(
    evs: Seq<Event>,
    failure: Option<Seq<char>>,
    map: Seq<(Seq<char>, Source)>,
    attrs: Seq<XmlAttribute>,
) -> (PolyResult, nat) {
    match count_scan(attrs, 0, None) {
        Err(m) => (PolyResult::Failed(m), 0),
        Ok(None) => (PolyResult::Failed("Count does not exists"@), 0),
        Ok(Some(c)) => {
            let empty = PolyAcc { inputs: Seq::empty(), semantics: Seq::empty(), ignored: Seq::empty(), indexes: None };
            let (r, n) = poly_loop(evs, failure, map, c, empty);
            match r {
                Err(m) => (PolyResult::Failed(m), n),
                Ok(acc) => (polylist_finish(acc, c, last_attribute(attrs, "material"@)), n),
            }
        },
    }
}

/// The inputs of the vertex data, from the sources of the polygons.
fn convert_inputs<'s>(inputs: &Vec<(&'s Source, bool)>) -> (r: Vec<Option<(&'s SourceData, ConvertTo)>>)
    ensures
        input_values(r@) == convert_list(inputs_view(inputs@), accepted_type_count()),
{
    let ghost iv = inputs_view(inputs@);
    let ghost target = convert_list(iv, accepted_type_count());
    let mut list: Vec<Option<(&'s SourceData, ConvertTo)>> = Vec::new();
    let mut tokens: usize = 8;
    let mut i: usize = 0;
    assert(iv.skip(0) =~= iv);
    assert(input_values(list@) + target =~= target);
    while i < inputs.len()
        invariant
            iv == inputs_view(inputs@),
            target == convert_list(iv, accepted_type_count()),
            i <= inputs@.len(),
            tokens <= 8,
            input_values(list@) + convert_list(iv.skip(i as int), tokens as nat) == target,
        decreases inputs@.len() - i,
    {
        let (source, ignore) = inputs[i];
        let data = &source.data;
        let ghost d = data@;
        assert(iv.skip(i as int)[0] == (*source, ignore));
        assert(iv.skip(i as int).drop_first() =~= iv.skip(i + 1));
        let mut j: usize = 0;
        assert(d.skip(0) =~= d);
        proof {
            let e = data_entries(d, ignore, tokens as nat);
            assert(input_values(list@) + e.0 + convert_list(iv.skip(i + 1), e.1) =~= input_values(list@)
                + convert_list(iv.skip(i as int), tokens as nat));
        }
        while j < data.len()
            invariant
                iv == inputs_view(inputs@),
                target == convert_list(iv, accepted_type_count()),
                i < inputs@.len(),
                d == data@,
                j <= d.len(),
                tokens <= 8,
                ({
                    let e = data_entries(d.skip(j as int), ignore, tokens as nat);
                    input_values(list@) + e.0 + convert_list(iv.skip(i + 1), e.1) == target
                }),
            decreases d.len() - j,
        {
            let ghost before = input_values(list@);
            let ghost rest = d.skip(j as int);
            assert(rest[0] == d[j as int]);
            assert(rest.drop_first() =~= d.skip(j + 1));
            if ignore {
                list.push(None);
                assert(input_values(list@) =~= before + seq![None]);
            } else if tokens > 0 {
                list.push(Some((&data[j], ConvertTo::to_f32)));
                assert(input_values(list@) =~= before + seq![Some((d[j as int], ConvertTo::to_f32))]);
                tokens = tokens - 1;
            }
            proof {
                let e2 = data_entries(d.skip(j + 1), ignore, tokens as nat);
                assert(input_values(list@) + e2.0 + convert_list(iv.skip(i + 1), e2.1) =~= target);
            }
            j = j + 1;
        }
        assert(d.skip(j as int) =~= Seq::<SourceData>::empty());
        assert(input_values(list@) + Seq::<Option<(SourceData, ConvertTo)>>::empty() =~= input_values(list@));
        i = i + 1;
    }
    assert(iv.skip(i as int) =~= Seq::<(Source, bool)>::empty());
    assert(input_values(list@) + Seq::<Option<(SourceData, ConvertTo)>>::empty() =~= input_values(list@));
    list
}

/// Whether every polygon index can be used for its input.
fn entries_in_range(list: &Vec<Option<(&SourceData, ConvertTo)>>, idx: &Vec<usize>, count: usize) -> (r: bool)
    requires
        list@.len() * count * 3 == idx@.len(),
    ensures
        r == (forall|k: int|
            0 <= k < idx@.len() ==> #[trigger] entry_ok(
                input_values(list@)[k % (list@.len() as int)],
                idx@[k],
            )),
{
    let ghost lv = input_values(list@);
    let n = list.len();
    if n == 0 {
        assert(idx@.len() == 0) by (nonlinear_arith)
            requires
                n == 0,
                n * count * 3 == idx@.len(),
        ;
        return true;
    }
    let mut pos: usize = 0;
    let ghost mut v: int = 0;
    while pos < idx.len()
        invariant
            lv == input_values(list@),
            n == list@.len(),
            n > 0,
            n * count * 3 == idx@.len(),
            0 <= v,
            pos == v * n,
            pos <= idx@.len(),
            forall|k: int| 0 <= k < pos ==> #[trigger] entry_ok(lv[k % (n as int)], idx@[k]),
        decreases idx@.len() - pos,
    {
        assert(pos + n <= idx@.len()) by (nonlinear_arith)
            requires
                pos == v * n,
                pos < idx@.len(),
                idx@.len() == n * count * 3,
                n > 0,
                v >= 0,
        {
            assert(v * n < (count * 3) * n);
            assert(v < count * 3);
            assert((v + 1) * n <= (count * 3) * n);
        }
        let mut j: usize = 0;
        while j < n
            invariant
                lv == input_values(list@),
                n == list@.len(),
                n > 0,
                0 <= v,
                pos == v * n,
                pos + n <= idx@.len(),
                idx@.len() == idx.len(),
                j <= n,
                forall|k: int| 0 <= k < pos + j ==> #[trigger] entry_ok(lv[k % (n as int)], idx@[k]),
            decreases n - j,
        {
            let index = idx[pos + j];
            let ghost k = (pos + j) as int;
            assert(k % (n as int) == j) by (nonlinear_arith)
                requires
                    k == v * n + j,
                    0 <= j < n,
                    0 <= v,
            ;
            let ok = match list[j] {
                None => true,
                Some((d, _)) => match d {
                    SourceData::Float(_, values) => index < values.len(),
                    SourceData::Int(_, values) => index < values.len(),
                },
            };
            assert(ok == entry_ok(lv[j as int], index));
            if !ok {
                assert(!entry_ok(lv[k % (n as int)], idx@[k]));
                return false;
            }
            j = j + 1;
        }
        pos = pos + n;
        proof {
            v = v + 1;
            assert(pos == v * n) by (nonlinear_arith)
                requires
                    pos == (v - 1) * n + n,
            ;
        }
    }
    true
}

/// Reads a `<polylist>` after its start tag with `attributes`: the geometry of
/// its triangles.
pub fn read_polylist(parser: &mut Parser, sources: &SourceMap, attributes: &Vec<XmlAttribute>) -> (r: Result<
    (Geometry, PolyNotes),
    MeshFailure,
>)
    ensures
        ({
            let (res, n) = polylist_run(
                old(parser).remaining(),
                old(parser).failure(),
                sources.view_entries(),
                attributes@,
            );
            &&& final(parser).remaining() == old(parser).remaining().skip(n as int)
            &&& final(parser).failure() == old(parser).failure()
            &&& match res {
                PolyResult::Built { data, count, material, notes } => r matches Ok((g, x))
                    && g.spec_data() == data && g.spec_polygons_count() == count
                    && g.spec_material() == material && x@ == notes,
                PolyResult::Failed(m) => r matches Err(MeshFailure::Error(e)) && e@ == m,
                PolyResult::Panicked(m) => r matches Err(MeshFailure::Panic(e)) && e@ == m,
            }
        }),
{
    let ghost all = parser.remaining();
    let count = match read_count(attributes) {
        Ok(Some(c)) => c,
        Ok(None) => {
            assert(parser.remaining() =~= all.skip(0));
            return Err(MeshFailure::Error(String::from_str("Count does not exists")));
        },
        Err(m) => {
            assert(parser.remaining() =~= all.skip(0));
            return Err(MeshFailure::Error(m));
        },
    };
    let (inputs, semantics, ignored, indexes) = match read_poly_body(parser, sources, count) {
        Ok(x) => x,
        Err(m) => return Err(MeshFailure::Error(m)),
    };
    let polygonIndexes = match indexes {
        Some(v) => v,
        None => {
            return Err(MeshFailure::Error(String::from_str("Polygon indexes has not been specified")));
        },
    };
    let sem = trim_matches(semantics.as_str(), ' ');
    if !str_eq(sem.as_str(), "VERTEX(fXfYfZ) NORMAL(fXfYfZ) TEXCOORD(fSfT)") {
        return Err(MeshFailure::Error(concat3("Unknown vertex semantic \"", sem.as_str(), "\"")));
    }
    let convertAsList = convert_inputs(&inputs);
    let n = convertAsList.len();
    let fits = match n.checked_mul(count) {
        Some(x) => match x.checked_mul(3) {
            Some(y) => y == polygonIndexes.len(),
            None => false,
        },
        None => false,
    };
    proof {
        if !fits && n * count * 3 == polygonIndexes@.len() {
            assert(n * count <= n * count * 3) by (nonlinear_arith);
        }
    }
    if fits {
        if !entries_in_range(&convertAsList, &polygonIndexes, count) {
            return Err(MeshFailure::Panic(String::from_str("polygon index out of the range of its source")));
        }
    }
    match Geometry::constructTriangles(convertAsList, polygonIndexes, count) {
        Ok(g) => Ok((g.with_material(find_attribute(attributes, "material")), PolyNotes { semantics: sem, ignored })),
        Err(m) => Err(MeshFailure::Error(m)),
    }
}

pub proof fn lemma_polylist_run_len(
    evs: Seq<Event>,
    failure: Option<Seq<char>>,
    map: Seq<(Seq<char>, Source)>,
    attrs: Seq<XmlAttribute>,
)
    ensures
        polylist_run(evs, failure, map, attrs).1 <= evs.len(),
{
    if let Ok(Some(c)) = count_scan(attrs, 0, None) {
        lemma_poly_loop_len(
            evs,
            failure,
            map,
            c,
            PolyAcc { inputs: Seq::empty(), semantics: Seq::empty(), ignored: Seq::empty(), indexes: None },
        );
    }
}

/// The sources and the geometries read so far; a geometry as its vertex
/// data, its polygon count and its material.
#[verifier::ext_equal]
pub struct MeshState {
    pub sources: Seq<(Seq<char>, Source)>,
    pub geometries: Seq<(Seq<u8>, usize, Option<Seq<char>>)>,
    pub notes: Seq<SpecNotes>,
}

/// Where reading a mesh stops.
pub enum MeshRun {
    NeedSource { id: Seq<char>, source_type: Seq<char> },
    Finished,
    Failed(Seq<char>),
    Panicked(Seq<char>),
}

/// Reading the content of the mesh `mesh_id` from its current state `st` up to
/// the next source start tag or the end of the mesh: where it stops, the
/// state then, and how many events are read. Each `<polylist>` read adds one
/// geometry: its vertex data, its polygon count and the value of its
/// `material` attribute (none where it has none).
pub open spec fn mesh_run(evs: Seq<Event>, failure: Option<Seq<char>>, mesh_id: Seq<char>, st: MeshState) -> (
    MeshRun,
    MeshState,
    nat,
)
    decreases evs.len(),
{
    if evs.len() == 0 {
        (MeshRun::Failed(crate::collada::end_message(failure)), st, 0)
    } else {
        match evs[0] {
            Event::EndDocument => (MeshRun::Failed("Unexpected end of file"@), st, 1),
            Event::StartElement { name, attributes } => if name.local_name@ == "source"@ {
                match source_request(mesh_id, attributes@) {
                    SourceRequest::Refused(m) => (MeshRun::Failed(m), st, 1),
                    SourceRequest::Unsplittable => (MeshRun::Panicked(unsplittable_message()), st, 1),
                    SourceRequest::Read { id, source_type } => (
                        MeshRun::NeedSource { id, source_type },
                        st,
                        1,
                    ),
                }
            } else if name.local_name@ == "vertices"@ {
                match last_attribute(attributes@, "id"@) {
                    None => (MeshRun::Failed("ID does not exists"@), st, 1),
                    Some(new_id) => {
                        let (r, n) = vertices_run(evs.drop_first(), failure, st.sources, new_id);
                        match r {
                            Err(m) => (MeshRun::Failed(m), st, n + 1),
                            Ok(m2) => {
                                proof {
                                    lemma_vertices_run_len(
                                        evs.drop_first(),
                                        failure,
                                        st.sources,
                                        new_id,
                                    );
                                }
                                let (r2, st2, n2) = mesh_run(
                                    evs.skip(n as int + 1),
                                    failure,
                                    mesh_id,
                                    MeshState { sources: m2, geometries: st.geometries, notes: st.notes },
                                );
                                (r2, st2, n2 + n + 1)
                            },
                        }
                    },
                }
            } else if name.local_name@ == "polylist"@ {
                let (pr, n) = polylist_run(evs.drop_first(), failure, st.sources, attributes@);
                match pr {
                    PolyResult::Failed(m) => (MeshRun::Failed(m), st, n + 1),
                    PolyResult::Panicked(m) => (MeshRun::Panicked(m), st, n + 1),
                    PolyResult::Built { data, count, material, notes } => {
                        proof {
                            lemma_polylist_run_len(evs.drop_first(), failure, st.sources, attributes@);
                        }
                        let (r2, st2, n2) = mesh_run(
                            evs.skip(n as int + 1),
                            failure,
                            mesh_id,
                            MeshState {
                                sources: st.sources,
                                geometries: st.geometries.push((data, count, material)),
                                notes: st.notes.push(notes),
                            },
                        );
                        (r2, st2, n2 + n + 1)
                    },
                }
            } else {
                let (r, n) = skip_run(evs.drop_first(), failure, seq![name.local_name@]);
                match r {
                    Err(m) => (MeshRun::Failed(m), st, n + 1),
                    Ok(_) => {
                        proof {
                            lemma_skip_run_len(evs.drop_first(), failure, seq![name.local_name@]);
                        }
                        let (r2, st2, n2) = mesh_run(evs.skip(n as int + 1), failure, mesh_id, st);
                        (r2, st2, n2 + n + 1)
                    },
                }
            },
            Event::EndElement { name } => if name.local_name@ == "mesh"@ {
                (MeshRun::Finished, st, 1)
            } else {
                (MeshRun::Failed("Unexpected end tag \""@ + name.local_name@ + "\""@), st, 1)
            },
            _ => {
                let (r2, st2, n2) = mesh_run(evs.drop_first(), failure, mesh_id, st);
                (r2, st2, n2 + 1)
            },
        }
    }
}

/// Reading a mesh that finishes stops right after the end tag `</mesh>`: the
/// last event it reads is that tag, and it reads no event after it.
#[verifier::rlimit(60)]
#[verifier::spinoff_prover]
pub proof fn lemma_mesh_run_ends_at_mesh_end(
    evs: Seq<Event>,
    failure: Option<Seq<char>>,
    mesh_id: Seq<char>,
    st: MeshState,
)
    ensures
        mesh_run(evs, failure, mesh_id, st).0 is Finished ==> {
            let n = mesh_run(evs, failure, mesh_id, st).2;
            &&& 1 <= n <= evs.len()
            &&& evs[n - 1] matches Event::EndElement { name }
            &&& evs[n - 1]->EndElement_name.local_name@ == "mesh"@
        },
    decreases evs.len(),
{
    if evs.len() > 0 {
        match evs[0] {
            Event::StartElement { name, attributes } => {
                if name.local_name@ == "source"@ {
                } else if name.local_name@ == "vertices"@ {
                    if let Some(new_id) = last_attribute(attributes@, "id"@) {
                        let (r, n) = vertices_run(evs.drop_first(), failure, st.sources, new_id);
                        if let Ok(m2) = r {
                            lemma_vertices_run_len(evs.drop_first(), failure, st.sources, new_id);
                            let st2 = MeshState { sources: m2, geometries: st.geometries, notes: st.notes };
                            let rest = evs.skip(n as int + 1);
                            lemma_mesh_run_ends_at_mesh_end(rest, failure, mesh_id, st2);
                            let n2 = mesh_run(rest, failure, mesh_id, st2).2;
                            if mesh_run(rest, failure, mesh_id, st2).0 is Finished {
                                assert(rest[n2 - 1] == evs[n + 1 + n2 - 1]);
                            }
                        }
                    }
                } else if name.local_name@ == "polylist"@ {
                    let (pr, n) = polylist_run(evs.drop_first(), failure, st.sources, attributes@);
                    if let PolyResult::Built { data, count, material, notes } = pr {
                        lemma_polylist_run_len(evs.drop_first(), failure, st.sources, attributes@);
                        let st2 = MeshState {
                            sources: st.sources,
                            geometries: st.geometries.push((data, count, material)),
                            notes: st.notes.push(notes),
                        };
                        let rest = evs.skip(n as int + 1);
                        lemma_mesh_run_ends_at_mesh_end(rest, failure, mesh_id, st2);
                        let n2 = mesh_run(rest, failure, mesh_id, st2).2;
                        if mesh_run(rest, failure, mesh_id, st2).0 is Finished {
                            assert(rest[n2 - 1] == evs[n + 1 + n2 - 1]);
                        }
                    }
                } else {
                    let (r, n) = skip_run(evs.drop_first(), failure, seq![name.local_name@]);
                    if r is Ok {
                        lemma_skip_run_len(evs.drop_first(), failure, seq![name.local_name@]);
                        let rest = evs.skip(n as int + 1);
                        lemma_mesh_run_ends_at_mesh_end(rest, failure, mesh_id, st);
                        let n2 = mesh_run(rest, failure, mesh_id, st).2;
                        if mesh_run(rest, failure, mesh_id, st).0 is Finished {
                            assert(rest[n2 - 1] == evs[n + 1 + n2 - 1]);
                        }
                    }
                }
            },
            Event::EndElement { .. } => {},
            Event::EndDocument => {},
            _ => {
                let rest = evs.drop_first();
                lemma_mesh_run_ends_at_mesh_end(rest, failure, mesh_id, st);
                let n2 = mesh_run(rest, failure, mesh_id, st).2;
                if mesh_run(rest, failure, mesh_id, st).0 is Finished {
                    assert(rest[n2 - 1] == evs[n2 as int]);
                }
            },
        }
    }
}

/// A mesh being read never holds two sources under one id.
pub proof fn lemma_mesh_reader_invariant(m: &MeshReader)
    requires
        m.well_formed(),
    ensures
        ids_distinct(m.state().sources),
{
}

/// Reads the `<mesh>` of a geometry. Each `<source>` in it is read by the
/// caller: `resume` stops at its start tag, and `provide_source` takes it.
#[allow(non_snake_case)]
pub struct MeshReader {
    meshID: String,
    sources: SourceMap,
    geometries: Vec<Geometry>,
    notes: Vec<PolyNotes>,
    pending: Option<String>,
}

/// The view of geometries: their vertex data, number of polygons and material.
pub open spec fn geometries_view(v: Seq<Geometry>) -> Seq<(Seq<u8>, usize, Option<Seq<char>>)> {
    v.map_values(|g: Geometry| (g.spec_data(), g.spec_polygons_count(), g.spec_material()))
}

impl MeshReader {
    pub closed spec fn mesh_id(&self) -> Seq<char> {
        self.meshID@
    }

    pub closed spec fn state(&self) -> MeshState {
        MeshState {
            sources: self.sources.view_entries(),
            geometries: geometries_view(self.geometries@),
            notes: self.notes@.map_values(|x: PolyNotes| x@),
        }
    }

    /// The id of the source whose start tag has been read and whose content
    /// the caller reads.
    pub closed spec fn pending(&self) -> Option<Seq<char>> {
        match self.pending {
            Some(s) => Some(s@),
            None => None,
        }
    }

    /// Whether no two sources share an id.
    pub closed spec fn well_formed(&self) -> bool {
        ids_distinct(self.sources.view_entries())
    }

    /// Reads the start tag of the mesh `meshID`.
    #[allow(non_snake_case)]
    pub fn start(parser: &mut Parser, meshID: &String) -> (r: Result<MeshReader, String>)
        ensures
            ({
                let (res, n) = wait_start_run(old(parser).remaining(), old(parser).failure(), "mesh"@);
                &&& final(parser).remaining() == old(parser).remaining().skip(n as int)
                &&& final(parser).failure() == old(parser).failure()
                &&& match res {
                    Ok(_) => r matches Ok(m) && m.mesh_id() == meshID@ && m.pending() is None
                        && m.state() == (MeshState { sources: Seq::empty(), geometries: Seq::empty(), notes: Seq::empty() })
                        && m.well_formed(),
                    Err(e) => r matches Err(x) && x@ == e,
                }
            }),
    {
        match waitStartTag(parser, "mesh") {
            Ok(_) => {},
            Err(m) => return Err(m),
        }
        let m = MeshReader {
            meshID: meshID.clone(),
            sources: SourceMap::new(),
            geometries: Vec::new(),
            notes: Vec::new(),
            pending: None,
        };
        assert(m.state() =~= (MeshState { sources: Seq::empty(), geometries: Seq::empty(), notes: Seq::empty() }));
        Ok(m)
    }

    /// Reads the mesh up to the start tag of the next source, whose id and
    /// type it gives, or up to the end of the mesh.
    #[verifier::rlimit(40)]
    pub fn resume(&mut self, parser: &mut Parser) -> (r: Result<MeshStep, MeshFailure>)
        requires
            old(self).pending() is None,
            old(self).well_formed(),
        ensures
            final(self).mesh_id() == old(self).mesh_id(),
            ({
                let (run, st, n) = mesh_run(
                    old(parser).remaining(),
                    old(parser).failure(),
                    old(self).mesh_id(),
                    old(self).state(),
                );
                &&& final(parser).remaining() == old(parser).remaining().skip(n as int)
                &&& final(parser).failure() == old(parser).failure()
                &&& match run {
                    MeshRun::NeedSource { id, source_type } => r matches Ok(
                        MeshStep::NeedSource { id: x, source_type: t },
                    ) && x@ == id && t@ == source_type && final(self).state() == st
                        && final(self).pending() == Some(id) && final(self).well_formed(),
                    MeshRun::Finished => r matches Ok(MeshStep::Finished) && final(self).state() == st
                        && final(self).pending() is None && final(self).well_formed(),
                    MeshRun::Failed(m) => r matches Err(MeshFailure::Error(e)) && e@ == m,
                    MeshRun::Panicked(m) => r matches Err(MeshFailure::Panic(e)) && e@ == m,
                }
            }),
    {
        let ghost all = parser.remaining();
        let ghost f = parser.failure();
        let ghost id = self.mesh_id();
        let ghost total = mesh_run(all, f, id, self.state());
        loop
            invariant
                parser.failure() == f,
                all == old(parser).remaining(),
                f == old(parser).failure(),
                id == old(self).mesh_id(),
                id == self.mesh_id(),
                self.pending() is None,
                self.well_formed(),
                total == mesh_run(all, f, id, old(self).state()),
                0 <= all.len() - parser.remaining().len(),
                parser.remaining() == all.skip(all.len() - parser.remaining().len()),
                total.0 == mesh_run(parser.remaining(), f, id, self.state()).0,
                total.1 == mesh_run(parser.remaining(), f, id, self.state()).1,
                total.2 == (all.len() - parser.remaining().len()) + mesh_run(
                    parser.remaining(),
                    f,
                    id,
                    self.state(),
                ).2,
            decreases parser.remaining().len(),
        {
            let ghost cur = parser.remaining();
            let ghost consumed = all.len() - cur.len();
            let ghost st = self.state();
            let ev = match parser.next() {
                Ok(e) => e,
                Err(m) => {
                    assert(parser.remaining() =~= all.skip(total.2 as int));
                    return Err(MeshFailure::Error(m));
                },
            };
            assert(parser.remaining() =~= all.skip(consumed + 1));
            match ev {
                Event::StartElement { name, attributes } => {
                    if str_eq(name.local_name.as_str(), "source") {
                        assert(parser.remaining() =~= all.skip(total.2 as int));
                        let (sid, ty) = match request_source(self.meshID.as_str(), &attributes) {
                            Ok(p) => p,
                            Err(e) => return Err(e),
                        };
                        self.pending = Some(sid.clone());
                        return Ok(MeshStep::NeedSource { id: sid, source_type: ty });
                    } else if str_eq(name.local_name.as_str(), "vertices") {
                        let newID = match find_attribute(&attributes, "id") {
                            Some(x) => x,
                            None => {
                                assert(parser.remaining() =~= all.skip(total.2 as int));
                                return Err(MeshFailure::Error(String::from_str("ID does not exists")));
                            },
                        };
                        let ghost mid = parser.remaining();
                        proof {
                            lemma_vertices_run_len(mid, f, st.sources, newID@);
                        }
                        match read_vertices(parser, &mut self.sources, &newID) {
                            Ok(()) => {},
                            Err(m) => {
                                assert(parser.remaining() =~= all.skip(total.2 as int));
                                return Err(MeshFailure::Error(m));
                            },
                        }
                        proof {
                            lemma_vertices_run_distinct(mid, f, st.sources, newID@);
                        }
                        let ghost n = vertices_run(mid, f, st.sources, newID@).1;
                        assert(mid.skip(n as int) =~= cur.skip(n as int + 1));
                        assert(parser.remaining() =~= all.skip(consumed + 1 + n));
                        assert(self.state() =~= (MeshState {
                            sources: vertices_run(mid, f, st.sources, newID@).0->Ok_0,
                            geometries: st.geometries,
                            notes: st.notes,
                        }));
                    } else if str_eq(name.local_name.as_str(), "polylist") {
                        let ghost mid = parser.remaining();
                        proof {
                            lemma_polylist_run_len(mid, f, st.sources, attributes@);
                        }
                        let (g, notes) = match read_polylist(parser, &self.sources, &attributes) {
                            Ok(x) => x,
                            Err(e) => {
                                assert(parser.remaining() =~= all.skip(total.2 as int));
                                return Err(e);
                            },
                        };
                        let ghost n = polylist_run(mid, f, st.sources, attributes@).1;
                        assert(mid.skip(n as int) =~= cur.skip(n as int + 1));
                        assert(parser.remaining() =~= all.skip(consumed + 1 + n));
                        let ghost before = self.geometries@;
                        self.geometries.push(g);
                        assert(self.geometries@ =~= before.push(g));
                        assert(geometries_view(self.geometries@) =~= st.geometries.push(
                            (g.spec_data(), g.spec_polygons_count(), g.spec_material()),
                        ));
                        let ghost notes_before = self.notes@;
                        self.notes.push(notes);
                        assert(self.notes@.map_values(|x: PolyNotes| x@) =~= notes_before.map_values(
                            |x: PolyNotes| x@,
                        ).push(notes@));
                    } else {
                        let ghost mid = parser.remaining();
                        proof {
                            lemma_skip_run_len(mid, f, seq![name.local_name@]);
                        }
                        match skip(parser, name.local_name) {
                            Ok(()) => {},
                            Err(m) => {
                                assert(parser.remaining() =~= all.skip(total.2 as int));
                                return Err(MeshFailure::Error(m));
                            },
                        }
                        assert(mid.skip(skip_run(mid, f, seq![cur[0]->StartElement_name.local_name@]).1 as int)
                            =~= cur.skip(
                            skip_run(mid, f, seq![cur[0]->StartElement_name.local_name@]).1 as int + 1,
                        ));
                        assert(parser.remaining() =~= all.skip(
                            consumed + 1 + skip_run(mid, f, seq![cur[0]->StartElement_name.local_name@]).1,
                        ));
                    }
                },
                Event::EndElement { name } => {
                    assert(parser.remaining() =~= all.skip(total.2 as int));
                    if str_eq(name.local_name.as_str(), "mesh") {
                        return Ok(MeshStep::Finished);
                    } else {
                        return Err(
                            MeshFailure::Error(
                                concat3("Unexpected end tag \"", name.local_name.as_str(), "\""),
                            ),
                        );
                    }
                },
                _ => {},
            }
        }
    }

    /// Takes the outcome of reading the content of the pending source: the
    /// source is added under its id unless that id is taken.
    pub fn provide_source(&mut self, source: Result<Source, String>) -> (r: Result<(), String>)
        requires
            old(self).pending() is Some,
        ensures
            final(self).mesh_id() == old(self).mesh_id(),
            final(self).pending() is None,
            old(self).well_formed() ==> final(self).well_formed(),
            ({
                let id = old(self).pending()->0;
                match source {
                    Err(e) => r matches Err(m) && m@ == "Source id: "@ + id + " error : "@ + e@
                        && final(self).state() == old(self).state(),
                    Ok(s) => if find_key(old(self).state().sources, id) is Some {
                        r matches Err(m) && m@ == "Duplicate source id "@ + id
                            && final(self).state() == old(self).state()
                    } else {
                        r is Ok && final(self).state() == (MeshState {
                            sources: old(self).state().sources.push((id, s)),
                            geometries: old(self).state().geometries,
                            notes: old(self).state().notes,
                        })
                    },
                }
            }),
    {
        let id = match self.pending.take() {
            Some(x) => x,
            None => String::new(),
        };
        match source {
            Err(e) => {
                let mut m = concat3("Source id: ", id.as_str(), " error : ");
                m.append(e.as_str());
                Err(m)
            },
            Ok(s) => {
                match self.sources.find(id.as_str()) {
                    Some(_) => {
                        let mut m = String::from_str("Duplicate source id ");
                        m.append(id.as_str());
                        Err(m)
                    },
                    None => {
                        let ghost before = self.state();
                        proof {
                            lemma_find_key(before.sources, id@);
                        }
                        self.sources.insert(id, s);
                        assert(self.state() =~= (MeshState {
                            sources: before.sources.push((old(self).pending()->0, s)),
                            geometries: before.geometries,
                            notes: before.notes,
                        }));
                        Ok(())
                    },
                }
            },
        }
    }

    /// What each `<polylist>` read so far reports besides its geometry, in
    /// their order.
    pub fn notes(&self) -> (r: &Vec<PolyNotes>)
        ensures
            r@.map_values(|x: PolyNotes| x@) == self.state().notes,
    {
        &self.notes
    }

    /// The geometries read, one per `<polylist>` and in their order: geometry
    /// `k` holds the vertex data, the polygon count and the material of the
    /// `k`-th polylist.
    pub fn into_geometries(self) -> (r: Vec<Geometry>)
        ensures
            r@.len() == self.state().geometries.len(),
            forall|k: int|
                0 <= k < r@.len() ==> {
                    &&& (#[trigger] r@[k]).spec_data() == self.state().geometries[k].0
                    &&& r@[k].spec_polygons_count() == self.state().geometries[k].1
                    &&& r@[k].spec_material() == self.state().geometries[k].2
                },
    {
        self.geometries
    }
}

} // verus!
