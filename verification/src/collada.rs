use vstd::prelude::*;
use vstd::string::*;

use crate::text::{concat3, str_eq};
use crate::xml::{XmlAttribute, Event, XmlName};

verus! {

/// A failure read as its message.
pub open spec fn err_view<T>(r: Result<T, String>) -> Result<T, Seq<char>> {
    match r {
        Ok(v) => Ok(v),
        Err(m) => Err(m@),
    }
}

/// The message of a read past the last event: the reader's own failure, or
/// the end of the document.
pub open spec fn end_message(failure: Option<Seq<char>>) -> Seq<char> {
    match failure {
        Some(m) => "Can not parse:"@ + m,
        None => "Unexpected end of file"@,
    }
}

/// What the next read gives for the events `evs` still to come.
pub open spec fn next_result(evs: Seq<Event>, failure: Option<Seq<char>>) -> Result<Event, Seq<char>> {
    if evs.len() == 0 {
        Err(end_message(failure))
    } else if evs[0] is EndDocument {
        Err("Unexpected end of file"@)
    } else {
        Ok(evs[0])
    }
}

/// The events still to come after one read.
pub open spec fn after_next(evs: Seq<Event>) -> Seq<Event> {
    if evs.len() == 0 {
        evs
    } else {
        evs.drop_first()
    }
}

/// The events of an XML document, read one after another. After the last
/// event every read fails: with the reader's failure when the document could
/// not be read to its end, or as an unexpected end of the document.
pub struct Parser {
    /// The events still to come, last one first.
    pending: Vec<Event>,
    failure: Option<String>,
}

impl Parser {
    /// The events still to come, in order.
    pub closed spec fn remaining(&self) -> Seq<Event> {
        self.pending@.reverse()
    }

    /// The failure that ends the events, if the document could not be read.
    pub closed spec fn failure(&self) -> Option<Seq<char>> {
        match self.failure {
            Some(m) => Some(m@),
            None => None,
        }
    }

    /// A parser holds no more events than a vector can.
    pub proof fn lemma_remaining_fits(&self)
        ensures
            self.remaining().len() <= usize::MAX,
    {
        assert(self.pending@.len() == self.pending.len());
    }

    /// The parser over `events`, ended by `failure` if the reader failed.
    pub fn new(events: Vec<Event>, failure: Option<String>) -> (p: Parser)
        ensures
            p.remaining() == events@,
            p.failure() == (match failure {
                Some(m) => Some(m@),
                None => None::<Seq<char>>,
            }),
    {
        let ghost all = events@;
        let mut events = events;
        let mut pending: Vec<Event> = Vec::new();
        while events.len() > 0
            invariant
                events@ + pending@.reverse() == all,
            decreases events.len(),
        {
            let ghost before = events@;
            let ghost pb = pending@;
            let e = events.pop().unwrap();
            pending.push(e);
            assert(pending@.reverse() =~= seq![e] + pb.reverse());
            assert(before =~= events@ + seq![e]);
            assert(events@ + pending@.reverse() =~= before + pb.reverse());
        }
        assert(events@ + pending@.reverse() =~= pending@.reverse());
        Parser { pending, failure }
    }

    /// Reads the next event. The end of the document is reported as a failure.
    pub fn next(&mut self) -> (r: Result<Event, String>)
        ensures
            err_view(r) == next_result(old(self).remaining(), old(self).failure()),
            final(self).remaining() == after_next(old(self).remaining()),
            final(self).failure() == old(self).failure(),
    {
        match self.pending.pop() {
            Some(e) => {
                assert(old(self).remaining()[0] == e);
                assert(self.remaining() =~= old(self).remaining().drop_first());
                match e {
                    Event::EndDocument => Err(String::from_str("Unexpected end of file")),
                    _ => Ok(e),
                }
            },
            None => match &self.failure {
                Some(m) => {
                    let mut r = String::from_str("Can not parse:");
                    r.append(m.as_str());
                    Err(r)
                },
                None => Err(String::from_str("Unexpected end of file")),
            },
        }
    }
}

/// The events of the XML document with the bytes `doc`, as the XML reader
/// reports them up to and including the end of the document or its first
/// failure.
pub uninterp spec fn document_events(doc: Seq<u8>) -> Seq<Event>;

/// The failure of the XML reader on the document with the bytes `doc`, as the
/// text it displays; none where the document is read to its end.
pub uninterp spec fn document_failure(doc: Seq<u8>) -> Option<Seq<char>>;

/// The event type of the XML reader.
#[verifier::external_type_specification]
#[verifier::external_body]
pub struct ExReaderEvent(::xml::reader::XmlEvent);

/// The name type of the XML reader.
#[verifier::external_type_specification]
#[verifier::external_body]
pub struct ExReaderName(::xml::name::OwnedName);

/// The attribute type of the XML reader.
#[verifier::external_type_specification]
#[verifier::external_body]
pub struct ExReaderAttribute(::xml::attribute::OwnedAttribute);

/// Converts a name of the XML reader: its local part and its namespace.
#[verifier::external_body]
fn name_of(n: ::xml::name::OwnedName) -> XmlName {
    XmlName { local_name: n.local_name, namespace: n.namespace }
}

/// Converts attributes of the XML reader: the local part of each name, and the
/// value, in order.
#[verifier::external_body]
fn attributes_of(a: Vec<::xml::attribute::OwnedAttribute>) -> Vec<XmlAttribute> {
    a.into_iter().map(|x| XmlAttribute { name: x.name.local_name, value: x.value }).collect()
}

/// Converts an event of the XML reader: each variant to the variant of the
/// same name with its fields moved over.
#[verifier::external_body]
fn event_of(e: ::xml::reader::XmlEvent) -> Event {
    match e {
        ::xml::reader::XmlEvent::StartDocument { .. } => Event::StartDocument,
        ::xml::reader::XmlEvent::EndDocument => Event::EndDocument,
        ::xml::reader::XmlEvent::ProcessingInstruction { name, data } => Event::ProcessingInstruction { name, data },
        ::xml::reader::XmlEvent::StartElement { name, attributes, .. } => Event::StartElement {
            name: name_of(name),
            attributes: attributes_of(attributes),
        },
        ::xml::reader::XmlEvent::EndElement { name } => Event::EndElement { name: name_of(name) },
        ::xml::reader::XmlEvent::CData(t) => Event::CData(t),
        ::xml::reader::XmlEvent::Comment(t) => Event::Comment(t),
        ::xml::reader::XmlEvent::Characters(t) => Event::Characters(t),
        ::xml::reader::XmlEvent::Whitespace(t) => Event::Whitespace(t),
    }
}

/// Reads the XML document with the bytes `doc` and gives a parser over its
/// events. Iterates `xml::reader::EventReader` over the bytes, which yields
/// each event up to the end of the document, or up to the first error, which
/// it yields once. The contract claims only that the events and the failure
/// (the error as the reader displays it) depend on the bytes alone; what they
/// are is left to the reader.
#[verifier::external_body]
pub fn parse_document(doc: &[u8]) -> (p: Parser)
    ensures
        p.remaining() == document_events(doc@),
        p.failure() == document_failure(doc@),
{
    let mut events = Vec::new();
    let mut failure = None;
    for e in ::xml::reader::EventReader::new(doc) {
        match e {
            Ok(ev) => events.push(event_of(ev)),
            Err(err) => failure = Some(format!("{}", err)),
        }
    }
    Parser::new(events, failure)
}

/// The message for an end tag that closes another element than the open one.
pub open spec fn mismatch_message(expected: Seq<char>, found: Seq<char>) -> Seq<char> {
    "Expected "@ + expected + ", but "@ + found + " have been found"@
}

/// Skipping events while `stack` holds the names of the open elements, last
/// opened last: the outcome, and how many events are read. Skipping succeeds
/// at the end tag that closes the first element of the stack.
pub open spec fn skip_run(evs: Seq<Event>, failure: Option<Seq<char>>, stack: Seq<Seq<char>>) -> (
    Result<(), Seq<char>>,
    nat,
)
    decreases evs.len(),
{
    if evs.len() == 0 {
        (Err(end_message(failure)), 0)
    } else {
        match evs[0] {
            Event::EndDocument => (Err("Unexpected end of file"@), 1),
            Event::StartElement { name, .. } => {
                let (r, n) = skip_run(evs.drop_first(), failure, stack.push(name.local_name@));
                (r, n + 1)
            },
            Event::EndElement { name } => {
                let expected = stack.last();
                if name.local_name@ != expected {
                    (Err(mismatch_message(expected, name.local_name@)), 1)
                } else if stack.len() <= 1 {
                    (Ok(()), 1)
                } else {
                    let (r, n) = skip_run(evs.drop_first(), failure, stack.drop_last());
                    (r, n + 1)
                }
            },
            _ => {
                let (r, n) = skip_run(evs.drop_first(), failure, stack);
                (r, n + 1)
            },
        }
    }
}

pub proof fn lemma_skip_run_len(evs: Seq<Event>, failure: Option<Seq<char>>, stack: Seq<Seq<char>>)
    ensures
        skip_run(evs, failure, stack).1 <= evs.len(),
    decreases evs.len(),
{
    if evs.len() > 0 {
        match evs[0] {
            Event::StartElement { name, .. } => lemma_skip_run_len(
                evs.drop_first(),
                failure,
                stack.push(name.local_name@),
            ),
            Event::EndElement { name } => lemma_skip_run_len(
                evs.drop_first(),
                failure,
                stack.drop_last(),
            ),
            _ => lemma_skip_run_len(evs.drop_first(), failure, stack),
        }
    }
}

/// Skipping that succeeds stops right after the end tag that closes the
/// first element of the stack, and reads no further than the events go.
pub proof fn lemma_skip_run_closes(evs: Seq<Event>, failure: Option<Seq<char>>, stack: Seq<Seq<char>>)
    requires
        stack.len() >= 1,
    ensures
        skip_run(evs, failure, stack).0 is Ok ==> {
            let n = skip_run(evs, failure, stack).1;
            &&& 1 <= n <= evs.len()
            &&& evs[n - 1] matches Event::EndElement { name }
            &&& evs[n - 1]->EndElement_name.local_name@ == stack[0]
        },
    decreases evs.len(),
{
    if evs.len() > 0 {
        match evs[0] {
            Event::StartElement { name, .. } => {
                let st = stack.push(name.local_name@);
                lemma_skip_run_closes(evs.drop_first(), failure, st);
                assert(st[0] == stack[0]);
            },
            Event::EndElement { name } => {
                if stack.len() > 1 {
                    lemma_skip_run_closes(evs.drop_first(), failure, stack.drop_last());
                }
            },
            Event::EndDocument => {},
            _ => lemma_skip_run_closes(evs.drop_first(), failure, stack),
        }
    }
}

/// Reading never hands out the end of the document as an event.
pub proof fn lemma_next_never_ends_document(evs: Seq<Event>, failure: Option<Seq<char>>)
    ensures
        next_result(evs, failure) matches Ok(e) ==> !(e is EndDocument),
{
}

spec fn names_of(v: Seq<String>) -> Seq<Seq<char>> {
    v.map_values(|x: String| x@)
}

/// Skips the rest of the element `until`, whose start tag has been read:
/// reads events up to the end tag that closes it.
#[allow(non_snake_case)]
pub fn skip(parser: &mut Parser, until: String) -> (r: Result<(), String>)
    ensures
        err_view(r) == skip_run(old(parser).remaining(), old(parser).failure(), seq![until@]).0,
        final(parser).remaining() == old(parser).remaining().skip(
            skip_run(old(parser).remaining(), old(parser).failure(), seq![until@]).1 as int,
        ),
        final(parser).failure() == old(parser).failure(),
{
    let ghost all = parser.remaining();
    let ghost f = parser.failure();
    let ghost total = skip_run(all, f, seq![until@]);
    let mut stack: Vec<String> = Vec::new();
    stack.push(until);
    assert(names_of(stack@) =~= seq![until@]);
    loop
        invariant
            stack@.len() >= 1,
            parser.failure() == f,
            all == old(parser).remaining(),
            f == old(parser).failure(),
            total == skip_run(all, f, seq![until@]),
            0 <= all.len() - parser.remaining().len(),
            parser.remaining() == all.skip(all.len() - parser.remaining().len()),
            total.0 == skip_run(parser.remaining(), f, names_of(stack@)).0,
            total.1 == (all.len() - parser.remaining().len()) + skip_run(
                parser.remaining(),
                f,
                names_of(stack@),
            ).1,
        decreases parser.remaining().len(),
    {
        let ghost cur = parser.remaining();
        let ghost consumed = all.len() - cur.len();
        let ev = match parser.next() {
            Ok(e) => e,
            Err(m) => {
                assert(parser.remaining() =~= all.skip(total.1 as int));
                return Err(m);
            },
        };
        assert(parser.remaining() =~= all.skip(consumed + 1));
        match ev {
            Event::StartElement { name, .. } => {
                let ghost before = names_of(stack@);
                stack.push(name.local_name);
                assert(names_of(stack@) =~= before.push(cur[0]->StartElement_name.local_name@));
            },
            Event::EndElement { name } => {
                let ghost before = names_of(stack@);
                let expected = stack.pop().unwrap();
                assert(before.last() == expected@);
                if !str_eq(name.local_name.as_str(), expected.as_str()) {
                    let m = concat3("Expected ", expected.as_str(), ", but ");
                    let m = concat3(m.as_str(), name.local_name.as_str(), " have been found");
                    assert(parser.remaining() =~= all.skip(total.1 as int));
                    return Err(m);
                }
                if stack.len() == 0 {
                    assert(parser.remaining() =~= all.skip(total.1 as int));
                    return Ok(());
                }
                assert(names_of(stack@) =~= before.drop_last());
            },
            _ => {},
        }
    }
}

/// Events that may stand between tags without meaning anything.
pub open spec fn is_filler(e: Event) -> bool {
    e is Whitespace || e is Comment
}

/// The message for a missing start tag.
pub open spec fn expected_start_message(tag: Seq<char>) -> Seq<char> {
    "Expected \""@ + tag + "\" tag"@
}

/// The message for a missing end tag.
pub open spec fn expected_end_message(tag: Seq<char>) -> Seq<char> {
    "Expected \""@ + tag + "\" end tag"@
}

/// Waiting for the start tag `tag`, passing over white space and comments:
/// the outcome and how many events are read.
pub open spec fn wait_start_run(evs: Seq<Event>, failure: Option<Seq<char>>, tag: Seq<char>) -> (
    Result<Event, Seq<char>>,
    nat,
)
    decreases evs.len(),
{
    if evs.len() == 0 {
        (Err(end_message(failure)), 0)
    } else if evs[0] is EndDocument {
        (Err("Unexpected end of file"@), 1)
    } else if is_filler(evs[0]) {
        let (r, n) = wait_start_run(evs.drop_first(), failure, tag);
        (r, n + 1)
    } else if evs[0] matches Event::StartElement { name, .. } && name.local_name@ == tag {
        (Ok(evs[0]), 1)
    } else {
        (Err(expected_start_message(tag)), 1)
    }
}

/// Waiting for the end tag `tag`, passing over white space and comments:
/// the outcome and how many events are read.
pub open spec fn wait_end_run(evs: Seq<Event>, failure: Option<Seq<char>>, tag: Seq<char>) -> (
    Result<(), Seq<char>>,
    nat,
)
    decreases evs.len(),
{
    if evs.len() == 0 {
        (Err(end_message(failure)), 0)
    } else if evs[0] is EndDocument {
        (Err("Unexpected end of file"@), 1)
    } else if is_filler(evs[0]) {
        let (r, n) = wait_end_run(evs.drop_first(), failure, tag);
        (r, n + 1)
    } else if evs[0] matches Event::EndElement { name } && name.local_name@ == tag {
        (Ok(()), 1)
    } else {
        (Err(expected_end_message(tag)), 1)
    }
}

/// Waiting for a start tag that succeeds gives a start tag of that name.
pub proof fn lemma_wait_start_run_found(evs: Seq<Event>, failure: Option<Seq<char>>, tag: Seq<char>)
    ensures
        wait_start_run(evs, failure, tag).0 matches Ok(e) ==> (e matches Event::StartElement {
            name,
            ..
        } && name.local_name@ == tag),
    decreases evs.len(),
{
    if evs.len() > 0 {
        lemma_wait_start_run_found(evs.drop_first(), failure, tag);
    }
}

pub proof fn lemma_wait_end_run_len(evs: Seq<Event>, failure: Option<Seq<char>>, tag: Seq<char>)
    ensures
        wait_end_run(evs, failure, tag).1 <= evs.len(),
    decreases evs.len(),
{
    if evs.len() > 0 {
        lemma_wait_end_run_len(evs.drop_first(), failure, tag);
    }
}

/// Reads the start tag `tagName`, passing over white space and comments.
#[allow(non_snake_case)]
pub fn waitStartTag(parser: &mut Parser, tagName: &'static str) -> (r: Result<Event, String>)
    ensures
        err_view(r) == wait_start_run(old(parser).remaining(), old(parser).failure(), tagName@).0,
        final(parser).remaining() == old(parser).remaining().skip(
            wait_start_run(old(parser).remaining(), old(parser).failure(), tagName@).1 as int,
        ),
        final(parser).failure() == old(parser).failure(),
{
    let ghost all = parser.remaining();
    let ghost f = parser.failure();
    let ghost total = wait_start_run(all, f, tagName@);
    loop
        invariant
            parser.failure() == f,
            all == old(parser).remaining(),
            f == old(parser).failure(),
            total == wait_start_run(all, f, tagName@),
            0 <= all.len() - parser.remaining().len(),
            parser.remaining() == all.skip(all.len() - parser.remaining().len()),
            total.0 == wait_start_run(parser.remaining(), f, tagName@).0,
            total.1 == (all.len() - parser.remaining().len()) + wait_start_run(
                parser.remaining(),
                f,
                tagName@,
            ).1,
        decreases parser.remaining().len(),
    {
        let ghost cur = parser.remaining();
        let ghost consumed = all.len() - cur.len();
        let tag = match parser.next() {
            Ok(e) => e,
            Err(m) => {
                assert(parser.remaining() =~= all.skip(total.1 as int));
                return Err(m);
            },
        };
        assert(parser.remaining() =~= all.skip(consumed + 1));
        let found = match &tag {
            Event::StartElement { name, .. } => {
                if !str_eq(name.local_name.as_str(), tagName) {
                    return Err(concat3("Expected \"", tagName, "\" tag"));
                }
                true
            },
            Event::Whitespace(_) | Event::Comment(_) => false,
            _ => return Err(concat3("Expected \"", tagName, "\" tag")),
        };
        if found {
            return Ok(tag);
        }
    }
}

/// Reads the end tag `tagName`, passing over white space and comments.
#[allow(non_snake_case)]
pub fn waitEndTag(parser: &mut Parser, tagName: &'static str) -> (r: Result<(), String>)
    ensures
        err_view(r) == wait_end_run(old(parser).remaining(), old(parser).failure(), tagName@).0,
        final(parser).remaining() == old(parser).remaining().skip(
            wait_end_run(old(parser).remaining(), old(parser).failure(), tagName@).1 as int,
        ),
        final(parser).failure() == old(parser).failure(),
{
    let ghost all = parser.remaining();
    let ghost f = parser.failure();
    let ghost total = wait_end_run(all, f, tagName@);
    loop
        invariant
            parser.failure() == f,
            all == old(parser).remaining(),
            f == old(parser).failure(),
            total == wait_end_run(all, f, tagName@),
            0 <= all.len() - parser.remaining().len(),
            parser.remaining() == all.skip(all.len() - parser.remaining().len()),
            total.0 == wait_end_run(parser.remaining(), f, tagName@).0,
            total.1 == (all.len() - parser.remaining().len()) + wait_end_run(
                parser.remaining(),
                f,
                tagName@,
            ).1,
        decreases parser.remaining().len(),
    {
        let ghost cur = parser.remaining();
        let ghost consumed = all.len() - cur.len();
        let ev = match parser.next() {
            Ok(e) => e,
            Err(m) => {
                assert(parser.remaining() =~= all.skip(total.1 as int));
                return Err(m);
            },
        };
        assert(parser.remaining() =~= all.skip(consumed + 1));
        match ev {
            Event::EndElement { name } => {
                if !str_eq(name.local_name.as_str(), tagName) {
                    return Err(concat3("Expected \"", tagName, "\" end tag"));
                }
                return Ok(());
            },
            Event::Whitespace(_) | Event::Comment(_) => {},
            _ => return Err(concat3("Expected \"", tagName, "\" end tag")),
        }
    }
}

/// The namespace of COLLADA 1.4 documents.
pub open spec fn collada_namespace() -> Seq<char> {
    "http://www.collada.org/2005/11/COLLADASchema"@
}

/// The root element of a COLLADA document.
pub open spec fn is_collada_root(e: Event) -> bool {
    &&& e matches Event::StartElement { name, .. }
    &&& e->StartElement_name.local_name@ == "COLLADA"@
    &&& e->StartElement_name.namespace matches Some(ns)
    &&& e->StartElement_name.namespace->0@ == collada_namespace()
}

/// Whether a document starts as a COLLADA document does, and how many of its
/// events are read to tell.
pub open spec fn collada_header_run(evs: Seq<Event>) -> (bool, nat) {
    if evs.len() == 0 {
        (false, 0)
    } else if !(evs[0] is StartDocument) {
        (false, 1)
    } else if evs.len() == 1 {
        (false, 1)
    } else {
        (is_collada_root(evs[1]), 2)
    }
}

/// Whether the document starts with the root element `COLLADA` in the
/// COLLADA namespace, right after the start of the document.
#[allow(non_snake_case)]
pub fn checkCollada(parser: &mut Parser) -> (r: bool)
    ensures
        r == collada_header_run(old(parser).remaining()).0,
        final(parser).remaining() == old(parser).remaining().skip(
            collada_header_run(old(parser).remaining()).1 as int,
        ),
        final(parser).failure() == old(parser).failure(),
{
    let ghost all = parser.remaining();
    match parser.next() {
        Ok(Event::StartDocument) => {},
        _ => {
            assert(parser.remaining() =~= all.skip(collada_header_run(all).1 as int));
            return false;
        },
    }
    let second = parser.next();
    assert(parser.remaining() =~= all.skip(collada_header_run(all).1 as int));
    match second {
        Ok(Event::StartElement { name, .. }) => {
            if !str_eq(name.local_name.as_str(), "COLLADA") {
                return false;
            }
            match name.namespace {
                Some(ns) => {
                    if !str_eq(ns.as_str(), "http://www.collada.org/2005/11/COLLADASchema") {
                        return false;
                    }
                },
                None => return false,
            }
            true
        },
        _ => false,
    }
}

} // verus!
