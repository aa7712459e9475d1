use vstd::prelude::*;

verus! {

/// The name of an element: its local part and its namespace URI.
pub struct XmlName {
    pub local_name: String,
    pub namespace: Option<String>,
}

/// An attribute of an element, by the local part of its name.
pub struct XmlAttribute {
    pub name: String,
    pub value: String,
}

/// One event of an XML document, as an XML reader reports it.
#[allow(inconsistent_fields)]
pub enum Event {
    StartDocument,
    EndDocument,
    ProcessingInstruction { name: String, data: Option<String> },
    StartElement { name: XmlName, attributes: Vec<XmlAttribute> },
    EndElement { name: XmlName },
    CData(String),
    Comment(String),
    Characters(String),
    Whitespace(String),
}

/// The value of the last attribute named `key`, as a loop that keeps
/// overwriting its result finds it.
pub open spec fn last_attribute(attrs: Seq<XmlAttribute>, key: Seq<char>) -> Option<Seq<char>>
    decreases attrs.len(),
{
    if attrs.len() == 0 {
        None
    } else if attrs.last().name@ == key {
        Some(attrs.last().value@)
    } else {
        last_attribute(attrs.drop_last(), key)
    }
}

} // verus!
