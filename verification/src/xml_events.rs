//! The XML event stream that the slide and relationship parsers read, as
//! plain values, and the `xml-rs` reader that produces it.
use vstd::prelude::*;
use crate::text::str_chars;
use xml::reader::{EventReader, XmlEvent};

verus! {

/// An attribute: its local name and its value.
#[derive(Debug)]
pub struct XmlAttr {
    pub local: String,
    pub value: String,
}

/// One event of the reader, with what the parsers read of it.
#[derive(Debug)]
pub enum XmlItem {
    /// An opening tag: local name, namespace URI, attributes.
    Start { local: String, namespace: Option<String>, attrs: Vec<XmlAttr> },
    /// A closing tag: local name.
    End { local: String },
    /// Character data (already unescaped).
    Characters(String),
    /// A CDATA section.
    CData(String),
    /// A syntax error; the reader ends after it.
    Error,
    /// Any other event (document start and end, comments, whitespace, ...).
    Other,
}

/// The view of an event.
pub enum XmlItemSpec {
    Start { local: Seq<char>, namespace: Option<Seq<char>>, attrs: Seq<(Seq<char>, Seq<char>)> },
    End { local: Seq<char> },
    Characters(Seq<char>),
    CData(Seq<char>),
    Error,
    Other,
}

impl View for XmlAttr {
    type V = (Seq<char>, Seq<char>);

    open spec fn view(&self) -> (Seq<char>, Seq<char>) {
        (self.local@, self.value@)
    }
}

impl View for XmlItem {
    type V = XmlItemSpec;

    open spec fn view(&self) -> XmlItemSpec {
        match self {
            XmlItem::Start { local, namespace, attrs } => XmlItemSpec::Start {
                local: local@,
                namespace: match namespace {
                    Some(n) => Some(n@),
                    None => None,
                },
                attrs: attrs@.map_values(|a: XmlAttr| a@),
            },
            XmlItem::End { local } => XmlItemSpec::End { local: local@ },
            XmlItem::Characters(s) => XmlItemSpec::Characters(s@),
            XmlItem::CData(s) => XmlItemSpec::CData(s@),
            XmlItem::Error => XmlItemSpec::Error,
            XmlItem::Other => XmlItemSpec::Other,
        }
    }
}

/// The views of a list of events.
pub open spec fn items_view(v: Seq<XmlItem>) -> Seq<XmlItemSpec> {
    v.map_values(|e: XmlItem| e@)
}

/// The events that `xml::reader::EventReader::from_str(xml)` yields, in
/// order, up to and including the first error.
pub uninterp spec fn xml_event_items(xml: Seq<char>) -> Seq<XmlItemSpec>;

/// Runs `xml::reader::EventReader::from_str` over `xml` with its default
/// configuration and converts each event it yields: tags keep their local
/// name, namespace and attributes; text keeps its content; an error becomes
/// `Error`. The result is the name `xml_event_items` of the input.
#[verifier::external_body]
pub fn xml_events(xml: &str) -> (res: Vec<XmlItem>)
    ensures
        items_view(res@) == xml_event_items(xml@),
{
    EventReader::from_str(xml).into_iter().map(|ev| match ev {
        Ok(XmlEvent::StartElement { name, attributes, .. }) => XmlItem::Start {
            local: name.local_name,
            namespace: name.namespace,
            attrs: attributes.into_iter().map(|a| XmlAttr { local: a.name.local_name, value: a.value }).collect(),
        },
        Ok(XmlEvent::EndElement { name }) => XmlItem::End { local: name.local_name },
        Ok(XmlEvent::Characters(s)) => XmlItem::Characters(s),
        Ok(XmlEvent::CData(s)) => XmlItem::CData(s),
        Ok(_) => XmlItem::Other,
        Err(_) => XmlItem::Error,
    }).collect()
}

/// `needle` occurs in `hay` as a contiguous run.
pub open spec fn seq_contains(hay: Seq<char>, needle: Seq<char>) -> bool {
    exists|i: int| 0 <= i <= hay.len() - needle.len() && #[trigger] hay.subrange(i, i + needle.len()) == needle
}

/// `str::contains` for a string pattern.
pub fn str_contains(hay: &str, needle: &str) -> (b: bool)
    ensures
        b == seq_contains(hay@, needle@),
{
    let h = str_chars(hay);
    let n = str_chars(needle);
    if n.len() > h.len() {
        return false;
    }
    let mut i: usize = 0;
    assert(h@.len() == h.len());
    while i <= h.len() - n.len()
        invariant
            h@ == hay@,
            n@ == needle@,
            n@.len() <= h@.len(),
            h@.len() <= usize::MAX,
            0 <= i <= h@.len() - n@.len() + 1,
            forall|k: int| 0 <= k < i ==> #[trigger] h@.subrange(k, k + n@.len()) != n@,
        decreases h@.len() - n@.len() + 1 - i,
    {
        let mut j: usize = 0;
        let mut same: bool = true;
        while same && j < n.len()
            invariant
                h@ == hay@,
                n@ == needle@,
                i + n@.len() <= h@.len(),
                h@.len() <= usize::MAX,
                0 <= j <= n@.len(),
                forall|m: int| 0 <= m < j ==> h@[i + m] == n@[m],
                !same ==> j < n@.len() && h@[i + j] != n@[j as int],
            decreases n@.len() - j + (if same { 1int } else { 0int }),
        {
            if h[i + j] == n[j] {
                j = j + 1;
            } else {
                same = false;
            }
        }
        if j == n.len() {
            assert(h@.subrange(i as int, i + n@.len()) =~= n@);
            return true;
        }
        assert(h@.subrange(i as int, i + n@.len())[j as int] != n@[j as int]);
        i = i + 1;
    }
    false
}

} // verus!
