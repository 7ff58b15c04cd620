//! The crate's view of the XML pull parser: event streams reduced to the
//! variants the formats use.

use vstd::prelude::*;

verus! {

/// An XML event reduced to what the parsers consume: an element opens or
/// closes (by local name), character data, the end of the document, or
/// anything else.
#[derive(Debug, Clone)]
pub enum XmlEv {
    Start(String),
    End(String),
    Chars(String),
    EndDoc,
    Other,
}

/// Holds `xml::reader::EventReader` over an owned byte buffer.  Verus cannot
/// declare the reader's type (it is generic over `std::io::Read`), so the
/// holder is opaque and its two operations are trusted.
#[verifier::external_body]
pub struct XmlReader {
    inner: xml::reader::EventReader<std::io::Cursor<Vec<u8>>>,
}

/// Relies on `xml::reader::EventReader::new`: builds a pull parser over the
/// bytes.
#[verifier::external_body]
pub fn xml_reader_new(bytes: Vec<u8>) -> (r: XmlReader) {
    XmlReader { inner: xml::reader::EventReader::new(std::io::Cursor::new(bytes)) }
}

/// Relies on `xml::reader::EventReader::next`: pulls the next event from the
/// stream.  Nothing is assumed about which event comes back.
#[verifier::external_body]
pub fn next_event(reader: &mut XmlReader) -> (r: Result<XmlEv, String>) {
    match reader.inner.next() {
        Ok(xml::reader::XmlEvent::StartElement { name, .. }) => Ok(XmlEv::Start(name.local_name)),
        Ok(xml::reader::XmlEvent::EndElement { name }) => Ok(XmlEv::End(name.local_name)),
        Ok(xml::reader::XmlEvent::Characters(text)) => Ok(XmlEv::Chars(text)),
        Ok(xml::reader::XmlEvent::EndDocument) => Ok(XmlEv::EndDoc),
        Ok(_) => Ok(XmlEv::Other),
        Err(e) => Err(e.to_string()),
    }
}

} // verus!
