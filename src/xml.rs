use vstd::prelude::*;

verus! {

#[verifier::external_type_specification]
#[verifier::external_body]
pub struct ExElement(xmltree::Element);

#[verifier::external_type_specification]
#[verifier::external_body]
pub struct ExParseError(xmltree::ParseError);

#[verifier::external_type_specification]
#[verifier::external_body]
pub struct ExEmitterError(xmltree::Error);

/// Whether the bytes parse as an XML document with a root element.
pub uninterp spec fn xml_parses(bytes: Seq<u8>) -> bool;

/// Relies on `xmltree::Element::parse`: it builds the tree of the document's root element,
/// and fails on malformed XML.
#[verifier::external_body]
pub(crate) fn parse_xml(bytes: &[u8]) -> (r: Result<xmltree::Element, xmltree::ParseError>)
    ensures
        r is Ok == xml_parses(bytes@),
{
    xmltree::Element::parse(bytes)
}

/// Relies on `xmltree::Element::write`: it writes the tree out as an XML document.
#[verifier::external_body]
pub(crate) fn write_xml(e: &xmltree::Element) -> (r: Result<Vec<u8>, xmltree::Error>)
{
    let mut out: Vec<u8> = Vec::new();
    e.write(&mut out)?;
    Ok(out)
}

} // verus!
