//! Round-trip access to OpenDocument packages: the archive's members are read into a
//! document whose content and styles are parsed XML trees and whose other members are
//! kept as bytes, and the document is written back into an archive.

pub mod archive;
pub mod document;
pub mod members;
pub mod xml;
