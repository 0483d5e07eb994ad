use opendocument::document::{write_archive, Document, DocumentError};
use opendocument::members::Members;
use std::io::Write;

const CONTENT: &str = "<?xml version=\"1.0\" encoding=\"UTF-8\"?>\
<office:document-content xmlns:office=\"urn:oasis:names:tc:opendocument:xmlns:office:1.0\" \
xmlns:text=\"urn:oasis:names:tc:opendocument:xmlns:text:1.0\" office:version=\"1.2\">\
<office:body><office:text><text:p>asdf</text:p></office:text></office:body>\
</office:document-content>";

const STYLES: &str = "<?xml version=\"1.0\" encoding=\"UTF-8\"?>\
<office:document-styles xmlns:office=\"urn:oasis:names:tc:opendocument:xmlns:office:1.0\" \
office:version=\"1.2\"><office:styles/></office:document-styles>";

const MANIFEST: &str = "<?xml version=\"1.0\" encoding=\"UTF-8\"?>\
<manifest:manifest xmlns:manifest=\"urn:oasis:names:tc:opendocument:xmlns:manifest:1.0\">\
<manifest:file-entry manifest:full-path=\"/\" manifest:media-type=\"application/vnd.oasis.opendocument.text\"/>\
</manifest:manifest>";

fn build_archive(members: &[(&str, &[u8])]) -> Vec<u8> {
    let mut zip = zip::ZipWriter::new(std::io::Cursor::new(Vec::new()));
    for (name, data) in members {
        zip.start_file(*name, zip::write::FileOptions::default()).unwrap();
        zip.write_all(data).unwrap();
    }
    zip.finish().unwrap().into_inner()
}

fn sample_package() -> Vec<u8> {
    build_archive(&[
        ("mimetype", b"application/vnd.oasis.opendocument.text"),
        ("content.xml", CONTENT.as_bytes()),
        ("META-INF/manifest.xml", MANIFEST.as_bytes()),
    ])
}

fn paragraph_text(tree: &xmltree::Element) -> Option<String> {
    let body = tree.get_child("body")?;
    let text = body.get_child("text")?;
    let p = text.get_child("p")?;
    p.get_text().map(|t| t.into_owned())
}

fn names(members: &Members) -> Vec<String> {
    members.as_slice().iter().map(|(n, _)| n.clone()).collect()
}

#[test]
fn end_to_end_paragraph_survives_round_trip() {
    let document = Document::load_from_memory(&sample_package()).unwrap();
    assert!(document.content_xml.is_some());
    assert!(document.styles_xml.is_none());
    assert_eq!(
        document.files.get("mimetype").unwrap(),
        &b"application/vnd.oasis.opendocument.text".to_vec()
    );
    assert_eq!(
        document.files.get("META-INF/manifest.xml").unwrap(),
        &MANIFEST.as_bytes().to_vec()
    );
    assert_eq!(paragraph_text(document.content_xml.as_ref().unwrap()), Some("asdf".to_string()));
    let saved = document.save_to_memory().unwrap();
    let again = Document::load_from_memory(&saved).unwrap();
    assert_eq!(paragraph_text(again.content_xml.as_ref().unwrap()), Some("asdf".to_string()));
}

#[test]
fn opaque_members_keep_their_bytes() {
    let binary: Vec<u8> = (0..=255u8).collect();
    let bytes = build_archive(&[
        ("Pictures/image.png", &binary),
        ("content.xml", CONTENT.as_bytes()),
        ("meta.xml", b"<not even xml"),
        ("empty", b""),
    ]);
    let document = Document::load_from_memory(&bytes).unwrap();
    assert_eq!(document.files.len(), 3);
    assert_eq!(document.files.get("Pictures/image.png").unwrap(), &binary);
    assert_eq!(document.files.get("meta.xml").unwrap(), &b"<not even xml".to_vec());
    assert_eq!(document.files.get("empty").unwrap(), &Vec::<u8>::new());
    assert!(!document.files.contains("content.xml"));
}

#[test]
fn trees_are_stable_over_save_and_load() {
    let bytes = build_archive(&[
        ("content.xml", CONTENT.as_bytes()),
        ("styles.xml", STYLES.as_bytes()),
        ("mimetype", b"application/vnd.oasis.opendocument.text"),
    ]);
    let first = Document::load_from_memory(&bytes).unwrap();
    let second = Document::load_from_memory(&first.save_to_memory().unwrap()).unwrap();
    assert_eq!(first.content_xml, second.content_xml);
    assert_eq!(first.styles_xml, second.styles_xml);
    assert!(second.styles_xml.is_some());
    assert_eq!(names(&first.files), names(&second.files));
    assert_eq!(first.files.as_slice(), second.files.as_slice());
}

#[test]
fn every_member_is_reachable() {
    let document = Document::load_from_memory(&build_archive(&[
        ("styles.xml", STYLES.as_bytes()),
        ("b", b"2"),
        ("content.xml", CONTENT.as_bytes()),
        ("a", b"1"),
    ]))
    .unwrap();
    assert_eq!(names(&document.files), vec!["a".to_string(), "b".to_string()]);
    assert!(document.content_xml.is_some());
    assert!(document.styles_xml.is_some());
    assert!(!document.files.contains("styles.xml"));
}

#[test]
fn saved_package_loads_again() {
    let document = Document::load_from_memory(&sample_package()).unwrap();
    let saved = document.save_to_memory().unwrap();
    let mut archive = zip::ZipArchive::new(std::io::Cursor::new(saved.clone())).unwrap();
    assert_eq!(archive.len(), 3);
    let listed: Vec<String> = (0..archive.len())
        .map(|i| archive.by_index(i).unwrap().name().to_string())
        .collect();
    assert_eq!(listed, vec!["META-INF/manifest.xml", "content.xml", "mimetype"]);
    let again = Document::load_from_memory(&saved).unwrap();
    assert_eq!(again.files.len(), 2);
    assert!(again.content_xml.is_some());
}

#[test]
fn save_leaves_the_document_unchanged() {
    let document = Document::load_from_memory(&sample_package()).unwrap();
    let first = document.save_to_memory().unwrap();
    let second = document.save_to_memory().unwrap();
    assert_eq!(first, second);
    assert_eq!(document.files.len(), 2);
    assert!(!document.files.contains("content.xml"));
}

#[test]
fn bytes_that_are_no_archive_fail() {
    assert_eq!(
        Document::load_from_memory(b"this is not a zip archive").err(),
        Some(DocumentError::Archive)
    );
    assert_eq!(Document::load_from_memory(&[]).err(), Some(DocumentError::Archive));
}

#[test]
fn malformed_content_fails_with_xml_error() {
    let bytes = build_archive(&[
        ("mimetype", b"application/vnd.oasis.opendocument.text"),
        ("content.xml", b"<office:document-content><text:p>asdf</office:document-content>"),
    ]);
    assert_eq!(Document::load_from_memory(&bytes).err(), Some(DocumentError::Xml));
}

#[test]
fn malformed_styles_fails_with_xml_error() {
    let bytes = build_archive(&[("styles.xml", b"<a><b></a>")]);
    assert_eq!(Document::load_from_memory(&bytes).err(), Some(DocumentError::Xml));
}

#[test]
fn empty_archive_gives_empty_document() {
    let document = Document::load_from_memory(&build_archive(&[])).unwrap();
    assert_eq!(document.files.len(), 0);
    assert!(document.content_xml.is_none());
    assert!(document.styles_xml.is_none());
    let again = Document::load_from_memory(&document.save_to_memory().unwrap()).unwrap();
    assert_eq!(again.files.len(), 0);
}

#[test]
fn from_members_keeps_the_last_of_equal_names() {
    let document = Document::from_members(vec![
        ("x".to_string(), b"first".to_vec()),
        ("content.xml".to_string(), CONTENT.as_bytes().to_vec()),
        ("x".to_string(), b"second".to_vec()),
    ])
    .unwrap();
    assert_eq!(document.files.len(), 1);
    assert_eq!(document.files.get("x").unwrap(), &b"second".to_vec());
    assert!(document.content_xml.is_some());
}

#[test]
fn from_members_rejects_malformed_trees() {
    let result = Document::from_members(vec![("styles.xml".to_string(), b"<open>".to_vec())]);
    assert_eq!(result.err(), Some(DocumentError::Xml));
}

#[test]
fn package_members_put_trees_under_canonical_names() {
    let document = Document::from_members(vec![
        ("mimetype".to_string(), b"m".to_vec()),
        ("content.xml".to_string(), CONTENT.as_bytes().to_vec()),
    ])
    .unwrap();
    let plan = document.package_members(Some(b"C".to_vec()), Some(b"S".to_vec()));
    assert_eq!(
        names(&plan),
        vec!["content.xml".to_string(), "mimetype".to_string(), "styles.xml".to_string()]
    );
    assert_eq!(plan.get("content.xml").unwrap(), &b"C".to_vec());
    assert_eq!(plan.get("styles.xml").unwrap(), &b"S".to_vec());
    let unchanged = document.package_members(None, None);
    assert_eq!(names(&unchanged), vec!["mimetype".to_string()]);
    assert_eq!(document.files.len(), 1);
}

#[test]
fn write_archive_writes_each_member_in_name_order() {
    let mut members = Members::new();
    members.insert("zeta".to_string(), b"last".to_vec());
    members.insert("alpha".to_string(), b"first".to_vec());
    let bytes = write_archive(&members).unwrap();
    let mut archive = zip::ZipArchive::new(std::io::Cursor::new(bytes)).unwrap();
    assert_eq!(archive.len(), 2);
    let mut data = Vec::new();
    {
        let mut first = archive.by_index(0).unwrap();
        assert_eq!(first.name(), "alpha");
        std::io::Read::read_to_end(&mut first, &mut data).unwrap();
    }
    assert_eq!(data, b"first".to_vec());
    assert_eq!(archive.by_index(1).unwrap().name(), "zeta");
}

#[test]
fn empty_members_are_written_and_read_back() {
    let mut members = Members::new();
    members.insert("empty".to_string(), Vec::new());
    members.insert("full".to_string(), b"data".to_vec());
    let bytes = write_archive(&members).unwrap();
    let document = Document::load_from_memory(&bytes).unwrap();
    assert_eq!(document.files.get("empty").unwrap(), &Vec::<u8>::new());
    assert_eq!(document.files.get("full").unwrap(), &b"data".to_vec());
    assert_eq!(document.files.len(), 2);
}

#[test]
fn names_too_long_for_an_archive_are_refused() {
    let mut members = Members::new();
    members.insert("a".repeat(65536), b"x".to_vec());
    assert_eq!(write_archive(&members).err(), Some(DocumentError::Archive));
    let mut document = Document::from_members(Vec::new()).unwrap();
    document.files.insert("b".repeat(70000), Vec::new());
    assert_eq!(document.save_to_memory().err(), Some(DocumentError::Archive));
}

#[test]
fn longest_name_is_written_and_read_back() {
    let name = "n".repeat(65535);
    let mut members = Members::new();
    members.insert(name.clone(), b"x".to_vec());
    let document = Document::load_from_memory(&write_archive(&members).unwrap()).unwrap();
    assert_eq!(document.files.get(&name).unwrap(), &b"x".to_vec());
}
