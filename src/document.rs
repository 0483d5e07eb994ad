use vstd::prelude::*;
use vstd::utf8::encode_utf8;
use std::cmp::Ordering;
use crate::archive::{
    archive_len, finish_archive, new_writer, open_archive, read_member, start_member,
    write_member_data, last_member_fits, zip_archive_bytes, zip_member_reads, zip_members,
    zip_opens, zip_source, zip_writer_open, zip_written, ArchiveWriter, MEMBER_SIZE_LIMIT,
};
use crate::members::{compare_names, lemma_map_of_at, lemma_same_map_same_entries, map_of, names_increasing, Members};
use crate::xml::{parse_xml, write_xml, xml_parses};

verus! {

/// Name of the member that holds the document's content.
pub open spec fn content_name() -> Seq<char> {
    seq!['c', 'o', 'n', 't', 'e', 'n', 't', '.', 'x', 'm', 'l']
}

/// Name of the member that holds the document's styles.
pub open spec fn styles_name() -> Seq<char> {
    seq!['s', 't', 'y', 'l', 'e', 's', '.', 'x', 'm', 'l']
}

/// The two member names that are held as parsed trees rather than as bytes.
pub open spec fn is_distinguished(n: Seq<char>) -> bool {
    n == content_name() || n == styles_name()
}

/// What a package's members leave in the byte map: every member but the two
/// distinguished ones, a later member of one name in place of an earlier one.
pub open spec fn plain_members(es: Seq<(Seq<char>, Seq<u8>)>) -> Map<Seq<char>, Seq<u8>>
    decreases es.len(),
{
    if es.len() == 0 {
        Map::empty()
    } else {
        let m = plain_members(es.drop_last());
        let e = es.last();
        if is_distinguished(e.0) {
            m
        } else {
            m.insert(e.0, e.1)
        }
    }
}

/// Some member of the sequence has name `n`.
pub open spec fn has_member(es: Seq<(Seq<char>, Seq<u8>)>, n: Seq<char>) -> bool {
    exists|i: int| 0 <= i < es.len() && #[trigger] es[i].0 == n
}

/// Every distinguished member of the sequence holds well-formed XML.
pub open spec fn xml_members_parse(es: Seq<(Seq<char>, Seq<u8>)>) -> bool {
    forall|i: int| 0 <= i < es.len() && is_distinguished(#[trigger] es[i].0) ==> xml_parses(es[i].1)
}

/// The names and contents of a sequence of entries.
pub open spec fn entry_views(s: Seq<(String, Vec<u8>)>) -> Seq<(Seq<char>, Seq<u8>)> {
    s.map_values(|e: (String, Vec<u8>)| (e.0@, e.1@))
}

/// The byte map of a package being written: the members with the written trees put in
/// under their canonical names.
pub open spec fn with_trees(
    files: Map<Seq<char>, Seq<u8>>,
    content: Option<Seq<u8>>,
    styles: Option<Seq<u8>>,
) -> Map<Seq<char>, Seq<u8>> {
    let m = match content {
        Some(c) => files.insert(content_name(), c),
        None => files,
    };
    match styles {
        Some(s) => m.insert(styles_name(), s),
        None => m,
    }
}

/// Every member of the archive held in the bytes can be read.
pub open spec fn zip_all_read(bytes: Seq<u8>) -> bool {
    forall|i: int| 0 <= i < zip_members(bytes).len() ==> #[trigger] zip_member_reads(bytes, i)
}

/// A member that an archive here can hold: a name of under 65,536 bytes in UTF-8, the
/// most that an archive's 16-bit name length records, and content within
/// `MEMBER_SIZE_LIMIT`.
pub open spec fn entry_fits(name: Seq<char>, data: Seq<u8>) -> bool {
    encode_utf8(name).len() < 65536 && data.len() <= MEMBER_SIZE_LIMIT
}

/// Every member of the sequence fits an archive.
pub open spec fn members_fit(es: Seq<(Seq<char>, Seq<u8>)>) -> bool {
    forall|i: int| 0 <= i < es.len() ==> entry_fits(#[trigger] es[i].0, es[i].1)
}

/// Every member of the map fits an archive.
pub open spec fn map_fits(m: Map<Seq<char>, Seq<u8>>) -> bool {
    forall|k: Seq<char>| #[trigger] m.contains_key(k) ==> entry_fits(k, m[k])
}

/// The bytes are the archive that the writer makes of the entries `m`, in their order.
pub open spec fn saved_as(bytes: Seq<u8>, m: Seq<(String, Vec<u8>)>) -> bool {
    bytes == zip_archive_bytes(entry_views(m))
}

/// The bytes are the saved form of the byte map `files` with the written trees `c` and
/// `t`: the archive of their entries, each name once, in increasing order of name.
pub open spec fn saved_package(
    bytes: Seq<u8>,
    m: Seq<(String, Vec<u8>)>,
    files: Map<Seq<char>, Seq<u8>>,
    c: Option<Seq<u8>>,
    t: Option<Seq<u8>>,
) -> bool {
    &&& saved_as(bytes, m)
    &&& names_increasing(m)
    &&& map_of(m) == with_trees(files, c, t)
}

/// The bytes that an optional buffer holds.
pub open spec fn view_of(o: Option<Vec<u8>>) -> Option<Seq<u8>> {
    match o {
        Some(v) => Some(v@),
        None => None,
    }
}

/// Why loading or saving a package failed.
#[derive(Debug, Clone, Copy, PartialEq, Eq, Structural)]
pub enum DocumentError {
    /// The bytes are no readable archive, or a member of it does not decompress; or a
    /// member to be saved does not fit an archive (see `entry_fits`).
    Archive,
    /// A distinguished member is not well-formed XML, or a tree could not be written out.
    Xml,
}

/// An OpenDocument package: its members as bytes, but for the content and styles
/// documents, which are held as parsed XML trees.
pub struct Document {
    pub files: Members,
    pub content_xml: Option<xmltree::Element>,
    pub styles_xml: Option<xmltree::Element>,
}

impl Document {
    /// The document holds what loading the members `es`, in this order, gives.
    pub open spec fn loaded_from(&self, es: Seq<(Seq<char>, Seq<u8>)>) -> bool {
        &&& self.files@ == plain_members(es)
        &&& (self.content_xml is Some) == has_member(es, content_name())
        &&& (self.styles_xml is Some) == has_member(es, styles_name())
    }

    fn null_document() -> (r: Document)
        ensures
            r.loaded_from(Seq::empty()),
    {
        Document { files: Members::new(), content_xml: None, styles_xml: None }
    }

    /// Takes in one member: a distinguished one is parsed into its tree, any other is put
    /// into the byte map.
    fn take_member(&mut self, name: String, data: Vec<u8>, Ghost(es): Ghost<Seq<(Seq<char>, Seq<u8>)>>) -> (r: Result<(), DocumentError>)
        requires
            old(self).loaded_from(es),
        ensures
            r is Ok == (is_distinguished(name@) ==> xml_parses(data@)),
            r is Err ==> r->Err_0 == DocumentError::Xml,
            r is Ok ==> final(self).loaded_from(es.push((name@, data@))),
    {
        let ghost e = (name@, data@);
        let ghost es2 = es.push(e);
        proof {
            assert(es2.drop_last() =~= es);
            assert(es2.last() == e);
            assert(has_member(es2, e.0));
            assert forall|n: Seq<char>| n != e.0 implies has_member(es2, n) == has_member(es, n) by {
                if has_member(es2, n) {
                    let i = choose|i: int| 0 <= i < es2.len() && #[trigger] es2[i].0 == n;
                    assert(es[i].0 == n);
                }
                if has_member(es, n) {
                    let i = choose|i: int| 0 <= i < es.len() && #[trigger] es[i].0 == n;
                    assert(es2[i].0 == n);
                }
            }
        }
        let is_content = match compare_names(name.as_str(), "content.xml") {
            Ordering::Equal => true,
            _ => false,
        };
        let is_styles = match compare_names(name.as_str(), "styles.xml") {
            Ordering::Equal => true,
            _ => false,
        };
        proof {
            reveal_strlit("content.xml");
            reveal_strlit("styles.xml");
            assert("content.xml"@ =~= content_name());
            assert("styles.xml"@ =~= styles_name());
        }
        if is_content {
            match parse_xml(data.as_slice()) {
                Ok(tree) => {
                    self.content_xml = Some(tree);
                    Ok(())
                },
                Err(_) => Err(DocumentError::Xml),
            }
        } else if is_styles {
            match parse_xml(data.as_slice()) {
                Ok(tree) => {
                    self.styles_xml = Some(tree);
                    Ok(())
                },
                Err(_) => Err(DocumentError::Xml),
            }
        } else {
            self.files.insert(name, data);
            Ok(())
        }
    }

    /// Builds a document from members already read out of a package, in their order: the
    /// distinguished ones are parsed, the others kept as bytes.
    pub fn from_members(entries: Vec<(String, Vec<u8>)>) -> (r: Result<Document, DocumentError>)
        ensures
            r is Ok == xml_members_parse(entry_views(entries@)),
            r is Err ==> r->Err_0 == DocumentError::Xml,
            r is Ok ==> r->Ok_0.loaded_from(entry_views(entries@)),
    {
        let ghost all = entry_views(entries@);
        assert(all.subrange(0, all.len() as int) =~= all);
        let mut document = Self::null_document();
        let count = entries.len();
        let ghost n = all.len();
        assert(n == count);
        let mut rest = entries;
        let mut i: usize = 0;
        assert(all.subrange(0, 0) =~= Seq::<(Seq<char>, Seq<u8>)>::empty());
        while rest.len() > 0
            invariant
                n == all.len(),
                n <= usize::MAX,
                all == entry_views(entries@),
                i + rest@.len() == n,
                entry_views(rest@) == all.subrange(i as int, n as int),
                document.loaded_from(all.subrange(0, i as int)),
                xml_members_parse(all.subrange(0, i as int)),
            decreases rest@.len(),
        {
            let ghost prefix = all.subrange(0, i as int);
            let ghost before = rest@;
            let (name, data) = rest.remove(0);
            assert(entry_views(before)[0] == all[i as int]);
            assert((name@, data@) == all[i as int]);
            assert(entry_views(rest@) =~= entry_views(before).subrange(1, before.len() as int));
            assert(all.subrange(0, i + 1) =~= prefix.push((name@, data@)));
            match document.take_member(name, data, Ghost(prefix)) {
                Ok(()) => {},
                Err(e) => {
                    assert(is_distinguished(all[i as int].0) && !xml_parses(all[i as int].1));
                    assert(!xml_members_parse(all));
                    return Err(e);
                },
            }
            i = i + 1;
        }
        assert(all.subrange(0, i as int) =~= all);
        Ok(document)
    }

    /// Loads a package from the bytes of its archive.
    pub fn load_from_memory(memory: &[u8]) -> (r: Result<Document, DocumentError>)
        ensures
            r is Ok == (zip_opens(memory@) && zip_all_read(memory@) && xml_members_parse(zip_members(memory@))),
            r is Ok ==> r->Ok_0.loaded_from(zip_members(memory@)),
            r == Err::<Document, DocumentError>(DocumentError::Archive) ==> !zip_opens(memory@) || !zip_all_read(memory@),
            r == Err::<Document, DocumentError>(DocumentError::Xml) ==> zip_opens(memory@) && !xml_members_parse(zip_members(memory@)),
    {
        let mut zip = match open_archive(memory) {
            Ok(zip) => zip,
            Err(_) => {
                return Err(DocumentError::Archive);
            },
        };
        let ghost all = zip_members(memory@);
        let file_count = archive_len(&zip);
        let mut entries: Vec<(String, Vec<u8>)> = Vec::new();
        let mut i: usize = 0;
        while i < file_count
            invariant
                zip_source(zip) == memory@,
                zip_opens(memory@),
                all == zip_members(memory@),
                file_count == all.len(),
                i <= file_count,
                entry_views(entries@) == all.subrange(0, i as int),
                forall|j: int| 0 <= j < i ==> #[trigger] zip_member_reads(memory@, j),
            decreases file_count - i,
        {
            let member = match read_member(&mut zip, i) {
                Ok(member) => member,
                Err(_) => {
                    return Err(DocumentError::Archive);
                },
            };
            let ghost before = entries@;
            entries.push(member);
            assert(entry_views(entries@) =~= entry_views(before).push(all[i as int]));
            assert(all.subrange(0, i + 1) =~= all.subrange(0, i as int).push(all[i as int]));
            i = i + 1;
        }
        assert(all.subrange(0, i as int) =~= all);
        Self::from_members(entries)
    }

    /// The members as they are to be written: the byte map, with the given serialised
    /// trees put in under their canonical names.
    pub fn package_members(&self, content: Option<Vec<u8>>, styles: Option<Vec<u8>>) -> (r: Members)
        ensures
            r@ == with_trees(self.files@, view_of(content), view_of(styles)),
    {
        let mut files = self.files.duplicate();
        match content {
            Some(c) => {
                files.insert("content.xml".to_string(), c);
            },
            None => {},
        }
        match styles {
            Some(s) => {
                files.insert("styles.xml".to_string(), s);
            },
            None => {},
        }
        proof {
            reveal_strlit("content.xml");
            reveal_strlit("styles.xml");
            assert("content.xml"@ =~= content_name());
            assert("styles.xml"@ =~= styles_name());
        }
        files
    }


    /// Saves the package into the bytes of a new archive.
    pub fn save_to_memory(&self) -> (r: Result<Vec<u8>, DocumentError>)
        ensures
            r is Ok ==> exists|m: Seq<(String, Vec<u8>)>, c: Option<Seq<u8>>, t: Option<Seq<u8>>|
                #[trigger] saved_package(r->Ok_0@, m, self.files@, c, t)
                    && (c is Some == self.content_xml is Some)
                    && (t is Some == self.styles_xml is Some),
            r == Err::<Vec<u8>, DocumentError>(DocumentError::Xml) ==> self.content_xml is Some || self.styles_xml is Some,
            r == Err::<Vec<u8>, DocumentError>(DocumentError::Archive) ==> exists|c: Option<Seq<u8>>, t: Option<Seq<u8>>|
                !map_fits(#[trigger] with_trees(self.files@, c, t))
                    && (c is Some == self.content_xml is Some)
                    && (t is Some == self.styles_xml is Some),
            self.content_xml is None && self.styles_xml is None && map_fits(self.files@) ==> r is Ok,
    {
        let content = match &self.content_xml {
            Some(tree) => match write_xml(tree) {
                Ok(bytes) => Some(bytes),
                Err(_) => {
                    return Err(DocumentError::Xml);
                },
            },
            None => None,
        };
        let styles = match &self.styles_xml {
            Some(tree) => match write_xml(tree) {
                Ok(bytes) => Some(bytes),
                Err(_) => {
                    return Err(DocumentError::Xml);
                },
            },
            None => None,
        };
        let ghost c = view_of(content);
        let ghost t = view_of(styles);
        let files = self.package_members(content, styles);
        let r = write_archive(&files);
        proof {
            let m = files.entry_seq();
            lemma_fits_map(m);
            if r is Ok {
                assert(saved_package(r->Ok_0@, m, self.files@, c, t));
            } else {
                assert(!map_fits(with_trees(self.files@, c, t)));
            }
            if self.content_xml is None && self.styles_xml is None {
                assert(with_trees(self.files@, c, t) == self.files@);
            }
        }
        r
    }
}

/// In a sequence with increasing names, every entry fits exactly when every member of
/// the map that they stand for fits.
proof fn lemma_fits_map(m: Seq<(String, Vec<u8>)>)
    requires
        names_increasing(m),
    ensures
        members_fit(entry_views(m)) == map_fits(map_of(m)),
{
    let es = entry_views(m);
    if members_fit(es) {
        assert forall|k: Seq<char>| #[trigger] map_of(m).contains_key(k) implies entry_fits(k, map_of(m)[k]) by {
            let i = choose|i: int| 0 <= i < m.len() && m[i].0@ == k;
            lemma_map_of_at(m, i);
            assert(entry_fits(es[i].0, es[i].1));
        }
    }
    if map_fits(map_of(m)) {
        assert forall|i: int| 0 <= i < es.len() implies entry_fits(#[trigger] es[i].0, es[i].1) by {
            lemma_map_of_at(m, i);
        }
    }
}

/// Whether every member fits an archive.
fn members_all_fit(files: &Members) -> (r: bool)
    ensures
        r == members_fit(entry_views(files.entry_seq())),
{
    let entries = files.as_slice();
    let ghost es = entry_views(entries@);
    let mut i: usize = 0;
    while i < entries.len()
        invariant
            i <= entries@.len(),
            entries@ == files.entry_seq(),
            es == entry_views(entries@),
            forall|j: int| 0 <= j < i ==> entry_fits(#[trigger] es[j].0, es[j].1),
        decreases entries@.len() - i,
    {
        let name_len = entries[i].0.as_str().as_bytes().len();
        if name_len >= 65536 || entries[i].1.len() > MEMBER_SIZE_LIMIT {
            assert(!entry_fits(es[i as int].0, es[i as int].1));
            return false;
        }
        assert(es[i as int].0 == entries@[i as int].0@ && es[i as int].1 == entries@[i as int].1@);
        assert(name_len == encode_utf8(entries@[i as int].0@).len());
        assert(entry_fits(es[i as int].0, es[i as int].1));
        i = i + 1;
    }
    true
}

/// Hands the writer every member, one after the other in the order in which they are
/// held, which is increasing order of name.
fn write_members(w: &mut ArchiveWriter, files: &Members) -> (r: Result<(), DocumentError>)
    requires
        zip_writer_open(*old(w)),
        last_member_fits(zip_written(*old(w))),
        members_fit(entry_views(files.entry_seq())),
    ensures
        r is Ok,
        zip_writer_open(*final(w)),
        last_member_fits(zip_written(*final(w))),
        zip_written(*final(w)) == zip_written(*old(w)) + entry_views(files.entry_seq()),
{
    let entries = files.as_slice();
    let ghost start = zip_written(*w);
    let ghost es = entry_views(entries@);
    let mut i: usize = 0;
    assert(start + entry_views(entries@.subrange(0, 0)) =~= start);
    while i < entries.len()
        invariant
            i <= entries@.len(),
            entries@ == files.entry_seq(),
            es == entry_views(entries@),
            members_fit(es),
            zip_writer_open(*w),
            last_member_fits(zip_written(*w)),
            zip_written(*w) == start + entry_views(entries@.subrange(0, i as int)),
        decreases entries@.len() - i,
    {
        match start_member(w, entries[i].0.as_str()) {
            Ok(()) => {},
            Err(_) => {
                return Err(DocumentError::Archive);
            },
        }
        let data = entries[i].1.as_slice();
        assert(Seq::<u8>::empty() + entries@[i as int].1@ =~= entries@[i as int].1@);
        assert(entry_fits(es[i as int].0, es[i as int].1));
        match write_member_data(w, data) {
            Ok(()) => {},
            Err(_) => {
                return Err(DocumentError::Archive);
            },
        }
        assert(start + entry_views(entries@.subrange(0, i + 1)) =~= (start + entry_views(entries@.subrange(0, i as int))).push(
            (entries@[i as int].0@, entries@[i as int].1@),
        ));
        i = i + 1;
    }
    assert(entries@.subrange(0, i as int) =~= entries@);
    Ok(())
}

/// Writes the members into a new archive, one after the other in increasing order of
/// name. A member that does not fit an archive is refused before anything is written.
pub fn write_archive(files: &Members) -> (r: Result<Vec<u8>, DocumentError>)
    ensures
        names_increasing(files.entry_seq()),
        r is Err ==> r->Err_0 == DocumentError::Archive,
        r is Ok == members_fit(entry_views(files.entry_seq())),
        r is Ok ==> saved_as(r->Ok_0@, files.entry_seq()),
{
    let _ = files.as_slice();
    if !members_all_fit(files) {
        return Err(DocumentError::Archive);
    }
    let mut w = new_writer();
    match write_members(&mut w, files) {
        Ok(()) => {},
        Err(e) => {
            return Err(e);
        },
    }
    assert(zip_written(w) =~= entry_views(files.entry_seq()));
    match finish_archive(&mut w) {
        Ok(bytes) => Ok(bytes),
        Err(_) => Err(DocumentError::Archive),
    }
}

/// A member that is not distinguished, and that no later member of its name replaces,
/// stands in the byte map with its content unchanged.
proof fn lemma_plain_member_kept(es: Seq<(Seq<char>, Seq<u8>)>, i: int)
    requires
        0 <= i < es.len(),
        !is_distinguished(es[i].0),
        forall|j: int| i < j < es.len() ==> #[trigger] es[j].0 != es[i].0,
    ensures
        plain_members(es).contains_key(es[i].0),
        plain_members(es)[es[i].0] == es[i].1,
    decreases es.len(),
{
    if i < es.len() - 1 {
        let rest = es.drop_last();
        assert forall|j: int| i < j < rest.len() implies #[trigger] rest[j].0 != rest[i].0 by {
            assert(rest[j] == es[j]);
        }
        lemma_plain_member_kept(rest, i);
    }
}

/// The byte map holds exactly the names of the members that are not distinguished.
proof fn lemma_plain_member_names(es: Seq<(Seq<char>, Seq<u8>)>, n: Seq<char>)
    ensures
        plain_members(es).contains_key(n) == (has_member(es, n) && !is_distinguished(n)),
    decreases es.len(),
{
    if es.len() > 0 {
        let rest = es.drop_last();
        lemma_plain_member_names(rest, n);
        if has_member(es, n) {
            let i = choose|i: int| 0 <= i < es.len() && #[trigger] es[i].0 == n;
            if i < es.len() - 1 {
                assert(rest[i].0 == n);
            }
        }
        if has_member(rest, n) {
            let i = choose|i: int| 0 <= i < rest.len() && #[trigger] rest[i].0 == n;
            assert(es[i].0 == n);
        }
    }
}

/// Loading keeps every member that is not distinguished byte for byte: its content is what
/// the byte map holds under its name, unless a later member of the package has that name.
pub proof fn law_opaque_member_kept(d: Document, es: Seq<(Seq<char>, Seq<u8>)>, i: int)
    requires
        d.loaded_from(es),
        0 <= i < es.len(),
        !is_distinguished(es[i].0),
        forall|j: int| i < j < es.len() ==> #[trigger] es[j].0 != es[i].0,
    ensures
        d.files@.contains_key(es[i].0),
        d.files@[es[i].0] == es[i].1,
{
    lemma_plain_member_kept(es, i);
}

/// Loading drops no member: each one's name is in the byte map, or it is a distinguished
/// name whose tree is present.
pub proof fn law_no_member_dropped(d: Document, es: Seq<(Seq<char>, Seq<u8>)>, i: int)
    requires
        d.loaded_from(es),
        0 <= i < es.len(),
    ensures
        d.files@.contains_key(es[i].0)
            || (es[i].0 == content_name() && d.content_xml is Some)
            || (es[i].0 == styles_name() && d.styles_xml is Some),
{
    assert(has_member(es, es[i].0));
    lemma_plain_member_names(es, es[i].0);
}

/// A loaded document never holds a distinguished member as bytes.
pub proof fn law_trees_not_in_bytes(d: Document, es: Seq<(Seq<char>, Seq<u8>)>)
    requires
        d.loaded_from(es),
    ensures
        !d.files@.contains_key(content_name()),
        !d.files@.contains_key(styles_name()),
{
    lemma_plain_member_names(es, content_name());
    lemma_plain_member_names(es, styles_name());
}

/// Saving is determined by what is saved: two saved forms of the same byte map with the
/// same written trees are the same bytes, whatever order the members were loaded in.
pub proof fn law_save_deterministic(
    b1: Seq<u8>,
    m1: Seq<(String, Vec<u8>)>,
    b2: Seq<u8>,
    m2: Seq<(String, Vec<u8>)>,
    files: Map<Seq<char>, Seq<u8>>,
    c: Option<Seq<u8>>,
    t: Option<Seq<u8>>,
)
    requires
        saved_package(b1, m1, files, c, t),
        saved_package(b2, m2, files, c, t),
    ensures
        b1 == b2,
{
    lemma_same_map_same_entries(m1, m2);
    assert(entry_views(m1) =~= entry_views(m2));
}

} // verus!
