use vstd::prelude::*;
use std::io::Cursor;

verus! {

#[verifier::external_type_specification]
#[verifier::external_body]
#[verifier::reject_recursive_types(T)]
pub struct ExCursor<T>(Cursor<T>);

#[verifier::external_type_specification]
#[verifier::external_body]
#[verifier::reject_recursive_types(R)]
pub struct ExZipArchive<R>(zip::ZipArchive<R>);

/// An archive being written into memory, through a `zip::ZipWriter` over a cursor.
#[verifier::external_body]
pub struct ArchiveWriter {
    inner: zip::ZipWriter<Cursor<Vec<u8>>>,
}

#[verifier::external_type_specification]
#[verifier::external_body]
pub struct ExZipError(zip::result::ZipError);

/// Whether the bytes hold an archive whose central directory can be read.
pub uninterp spec fn zip_opens(bytes: Seq<u8>) -> bool;

/// The members of the archive held in the bytes, in the order of its central directory:
/// each one's name and decompressed content.
pub uninterp spec fn zip_members(bytes: Seq<u8>) -> Seq<(Seq<char>, Seq<u8>)>;

/// Whether member `i` of the archive held in the bytes can be read: it needs no password
/// but the empty one, and its content decompresses and matches its CRC.
pub uninterp spec fn zip_member_reads(bytes: Seq<u8>, i: int) -> bool;

/// The bytes that an archive reader reads from.
pub uninterp spec fn zip_source(a: zip::ZipArchive<Cursor<Vec<u8>>>) -> Seq<u8>;

/// The members handed to an archive writer so far: each one's name and content.
pub uninterp spec fn zip_written(w: ArchiveWriter) -> Seq<(Seq<char>, Seq<u8>)>;

/// Whether an archive writer is still open: neither finished nor closed by an error.
pub uninterp spec fn zip_writer_open(w: ArchiveWriter) -> bool;

/// The bytes of the archive that a writer produces from these members, written in this
/// order with the default options.
pub uninterp spec fn zip_archive_bytes(members: Seq<(Seq<char>, Seq<u8>)>) -> Seq<u8>;

/// The largest content that a member may have here: half of `u32::MAX`. Deflate adds at
/// most five bytes to each stored block of 65,535 bytes, so the compressed size of such a
/// member stays within the `u32::MAX` that the writer allows without the large-file option.
pub const MEMBER_SIZE_LIMIT: usize = 0x7fff_ffff;

/// The member written last, if any, has content within `MEMBER_SIZE_LIMIT`.
pub open spec fn last_member_fits(written: Seq<(Seq<char>, Seq<u8>)>) -> bool {
    written.len() > 0 ==> written.last().1.len() <= MEMBER_SIZE_LIMIT
}

/// Relies on `zip::ZipArchive::new`: it reads the central directory of the archive in
/// `bytes`, and fails where there is none to read.
#[verifier::external_body]
pub(crate) fn open_archive(bytes: &[u8]) -> (r: Result<zip::ZipArchive<Cursor<Vec<u8>>>, zip::result::ZipError>)
    ensures
        r is Ok == zip_opens(bytes@),
        r is Ok ==> zip_source(r->Ok_0) == bytes@,
{
    zip::ZipArchive::new(Cursor::new(bytes.to_vec()))
}

/// Relies on `zip::ZipArchive::len`: the number of members in the central directory.
#[verifier::external_body]
pub(crate) fn archive_len(a: &zip::ZipArchive<Cursor<Vec<u8>>>) -> (r: usize)
    ensures
        r == zip_members(zip_source(*a)).len(),
{
    a.len()
}

/// Relies on `zip::ZipArchive::by_index_decrypt` with an empty password (ignored for a
/// member that is not encrypted), on `zip::read::ZipFile::name` and on the `Read` impl of
/// `zip::read::ZipFile`: the name of member `i` and its content, decompressed and checked
/// against its CRC. A member encrypted under a password other than the empty one gives an
/// error.
#[verifier::external_body]
pub(crate) fn read_member(a: &mut zip::ZipArchive<Cursor<Vec<u8>>>, i: usize) -> (r: Result<(String, Vec<u8>), zip::result::ZipError>)
    ensures
        zip_source(*final(a)) == zip_source(*old(a)),
        r is Ok == (i < zip_members(zip_source(*old(a))).len() && zip_member_reads(zip_source(*old(a)), i as int)),
        r is Ok ==> r->Ok_0.0@ == zip_members(zip_source(*old(a)))[i as int].0,
        r is Ok ==> r->Ok_0.1@ == zip_members(zip_source(*old(a)))[i as int].1,
{
    let mut file = match a.by_index_decrypt(i, &[])? {
        Ok(file) => file,
        Err(_) => return Err(zip::result::ZipError::UnsupportedArchive(zip::result::ZipError::PASSWORD_REQUIRED)),
    };
    let name = file.name().to_string();
    let mut data: Vec<u8> = Vec::new();
    std::io::Read::read_to_end(&mut file, &mut data)?;
    Ok((name, data))
}

/// Relies on `zip::ZipWriter::new`: a writer that has been handed no member.
#[verifier::external_body]
pub(crate) fn new_writer() -> (r: ArchiveWriter)
    ensures
        zip_written(r) == Seq::<(Seq<char>, Seq<u8>)>::empty(),
        zip_writer_open(r),
{
    ArchiveWriter { inner: zip::ZipWriter::new(Cursor::new(Vec::new())) }
}

/// Relies on `zip::ZipWriter::start_file`, with the default options: it finishes the
/// member begun before, which fails where its compressed size exceeds `u32::MAX`, and
/// begins a new, still empty member under `name`.
#[verifier::external_body]
pub(crate) fn start_member(w: &mut ArchiveWriter, name: &str) -> (r: Result<(), zip::result::ZipError>)
    ensures
        zip_writer_open(*old(w)) && last_member_fits(zip_written(*old(w))) ==> r is Ok,
        r is Ok ==> zip_writer_open(*final(w)),
        r is Ok ==> zip_written(*final(w)) == zip_written(*old(w)).push((name@, Seq::<u8>::empty())),
{
    w.inner.start_file(name, zip::write::FileOptions::default())
}

/// Relies on the `Write` impl of `zip::ZipWriter` (`write_all`): the bytes are appended to
/// the member begun last. Writing some bytes with no member begun fails, and so does a
/// member that grows past `u32::MAX` bytes, which closes the writer; empty data is no write.
#[verifier::external_body]
pub(crate) fn write_member_data(w: &mut ArchiveWriter, data: &[u8]) -> (r: Result<(), zip::result::ZipError>)
    ensures
        zip_writer_open(*old(w)) && zip_written(*old(w)).len() > 0
            && zip_written(*old(w)).last().1.len() + data@.len() <= u32::MAX ==> r is Ok,
        r is Ok ==> zip_writer_open(*final(w)) == zip_writer_open(*old(w)),
        r is Ok && data@.len() == 0 ==> zip_written(*final(w)) == zip_written(*old(w)),
        r is Ok && data@.len() > 0 ==> zip_written(*old(w)).len() > 0,
        r is Ok && data@.len() > 0 ==> zip_written(*final(w)) == zip_written(*old(w)).update(
            zip_written(*old(w)).len() - 1,
            (zip_written(*old(w)).last().0, zip_written(*old(w)).last().1 + data@),
        ),
{
    std::io::Write::write_all(&mut w.inner, data)?;
    Ok(())
}

/// Relies on `zip::ZipWriter::finish`: it finishes the member begun last, which fails
/// where its compressed size exceeds `u32::MAX`, writes the central directory and hands
/// back the bytes of the archive. With the default options (the crate's `time` feature is
/// off, so no clock is read) those bytes depend on the members handed to the writer alone.
#[verifier::external_body]
pub(crate) fn finish_archive(w: &mut ArchiveWriter) -> (r: Result<Vec<u8>, zip::result::ZipError>)
    ensures
        zip_writer_open(*old(w)) && last_member_fits(zip_written(*old(w))) ==> r is Ok,
        r is Ok ==> r->Ok_0@ == zip_archive_bytes(zip_written(*old(w))),
{
    let cursor = w.inner.finish()?;
    Ok(cursor.into_inner())
}

} // verus!
