use vstd::prelude::*;
use zip::write::SimpleFileOptions;
use zip::CompressionMethod;
use zip::ZipWriter;

verus! {

/// An error reported by the zip crate.
#[verifier::external_type_specification]
#[verifier::external_body]
pub struct ExZipError(zip::result::ZipError);

/// An I/O error reported through `std::io::Write`.
#[verifier::external_type_specification]
#[verifier::external_body]
pub struct ExIoError(std::io::Error);

/// How an entry's content is stored in the archive.
#[derive(Debug, Clone, Copy, PartialEq, Eq, Structural)]
pub enum Method {
    Stored,
    Deflated,
}

/// One entry of an archive: its name, whether it is a directory marker, its
/// uncompressed content, and how that content is stored.
pub type EntryRecord = (Seq<char>, bool, Seq<u8>, Method);

/// Longest entry name, in UTF-8 bytes, that the zip format can hold.
pub const MAX_ZIP_NAME_BYTES: usize = 65535;

/// Largest content, in bytes, of one file entry whose deflated form is sure
/// to fit the 32-bit size fields written without zip64 extensions: deflate
/// adds a few bytes per block to content it cannot shrink.
pub const MAX_ENTRY_CONTENT: u64 = 4290000000;

/// A zip archive being written into memory. Relies on `zip::ZipWriter` over
/// an in-memory cursor; the writer is reached only through the methods below.
#[verifier::external_body]
pub struct ZipSink {
    zip: ZipWriter<std::io::Cursor<Vec<u8>>>,
}

/// The entries written into a sink so far, in the order they were started:
/// what the methods of `ZipSink` below state of `zip::ZipWriter`.
pub uninterp spec fn sink_entries(s: ZipSink) -> Seq<EntryRecord>;

/// Whether every call made on the sink so far has succeeded and every file
/// entry's content stays within `MAX_ENTRY_CONTENT` bytes.
pub uninterp spec fn sink_healthy(s: ZipSink) -> bool;

/// The bytes of the finished archive holding `entries`, each file's content
/// written in one piece. All entries carry the same fixed timestamp, as the
/// zip crate writes without its `time` feature.
pub uninterp spec fn zip_archive_bytes(entries: Seq<EntryRecord>) -> Seq<u8>;

/// No entry of `entries` is named `name`.
pub open spec fn name_fresh(entries: Seq<EntryRecord>, name: Seq<char>) -> bool {
    forall|k: int| 0 <= k < entries.len() ==> #[trigger] entries[k].0 != name
}

/// The name under which a directory marker is stored: with one trailing
/// separator, added unless the name already ends with `/` or `\`.
pub open spec fn dir_marker(name: Seq<char>) -> Seq<char> {
    if name.len() > 0 && (name.last() == '/' || name.last() == '\\') {
        name
    } else {
        name.push('/')
    }
}

/// Relies on `String::from_utf8`: it succeeds exactly on valid UTF-8, and
/// the text is what the bytes encode.
#[verifier::external_body]
pub(crate) fn decode_utf8(b: Vec<u8>) -> (r: Option<String>)
    ensures
        r is Some <==> vstd::utf8::valid_utf8(b@),
        r matches Some(s) ==> s@ == vstd::utf8::decode_utf8(b@),
{
    String::from_utf8(b).ok()
}

impl ZipSink {
    /// Relies on `ZipWriter::new`: a new writer holds no entries.
    #[verifier::external_body]
    pub(crate) fn new() -> (s: ZipSink)
        ensures
            sink_entries(s) == Seq::<EntryRecord>::empty(),
            sink_healthy(s),
    {
        ZipSink { zip: ZipWriter::new(std::io::Cursor::new(Vec::new())) }
    }

    /// Relies on `ZipWriter::start_file`: on success an empty file entry
    /// named `name`, stored with `method`, is appended; it fails on a healthy
    /// writer only when an entry of that name exists. The name's length is
    /// kept within the format's 16-bit field, on which the writer panics.
    #[verifier::external_body]
    pub(crate) fn start_file(&mut self, name: String, method: Method) -> (r: Result<
        (),
        zip::result::ZipError,
    >)
        requires
            vstd::utf8::encode_utf8(name@).len() <= MAX_ZIP_NAME_BYTES,
        ensures
            r is Ok ==> sink_entries(*final(self)) == sink_entries(*old(self)).push(
                (name@, false, Seq::<u8>::empty(), method),
            ),
            r is Ok ==> sink_healthy(*final(self)) == sink_healthy(*old(self)),
            r is Err ==> !sink_healthy(*final(self)),
            (sink_healthy(*old(self)) && name_fresh(sink_entries(*old(self)), name@)) ==> r is Ok,
    {
        let method = match method {
            Method::Stored => CompressionMethod::Stored,
            Method::Deflated => CompressionMethod::Deflated,
        };
        self.zip.start_file(name, SimpleFileOptions::default().compression_method(method))
    }

    /// Relies on `Write::write_all` of `ZipWriter`: on success `data` becomes
    /// the content of the file entry started last; it fails only past 4 GiB - 1
    /// bytes, and a content above `MAX_ENTRY_CONTENT` leaves the writer
    /// unhealthy, since closing that entry may then fail.
    #[verifier::external_body]
    pub(crate) fn write_all(&mut self, data: &Vec<u8>) -> (r: Result<(), std::io::Error>)
        requires
            sink_entries(*old(self)).len() > 0,
            !sink_entries(*old(self)).last().1,
            sink_entries(*old(self)).last().2.len() == 0,
        ensures
            r is Ok ==> sink_entries(*final(self)) == sink_entries(*old(self)).update(
                sink_entries(*old(self)).len() - 1,
                (
                    sink_entries(*old(self)).last().0,
                    false,
                    sink_entries(*old(self)).last().2 + data@,
                    sink_entries(*old(self)).last().3,
                ),
            ),
            r is Ok ==> sink_healthy(*final(self)) == (sink_healthy(*old(self)) && data@.len()
                <= MAX_ENTRY_CONTENT),
            r is Err ==> !sink_healthy(*final(self)),
            (sink_healthy(*old(self)) && data@.len() <= MAX_ENTRY_CONTENT) ==> r is Ok,
    {
        std::io::Write::write_all(&mut self.zip, data.as_slice())
    }

    /// Relies on `ZipWriter::add_directory`: on success a directory marker
    /// named `name` with one trailing separator, stored uncompressed, is
    /// appended; it fails on a healthy writer only when an entry of that name
    /// exists. The marker's length is kept within the format's 16-bit field.
    #[verifier::external_body]
    pub(crate) fn add_directory(&mut self, name: String) -> (r: Result<(), zip::result::ZipError>)
        requires
            vstd::utf8::encode_utf8(dir_marker(name@)).len() <= MAX_ZIP_NAME_BYTES,
        ensures
            r is Ok ==> sink_entries(*final(self)) == sink_entries(*old(self)).push(
                (dir_marker(name@), true, Seq::<u8>::empty(), Method::Stored),
            ),
            r is Ok ==> sink_healthy(*final(self)) == sink_healthy(*old(self)),
            r is Err ==> !sink_healthy(*final(self)),
            (sink_healthy(*old(self)) && name_fresh(sink_entries(*old(self)), dir_marker(name@)))
                ==> r is Ok,
    {
        self.zip.add_directory(name, SimpleFileOptions::default())
    }

    /// Relies on `ZipWriter::finish`: writes the central directory and hands
    /// back the bytes of the whole archive; on a healthy writer it does not
    /// fail, and the bytes depend on the entries alone.
    #[verifier::external_body]
    pub(crate) fn finish(self) -> (r: Result<Vec<u8>, zip::result::ZipError>)
        ensures
            sink_healthy(self) ==> r is Ok,
            sink_healthy(self) ==> r.unwrap()@ == zip_archive_bytes(sink_entries(self)),
    {
        self.zip.finish().map(|c| c.into_inner())
    }
}

} // verus!
