use vstd::prelude::*;
use crate::archive::{
    decode_utf8, dir_marker, name_fresh, sink_entries, sink_healthy, zip_archive_bytes, EntryRecord,
    Method, ZipSink,
    MAX_ENTRY_CONTENT, MAX_ZIP_NAME_BYTES,
};
use vstd::utf8::{decode_utf8 as text_of, encode_utf8, valid_utf8};

verus! {

/// Longest archive name accepted, in characters, before the extension is added.
pub const MAX_NAME_LEN: usize = 100;

/// The extension every archive name ends with.
pub open spec fn zip_ext() -> Seq<char> {
    seq!['.', 'z', 'i', 'p']
}

pub open spec fn has_zip_ext(s: Seq<char>) -> bool {
    s.len() >= 4 && s.subrange(s.len() - 4, s.len() as int) == zip_ext()
}

/// The archive name with exactly one trailing `.zip`.
pub open spec fn normalized_name(s: Seq<char>) -> Seq<char> {
    if has_zip_ext(s) {
        s
    } else {
        s + zip_ext()
    }
}

/// Why an archive could not be built.
#[derive(Debug, PartialEq, Eq)]
pub enum CompressError {
    /// The requested archive name is longer than `MAX_NAME_LEN` characters.
    NameTooLong,
    /// A directory could not be resolved: it does not exist or is inaccessible.
    PathNotFound,
    /// A path resolved, but not to a directory.
    NotADirectory,
    /// The name of the entry at this path, relative to the root, is not UTF-8.
    NonUtf8Path(Vec<u8>),
    /// A walked entry does not lie under the traversal root.
    EntryOutsideRoot(Vec<u8>),
    /// The name of the entry at this path, relative to the root, is longer
    /// than `MAX_ENTRY_NAME_BYTES` bytes.
    EntryNameTooLong(Vec<u8>),
    /// Reading, creating or writing failed at this path; for the archive,
    /// writing the entry of this path failed (its name is already taken, or
    /// its content is too large).
    IoFailure(Vec<u8>),
    /// The archive's central directory could not be written.
    ArchiveFinalizeError,
}

/// The archive builder's operations.
pub struct Compress;

/// What a caller supplies to build an archive.
pub struct CompressArgs {
    pub archive_name: String,
    pub archive_dest: String,
    pub src_dir: String,
}

impl Compress {
    /// Checks the length of a requested archive name and gives it the `.zip`
    /// extension unless it already ends with it. The length is counted in
    /// characters; the extension check is case-sensitive.
    pub fn validate_name(archive_name: &str) -> (r: Result<String, CompressError>)
        ensures
            archive_name@.len() > MAX_NAME_LEN <==> r is Err,
            r is Err ==> r == Err::<String, CompressError>(CompressError::NameTooLong),
            r matches Ok(n) ==> n@ == normalized_name(archive_name@),
    {
        let len = archive_name.unicode_len();
        if len > MAX_NAME_LEN {
            return Err(CompressError::NameTooLong);
        }
        let ends = len >= 4 && archive_name.get_char(len - 4) == '.' && archive_name.get_char(len
            - 3) == 'z' && archive_name.get_char(len - 2) == 'i' && archive_name.get_char(len - 1)
            == 'p';
        proof {
            let s = archive_name@;
            if len >= 4 {
                assert(ends <==> s.subrange(s.len() - 4, s.len() as int) =~= zip_ext());
            }
        }
        let mut name = String::from_str(archive_name);
        if !ends {
            name.append(".zip");
            proof {
                reveal_strlit(".zip");
                assert(name@ =~= archive_name@ + zip_ext());
            }
        }
        Ok(name)
    }
}

/// Longest relative entry name, in bytes: a directory marker adds one
/// separator and must still fit the zip format's name field.
pub const MAX_ENTRY_NAME_BYTES: usize = 65534;

/// The separator between path components, as a byte.
pub const SEPARATOR: u8 = 47;

/// `root` followed by one separator, unless it already ends with one.
pub open spec fn dir_prefix(root: Seq<u8>) -> Seq<u8> {
    if root.len() > 0 && root.last() == SEPARATOR {
        root
    } else {
        root.push(SEPARATOR)
    }
}

/// The name of `path` relative to the traversal root `root`: empty for the
/// root itself, the rest after the root's prefix for a path under it, and
/// nothing for any other path.
pub open spec fn relative_name(root: Seq<u8>, path: Seq<u8>) -> Option<Seq<u8>> {
    let p = dir_prefix(root);
    if path == root {
        Some(Seq::empty())
    } else if p.len() <= path.len() && path.subrange(0, p.len() as int) == p {
        Some(path.subrange(p.len() as int, path.len() as int))
    } else {
        None
    }
}

/// One entry met while walking the source tree.
pub struct SourceEntry {
    pub path: Vec<u8>,
    pub is_file: bool,
}

/// The records that one walked entry, whose relative name is `rel` and whose
/// text is `name`, adds to the archive: a deflated file entry for a file, a
/// directory marker for any other entry but the root, and nothing for the root.
pub open spec fn records_of(rel: Seq<u8>, name: Seq<char>, is_file: bool, content: Seq<u8>) -> Seq<
    EntryRecord,
> {
    if is_file {
        seq![(name, false, content, Method::Deflated)]
    } else if rel.len() > 0 {
        seq![(dir_marker(name), true, Seq::<u8>::empty(), Method::Stored)]
    } else {
        Seq::empty()
    }
}

/// Whether an entry can be named: it lies under the root and its relative
/// name is UTF-8.
pub open spec fn nameable(root: Seq<u8>, path: Seq<u8>) -> bool {
    relative_name(root, path) is Some && valid_utf8(relative_name(root, path).unwrap())
}

/// The text of the name of an entry that can be named.
pub open spec fn entry_text(root: Seq<u8>, path: Seq<u8>) -> Seq<char> {
    text_of(relative_name(root, path).unwrap())
}

/// The records that one nameable entry adds to the archive.
pub open spec fn entry_records(root: Seq<u8>, e: SourceEntry, content: Seq<u8>) -> Seq<EntryRecord> {
    records_of(
        relative_name(root, e.path@).unwrap(),
        entry_text(root, e.path@),
        e.is_file,
        content,
    )
}

/// Every entry of `es` can be named.
pub open spec fn all_nameable(root: Seq<u8>, es: Seq<SourceEntry>) -> bool {
    forall|i: int| 0 <= i < es.len() ==> nameable(root, #[trigger] es[i].path@)
}

/// The relative name of an entry is short enough to be stored.
pub open spec fn short_name(root: Seq<u8>, path: Seq<u8>) -> bool {
    relative_name(root, path).unwrap().len() <= MAX_ENTRY_NAME_BYTES
}

/// An entry can be written: it can be named and its name is short enough.
pub open spec fn writable(root: Seq<u8>, path: Seq<u8>) -> bool {
    nameable(root, path) && short_name(root, path)
}

/// Every entry of `es` can be written, and every file's content fits an
/// entry.
pub open spec fn all_writable(root: Seq<u8>, es: Seq<SourceEntry>, cs: Seq<Vec<u8>>) -> bool {
    &&& forall|i: int| 0 <= i < es.len() ==> writable(root, #[trigger] es[i].path@)
    &&& forall|i: int|
        0 <= i < es.len() && #[trigger] es[i].is_file ==> cs[i]@.len() <= MAX_ENTRY_CONTENT
}

/// The kept entries of `es` have pairwise distinct stored names, none of
/// which is already in `records`.
pub open spec fn names_free(root: Seq<u8>, es: Seq<SourceEntry>, records: Seq<EntryRecord>) -> bool {
    &&& forall|i: int, j: int|
        0 <= i < j < es.len() && kept(root, #[trigger] es[i]) && kept(root, #[trigger] es[j])
            ==> stored_name(root, es[i]) != stored_name(root, es[j])
    &&& forall|i: int|
        0 <= i < es.len() && kept(root, #[trigger] es[i]) ==> name_fresh(
            records,
            stored_name(root, es[i]),
        )
}

/// The records that a walk's entries add to the archive, in walk order.
pub open spec fn tree_records(root: Seq<u8>, es: Seq<SourceEntry>, cs: Seq<Vec<u8>>) -> Seq<
    EntryRecord,
>
    decreases es.len(),
{
    if es.len() == 0 || cs.len() == 0 {
        Seq::empty()
    } else {
        tree_records(root, es.drop_last(), cs.drop_last()) + entry_records(
            root,
            es.last(),
            cs.last()@,
        )
    }
}

/// Writes the entries of one walk into a zip archive held in memory.
pub struct ArchiveBuilder {
    root: Vec<u8>,
    sink: ZipSink,
}

impl ArchiveBuilder {
    /// The traversal root that entry names are relative to.
    pub closed spec fn root_path(&self) -> Seq<u8> {
        self.root@
    }

    /// The entries written so far.
    pub closed spec fn records(&self) -> Seq<EntryRecord> {
        sink_entries(self.sink)
    }

    /// Every write into the archive so far has succeeded.
    pub closed spec fn healthy(&self) -> bool {
        sink_healthy(self.sink)
    }

    /// Starts an empty archive for a walk rooted at `root`.
    pub fn new(root: Vec<u8>) -> (b: ArchiveBuilder)
        ensures
            b.root_path() == root@,
            b.records() == Seq::<EntryRecord>::empty(),
            b.healthy(),
    {
        ArchiveBuilder { root, sink: ZipSink::new() }
    }

    /// Names `path` relative to the root and decodes that name.
    fn name_entry(&self, path: &Vec<u8>) -> (r: Result<(Vec<u8>, String), CompressError>)
        ensures
            r matches Ok((rel, name)) ==> nameable(self.root_path(), path@) && relative_name(
                self.root_path(),
                path@,
            ) == Some(rel@) && name@ == entry_text(self.root_path(), path@),
            nameable(self.root_path(), path@) ==> r is Ok,
            relative_name(self.root_path(), path@) is None ==> (r matches Err(
                CompressError::EntryOutsideRoot(p),
            ) && p@ == path@),
            (relative_name(self.root_path(), path@) is Some && !nameable(self.root_path(), path@))
                ==> (r matches Err(CompressError::NonUtf8Path(p)) && Some(p@) == relative_name(
                self.root_path(),
                path@,
            )),
    {
        let root = &self.root;
        let rlen = root.len();
        let ends_sep = rlen > 0 && root[rlen - 1] == SEPARATOR;
        let ghost p = dir_prefix(root@);
        let mut same = path.len() == rlen;
        let mut i: usize = 0;
        while same && i < rlen
            invariant
                i <= rlen == root@.len(),
                same ==> path@.len() == rlen && forall|k: int| 0 <= k < i ==> path@[k] == root@[k],
                !same ==> path@ != root@,
            decreases rlen - i,
        {
            if path[i] != root[i] {
                same = false;
            }
            i = i + 1;
        }
        if same {
            assert(path@ =~= root@);
            let rel: Vec<u8> = Vec::new();
            assert(rel@ =~= Seq::<u8>::empty());
            let dec = decode_utf8(Vec::new());
            return match dec {
                Some(n) => Ok((rel, n)),
                None => Err(CompressError::NonUtf8Path(rel)),
            };
        }
        let mut under = rlen <= path.len();
        let mut j: usize = 0;
        while under && j < rlen
            invariant
                j <= rlen == root@.len(),
                under ==> rlen <= path@.len() && forall|k: int| 0 <= k < j ==> path@[k] == root@[k],
                !under ==> path@.len() < rlen || exists|k: int| 0 <= k < rlen && path@[k] != root@[k],
            decreases rlen - j,
        {
            if path[j] != root[j] {
                under = false;
            }
            j = j + 1;
        }
        let mut plen: usize = rlen;
        if under && !ends_sep {
            if path.len() > rlen && path[rlen] == SEPARATOR {
                plen = rlen + 1;
            } else {
                under = false;
            }
        }
        if !under {
            proof {
                if p.len() <= path@.len() && path@.subrange(0, p.len() as int) == p {
                    assert forall|k: int| 0 <= k < rlen implies path@[k] == root@[k] by {
                        assert(path@.subrange(0, p.len() as int)[k] == p[k]);
                    }
                    if !ends_sep {
                        assert(path@.subrange(0, p.len() as int)[rlen as int] == p[rlen as int]);
                    }
                }
            }
            return Err(CompressError::EntryOutsideRoot(path.clone()));
        }
        assert(plen == p.len());
        assert(path@.subrange(0, p.len() as int) =~= p);
        let mut rel: Vec<u8> = Vec::new();
        let mut k: usize = plen;
        while k < path.len()
            invariant
                plen <= k <= path@.len(),
                rel@ == path@.subrange(plen as int, k as int),
            decreases path@.len() - k,
        {
            rel.push(path[k]);
            assert(rel@ =~= path@.subrange(plen as int, k + 1));
            k = k + 1;
        }
        let dec = decode_utf8(rel.clone());
        match dec {
            Some(n) => Ok((rel, n)),
            None => Err(CompressError::NonUtf8Path(rel)),
        }
    }

    /// Writes one walked entry: a deflated file entry holding `content` for
    /// a file, a directory marker for a directory other than the root,
    /// nothing for the root. Fails when the entry cannot be named, when its
    /// name is too long, and when the archive refuses the write.
    pub fn add_entry(&mut self, entry: &SourceEntry, content: &Vec<u8>) -> (r: Result<
        (),
        CompressError,
    >)
        ensures
            final(self).root_path() == old(self).root_path(),
            r is Ok ==> writable(old(self).root_path(), entry.path@) && final(self).records() == old(self).records() + entry_records(old(self).root_path(), *entry, content@) && final(self).healthy() == (old(self).healthy() && (entry.is_file ==> content@.len() <= MAX_ENTRY_CONTENT)),
            r matches Err(CompressError::IoFailure(p)) ==> p@ == entry.path@ && !final(self).healthy(),
            r matches Err(e) ==> (e is IoFailure || e is EntryOutsideRoot || e is NonUtf8Path
                || e is EntryNameTooLong),
            (r matches Err(e) && (e is EntryOutsideRoot || e is NonUtf8Path)) ==> !nameable(
                old(self).root_path(),
                entry.path@,
            ),
            (r is Err && !(r->Err_0 is IoFailure)) ==> final(self).records() == old(self).records()
                && final(self).healthy() == old(self).healthy(),
            relative_name(old(self).root_path(), entry.path@) is None ==> (r matches Err(
                CompressError::EntryOutsideRoot(p),
            ) && p@ == entry.path@),
            (relative_name(old(self).root_path(), entry.path@) is Some && !nameable(
                old(self).root_path(),
                entry.path@,
            )) ==> (r matches Err(CompressError::NonUtf8Path(p)) && Some(p@) == relative_name(
                old(self).root_path(),
                entry.path@,
            )),
            (nameable(old(self).root_path(), entry.path@) && !short_name(
                old(self).root_path(),
                entry.path@,
            )) ==> (r matches Err(CompressError::EntryNameTooLong(p)) && Some(p@) == relative_name(
                old(self).root_path(),
                entry.path@,
            )),
            (old(self).healthy() && writable(old(self).root_path(), entry.path@) && (kept(
                old(self).root_path(),
                *entry,
            ) ==> name_fresh(old(self).records(), stored_name(old(self).root_path(), *entry))) && (
            entry.is_file ==> content@.len() <= MAX_ENTRY_CONTENT)) ==> r is Ok,
    {
        let (rel, name) = match self.name_entry(&entry.path) {
            Ok(pair) => pair,
            Err(e) => {
                return Err(e);
            },
        };
        if rel.len() > MAX_ENTRY_NAME_BYTES {
            return Err(CompressError::EntryNameTooLong(rel));
        }
        proof {
            vstd::utf8::decode_utf8_encode_utf8(rel@);
            assert(encode_utf8(name@) == rel@);
        }
        let ghost before = self.records();
        if entry.is_file {
            match self.sink.start_file(name, Method::Deflated) {
                Ok(()) => {},
                Err(_) => {
                    return Err(CompressError::IoFailure(entry.path.clone()));
                },
            }
            match self.sink.write_all(content) {
                Ok(()) => {},
                Err(_) => {
                    return Err(CompressError::IoFailure(entry.path.clone()));
                },
            }
            assert(self.records() =~= before + entry_records(self.root_path(), *entry, content@));
        } else if rel.len() > 0 {
            proof {
                lemma_marker_len(name@);
            }
            match self.sink.add_directory(name) {
                Ok(()) => {},
                Err(_) => {
                    return Err(CompressError::IoFailure(entry.path.clone()));
                },
            }
            assert(self.records() =~= before + entry_records(self.root_path(), *entry, content@));
        } else {
            assert(self.records() =~= before + entry_records(self.root_path(), *entry, content@));
        }
        Ok(())
    }

    /// Writes the entries of a walk in order, `contents[i]` being the content
    /// of `entries[i]` (empty for a directory). Stops at the first entry that
    /// fails; succeeds on a healthy archive when every entry can be written
    /// and the stored names are new and distinct.
    pub fn add_all(&mut self, entries: &Vec<SourceEntry>, contents: &Vec<Vec<u8>>) -> (r: Result<
        (),
        CompressError,
    >)
        requires
            entries.len() == contents.len(),
        ensures
            final(self).root_path() == old(self).root_path(),
            r is Ok ==> all_nameable(old(self).root_path(), entries@) && final(self).records()
                == old(self).records() + tree_records(
                old(self).root_path(),
                entries@,
                contents@,
            ) && (final(self).healthy() ==> old(self).healthy()),
            !all_nameable(old(self).root_path(), entries@) ==> r is Err,
            r matches Err(e) ==> (e is IoFailure || e is EntryOutsideRoot || e is NonUtf8Path
                || e is EntryNameTooLong),
            (r matches Err(e) && (e is EntryOutsideRoot || e is NonUtf8Path)) ==> !all_nameable(
                old(self).root_path(),
                entries@,
            ),
            (old(self).healthy() && all_writable(old(self).root_path(), entries@, contents@)
                && names_free(old(self).root_path(), entries@, old(self).records())) ==> (r is Ok
                && final(self).healthy()),
    {
        let ghost root = self.root_path();
        let ghost start = self.records();
        let ghost good = old(self).healthy() && all_writable(root, entries@, contents@) && names_free(
            root,
            entries@,
            start,
        );
        let mut i: usize = 0;
        while i < entries.len()
            invariant
                entries.len() == contents.len(),
                i <= entries.len(),
                self.root_path() == root,
                root == old(self).root_path(),
                start == old(self).records(),
                good == (old(self).healthy() && all_writable(root, entries@, contents@)
                    && names_free(root, entries@, start)),
                good ==> self.healthy(),
                self.healthy() ==> old(self).healthy(),
                all_nameable(root, entries@.take(i as int)),
                self.records() == start + tree_records(
                    root,
                    entries@.take(i as int),
                    contents@.take(i as int),
                ),
            decreases entries.len() - i,
        {
            proof {
                if good {
                    let es = entries@.take(i as int);
                    let cs = contents@.take(i as int);
                    lemma_tree_names(root, es, cs);
                    let t = tree_records(root, es, cs);
                    let e = entries@[i as int];
                    assert(writable(root, e.path@));
                    if e.is_file {
                        assert(contents@[i as int]@.len() <= MAX_ENTRY_CONTENT);
                    }
                    if kept(root, e) {
                        let all = self.records();
                        assert forall|k: int| 0 <= k < all.len() implies #[trigger] all[k].0
                            != stored_name(root, e) by {
                            if k < start.len() {
                                assert(all[k] == start[k]);
                                assert(name_fresh(start, stored_name(root, e)));
                            } else {
                                assert(all[k] == t[k - start.len()]);
                                assert(0 <= k - start.len() < t.len());
                                let j = choose|j: int|
                                    0 <= j < es.len() && kept(root, es[j]) && #[trigger] t[k
                                        - start.len()].0 == stored_name(root, es[j]) && (t[k
                                        - start.len()].1 <==> !es[j].is_file) && t[k
                                        - start.len()].2 == (if es[j].is_file {
                                        cs[j]@
                                    } else {
                                        Seq::<u8>::empty()
                                    });
                                assert(es[j] == entries@[j]);
                                assert(kept(root, entries@[j]));
                            }
                        }
                    }
                }
            }
            match self.add_entry(&entries[i], &contents[i]) {
                Ok(()) => {},
                Err(e) => {
                    proof {
                        if all_nameable(root, entries@) {
                            assert(nameable(root, entries@[i as int].path@));
                        }
                        if e is EntryOutsideRoot || e is NonUtf8Path {
                            assert(!nameable(root, entries@[i as int].path@));
                        }
                    }
                    return Err(e);
                },
            }
            proof {
                let es = entries@.take(i + 1);
                let cs = contents@.take(i + 1);
                assert(es.drop_last() =~= entries@.take(i as int));
                assert(cs.drop_last() =~= contents@.take(i as int));
                assert(self.records() =~= start + tree_records(root, es, cs));
                assert forall|k: int| 0 <= k < es.len() implies nameable(root, #[trigger] es[k].path@) by {
                    if k < i {
                        assert(es[k] == entries@.take(i as int)[k]);
                    }
                }
            }
            i = i + 1;
        }
        assert(entries@.take(i as int) =~= entries@);
        assert(contents@.take(i as int) =~= contents@);
        Ok(())
    }

    /// Writes the archive's central directory and hands back its bytes; on a
    /// healthy archive this succeeds, with bytes fixed by the records alone.
    pub fn finish(self) -> (r: Result<Vec<u8>, CompressError>)
        ensures
            self.healthy() ==> (r matches Ok(b) && b@ == zip_archive_bytes(self.records())),
            r is Err ==> r->Err_0 is ArchiveFinalizeError,
    {
        match self.sink.finish() {
            Ok(bytes) => Ok(bytes),
            Err(_) => Err(CompressError::ArchiveFinalizeError),
        }
    }
}

/// What resolving a directory path found: its canonical form, if it could be
/// resolved, and whether that names a directory.
pub struct PathProbe {
    pub resolved: Option<Vec<u8>>,
    pub is_dir: bool,
}

/// What writing an archive needs once the request has been accepted.
pub struct ArchivePlan {
    /// Canonical destination directory.
    pub dest_dir: Vec<u8>,
    /// The archive's file name, with its extension.
    pub file_name: String,
    /// Canonical source directory: the traversal root.
    pub src_root: Vec<u8>,
}

/// The error a probe is rejected with, if any.
pub open spec fn probe_error(p: PathProbe) -> Option<CompressError> {
    if p.resolved is None {
        Some(CompressError::PathNotFound)
    } else if !p.is_dir {
        Some(CompressError::NotADirectory)
    } else {
        None
    }
}

impl Compress {
    /// Accepts a resolved directory, giving its canonical path.
    pub fn validate_path(probe: PathProbe) -> (r: Result<Vec<u8>, CompressError>)
        ensures
            probe.resolved is None ==> r matches Err(CompressError::PathNotFound),
            (probe.resolved is Some && !probe.is_dir) ==> r matches Err(
                CompressError::NotADirectory,
            ),
            (probe.resolved is Some && probe.is_dir) ==> (r matches Ok(p) && p@
                == probe.resolved.unwrap()@),
    {
        match probe.resolved {
            None => Err(CompressError::PathNotFound),
            Some(p) => {
                if probe.is_dir {
                    Ok(p)
                } else {
                    Err(CompressError::NotADirectory)
                }
            },
        }
    }

    /// The checks made before any archive is written: the name comes first, then the
    /// source directory, then the destination directory. Nothing is written
    /// unless this returns a plan.
    pub fn prepare(archive_name: &str, src: PathProbe, dst: PathProbe) -> (r: Result<
        ArchivePlan,
        CompressError,
    >)
        ensures
            archive_name@.len() > MAX_NAME_LEN ==> r matches Err(CompressError::NameTooLong),
            (archive_name@.len() <= MAX_NAME_LEN && probe_error(src) is Some) ==> (r matches Err(e)
                && Some(e) == probe_error(src)),
            (archive_name@.len() <= MAX_NAME_LEN && probe_error(src) is None && probe_error(
                dst,
            ) is Some) ==> (r matches Err(e) && Some(e) == probe_error(dst)),
            (archive_name@.len() <= MAX_NAME_LEN && probe_error(src) is None && probe_error(dst) is None) ==> (r matches Ok(plan)
                && plan.file_name@ == normalized_name(archive_name@) && plan.src_root@
                == src.resolved.unwrap()@ && plan.dest_dir@ == dst.resolved.unwrap()@),
    {
        let file_name = match Self::validate_name(archive_name) {
            Ok(n) => n,
            Err(e) => {
                return Err(e);
            },
        };
        let src_root = match Self::validate_path(src) {
            Ok(p) => p,
            Err(e) => {
                return Err(e);
            },
        };
        let dest_dir = match Self::validate_path(dst) {
            Ok(p) => p,
            Err(e) => {
                return Err(e);
            },
        };
        Ok(ArchivePlan { dest_dir, file_name, src_root })
    }
}

/// Encoding a name with one more `/` takes one more byte.
proof fn lemma_encode_push_separator(s: Seq<char>)
    ensures
        encode_utf8(s.push('/')).len() == encode_utf8(s).len() + 1,
    decreases s.len(),
{
    let t = s.push('/');
    if s.len() == 0 {
        assert(t.drop_first() =~= Seq::<char>::empty());
        assert(encode_utf8(t.drop_first()) == Seq::<u8>::empty());
        assert(vstd::utf8::has_width_1_encoding('/' as u32));
        assert(vstd::utf8::encode_scalar('/' as u32).len() == 1);
        assert(encode_utf8(s) == Seq::<u8>::empty());
    } else {
        assert(t.drop_first() =~= s.drop_first().push('/'));
        assert(t[0] == s[0]);
        lemma_encode_push_separator(s.drop_first());
    }
}

/// A directory marker takes at most one byte more than its name.
proof fn lemma_marker_len(s: Seq<char>)
    ensures
        encode_utf8(dir_marker(s)).len() <= encode_utf8(s).len() + 1,
{
    lemma_encode_push_separator(s);
}

/// Whether a walked entry puts a record in the archive: every file does, and
/// every directory but the root.
pub open spec fn kept(root: Seq<u8>, e: SourceEntry) -> bool {
    e.is_file || relative_name(root, e.path@).unwrap().len() > 0
}

/// The name under which a kept entry is stored.
pub open spec fn stored_name(root: Seq<u8>, e: SourceEntry) -> Seq<char> {
    if e.is_file {
        entry_text(root, e.path@)
    } else {
        dir_marker(entry_text(root, e.path@))
    }
}

/// How many entries of `es` are kept.
pub open spec fn kept_count(root: Seq<u8>, es: Seq<SourceEntry>) -> nat
    decreases es.len(),
{
    if es.len() == 0 {
        0
    } else {
        kept_count(root, es.drop_last()) + if kept(root, es.last()) {
            1nat
        } else {
            0nat
        }
    }
}

/// Normalizing an archive name twice gives what normalizing once gives, and
/// a name without the extension gets exactly one copy of it.
pub proof fn lemma_normalize_idempotent(s: Seq<char>)
    ensures
        normalized_name(normalized_name(s)) == normalized_name(s),
        has_zip_ext(s) ==> normalized_name(s) == s,
        !has_zip_ext(s) ==> normalized_name(s) == s + zip_ext(),
        has_zip_ext(normalized_name(s)),
{
    let n = normalized_name(s);
    if !has_zip_ext(s) {
        assert(n.subrange(n.len() - 4, n.len() as int) =~= zip_ext());
    }
}

/// The archive written for a walk holds one record for each kept entry and
/// nothing else: every record is stored under the name of a kept entry, with
/// a directory marker exactly for directories and holding the content given
/// for a file, every kept entry has a record,
/// and there are as many records as kept entries.
pub proof fn lemma_tree_names(root: Seq<u8>, es: Seq<SourceEntry>, cs: Seq<Vec<u8>>)
    requires
        es.len() == cs.len(),
        all_nameable(root, es),
    ensures
        forall|k: int|
            0 <= k < tree_records(root, es, cs).len() ==> exists|i: int|
                0 <= i < es.len() && kept(root, es[i]) && #[trigger] tree_records(root, es, cs)[k].0
                    == stored_name(root, es[i]) && (tree_records(root, es, cs)[k].1 <==> !es[i].is_file)
                    && tree_records(root, es, cs)[k].2 == (if es[i].is_file {
                    cs[i]@
                } else {
                    Seq::<u8>::empty()
                }),
        forall|i: int|
            0 <= i < es.len() && kept(root, #[trigger] es[i]) ==> exists|k: int|
                0 <= k < tree_records(root, es, cs).len() && tree_records(root, es, cs)[k].0
                    == stored_name(root, es[i]),
        tree_records(root, es, cs).len() == kept_count(root, es),
    decreases es.len(),
{
    if es.len() > 0 {
        let es0 = es.drop_last();
        let cs0 = cs.drop_last();
        assert forall|i: int| 0 <= i < es0.len() implies nameable(root, #[trigger] es0[i].path@) by {
            assert(es0[i] == es[i]);
        }
        lemma_tree_names(root, es0, cs0);
        let prev = tree_records(root, es0, cs0);
        let all = tree_records(root, es, cs);
        let last = es.last();
        let n = es.len() - 1;
        assert(nameable(root, es[n].path@));
        assert(all == prev + entry_records(root, last, cs.last()@));
        assert forall|k: int| 0 <= k < all.len() implies exists|i: int|
            0 <= i < es.len() && kept(root, es[i]) && #[trigger] all[k].0 == stored_name(root, es[i])
                && (all[k].1 <==> !es[i].is_file) && all[k].2 == (if es[i].is_file {
                cs[i]@
            } else {
                Seq::<u8>::empty()
            }) by {
            if k < prev.len() {
                let i = choose|i: int|
                    0 <= i < es0.len() && kept(root, es0[i]) && #[trigger] prev[k].0 == stored_name(
                        root,
                        es0[i],
                    ) && (prev[k].1 <==> !es0[i].is_file) && prev[k].2 == (if es0[i].is_file {
                        cs0[i]@
                    } else {
                        Seq::<u8>::empty()
                    });
                assert(es0[i] == es[i]);
                assert(cs0[i] == cs[i]);
                assert(all[k] == prev[k]);
            } else {
                assert(all[k] == entry_records(root, last, cs.last()@)[k - prev.len()]);
                assert(es[n] == last);
                assert(cs[n] == cs.last());
            }
        }
        assert forall|i: int| 0 <= i < es.len() && kept(root, #[trigger] es[i]) implies exists|k: int|
            0 <= k < all.len() && all[k].0 == stored_name(root, es[i]) by {
            if i < n {
                assert(es0[i] == es[i]);
                assert(kept(root, es0[i]));
                let k = choose|k: int| 0 <= k < prev.len() && prev[k].0 == stored_name(root, es0[i]);
                assert(all[k] == prev[k]);
            } else {
                assert(all[prev.len() as int] == entry_records(root, last, cs.last()@)[0]);
            }
        }
    }
}

/// The traversal root never becomes an entry of the archive: given that the
/// root is walked as a directory, every record comes from an entry other
/// than the root.
pub proof fn lemma_root_not_stored(root: Seq<u8>, es: Seq<SourceEntry>, cs: Seq<Vec<u8>>)
    requires
        es.len() == cs.len(),
        all_nameable(root, es),
        forall|i: int| 0 <= i < es.len() && #[trigger] es[i].path@ == root ==> !es[i].is_file,
    ensures
        forall|k: int|
            0 <= k < tree_records(root, es, cs).len() ==> exists|i: int|
                0 <= i < es.len() && es[i].path@ != root && #[trigger] tree_records(root, es, cs)[k].0
                    == stored_name(root, es[i]),
{
    lemma_tree_names(root, es, cs);
    let all = tree_records(root, es, cs);
    assert forall|k: int| 0 <= k < all.len() implies exists|i: int|
        0 <= i < es.len() && es[i].path@ != root && #[trigger] all[k].0 == stored_name(root, es[i]) by {
        let i = choose|i: int|
            0 <= i < es.len() && kept(root, es[i]) && #[trigger] all[k].0 == stored_name(root, es[i])
                && (all[k].1 <==> !es[i].is_file) && all[k].2 == (if es[i].is_file {
                cs[i]@
            } else {
                Seq::<u8>::empty()
            });
        if es[i].path@ == root {
            assert(relative_name(root, es[i].path@) == Some(Seq::<u8>::empty()));
        }
    }
}

/// Distinct walked paths under the root, other than the root itself, get
/// distinct relative names.
pub proof fn lemma_relative_names_distinct(root: Seq<u8>, a: Seq<u8>, b: Seq<u8>)
    requires
        relative_name(root, a) is Some,
        relative_name(root, b) is Some,
        relative_name(root, a).unwrap().len() > 0,
        relative_name(root, b).unwrap().len() > 0,
        a != b,
    ensures
        relative_name(root, a) != relative_name(root, b),
{
    let p = dir_prefix(root);
    if relative_name(root, a) == relative_name(root, b) {
        assert(a =~= p + relative_name(root, a).unwrap());
        assert(b =~= p + relative_name(root, b).unwrap());
    }
}

} // verus!
