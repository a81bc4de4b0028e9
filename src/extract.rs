//! Turning the bytes of a release asset into the one executable it carries.
use vstd::prelude::*;
use crate::matcher::{Archive, Compression};
use crate::text::{after_last_slash, last_slash, str_eq};

verus! {

/// Owner-execute permission bit.
pub const OWNER_EXEC: u32 = 0o100;

/// Permissions given to an executable that comes as a bare file.
pub const BARE_MODE: u32 = 0o755;

/// An entry of an archive, as read from it.
#[derive(Debug)]
pub struct ArchiveEntry {
    /// The entry's path (tar) or enclosed name (zip), when it is usable text.
    pub name: Option<String>,
    /// The Unix permission bits, when recorded.
    pub mode: Option<u32>,
    /// Whether the entry is a regular file.
    pub is_file: bool,
    /// The entry's contents.
    pub data: Vec<u8>,
}

/// The entries of an archive in archive order, up to the first one that could not be read.
#[derive(Debug)]
pub struct Listing {
    pub entries: Vec<ArchiveEntry>,
    /// False when reading stopped on an error.
    pub complete: bool,
}

/// The executable to install: where it goes in the install directory, its permissions, its bytes.
#[derive(Debug)]
pub struct Executable {
    pub name: String,
    pub mode: u32,
    pub data: Vec<u8>,
}

/// Why no executable could be taken out of an asset.
#[derive(Debug, PartialEq, Eq, Structural, Clone, Copy)]
pub enum ExtractError {
    /// The compressed stream could not be decoded.
    Decode,
    /// The archive could not be read up to an executable entry.
    Archive,
    /// The archive holds no executable regular file.
    NoExecutable,
    /// The executable entry has no file name.
    MissingFileName,
    /// A compression and container that are recognised but not supported together.
    UnsupportedLayering,
}

/// An archive entry as the contracts see it.
pub struct EntryView {
    pub name: Option<Seq<char>>,
    pub mode: Option<u32>,
    pub is_file: bool,
    pub data: Seq<u8>,
}

/// A listing as the contracts see it.
pub struct ListingView {
    pub entries: Seq<EntryView>,
    pub complete: bool,
}

/// An executable as the contracts see it.
pub struct ExecutableView {
    pub name: Seq<char>,
    pub mode: u32,
    pub data: Seq<u8>,
}

impl View for ArchiveEntry {
    type V = EntryView;

    open spec fn view(&self) -> EntryView {
        EntryView {
            name: match self.name {
                Some(n) => Some(n@),
                None => None,
            },
            mode: self.mode,
            is_file: self.is_file,
            data: self.data@,
        }
    }
}

impl View for Listing {
    type V = ListingView;

    open spec fn view(&self) -> ListingView {
        ListingView { entries: self.entries@.map_values(|e: ArchiveEntry| e@), complete: self.complete }
    }
}

impl View for Executable {
    type V = ExecutableView;

    open spec fn view(&self) -> ExecutableView {
        ExecutableView { name: self.name@, mode: self.mode, data: self.data@ }
    }
}

/// An extraction result as the contracts see it.
pub open spec fn result_view(r: Result<Executable, ExtractError>) -> Result<ExecutableView, ExtractError> {
    match r {
        Ok(x) => Ok(x@),
        Err(e) => Err(e),
    }
}

/// What gzip decoding gives, `None` where the stream is not valid gzip.
pub uninterp spec fn gunzip(b: Seq<u8>) -> Option<Seq<u8>>;

/// What xz decoding gives, `None` where the stream is not valid xz.
pub uninterp spec fn unxz(b: Seq<u8>) -> Option<Seq<u8>>;

/// What zstd decoding gives, `None` where the stream is not valid zstd.
pub uninterp spec fn unzstd(b: Seq<u8>) -> Option<Seq<u8>>;

/// The entries that the tar reader finds in `b`.
pub uninterp spec fn tar_listing(b: Seq<u8>) -> ListingView;

/// The entries that the zip reader finds in `b`.
pub uninterp spec fn zip_listing(b: Seq<u8>) -> ListingView;

/// Relies on `flate2::read::GzDecoder`: decodes the gzip stream held in `b`.
#[verifier::external_body]
fn gunzip_bytes(b: &[u8]) -> (r: Option<Vec<u8>>)
    ensures
        match r {
            Some(v) => gunzip(b@) == Some(v@),
            None => gunzip(b@) is None,
        },
{
    let mut out = Vec::new();
    std::io::Read::read_to_end(&mut flate2::read::GzDecoder::new(b), &mut out).ok().map(|_| out)
}

/// Relies on `xz2::read::XzDecoder`: decodes the xz stream held in `b`.
#[verifier::external_body]
fn unxz_bytes(b: &[u8]) -> (r: Option<Vec<u8>>)
    ensures
        match r {
            Some(v) => unxz(b@) == Some(v@),
            None => unxz(b@) is None,
        },
{
    let mut out = Vec::new();
    std::io::Read::read_to_end(&mut xz2::read::XzDecoder::new(b), &mut out).ok().map(|_| out)
}

/// Relies on `zstd::stream::decode_all`: decodes the zstd stream held in `b`.
#[verifier::external_body]
fn unzstd_bytes(b: &[u8]) -> (r: Option<Vec<u8>>)
    ensures
        match r {
            Some(v) => unzstd(b@) == Some(v@),
            None => unzstd(b@) is None,
        },
{
    zstd::stream::decode_all(b).ok()
}

/// Relies on `tar::Archive::entries`: lists the entries of the tar archive held in `b`
/// with the path, mode, type and contents of each, up to the first that cannot be read.
#[verifier::external_body]
fn read_tar(b: &[u8]) -> (r: Listing)
    ensures
        r@ == tar_listing(b@),
{
    let (mut entries, mut archive) = (Vec::new(), tar::Archive::new(b));
    let complete = archive.entries().and_then(|iter| iter.map(|entry| {
        let (mut e, mut data) = (entry?, Vec::new());
        std::io::Read::read_to_end(&mut e, &mut data)?;
        let (name, h) = (e.path()?.to_str().map(String::from), e.header());
        Ok(entries.push(ArchiveEntry { name, mode: h.mode().ok(), is_file: h.entry_type().is_file(), data }))
    }).collect::<std::io::Result<()>>()).is_ok();
    Listing { entries, complete }
}

/// Relies on `zip::ZipArchive`: lists the entries of the zip archive held in `b` with
/// the enclosed name, Unix mode, type and contents of each, up to the first that cannot be read.
#[verifier::external_body]
fn read_zip(b: &[u8]) -> (r: Listing)
    ensures
        r@ == zip_listing(b@),
{
    let mut entries = Vec::new();
    let complete = zip::ZipArchive::new(std::io::Cursor::new(b)).and_then(|mut a| (0..a.len()).map(|i| {
        let (mut f, mut data) = (a.by_index(i)?, Vec::new());
        std::io::Read::read_to_end(&mut f, &mut data)?;
        let name = f.enclosed_name().and_then(|p| p.to_str().map(String::from));
        Ok(entries.push(ArchiveEntry { name, mode: f.unix_mode(), is_file: f.is_file(), data }))
    }).collect::<zip::result::ZipResult<()>>()).is_ok();
    Listing { entries, complete }
}

/// An entry that may be installed: a regular file with the owner-execute bit set;
/// a zip entry also needs a name that stays inside the install directory.
pub open spec fn qualifies(e: EntryView, container: Archive) -> bool {
    &&& e.is_file
    &&& e.mode matches Some(m) && m & OWNER_EXEC != 0
    &&& (container == Archive::Zip ==> e.name is Some)
}

/// The index of the first entry that qualifies.
pub open spec fn first_qualifying(entries: Seq<EntryView>, container: Archive) -> Option<int> {
    if exists|i: int| is_first_qualifying(entries, container, i) {
        Some(choose|i: int| is_first_qualifying(entries, container, i))
    } else {
        None
    }
}

/// `i` is a qualifying entry with none qualifying before it.
pub open spec fn is_first_qualifying(entries: Seq<EntryView>, container: Archive, i: int) -> bool {
    &&& 0 <= i < entries.len()
    &&& qualifies(entries[i], container)
    &&& forall|j: int| 0 <= j < i ==> !qualifies(entries[j], container)
}

/// The base name of a path: what follows its last `/`, unless that is empty, `.` or `..`.
pub open spec fn base_name(p: Seq<char>) -> Option<Seq<char>> {
    let tail = p.skip(last_slash(p) + 1);
    if tail.len() == 0 || tail == "."@ || tail == ".."@ {
        None
    } else {
        Some(tail)
    }
}

/// The name an entry is installed under: a tar entry's base name, a zip entry's enclosed path.
pub open spec fn install_name(e: EntryView, container: Archive) -> Option<Seq<char>> {
    match e.name {
        Some(n) => if container == Archive::Zip {
            Some(n)
        } else {
            base_name(n)
        },
        None => None,
    }
}

/// Computes [`base_name`].
pub fn base_name_of(p: &str) -> (r: Option<String>)
    ensures
        match r {
            Some(s) => base_name(p@) == Some(s@),
            None => base_name(p@) is None,
        },
{
    let n = p.unicode_len();
    let i = after_last_slash(p);
    let tail = p.substring_char(i, n);
    proof {
        assert(tail@ =~= p@.skip(i as int));
    }
    if i == n || str_eq(tail, ".") || str_eq(tail, "..") {
        None
    } else {
        Some(tail.to_owned())
    }
}

/// The outcome of taking the executable out of a listing: the first qualifying entry,
/// under its name and mode; else the read error, or the lack of an executable.
pub open spec fn listing_outcome(l: ListingView, container: Archive) -> Result<ExecutableView, ExtractError> {
    match first_qualifying(l.entries, container) {
        Some(i) => match install_name(l.entries[i], container) {
            Some(n) => Ok(ExecutableView { name: n, mode: l.entries[i].mode->0, data: l.entries[i].data }),
            None => Err(ExtractError::MissingFileName),
        },
        None => if l.complete {
            Err(ExtractError::NoExecutable)
        } else {
            Err(ExtractError::Archive)
        },
    }
}

proof fn lemma_first_qualifying_is(entries: Seq<EntryView>, container: Archive, i: int)
    requires
        is_first_qualifying(entries, container, i),
    ensures
        first_qualifying(entries, container) == Some(i),
{
    let k = choose|k: int| is_first_qualifying(entries, container, k);
    assert(is_first_qualifying(entries, container, k));
    if k < i {
        assert(!qualifies(entries[k], container));
    }
    if i < k {
        assert(!qualifies(entries[i], container));
    }
}

/// Takes the first executable regular file out of the entries of an archive.
pub fn choose_entry(listing: Listing, container: Archive) -> (r: Result<Executable, ExtractError>)
    ensures
        result_view(r) == listing_outcome(listing@, container),
{
    let ghost l = listing@;
    let Listing { mut entries, complete } = listing;
    let mut i: usize = 0;
    while i < entries.len()
        invariant
            entries@.map_values(|e: ArchiveEntry| e@) == l.entries,
            l == listing@,
            i <= entries@.len(),
            forall|j: int| 0 <= j < i ==> !qualifies(#[trigger] l.entries[j], container),
        decreases entries.len() - i,
    {
        let e = &entries[i];
        let named = match e.name {
            Some(_) => true,
            None => false,
        };
        let exec_bit = match e.mode {
            Some(m) => m & OWNER_EXEC != 0,
            None => false,
        };
        let zip = match container {
            Archive::Zip => true,
            _ => false,
        };
        proof {
            assert(l.entries[i as int] == entries@[i as int]@);
        }
        if e.is_file && exec_bit && (named || !zip) {
            proof {
                assert(is_first_qualifying(l.entries, container, i as int));
                lemma_first_qualifying_is(l.entries, container, i as int);
            }
            let ghost before = entries@;
            let entry = entries.remove(i);
            proof {
                assert(entry == before[i as int]);
                assert(entry@ == l.entries[i as int]);
            }
            let ArchiveEntry { name, mode, is_file: _, data } = entry;
            let name = match name {
                Some(path) => if zip {
                    Some(path)
                } else {
                    base_name_of(path.as_str())
                },
                None => None,
            };
            return match name {
                Some(name) => {
                    let x = Executable { name, mode: mode.unwrap(), data };
                    proof {
                        assert(first_qualifying(l.entries, container) == Some(i as int));
                        assert(x@ == (ExecutableView {
                            name: install_name(l.entries[i as int], container)->0,
                            mode: l.entries[i as int].mode->0,
                            data: l.entries[i as int].data,
                        }));
                        assert(result_view(Ok(x)) == listing_outcome(l, container));
                    }
                    Ok(x)
                },
                None => {
                    proof {
                        assert(first_qualifying(l.entries, container) == Some(i as int));
                        assert(install_name(l.entries[i as int], container) is None);
                    }
                    Err(ExtractError::MissingFileName)
                },
            };
        }
        i = i + 1;
    }
    proof {
        assert forall|k: int| !is_first_qualifying(l.entries, container, k) by {
            if is_first_qualifying(l.entries, container, k) {
                assert(!qualifies(l.entries[k], container));
            }
        }
    }
    if complete {
        Err(ExtractError::NoExecutable)
    } else {
        Err(ExtractError::Archive)
    }
}

/// Takes the executable out of a tar archive.
pub fn extract_tar(b: &[u8]) -> (r: Result<Executable, ExtractError>)
    ensures
        result_view(r) == listing_outcome(tar_listing(b@), Archive::Tar),
{
    choose_entry(read_tar(b), Archive::Tar)
}

/// Takes the executable out of a zip archive.
pub fn extract_zip(b: &[u8]) -> (r: Result<Executable, ExtractError>)
    ensures
        result_view(r) == listing_outcome(zip_listing(b@), Archive::Zip),
{
    choose_entry(read_zip(b), Archive::Zip)
}

/// A bare file is the executable itself, installed under `filename` with mode 0o755.
pub fn extract_single(data: Vec<u8>, filename: String) -> (r: Executable)
    ensures
        r@ == (ExecutableView { name: filename@, mode: BARE_MODE, data: data@ }),
{
    Executable { name: filename, mode: BARE_MODE, data }
}

/// The compression part of a layering: what decoding `b` gives.
pub open spec fn decoded(kind: Compression, b: Seq<u8>) -> Option<Seq<u8>> {
    match kind {
        Compression::Plain(_) => Some(b),
        Compression::Gz(_) => gunzip(b),
        Compression::Xz(_) => unxz(b),
        Compression::Zstd(_) => unzstd(b),
    }
}

/// The container part of a layering.
pub open spec fn container(kind: Compression) -> Archive {
    match kind {
        Compression::Plain(a) | Compression::Gz(a) | Compression::Xz(a) | Compression::Zstd(a) => a,
    }
}

/// What extracting the asset `b` of layering `kind` gives: a compressed zip is refused;
/// otherwise the stream is decoded, and then is either the executable itself, named
/// `filename`, or an archive to take it out of.
pub open spec fn unpack_outcome(b: Seq<u8>, kind: Compression, filename: Seq<char>) -> Result<ExecutableView, ExtractError> {
    if container(kind) == Archive::Zip && !(kind is Plain) {
        Err(ExtractError::UnsupportedLayering)
    } else {
        match decoded(kind, b) {
            None => Err(ExtractError::Decode),
            Some(d) => match container(kind) {
                Archive::Single => Ok(ExecutableView { name: filename, mode: BARE_MODE, data: d }),
                Archive::Tar => listing_outcome(tar_listing(d), Archive::Tar),
                Archive::Zip => listing_outcome(zip_listing(d), Archive::Zip),
            },
        }
    }
}

/// Decodes the asset `b` by its layering and takes out the executable it carries.
pub fn unpack(b: Vec<u8>, kind: Compression, filename: String) -> (r: Result<Executable, ExtractError>)
    ensures
        result_view(r) == unpack_outcome(b@, kind, filename@),
{
    let (inner, data) = match kind {
        Compression::Plain(a) => (a, Some(b)),
        Compression::Gz(Archive::Zip) | Compression::Xz(Archive::Zip) | Compression::Zstd(
            Archive::Zip,
        ) => {
            return Err(ExtractError::UnsupportedLayering);
        },
        Compression::Gz(a) => (a, gunzip_bytes(b.as_slice())),
        Compression::Xz(a) => (a, unxz_bytes(b.as_slice())),
        Compression::Zstd(a) => (a, unzstd_bytes(b.as_slice())),
    };
    let data = match data {
        Some(d) => d,
        None => return Err(ExtractError::Decode),
    };
    match inner {
        Archive::Single => Ok(extract_single(data, filename)),
        Archive::Tar => extract_tar(data.as_slice()),
        Archive::Zip => extract_zip(data.as_slice()),
    }
}

} // verus!
