//! Choosing the release asset for a platform and reading its layering from its name.
use vstd::prelude::*;
use crate::text::{eq_ignore_ascii_case, equals_ignore_ascii_case, lowers_to, str_eq};

verus! {

/// Container format of an asset.
#[derive(Debug, PartialEq, Eq, Structural, Clone, Copy)]
pub enum Archive {
    /// A single file.
    Single,
    /// A zip file.
    Zip,
    /// A tape archive.
    Tar,
}

/// Compression of an asset, with the container inside it.
#[derive(Debug, PartialEq, Eq, Structural, Clone, Copy)]
pub enum Compression {
    /// Uncompressed.
    Plain(Archive),
    /// Gzip.
    Gz(Archive),
    /// Zstandard.
    Zstd(Archive),
    /// Xz.
    Xz(Archive),
}

/// An asset of a release: its file name and where to download it.
#[derive(Debug, Clone)]
pub struct Asset {
    pub name: String,
    pub url: String,
}

/// The asset chosen for installation.
#[derive(Debug, Clone)]
pub struct File {
    pub url: String,
    pub filename: String,
    pub kind: Compression,
}

/// Index of the dot that starts the final extension: the last dot of the name,
/// provided it is not the first character.
pub open spec fn ext_dot(s: Seq<char>) -> Option<int> {
    if exists|i: int| is_last_dot(s, i) {
        Some(choose|i: int| is_last_dot(s, i))
    } else {
        None
    }
}

/// `i` is the last dot of `s`, and not its first character.
pub open spec fn is_last_dot(s: Seq<char>, i: int) -> bool {
    0 < i < s.len() && s[i] == '.' && forall|j: int| i < j < s.len() ==> s[j] != '.'
}

/// The final extension of a file name, without its dot.
pub open spec fn extension(s: Seq<char>) -> Option<Seq<char>> {
    match ext_dot(s) {
        Some(i) => Some(s.skip(i + 1)),
        None => None,
    }
}

/// The container that a name announces by its final extension.
pub open spec fn archive_of(s: Seq<char>) -> Archive {
    match extension(s) {
        Some(e) => if eq_ignore_ascii_case(e, "tar"@) {
            Archive::Tar
        } else {
            Archive::Single
        },
        None => Archive::Single,
    }
}

/// The layering that a name announces: a compression extension, with a `tar`
/// extension before it for a compressed tape archive; `zip` alone; anything else a bare file.
pub open spec fn compression_of(s: Seq<char>) -> Compression {
    match ext_dot(s) {
        None => Compression::Plain(Archive::Single),
        Some(i) => {
            let e = s.skip(i + 1);
            let inner = archive_of(s.take(i));
            if eq_ignore_ascii_case(e, "gz"@) {
                Compression::Gz(inner)
            } else if eq_ignore_ascii_case(e, "xz"@) {
                Compression::Xz(inner)
            } else if eq_ignore_ascii_case(e, "zst"@) {
                Compression::Zstd(inner)
            } else if eq_ignore_ascii_case(e, "zip"@) {
                Compression::Plain(Archive::Zip)
            } else {
                Compression::Plain(Archive::Single)
            }
        },
    }
}

/// Finds the dot that starts the final extension.
fn find_ext_dot(s: &str) -> (r: Option<usize>)
    ensures
        match r {
            Some(i) => ext_dot(s@) == Some(i as int) && i < s@.len(),
            None => ext_dot(s@) is None,
        },
{
    let n = s.unicode_len();
    let mut i: usize = n;
    while i > 1
        invariant
            n == s@.len(),
            i <= n,
            forall|j: int| i <= j < n ==> s@[j] != '.',
        decreases i,
    {
        i = i - 1;
        if s.get_char(i) == '.' {
            proof {
                assert(is_last_dot(s@, i as int));
                let k = choose|k: int| is_last_dot(s@, k);
                if k < i {
                    assert(s@[i as int] != '.');
                }
                if k > i {
                    assert(s@[k] != '.');
                }
            }
            return Some(i);
        }
    }
    proof {
        assert forall|k: int| !is_last_dot(s@, k) by {
            if is_last_dot(s@, k) {
                assert(s@[k] != '.');
            }
        }
    }
    None
}

/// Reads the container from the final extension of `name`.
pub fn parse_archive(name: &str) -> (r: Archive)
    ensures
        r == archive_of(name@),
{
    match find_ext_dot(name) {
        None => Archive::Single,
        Some(i) => {
            let n = name.unicode_len();
            let ext = name.substring_char(i + 1, n);
            proof {
                assert(ext@ =~= name@.skip(i + 1));
            }
            if equals_ignore_ascii_case(ext, "tar") {
                Archive::Tar
            } else {
                Archive::Single
            }
        },
    }
}

/// Reads the layering of an asset from the extensions of its name.
pub fn parse_compression(name: &str) -> (r: Compression)
    ensures
        r == compression_of(name@),
{
    match find_ext_dot(name) {
        None => Compression::Plain(Archive::Single),
        Some(i) => {
            let n = name.unicode_len();
            let ext = name.substring_char(i + 1, n);
            let stem = name.substring_char(0, i);
            proof {
                assert(ext@ =~= name@.skip(i + 1));
                assert(stem@ =~= name@.take(i as int));
            }
            if equals_ignore_ascii_case(ext, "gz") {
                Compression::Gz(parse_archive(stem))
            } else if equals_ignore_ascii_case(ext, "xz") {
                Compression::Xz(parse_archive(stem))
            } else if equals_ignore_ascii_case(ext, "zst") {
                Compression::Zstd(parse_archive(stem))
            } else if equals_ignore_ascii_case(ext, "zip") {
                Compression::Plain(Archive::Zip)
            } else {
                Compression::Plain(Archive::Single)
            }
        },
    }
}

/// The pattern that stands for an architecture in asset names: the 64-bit x86
/// family is also published as `amd64` and `x64`; every other architecture stands for itself.
pub open spec fn arch_token(arch: Seq<char>) -> Seq<char> {
    if arch == "x86_64"@ {
        "(x86_64|amd64|x64)"@
    } else {
        arch
    }
}

/// Maps an architecture to the pattern of its names in asset file names.
pub fn alt_arch_os(arch: &str) -> (r: String)
    ensures
        r@ == arch_token(arch@),
{
    if str_eq(arch, "x86_64") {
        String::from_str("(x86_64|amd64|x64)")
    } else {
        arch.to_owned()
    }
}

/// The pattern an asset name must match: the architecture token, a dash, word characters
/// or dashes, then the OS; or the OS, a dash, then the architecture token; anywhere in the name.
pub open spec fn platform_pattern(token: Seq<char>, os: Seq<char>) -> Seq<char> {
    "^.*("@ + token + "-[\\w\\d-]*"@ + os + "|[\\w\\d-]*"@ + os + "-"@ + token + ").*$"@
}

/// Builds the pattern of [`platform_pattern`] for an architecture and an OS.
pub fn platform_regex(arch: &str, os: &str) -> (r: String)
    ensures
        r@ == platform_pattern(arch_token(arch@), os@),
{
    let token = alt_arch_os(arch);
    let mut p = String::from_str("^.*(");
    p.append(token.as_str());
    p.append("-[\\w\\d-]*");
    p.append(os);
    p.append("|[\\w\\d-]*");
    p.append(os);
    p.append("-");
    p.append(token.as_str());
    p.append(").*$");
    p
}

/// What searching `haystack` with the regular expression `pattern` gives:
/// `None` when the pattern does not compile, else whether a match was found.
pub uninterp spec fn regex_search(pattern: Seq<char>, haystack: Seq<char>) -> Option<bool>;

/// Relies on `regex::Regex::new`, which compiles `pattern` or fails, and on
/// `Regex::is_match`, which tells whether `haystack` holds a match: the outcome
/// depends on the two texts alone.
#[verifier::external_body]
fn search(pattern: &str, haystack: &str) -> (r: Option<bool>)
    ensures
        r == regex_search(pattern@, haystack@),
{
    match regex::Regex::new(pattern) {
        Ok(re) => Some(re.is_match(haystack)),
        Err(_) => None,
    }
}

/// Whether `s` parses as an absolute URL.
pub uninterp spec fn url_valid(s: Seq<char>) -> bool;

/// Relies on `url::Url::parse` (as `reqwest::Url`): whether the text parses depends on it alone.
#[verifier::external_body]
fn parses_as_url(s: &str) -> (r: bool)
    ensures
        r == url_valid(s@),
{
    reqwest::Url::parse(s).is_ok()
}

/// An asset name that names the platform: the pattern compiled and matched.
pub open spec fn names_platform(name: Seq<char>, arch: Seq<char>, os: Seq<char>) -> bool {
    regex_search(platform_pattern(arch_token(arch), os), name) == Some(true)
}

/// Keeps `filename` as an install candidate when it names the platform, with the
/// layering that its extensions announce.
pub fn parse_file(filename: String, url: String, arch: &str, os: &str) -> (r: Option<File>)
    ensures
        r is Some <==> names_platform(filename@, arch@, os@),
        r matches Some(f) ==> f.filename@ == filename@ && f.url@ == url@ && f.kind
            == compression_of(filename@),
{
    let pattern = platform_regex(arch, os);
    match search(pattern.as_str(), filename.as_str()) {
        Some(true) => {
            let kind = parse_compression(filename.as_str());
            Some(File { url, filename, kind })
        },
        _ => None,
    }
}

/// An asset that can be installed on the platform: its URL parses, its name names
/// the platform, and it is no editor extension package.
pub open spec fn accepts(a: Asset, arch: Seq<char>, os: Seq<char>) -> bool {
    &&& url_valid(a.url@)
    &&& names_platform(a.name@, arch, os)
    &&& extension(a.name@) != Some("vsix"@)
}

/// The index of the first acceptable asset.
pub open spec fn first_accepted(assets: Seq<Asset>, arch: Seq<char>, os: Seq<char>) -> Option<int> {
    if exists|i: int| is_first_accepted(assets, arch, os, i) {
        Some(choose|i: int| is_first_accepted(assets, arch, os, i))
    } else {
        None
    }
}

/// `i` is an acceptable asset with none acceptable before it.
pub open spec fn is_first_accepted(assets: Seq<Asset>, arch: Seq<char>, os: Seq<char>, i: int) -> bool {
    &&& 0 <= i < assets.len()
    &&& accepts(assets[i], arch, os)
    &&& forall|j: int| 0 <= j < i ==> !accepts(assets[j], arch, os)
}

/// Whether the name carries the extension of an editor extension package.
fn is_vsix(name: &str) -> (r: bool)
    ensures
        r == (extension(name@) == Some("vsix"@)),
{
    match find_ext_dot(name) {
        None => false,
        Some(i) => {
            let n = name.unicode_len();
            let ext = name.substring_char(i + 1, n);
            proof {
                assert(ext@ =~= name@.skip(i + 1));
            }
            str_eq(ext, "vsix")
        },
    }
}

/// Picks the first asset, in the order given, that can be installed on the platform.
pub fn select_asset(assets: &Vec<Asset>, arch: &str, os: &str) -> (r: Option<File>)
    ensures
        match first_accepted(assets@, arch@, os@) {
            None => r is None,
            Some(i) => r matches Some(f) && f.filename@ == assets@[i].name@ && f.url@
                == assets@[i].url@ && f.kind == compression_of(assets@[i].name@),
        },
{
    let mut i: usize = 0;
    while i < assets.len()
        invariant
            i <= assets@.len(),
            forall|j: int| 0 <= j < i ==> !accepts(#[trigger] assets@[j], arch@, os@),
        decreases assets.len() - i,
    {
        let a = &assets[i];
        if parses_as_url(a.url.as_str()) && !is_vsix(a.name.as_str()) {
            if let Some(f) = parse_file(a.name.clone(), a.url.clone(), arch, os) {
                proof {
                    lemma_first_accepted_is(assets@, arch@, os@, i as int);
                }
                return Some(f);
            }
        }
        i = i + 1;
    }
    proof {
        assert forall|k: int| !is_first_accepted(assets@, arch@, os@, k) by {
            if is_first_accepted(assets@, arch@, os@, k) {
                assert(!accepts(assets@[k], arch@, os@));
            }
        }
    }
    None
}

proof fn lemma_first_accepted_is(assets: Seq<Asset>, arch: Seq<char>, os: Seq<char>, i: int)
    requires
        is_first_accepted(assets, arch, os, i),
    ensures
        first_accepted(assets, arch, os) == Some(i),
{
    let k = choose|k: int| is_first_accepted(assets, arch, os, k);
    assert(is_first_accepted(assets, arch, os, k));
    if k < i {
        assert(!accepts(assets[k], arch, os));
    }
    if i < k {
        assert(!accepts(assets[i], arch, os));
    }
}

proof fn lemma_some_first_accepted(assets: Seq<Asset>, arch: Seq<char>, os: Seq<char>, i: int) -> (k: int)
    requires
        0 <= i < assets.len(),
        accepts(assets[i], arch, os),
    ensures
        0 <= k <= i,
        is_first_accepted(assets, arch, os, k),
    decreases i,
{
    if forall|m: int| 0 <= m < i ==> !accepts(assets[m], arch, os) {
        i
    } else {
        let m = choose|m: int| 0 <= m < i && accepts(assets[m], arch, os);
        lemma_some_first_accepted(assets, arch, os, m)
    }
}

/// Of two acceptable assets, the earlier one in the list is the one selected:
/// the selection never passes over an acceptable asset.
pub proof fn lemma_first_match_wins(assets: Seq<Asset>, arch: Seq<char>, os: Seq<char>, i: int, j: int)
    requires
        0 <= i < j < assets.len(),
        accepts(assets[i], arch, os),
        accepts(assets[j], arch, os),
    ensures
        first_accepted(assets, arch, os) matches Some(k) && k <= i,
        first_accepted(assets, arch, os) != Some(j),
{
    let k = lemma_some_first_accepted(assets, arch, os, i);
    assert(is_first_accepted(assets, arch, os, k));
    lemma_first_accepted_is(assets, arch, os, k);
}

proof fn lemma_ext_dot_at(s: Seq<char>, i: int)
    requires
        is_last_dot(s, i),
    ensures
        ext_dot(s) == Some(i),
{
    let k = choose|k: int| is_last_dot(s, k);
    assert(is_last_dot(s, k));
    if k < i {
        assert(s[i] != '.');
    }
    if i < k {
        assert(s[k] != '.');
    }
}

proof fn lemma_no_ext_dot(s: Seq<char>)
    requires
        forall|j: int| 0 < j < s.len() ==> s[j] != '.',
    ensures
        ext_dot(s) is None,
{
    assert forall|i: int| !is_last_dot(s, i) by {}
}

/// `stem` followed by the extension `ext` (given with its dot, holding no other dot)
/// has `ext` as its final extension, and `stem` before it.
proof fn lemma_split_ext(stem: Seq<char>, ext: Seq<char>)
    requires
        stem.len() > 0,
        ext.len() > 0,
        ext[0] == '.',
        forall|j: int| 0 < j < ext.len() ==> ext[j] != '.',
    ensures
        ext_dot(stem + ext) == Some(stem.len() as int),
        (stem + ext).skip(stem.len() as int + 1) == ext.skip(1),
        (stem + ext).take(stem.len() as int) == stem,
{
    let s = stem + ext;
    assert forall|j: int| stem.len() < j < s.len() implies s[j] != '.' by {
        assert(s[j] == ext[j - stem.len()]);
    }
    lemma_ext_dot_at(s, stem.len() as int);
    assert(s.skip(stem.len() as int + 1) =~= ext.skip(1));
    assert(s.take(stem.len() as int) =~= stem);
}

/// The layering of an asset follows from the suffixes of its name alone: after any
/// non-empty stem, `.tar.gz`, `.tar.xz` and `.tar.zst` are compressed tape archives,
/// `.zip` a zip file; and for a stem without a dot after its first character, `.gz`
/// is a gzip-compressed bare file and the stem alone a bare file.
pub proof fn lemma_layering_by_suffix(stem: Seq<char>)
    requires
        stem.len() > 0,
    ensures
        compression_of(stem + ".tar.gz"@) == Compression::Gz(Archive::Tar),
        compression_of(stem + ".tar.xz"@) == Compression::Xz(Archive::Tar),
        compression_of(stem + ".tar.zst"@) == Compression::Zstd(Archive::Tar),
        compression_of(stem + ".zip"@) == Compression::Plain(Archive::Zip),
        (forall|j: int| 0 < j < stem.len() ==> stem[j] != '.') ==> compression_of(stem + ".gz"@)
            == Compression::Gz(Archive::Single) && compression_of(stem) == Compression::Plain(
            Archive::Single,
        ),
{
    reveal_strlit(".tar.gz");
    reveal_strlit(".tar.xz");
    reveal_strlit(".tar.zst");
    reveal_strlit(".tar");
    reveal_strlit(".zip");
    reveal_strlit(".gz");
    reveal_strlit(".xz");
    reveal_strlit(".zst");
    reveal_strlit("gz");
    reveal_strlit("xz");
    reveal_strlit("zst");
    reveal_strlit("zip");
    reveal_strlit("tar");
    let tar = stem + ".tar"@;
    lemma_split_ext(stem, ".tar"@);
    assert(".tar"@.skip(1) =~= "tar"@);
    assert(archive_of(tar) == Archive::Tar);
    assert(".tar.gz"@ =~= ".tar"@ + ".gz"@);
    assert(".tar.xz"@ =~= ".tar"@ + ".xz"@);
    assert(".tar.zst"@ =~= ".tar"@ + ".zst"@);
    assert(stem + ".tar.gz"@ =~= tar + ".gz"@);
    assert(stem + ".tar.xz"@ =~= tar + ".xz"@);
    assert(stem + ".tar.zst"@ =~= tar + ".zst"@);
    lemma_split_ext(tar, ".gz"@);
    lemma_split_ext(tar, ".xz"@);
    lemma_split_ext(tar, ".zst"@);
    lemma_split_ext(stem, ".zip"@);
    lemma_split_ext(stem, ".gz"@);
    assert(".gz"@.skip(1) =~= "gz"@);
    assert(".xz"@.skip(1) =~= "xz"@);
    assert(".zst"@.skip(1) =~= "zst"@);
    assert(".zip"@.skip(1) =~= "zip"@);
    assert(!lowers_to("gz"@[0], "xz"@[0]));
    assert(!lowers_to("xz"@[0], "gz"@[0]));
    assert(!lowers_to("zip"@[1], "zst"@[1]));
    assert(!eq_ignore_ascii_case("gz"@, "xz"@));
    assert(!eq_ignore_ascii_case("xz"@, "gz"@));
    assert(!eq_ignore_ascii_case("zst"@, "gz"@));
    assert(!eq_ignore_ascii_case("zst"@, "xz"@));
    assert(!eq_ignore_ascii_case("zip"@, "gz"@));
    assert(!eq_ignore_ascii_case("zip"@, "xz"@));
    assert(!eq_ignore_ascii_case("zip"@, "zst"@));
    if forall|j: int| 0 < j < stem.len() ==> stem[j] != '.' {
        lemma_no_ext_dot(stem);
    }
    if ext_dot(stem) is Some {
        let i = ext_dot(stem)->0;
        lemma_ext_dot_at(stem, i);
    }
}

/// Only the 64-bit x86 family is matched under other names: for every other
/// architecture the pattern holds the architecture's own name.
pub proof fn lemma_alias_only_for_x86_64(arch: Seq<char>, os: Seq<char>)
    ensures
        arch != "x86_64"@ ==> platform_pattern(arch_token(arch), os) == platform_pattern(arch, os),
        arch == "x86_64"@ ==> platform_pattern(arch_token(arch), os) == platform_pattern(
            "(x86_64|amd64|x64)"@,
            os,
        ),
{
}

} // verus!
