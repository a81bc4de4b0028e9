use binge::extract::{
    base_name_of, choose_entry, extract_single, extract_tar, extract_zip, unpack, ArchiveEntry,
    ExtractError, Listing,
};
use binge::matcher::{Archive, Compression};
use std::io::Write;

const PAYLOAD: &[u8] = b"\x7fELF pretend executable";

fn tar_of(entries: &[(&str, u32, tar::EntryType, &[u8])]) -> Vec<u8> {
    let mut builder = tar::Builder::new(Vec::new());
    for (path, mode, kind, data) in entries {
        let mut header = tar::Header::new_gnu();
        header.set_path(path).unwrap();
        header.set_size(data.len() as u64);
        header.set_mode(*mode);
        header.set_entry_type(*kind);
        header.set_cksum();
        builder.append(&header, *data).unwrap();
    }
    builder.into_inner().unwrap()
}

fn sample_tar() -> Vec<u8> {
    tar_of(&[
        ("tool-1.0/README.md", 0o644, tar::EntryType::Regular, b"readme"),
        ("tool-1.0/bin", 0o755, tar::EntryType::Directory, b""),
        ("tool-1.0/bin/tool", 0o755, tar::EntryType::Regular, PAYLOAD),
        ("tool-1.0/bin/other", 0o755, tar::EntryType::Regular, b"second"),
    ])
}

fn gzip(data: &[u8]) -> Vec<u8> {
    let mut e = flate2::write::GzEncoder::new(Vec::new(), flate2::Compression::default());
    e.write_all(data).unwrap();
    e.finish().unwrap()
}

fn xz(data: &[u8]) -> Vec<u8> {
    let mut e = xz2::write::XzEncoder::new(Vec::new(), 6);
    e.write_all(data).unwrap();
    e.finish().unwrap()
}

fn zstd_of(data: &[u8]) -> Vec<u8> {
    zstd::stream::encode_all(data, 3).unwrap()
}

fn sample_zip() -> Vec<u8> {
    let mut w = zip::ZipWriter::new(std::io::Cursor::new(Vec::new()));
    let opts = zip::write::SimpleFileOptions::default()
        .compression_method(zip::CompressionMethod::Stored);
    w.add_directory("tool/", opts.unix_permissions(0o755)).unwrap();
    w.start_file("tool/LICENSE", opts.unix_permissions(0o644)).unwrap();
    w.write_all(b"license").unwrap();
    w.start_file("tool/tool", opts.unix_permissions(0o750)).unwrap();
    w.write_all(PAYLOAD).unwrap();
    w.finish().unwrap().into_inner()
}

#[test]
fn tar_round_trip() {
    let exe = extract_tar(&sample_tar()).unwrap();
    assert_eq!(exe.name, "tool");
    assert_eq!(exe.data, PAYLOAD);
    assert_ne!(exe.mode & 0o100, 0);
    assert_eq!(exe.mode & 0o777, 0o755);
}

#[test]
fn compressed_tar_round_trips() {
    for (bytes, kind) in [
        (gzip(&sample_tar()), Compression::Gz(Archive::Tar)),
        (xz(&sample_tar()), Compression::Xz(Archive::Tar)),
        (zstd_of(&sample_tar()), Compression::Zstd(Archive::Tar)),
        (sample_tar(), Compression::Plain(Archive::Tar)),
    ] {
        let exe = unpack(bytes, kind, "asset.tar.gz".to_string()).unwrap();
        assert_eq!(exe.name, "tool");
        assert_eq!(exe.data, PAYLOAD);
    }
}

#[test]
fn zip_round_trip() {
    let exe = extract_zip(&sample_zip()).unwrap();
    assert_eq!(exe.name, "tool/tool");
    assert_eq!(exe.data, PAYLOAD);
    assert_eq!(exe.mode & 0o777, 0o750);
    let exe = unpack(sample_zip(), Compression::Plain(Archive::Zip), "a.zip".to_string()).unwrap();
    assert_eq!(exe.name, "tool/tool");
}

#[test]
fn bare_files() {
    let exe = unpack(PAYLOAD.to_vec(), Compression::Plain(Archive::Single), "tool-linux-x64".to_string()).unwrap();
    assert_eq!(exe.name, "tool-linux-x64");
    assert_eq!(exe.mode, 0o755);
    assert_eq!(exe.data, PAYLOAD);
    for (bytes, kind) in [
        (gzip(PAYLOAD), Compression::Gz(Archive::Single)),
        (xz(PAYLOAD), Compression::Xz(Archive::Single)),
        (zstd_of(PAYLOAD), Compression::Zstd(Archive::Single)),
    ] {
        let exe = unpack(bytes, kind, "tool.gz".to_string()).unwrap();
        assert_eq!(exe.name, "tool.gz");
        assert_eq!(exe.data, PAYLOAD);
        assert_eq!(exe.mode, 0o755);
    }
    let exe = extract_single(vec![1, 2, 3], "t".to_string());
    assert_eq!((exe.name.as_str(), exe.mode, exe.data), ("t", 0o755, vec![1, 2, 3]));
}

#[test]
fn extraction_errors() {
    let no_exec = tar_of(&[("a/readme", 0o644, tar::EntryType::Regular, b"x")]);
    assert_eq!(extract_tar(&no_exec).unwrap_err(), ExtractError::NoExecutable);
    let bad = b"definitely not compressed".to_vec();
    assert_eq!(unpack(bad.clone(), Compression::Gz(Archive::Tar), "x".to_string()).unwrap_err(), ExtractError::Decode);
    assert_eq!(unpack(bad.clone(), Compression::Xz(Archive::Single), "x".to_string()).unwrap_err(), ExtractError::Decode);
    assert_eq!(unpack(bad.clone(), Compression::Zstd(Archive::Tar), "x".to_string()).unwrap_err(), ExtractError::Decode);
    assert_eq!(
        unpack(gzip(&sample_zip()), Compression::Gz(Archive::Zip), "x".to_string()).unwrap_err(),
        ExtractError::UnsupportedLayering
    );
    assert_eq!(unpack(bad, Compression::Plain(Archive::Zip), "x".to_string()).unwrap_err(), ExtractError::Archive);
    let mut truncated = sample_tar();
    truncated.truncate(1800);
    assert_eq!(extract_tar(&truncated).unwrap_err(), ExtractError::Archive);
}

fn entry(name: Option<&str>, mode: Option<u32>, is_file: bool) -> ArchiveEntry {
    ArchiveEntry { name: name.map(String::from), mode, is_file, data: vec![7] }
}

#[test]
fn choosing_entries() {
    let listing = Listing {
        entries: vec![
            entry(Some("dir"), Some(0o755), false),
            entry(Some("a/b/tool"), Some(0o100), true),
            entry(Some("a/second"), Some(0o755), true),
        ],
        complete: true,
    };
    let exe = choose_entry(listing, Archive::Tar).unwrap();
    assert_eq!((exe.name.as_str(), exe.mode), ("tool", 0o100));

    let listing = Listing { entries: vec![entry(None, Some(0o755), true), entry(Some("x"), Some(0o755), true)], complete: true };
    assert_eq!(choose_entry(listing, Archive::Tar).unwrap_err(), ExtractError::MissingFileName);
    let listing = Listing { entries: vec![entry(None, Some(0o755), true), entry(Some("x/y"), Some(0o755), true)], complete: true };
    assert_eq!(choose_entry(listing, Archive::Zip).unwrap().name, "x/y");
    let listing = Listing { entries: vec![entry(Some("x"), None, true), entry(Some("y"), Some(0o644), true)], complete: false };
    assert_eq!(choose_entry(listing, Archive::Tar).unwrap_err(), ExtractError::Archive);
    let listing = Listing { entries: vec![], complete: true };
    assert_eq!(choose_entry(listing, Archive::Tar).unwrap_err(), ExtractError::NoExecutable);
}

#[test]
fn base_names() {
    assert_eq!(base_name_of("a/b/tool").as_deref(), Some("tool"));
    assert_eq!(base_name_of("tool").as_deref(), Some("tool"));
    assert_eq!(base_name_of("a/"), None);
    assert_eq!(base_name_of("a/.."), None);
    assert_eq!(base_name_of("."), None);
}
