use binge::matcher::{alt_arch_os, parse_archive, parse_file, platform_regex, select_asset, Archive, Asset, Compression};

fn make_filename_and_url(name: &str) -> (String, String) {
    (name.to_string(), format!("https://foo.com/{name}"))
}

fn kind_of(name: &str) -> Compression {
    let (name, url) = make_filename_and_url(name);
    parse_file(name, url, "x86_64", "linux").unwrap().kind
}

#[test]
fn parse_arch_os() {
    let (name, url) = make_filename_and_url("bar-x86_64-unknown-linux-gnu.tar.gz");
    let file = parse_file(name.clone(), url.clone(), "x86_64", "linux").unwrap();

    assert_eq!(file.filename, "bar-x86_64-unknown-linux-gnu.tar.gz");

    assert!(parse_file(name, url, "aarch64", "linux").is_none());
}

#[test]
fn parse_compression() {
    assert!(matches!(kind_of("bar-x86_64-unknown-linux-gnu.tar.gz"), Compression::Gz(Archive::Tar)));
    assert!(matches!(kind_of("bar-amd64-unknown-linux-gnu.tar.gz"), Compression::Gz(Archive::Tar)));
    assert!(matches!(kind_of("bar-linux-amd64.tar.gz"), Compression::Gz(Archive::Tar)));
    assert!(matches!(kind_of("bar-x86_64-unknown-linux-gnu.tar.xz"), Compression::Xz(Archive::Tar)));
    assert!(matches!(kind_of("bar-x86_64-unknown-linux-gnu.tar.zst"), Compression::Zstd(Archive::Tar)));
    assert!(matches!(kind_of("bar-x86_64-unknown-linux-gnu.gz"), Compression::Gz(Archive::Single)));
    assert!(matches!(kind_of("bar-x86_64-unknown-linux-gnu.xz"), Compression::Xz(Archive::Single)));
    assert!(matches!(kind_of("bar-x86_64-unknown-linux-gnu.zst"), Compression::Zstd(Archive::Single)));
    assert!(matches!(kind_of("bar-x86_64-unknown-linux-gnu.zip"), Compression::Plain(Archive::Zip)));
    assert!(matches!(kind_of("bar-x86_64-unknown-linux-gnu"), Compression::Plain(Archive::Single)));
    assert!(matches!(kind_of("tailwindcss-linux-x64"), Compression::Plain(Archive::Single)));
}

#[test]
fn layering_edge_cases() {
    assert_eq!(binge::matcher::parse_compression("name.TAR.GZ"), Compression::Gz(Archive::Tar));
    assert_eq!(binge::matcher::parse_compression("name.tar"), Compression::Plain(Archive::Single));
    assert_eq!(binge::matcher::parse_compression("name.tar.bin"), Compression::Plain(Archive::Single));
    assert_eq!(binge::matcher::parse_compression(".gz"), Compression::Plain(Archive::Single));
    assert_eq!(binge::matcher::parse_compression("name"), Compression::Plain(Archive::Single));
    assert_eq!(parse_archive("x.tar"), Archive::Tar);
    assert_eq!(parse_archive("x.zip"), Archive::Single);
}

#[test]
fn adjacency_in_both_orders() {
    for arch in ["aarch64", "riscv64", "x86_64"] {
        for os in ["linux", "macos", "windows"] {
            for name in [format!("tool-{arch}-{os}"), format!("tool-{os}-{arch}.zip"), format!("{arch}-unknown-{os}-gnu")] {
                let (n, u) = make_filename_and_url(&name);
                assert!(parse_file(n, u, arch, os).is_some(), "{name} should match {arch} {os}");
            }
        }
    }
    let (n, u) = make_filename_and_url("tool-linux.tar.gz");
    assert!(parse_file(n, u, "x86_64", "linux").is_none());
    let (n, u) = make_filename_and_url("tool-aarch64-linux.tar.gz");
    assert!(parse_file(n, u, "x86_64", "linux").is_none());
    let (n, u) = make_filename_and_url("tool-x86_64.tar.gz");
    assert!(parse_file(n, u, "x86_64", "linux").is_none());
}

#[test]
fn architecture_aliases() {
    for name in ["t-amd64-linux", "t-linux-x64", "t-x86_64-linux"] {
        let (n, u) = make_filename_and_url(name);
        assert!(parse_file(n, u, "x86_64", "linux").is_some());
    }
    let (n, u) = make_filename_and_url("t-arm64-linux");
    assert!(parse_file(n, u, "aarch64", "linux").is_none());
    assert_eq!(alt_arch_os("x86_64"), "(x86_64|amd64|x64)");
    assert_eq!(alt_arch_os("aarch64"), "aarch64");
    assert_eq!(platform_regex("aarch64", "linux"), "^.*(aarch64-[\\w\\d-]*linux|[\\w\\d-]*linux-aarch64).*$");
}

fn asset(name: &str) -> Asset {
    let (name, url) = make_filename_and_url(name);
    Asset { name, url }
}

#[test]
fn first_match_wins() {
    let assets = vec![
        asset("tool-aarch64-linux.tar.gz"),
        asset("tool-x86_64-linux.tar.gz"),
        asset("tool-x86_64-linux.zip"),
    ];
    let file = select_asset(&assets, "x86_64", "linux").unwrap();
    assert_eq!(file.filename, "tool-x86_64-linux.tar.gz");
    assert_eq!(file.url, "https://foo.com/tool-x86_64-linux.tar.gz");
    assert_eq!(file.kind, Compression::Gz(Archive::Tar));
}

#[test]
fn select_skips_editor_packages_and_bad_urls() {
    let bad_url = Asset { name: "tool-x86_64-linux".to_string(), url: "not a url".to_string() };
    let assets = vec![bad_url, asset("tool-x86_64-linux.vsix"), asset("tool-linux-amd64.gz")];
    let file = select_asset(&assets, "x86_64", "linux").unwrap();
    assert_eq!(file.filename, "tool-linux-amd64.gz");
    assert_eq!(file.kind, Compression::Gz(Archive::Single));
    assert!(select_asset(&assets[..2].to_vec(), "x86_64", "linux").is_none());
    assert!(select_asset(&Vec::new(), "x86_64", "linux").is_none());
}
