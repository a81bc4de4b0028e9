use binge::manifest::{Binary, Manifest};
use binge::repo::Repo;

fn bin(repo: &str, path: &str, version: &str) -> Binary {
    Binary { repo: Repo::parse(repo).unwrap(), path: path.to_string(), version: version.to_string() }
}

fn keys(m: &Manifest) -> Vec<String> {
    m.binaries.iter().map(|b| b.repo.to_string()).collect()
}

#[test]
fn update_inserts_in_order() {
    let mut m = Manifest::new(1);
    m.update(bin("zed/z", "/bin/z", "v1"));
    m.update(bin("abc/a", "/bin/a", "v1"));
    m.update(bin("abc/0", "/bin/0", "v1"));
    assert_eq!(keys(&m), vec!["abc/0", "abc/a", "zed/z"]);
    assert_eq!(m.version, 1);
}

#[test]
fn update_overwrites_path_and_version() {
    let mut m = Manifest::new(0);
    m.update(bin("foo/bar:alias", "/bin/alias", "v1"));
    m.update(bin("foo/bar", "/other/bar", "v2"));
    assert_eq!(m.binaries.len(), 1);
    let b = &m.binaries[0];
    assert_eq!((b.path.as_str(), b.version.as_str()), ("/other/bar", "v2"));
    assert_eq!(b.repo.rename.as_deref(), Some("alias"));
}

#[test]
fn contains_by_identity() {
    let mut m = Manifest::new(0);
    m.update(bin("foo/bar", "/bin/bar", "v1"));
    assert!(m.contains(&Repo::parse("foo/bar:x").unwrap()));
    assert!(!m.contains(&Repo::parse("foo/baz").unwrap()));
}

#[test]
fn from_binaries_sorts_and_merges() {
    let m = Manifest::from_binaries(
        3,
        vec![bin("b/b", "/1", "v1"), bin("a/a", "/2", "v1"), bin("b/b", "/3", "v2")],
    );
    assert_eq!(keys(&m), vec!["a/a", "b/b"]);
    assert_eq!(m.binaries[1].path, "/3");
    assert_eq!(m.binaries[1].version, "v2");
    assert_eq!(m.version, 3);
}

#[test]
fn remove_repos_splits() {
    let m = Manifest::from_binaries(0, vec![bin("a/a", "/a", "1"), bin("b/b", "/b", "1"), bin("c/c", "/c", "1")]);
    let (kept, removed) = m.remove_repos(&vec![Repo::parse("b/b").unwrap(), Repo::parse("x/y").unwrap()]);
    assert_eq!(keys(&kept), vec!["a/a", "c/c"]);
    assert_eq!(removed.len(), 1);
    assert_eq!(removed[0].path, "/b");
}

#[test]
fn set_path_and_arguments() {
    let mut m = Manifest::from_binaries(0, vec![bin("a/a:x", "/bin/x", "1"), bin("b/b", "/bin/b", "1")]);
    assert!(m.set_path(&Repo::parse("b/b").unwrap(), "/bin/c".to_string()));
    assert!(!m.set_path(&Repo::parse("q/q").unwrap(), "/bin/q".to_string()));
    assert_eq!(m.binaries[1].path, "/bin/c");
    assert_eq!(m.install_arguments(), "a/a:x b/b");
    assert_eq!(Manifest::new(0).install_arguments(), "");
}
