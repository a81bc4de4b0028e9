use binge::manifest::{Binary, Manifest};
use binge::orchestrate::{
    apply_updates, install_target, merge_installs, needs_update, partition_requests, plan_rename,
    release_url, update_outcome, UpdateOutcome,
};
use binge::repo::Repo;

fn repo(s: &str) -> Repo {
    Repo::parse(s).unwrap()
}

fn bin(r: &str, path: &str, version: &str) -> Binary {
    Binary { repo: repo(r), path: path.to_string(), version: version.to_string() }
}

#[test]
fn install_twice_is_idempotent() {
    let m = merge_installs(Manifest::new(0), vec![Some(bin("foo/bar", "/bin/bar", "v1"))]);
    let (already, fresh) = partition_requests(&m, vec![repo("foo/bar"), repo("foo/new")]);
    assert_eq!(already.len(), 1);
    assert_eq!(already[0].to_string(), "foo/bar");
    assert_eq!(fresh.len(), 1);
    assert_eq!(fresh[0].to_string(), "foo/new");
    let m2 = merge_installs(m, vec![]);
    assert_eq!(m2.binaries.len(), 1);
    assert_eq!(m2.binaries[0].version, "v1");
}

#[test]
fn partial_failure_isolated() {
    let results = vec![Some(bin("a/one", "/bin/one", "1")), None, Some(bin("c/three", "/bin/three", "3"))];
    let m = merge_installs(Manifest::new(0), results);
    assert!(m.contains(&repo("a/one")));
    assert!(!m.contains(&repo("b/two")));
    assert!(m.contains(&repo("c/three")));
    assert_eq!(m.binaries.len(), 2);
}

#[test]
fn update_same_tag_keeps_binary() {
    let m = merge_installs(Manifest::new(0), vec![Some(bin("a/a", "/bin/a", "v1.0"))]);
    assert!(!needs_update(&m.binaries[0], "v1.0"));
    let outcome = update_outcome(&m.binaries[0], "v1.0".to_string(), false);
    assert!(matches!(outcome, UpdateOutcome::UpToDate));
    let m2 = apply_updates(m, vec![outcome]);
    assert_eq!(m2.binaries[0].path, "/bin/a");
    assert_eq!(m2.binaries[0].version, "v1.0");
}

#[test]
fn update_new_tag_overwrites_version() {
    let m = merge_installs(
        Manifest::new(0),
        vec![Some(bin("a/a", "/bin/a", "v1")), Some(bin("b/b:bee", "/bin/bee", "v1"))],
    );
    assert!(needs_update(&m.binaries[1], "v2"));
    let o0 = update_outcome(&m.binaries[0], "v9".to_string(), false);
    let o1 = update_outcome(&m.binaries[1], "v2".to_string(), true);
    assert!(matches!(o0, UpdateOutcome::Failed));
    let m2 = apply_updates(m, vec![o0, o1]);
    assert_eq!(m2.binaries[0].version, "v1");
    assert_eq!(m2.binaries[1].version, "v2");
    assert_eq!(m2.binaries[1].path, "/bin/bee");
    assert_eq!(m2.binaries[1].repo.rename.as_deref(), Some("bee"));
}

#[test]
fn targets_and_urls() {
    assert_eq!(install_target("/home/u/.local/bin/tool", &repo("o/n:alias")), "/home/u/.local/bin/alias");
    assert_eq!(install_target("/home/u/.local/bin/tool", &repo("o/n")), "/home/u/.local/bin/tool");
    assert_eq!(release_url(&repo("foo/bar")), "https://api.github.com/repos/foo/bar/releases/latest");
}

#[test]
fn rename_plans() {
    let m = merge_installs(Manifest::new(0), vec![Some(bin("a/a", "/bin/a", "1"))]);
    let (from, to) = plan_rename(&m, &repo("a/a:b")).unwrap();
    assert_eq!((from.as_str(), to.as_str()), ("/bin/a", "/bin/b"));
    assert!(plan_rename(&m, &repo("a/a")).is_none());
    assert!(plan_rename(&m, &repo("x/x:y")).is_none());
}
