use binge::repo::{IdentityError, Repo};
use std::str::FromStr;

#[test]
fn compare_repo() {
    assert!(Repo::from_str("foo/bar").unwrap() < Repo::from_str("foo/qux").unwrap());
    assert!(Repo::from_str("foo/bar").unwrap() < Repo::from_str("qux/bar").unwrap());
}

#[test]
fn parse_repo() {
    assert!(Repo::from_str("foo").is_err());
    assert!(Repo::from_str("foo/bar/baz").is_err());

    let repo = Repo::from_str("foo/bar").unwrap();
    assert_eq!(repo.owner, "foo");
    assert_eq!(repo.name, "bar");
    assert!(repo.rename.is_none());

    let repo = Repo::from_str("foo/bar:baz").unwrap();
    assert_eq!(repo.owner, "foo");
    assert_eq!(repo.name, "bar");
    let rename = repo.rename.unwrap();
    assert_eq!(rename, "baz");
}

#[test]
fn parse_repo_errors() {
    assert_eq!(Repo::parse("foo").unwrap_err(), IdentityError::MissingSlash);
    assert_eq!(Repo::parse("a/b/c").unwrap_err(), IdentityError::ExtraSlash);
    assert_eq!(Repo::parse("/bar").unwrap_err(), IdentityError::EmptyOwner);
    assert_eq!(Repo::parse("foo/").unwrap_err(), IdentityError::EmptyName);
    assert_eq!(Repo::parse("foo/:x").unwrap_err(), IdentityError::EmptyName);
    assert_eq!(Repo::parse("foo/bar:a:b").unwrap_err(), IdentityError::ExtraColon);
}

#[test]
fn parse_repo_empty_alias_and_unicode() {
    let repo = Repo::parse("foo/bar:").unwrap();
    assert_eq!(repo.rename.as_deref(), Some(""));
    let repo = Repo::parse("zoë/ünï:tool").unwrap();
    assert_eq!(repo.owner, "zoë");
    assert_eq!(repo.name, "ünï");
    assert_eq!(repo.rename.as_deref(), Some("tool"));
}

#[test]
fn identity_ignores_alias() {
    let a = Repo::parse("foo/bar:x").unwrap();
    let b = Repo::parse("foo/bar").unwrap();
    assert!(a == b);
    assert_eq!(a.partial_cmp(&b), Some(std::cmp::Ordering::Equal));
    assert!(Repo::parse("foo/bar").unwrap() > Repo::parse("foo/ba").unwrap());
    assert!(Repo::parse("b/a").unwrap() > Repo::parse("a/z").unwrap());
}

#[test]
fn repo_texts() {
    let repo = Repo::parse("foo/bar:baz").unwrap();
    assert_eq!(repo.to_string(), "foo/bar");
    assert_eq!(repo.to_request(), "foo/bar:baz");
    assert_eq!(Repo::parse("foo/bar").unwrap().to_request(), "foo/bar");
    let copy = repo.clone();
    assert_eq!(copy.rename.as_deref(), Some("baz"));
}
