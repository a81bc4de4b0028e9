//! Repository identities written `owner/name` or `owner/name:alias`.
use vstd::prelude::*;
use crate::text::{
    compare_str, find_char, first_of, lemma_first_of, lemma_seq_lt_irreflexive,
    lemma_seq_lt_total, lemma_seq_lt_transitive, seq_lt,
};

verus! {

/// A repository on the hosting service, with an optional name to install its binary under.
/// Identity and order are given by `(owner, name)`: the alias is metadata.
#[derive(Debug)]
pub struct Repo {
    /// Owner of the repository.
    pub owner: String,
    /// Name of the repository.
    pub name: String,
    /// Optional name of the installed binary.
    pub rename: Option<String>,
}

/// Why a text is not a repository identity.
#[derive(Debug, PartialEq, Eq, Structural, Clone, Copy)]
pub enum IdentityError {
    /// The text holds no `/`.
    MissingSlash,
    /// The text holds more than one `/`.
    ExtraSlash,
    /// Nothing stands before the `/`.
    EmptyOwner,
    /// Nothing stands between the `/` and the end or the `:`.
    EmptyName,
    /// More than one `:` follows the `/`.
    ExtraColon,
}

/// The parts of a parsed identity: owner, name and alias.
pub type RepoParts = (Seq<char>, Seq<char>, Option<Seq<char>>);

/// What parsing `s` gives: the text before the single `/` is the owner; after it
/// comes the name, optionally followed by `:` and the alias.
pub open spec fn parse_spec(s: Seq<char>) -> Result<RepoParts, IdentityError> {
    match first_of(s, '/') {
        None => Err(IdentityError::MissingSlash),
        Some(k) => {
            let owner = s.take(k);
            let rest = s.skip(k + 1);
            if rest.contains('/') {
                Err(IdentityError::ExtraSlash)
            } else if owner.len() == 0 {
                Err(IdentityError::EmptyOwner)
            } else {
                match first_of(rest, ':') {
                    None => if rest.len() == 0 {
                        Err(IdentityError::EmptyName)
                    } else {
                        Ok((owner, rest, None))
                    },
                    Some(j) => {
                        let name = rest.take(j);
                        let alias = rest.skip(j + 1);
                        if name.len() == 0 {
                            Err(IdentityError::EmptyName)
                        } else if alias.contains(':') {
                            Err(IdentityError::ExtraColon)
                        } else {
                            Ok((owner, name, Some(alias)))
                        }
                    },
                }
            }
        },
    }
}

impl Repo {
    /// The owner, name and alias as character sequences.
    pub open spec fn parts(&self) -> RepoParts {
        (self.owner@, self.name@, match self.rename {
            Some(a) => Some(a@),
            None => None,
        })
    }

    /// Two identities are the same repository when owner and name agree.
    pub open spec fn same(&self, other: &Repo) -> bool {
        self.owner@ == other.owner@ && self.name@ == other.name@
    }

    /// The order of identities: by owner, then by name.
    pub open spec fn lt(&self, other: &Repo) -> bool {
        seq_lt(self.owner@, other.owner@) || (self.owner@ == other.owner@ && seq_lt(
            self.name@,
            other.name@,
        ))
    }

    /// Parses `owner/name` or `owner/name:alias`.
    pub fn parse(s: &str) -> (r: Result<Repo, IdentityError>)
        ensures
            match r {
                Ok(repo) => parse_spec(s@) == Ok::<RepoParts, IdentityError>(repo.parts()),
                Err(e) => parse_spec(s@) == Err::<RepoParts, IdentityError>(e),
            },
    {
        let n = s.unicode_len();
        let k = match find_char(s, '/', 0) {
            None => {
                proof {
                    assert(!s@.contains('/'));
                }
                return Err(IdentityError::MissingSlash);
            },
            Some(k) => k,
        };
        proof {
            lemma_first_of(s@, '/', k as int);
        }
        let ghost rest = s@.skip(k + 1);
        if let Some(k2) = find_char(s, '/', k + 1) {
            proof {
                assert(rest[k2 - k - 1] == '/');
            }
            return Err(IdentityError::ExtraSlash);
        }
        proof {
            assert forall|j: int| 0 <= j < rest.len() implies rest[j] != '/' by {
                assert(s@[j + k + 1] != '/');
            }
        }
        if k == 0 {
            return Err(IdentityError::EmptyOwner);
        }
        let owner = s.substring_char(0, k).to_owned();
        match find_char(s, ':', k + 1) {
            None => {
                proof {
                    assert forall|j: int| 0 <= j < rest.len() implies rest[j] != ':' by {
                        assert(s@[j + k + 1] != ':');
                    }
                }
                if k + 1 == n {
                    return Err(IdentityError::EmptyName);
                }
                let name = s.substring_char(k + 1, n).to_owned();
                proof {
                    assert(name@ =~= rest);
                    assert(owner@ =~= s@.take(k as int));
                }
                Ok(Repo { owner, name, rename: None })
            },
            Some(c) => {
                proof {
                    assert(rest[c - k - 1] == ':');
                    assert forall|j: int| 0 <= j < c - k - 1 implies rest[j] != ':' by {
                        assert(s@[j + k + 1] != ':');
                    }
                    lemma_first_of(rest, ':', c - k - 1);
                }
                let ghost alias = rest.skip(c - k);
                if c == k + 1 {
                    return Err(IdentityError::EmptyName);
                }
                if let Some(c2) = find_char(s, ':', c + 1) {
                    proof {
                        assert(alias[c2 - c - 1] == ':');
                    }
                    return Err(IdentityError::ExtraColon);
                }
                proof {
                    assert forall|j: int| 0 <= j < alias.len() implies alias[j] != ':' by {
                        assert(s@[j + c + 1] != ':');
                    }
                }
                let name = s.substring_char(k + 1, c).to_owned();
                let alias_text = s.substring_char(c + 1, n).to_owned();
                proof {
                    assert(name@ =~= rest.take(c - k - 1));
                    assert(alias_text@ =~= alias);
                    assert(owner@ =~= s@.take(k as int));
                }
                Ok(Repo { owner, name, rename: Some(alias_text) })
            },
        }
    }

    /// A copy of this identity, alias included.
    pub fn duplicate(&self) -> (r: Repo)
        ensures
            r == *self,
    {
        let rename = match &self.rename {
            Some(a) => Some(a.clone()),
            None => None,
        };
        Repo { owner: self.owner.clone(), name: self.name.clone(), rename }
    }

    /// Whether both identities name the same repository.
    pub fn same_as(&self, other: &Repo) -> (r: bool)
        ensures
            r == self.same(other),
    {
        self.owner == other.owner && self.name == other.name
    }

    /// Compares by owner, then by name.
    pub fn compare(&self, other: &Repo) -> (r: std::cmp::Ordering)
        ensures
            (r == std::cmp::Ordering::Less) == self.lt(other),
            (r == std::cmp::Ordering::Equal) == self.same(other),
            (r == std::cmp::Ordering::Greater) == other.lt(self),
    {
        proof {
            crate::text::lemma_seq_lt_irreflexive(self.owner@);
            crate::text::lemma_seq_lt_irreflexive(self.name@);
        }
        match compare_str(self.owner.as_str(), other.owner.as_str()) {
            std::cmp::Ordering::Equal => compare_str(self.name.as_str(), other.name.as_str()),
            o => {
                proof {
                    crate::text::lemma_seq_lt_asymmetric(self.owner@, other.owner@);
                    crate::text::lemma_seq_lt_asymmetric(other.owner@, self.owner@);
                }
                o
            },
        }
    }

    /// Whether this identity comes before `other`.
    pub fn precedes(&self, other: &Repo) -> (r: bool)
        ensures
            r == self.lt(other),
    {
        matches!(self.compare(other), std::cmp::Ordering::Less)
    }

    /// `owner/name`, as the identity is shown to users.
    pub fn to_string(&self) -> (r: String)
        ensures
            r@ == self.owner@ + seq!['/'] + self.name@,
    {
        let mut out = self.owner.clone();
        out.append("/");
        proof {
            reveal_strlit("/");
        }
        out.append(self.name.as_str());
        out
    }

    /// `owner/name` or `owner/name:alias`: the text that [`Repo::parse`] reads back.
    pub open spec fn request_text(&self) -> Seq<char> {
        self.owner@ + seq!['/'] + self.name@ + match self.rename {
            Some(a) => seq![':'] + a@,
            None => Seq::<char>::empty(),
        }
    }

    /// Writes the identity as [`Repo::request_text`].
    pub fn to_request(&self) -> (r: String)
        ensures
            r@ == self.request_text(),
    {
        let mut out = self.to_string();
        if let Some(a) = &self.rename {
            out.append(":");
            proof {
                reveal_strlit(":");
            }
            out.append(a.as_str());
        }
        out
    }
}

impl Clone for Repo {
    fn clone(&self) -> (r: Repo)
        ensures
            r == *self,
    {
        self.duplicate()
    }
}

impl PartialEq for Repo {
    fn eq(&self, other: &Repo) -> (r: bool) {
        self.same_as(other)
    }
}

impl vstd::std_specs::cmp::PartialEqSpecImpl for Repo {
    open spec fn obeys_eq_spec() -> bool {
        true
    }

    open spec fn eq_spec(&self, other: &Repo) -> bool {
        self.same(other)
    }
}

impl PartialOrd for Repo {
    fn partial_cmp(&self, other: &Repo) -> (r: Option<std::cmp::Ordering>) {
        Some(self.compare(other))
    }
}

impl vstd::std_specs::cmp::PartialOrdSpecImpl for Repo {
    open spec fn obeys_partial_cmp_spec() -> bool {
        true
    }

    open spec fn partial_cmp_spec(&self, other: &Repo) -> Option<std::cmp::Ordering> {
        if self.lt(other) {
            Some(std::cmp::Ordering::Less)
        } else if self.same(other) {
            Some(std::cmp::Ordering::Equal)
        } else {
            Some(std::cmp::Ordering::Greater)
        }
    }
}

impl std::str::FromStr for Repo {
    type Err = IdentityError;

    fn from_str(s: &str) -> Result<Repo, IdentityError> {
        Repo::parse(s)
    }
}

/// The order of identities is strict: no identity precedes one with the same owner and name.
pub proof fn lemma_repo_lt_irreflexive(a: &Repo, b: &Repo)
    ensures
        a.same(b) ==> !a.lt(b) && !b.lt(a),
{
    lemma_seq_lt_irreflexive(a.owner@);
    lemma_seq_lt_irreflexive(a.name@);
}

/// The order of identities is transitive.
pub proof fn lemma_repo_lt_transitive(a: &Repo, b: &Repo, c: &Repo)
    requires
        a.lt(b),
        b.lt(c),
    ensures
        a.lt(c),
{
    if seq_lt(a.owner@, b.owner@) && seq_lt(b.owner@, c.owner@) {
        lemma_seq_lt_transitive(a.owner@, b.owner@, c.owner@);
    } else if a.owner@ == b.owner@ && b.owner@ == c.owner@ {
        lemma_seq_lt_transitive(a.name@, b.name@, c.name@);
    }
}

/// Of two different identities, one precedes the other.
pub proof fn lemma_repo_lt_total(a: &Repo, b: &Repo)
    requires
        !a.same(b),
    ensures
        a.lt(b) || b.lt(a),
{
    if a.owner@ != b.owner@ {
        lemma_seq_lt_total(a.owner@, b.owner@);
    } else {
        lemma_seq_lt_total(a.name@, b.name@);
    }
}

} // verus!
