//! The installation manifest: installed binaries, sorted by repository and without duplicates.
use vstd::prelude::*;
use crate::repo::{lemma_repo_lt_irreflexive, lemma_repo_lt_total, lemma_repo_lt_transitive, Repo};

verus! {

/// An installed binary.
#[derive(Debug)]
pub struct Binary {
    /// Repository the binary comes from.
    pub repo: Repo,
    /// Path of the installed executable.
    pub path: String,
    /// Installed version: the tag of the release it came from.
    pub version: String,
}

/// The record of installed binaries.
#[derive(Debug)]
pub struct Manifest {
    /// Version of the manifest format.
    pub version: i64,
    /// Installed binaries, sorted by repository.
    pub binaries: Vec<Binary>,
}

/// Binaries in strictly increasing order of repository, so no repository occurs twice.
pub open spec fn sorted(bs: Seq<Binary>) -> bool {
    forall|i: int, j: int| 0 <= i < j < bs.len() ==> (#[trigger] bs[i]).repo.lt(&(#[trigger] bs[j]).repo)
}

/// Whether some binary of `bs` comes from `repo`.
pub open spec fn holds(bs: Seq<Binary>, repo: &Repo) -> bool {
    exists|i: int| 0 <= i < bs.len() && (#[trigger] bs[i]).repo.same(repo)
}

impl Binary {
    /// A copy of this binary.
    pub fn duplicate(&self) -> (r: Binary)
        ensures
            r == *self,
    {
        Binary { repo: self.repo.duplicate(), path: self.path.clone(), version: self.version.clone() }
    }
}

impl Clone for Binary {
    fn clone(&self) -> (r: Binary)
        ensures
            r == *self,
    {
        self.duplicate()
    }
}

impl Manifest {
    /// The manifest's invariant: binaries sorted by repository, hence distinct.
    pub open spec fn wf(&self) -> bool {
        sorted(self.binaries@)
    }

    /// Checks the manifest's invariant.
    pub fn well_formed(&self) -> (r: bool)
        ensures
            r == self.wf(),
    {
        let n = self.binaries.len();
        if n == 0 {
            return true;
        }
        let mut i: usize = 0;
        while i + 1 < n
            invariant
                n == self.binaries@.len(),
                n > 0,
                i < n,
                forall|a: int, b: int| 0 <= a < b <= i ==> (#[trigger] self.binaries@[a]).repo.lt(
                    &(#[trigger] self.binaries@[b]).repo,
                ),
            decreases n - i,
        {
            if !self.binaries[i].repo.precedes(&self.binaries[i + 1].repo) {
                return false;
            }
            proof {
                assert forall|a: int, b: int| 0 <= a < b <= i + 1 implies (#[trigger] self.binaries@[a]).repo.lt(
                    &(#[trigger] self.binaries@[b]).repo,
                ) by {
                    if b == i + 1 && a < i {
                        lemma_repo_lt_transitive(
                            &self.binaries@[a].repo,
                            &self.binaries@[i as int].repo,
                            &self.binaries@[b].repo,
                        );
                    }
                }
            }
            i = i + 1;
        }
        true
    }

    /// A manifest with no binaries.
    pub fn new(version: i64) -> (r: Manifest)
        ensures
            r.wf(),
            r.version == version,
            r.binaries@.len() == 0,
    {
        Manifest { version, binaries: Vec::new() }
    }

    /// Whether a binary of `repo` is installed.
    pub fn contains(&self, repo: &Repo) -> (r: bool)
        ensures
            r == holds(self.binaries@, repo),
    {
        let mut i: usize = 0;
        while i < self.binaries.len()
            invariant
                i <= self.binaries@.len(),
                forall|j: int| 0 <= j < i ==> !(#[trigger] self.binaries@[j]).repo.same(repo),
            decreases self.binaries.len() - i,
        {
            if self.binaries[i].repo.same_as(repo) {
                return true;
            }
            i = i + 1;
        }
        false
    }

    /// Records `binary`: a binary of the same repository gets its path and version,
    /// keeping its identity; otherwise `binary` is inserted in order.
    pub fn update(&mut self, binary: Binary)
        requires
            old(self).wf(),
        ensures
            final(self).wf(),
            final(self).version == old(self).version,
            match find_same(old(self).binaries@, &binary.repo) {
                Some(i) => final(self).binaries@ == old(self).binaries@.update(
                    i,
                    Binary {
                        repo: old(self).binaries@[i].repo,
                        path: binary.path,
                        version: binary.version,
                    },
                ),
                None => exists|p: int|
                    0 <= p <= old(self).binaries@.len() && final(self).binaries@ == old(
                        self,
                    ).binaries@.insert(p, binary),
            },
            forall|r: Repo|
                !binary.repo.same(&r) ==> #[trigger] lookup(final(self).binaries@, &r) == lookup(
                    old(self).binaries@,
                    &r,
                ),
            lookup(final(self).binaries@, &binary.repo) matches Some(e) && e.repo.same(&binary.repo)
                && e.path == binary.path && e.version == binary.version,
    {
        let ghost bs = self.binaries@;
        let mut p: usize = 0;
        while p < self.binaries.len() && self.binaries[p].repo.precedes(&binary.repo)
            invariant
                self.binaries@ == bs,
                sorted(bs),
                p <= bs.len(),
                forall|j: int| 0 <= j < p ==> (#[trigger] bs[j]).repo.lt(&binary.repo),
            decreases self.binaries.len() - p,
        {
            p = p + 1;
        }
        if p < self.binaries.len() && self.binaries[p].repo.same_as(&binary.repo) {
            proof {
                lemma_find_same(bs, &binary.repo, p as int);
            }
            let repo = self.binaries[p].repo.duplicate();
            let Binary { repo: _, path, version } = binary;
            let ghost nbin = Binary { repo, path, version };
            self.binaries.set(p, Binary { repo, path, version });
            proof {
                assert forall|i: int, j: int| 0 <= i < j < self.binaries@.len() implies (
                #[trigger] self.binaries@[i]).repo.lt(&(#[trigger] self.binaries@[j]).repo) by {
                    assert(bs[i].repo.lt(&bs[j].repo));
                }
                lemma_lookup_set(bs, self.binaries@, p as int, nbin);
            }
        } else {
            proof {
                if p < bs.len() {
                    lemma_repo_lt_total(&bs[p as int].repo, &binary.repo);
                }
                assert forall|k: int| 0 <= k < bs.len() implies !(#[trigger] bs[k]).repo.same(
                    &binary.repo,
                ) by {
                    if k < p {
                        lemma_repo_lt_irreflexive(&bs[k].repo, &binary.repo);
                    } else if k > p {
                        assert(bs[p as int].repo.lt(&bs[k].repo));
                        lemma_repo_lt_transitive(&binary.repo, &bs[p as int].repo, &bs[k].repo);
                        lemma_repo_lt_irreflexive(&bs[k].repo, &binary.repo);
                    }
                }
                lemma_find_none(bs, &binary.repo);
            }
            let ghost b = binary;
            self.binaries.insert(p, binary);
            proof {
                let nb = self.binaries@;
                assert(nb == bs.insert(p as int, b));
                assert forall|i: int, j: int| 0 <= i < j < nb.len() implies (#[trigger] nb[i]).repo.lt(
                    &(#[trigger] nb[j]).repo,
                ) by {
                    if j < p {
                        assert(bs[i].repo.lt(&bs[j].repo));
                    } else if j == p {
                    } else if i == p {
                        if j - 1 > p {
                            assert(bs[p as int].repo.lt(&bs[j - 1].repo));
                            lemma_repo_lt_transitive(&b.repo, &bs[p as int].repo, &bs[j - 1].repo);
                        }
                    } else if i < p {
                        if j - 1 == p {
                            lemma_repo_lt_transitive(&bs[i].repo, &b.repo, &bs[p as int].repo);
                        } else {
                            assert(bs[i].repo.lt(&bs[j - 1].repo));
                        }
                    } else {
                        assert(bs[i - 1].repo.lt(&bs[j - 1].repo));
                    }
                }
                lemma_lookup_insert(bs, nb, p as int, b);
            }
        }
    }
}

impl Manifest {
    /// Builds a manifest from binaries in any order: sorted by repository, one entry
    /// per repository, a later binary of a repository giving its path and version.
    pub fn from_binaries(version: i64, binaries: Vec<Binary>) -> (r: Manifest)
        ensures
            r.wf(),
            r.version == version,
            forall|repo: Repo|
                match last_for(binaries@, &repo) {
                    Some(k) => #[trigger] lookup(r.binaries@, &repo) matches Some(e) && e.path
                        == binaries@[k].path && e.version == binaries@[k].version,
                    None => lookup(r.binaries@, &repo) is None,
                },
    {
        let mut m = Manifest::new(version);
        let mut i: usize = 0;
        while i < binaries.len()
            invariant
                m.wf(),
                m.version == version,
                i <= binaries@.len(),
                forall|repo: Repo|
                    match last_for(binaries@.take(i as int), &repo) {
                        Some(k) => #[trigger] lookup(m.binaries@, &repo) matches Some(e) && e.path
                            == binaries@[k].path && e.version == binaries@[k].version,
                        None => lookup(m.binaries@, &repo) is None,
                    },
            decreases binaries.len() - i,
        {
            let b = binaries[i].duplicate();
            let ghost before = m.binaries@;
            m.update(b);
            proof {
                let t = binaries@.take(i as int);
                let t1 = binaries@.take(i + 1);
                assert(t1 =~= t.push(b));
                assert forall|repo: Repo|
                    match last_for(t1, &repo) {
                        Some(k) => #[trigger] lookup(m.binaries@, &repo) matches Some(e) && e.path
                            == binaries@[k].path && e.version == binaries@[k].version,
                        None => lookup(m.binaries@, &repo) is None,
                    } by {
                    if b.repo.same(&repo) {
                        assert(is_last_for(t1, &repo, i as int));
                        lemma_last_for_is(t1, &repo, i as int);
                        lemma_lookup_key(m.binaries@, &b.repo, &repo);
                    } else {
                        assert(lookup(m.binaries@, &repo) == lookup(before, &repo));
                        if last_for(t, &repo) is Some {
                            let k = last_for(t, &repo)->0;
                            lemma_last_for_some(t, &repo);
                            assert(is_last_for(t1, &repo, k));
                            lemma_last_for_is(t1, &repo, k);
                        } else {
                            assert forall|k: int| !is_last_for(t1, &repo, k) by {
                                if is_last_for(t1, &repo, k) {
                                    assert(is_last_for(t, &repo, k));
                                }
                            }
                        }
                    }
                }
            }
            i = i + 1;
        }
        proof {
            assert(binaries@.take(i as int) =~= binaries@);
        }
        m
    }

    /// Splits off the binaries of the requested repositories: the manifest keeps the
    /// others, in order; the removed ones come back in manifest order.
    pub fn remove_repos(self, repos: &Vec<Repo>) -> (r: (Manifest, Vec<Binary>))
        requires
            self.wf(),
        ensures
            r.0.wf(),
            r.0.version == self.version,
            r.0.binaries@ == self.binaries@.filter(|b: Binary| !requested(repos@, &b.repo)),
            r.1@ == self.binaries@.filter(|b: Binary| requested(repos@, &b.repo)),
    {
        let ghost bs = self.binaries@;
        let ghost keep = |b: Binary| !requested(repos@, &b.repo);
        let ghost drop = |b: Binary| requested(repos@, &b.repo);
        let Manifest { version, binaries } = self;
        let mut kept: Vec<Binary> = Vec::new();
        let mut removed: Vec<Binary> = Vec::new();
        let mut i: usize = 0;
        proof {
            assert(bs.take(0) =~= Seq::<Binary>::empty());
        }
        while i < binaries.len()
            invariant
                binaries@ == bs,
                sorted(bs),
                i <= bs.len(),
                keep == (|b: Binary| !requested(repos@, &b.repo)),
                drop == (|b: Binary| requested(repos@, &b.repo)),
                kept@ == bs.take(i as int).filter(keep),
                removed@ == bs.take(i as int).filter(drop),
                sorted(kept@),
                i < bs.len() ==> forall|k: int| 0 <= k < kept@.len() ==> (#[trigger] kept@[k]).repo.lt(&bs[i as int].repo),
            decreases binaries.len() - i,
        {
            let b = binaries[i].duplicate();
            proof {
                assert(bs.take(i + 1) =~= bs.take(i as int).push(bs[i as int]));
                bs.take(i as int).lemma_filter_push(bs[i as int], keep);
                bs.take(i as int).lemma_filter_push(bs[i as int], drop);
            }
            if is_requested(repos, &b.repo) {
                removed.push(b);
            } else {
                kept.push(b);
            }
            proof {
                if i + 1 < bs.len() {
                    assert forall|k: int| 0 <= k < kept@.len() implies (#[trigger] kept@[k]).repo.lt(&bs[i + 1].repo) by {
                        assert(bs[i as int].repo.lt(&bs[i + 1].repo));
                        if k < kept@.len() - 1 || !keep(bs[i as int]) {
                            lemma_repo_lt_transitive(&kept@[k].repo, &bs[i as int].repo, &bs[i + 1].repo);
                        }
                    }
                }
            }
            i = i + 1;
        }
        proof {
            assert(bs.take(i as int) =~= bs);
        }
        (Manifest { version, binaries: kept }, removed)
    }

    /// Points the binary of `repo` at `path`. Returns whether there was one.
    pub fn set_path(&mut self, repo: &Repo, path: String) -> (r: bool)
        requires
            old(self).wf(),
        ensures
            final(self).wf(),
            final(self).version == old(self).version,
            r == holds(old(self).binaries@, repo),
            match find_same(old(self).binaries@, repo) {
                Some(i) => final(self).binaries@ == old(self).binaries@.update(
                    i,
                    Binary {
                        repo: old(self).binaries@[i].repo,
                        path: path,
                        version: old(self).binaries@[i].version,
                    },
                ),
                None => final(self).binaries@ == old(self).binaries@,
            },
    {
        let ghost bs = self.binaries@;
        let mut i: usize = 0;
        while i < self.binaries.len()
            invariant
                *self == *old(self),
                self.binaries@ == bs,
                sorted(bs),
                i <= bs.len(),
                forall|j: int| 0 <= j < i ==> !(#[trigger] bs[j]).repo.same(repo),
            decreases self.binaries.len() - i,
        {
            if self.binaries[i].repo.same_as(repo) {
                proof {
                    lemma_find_same(bs, repo, i as int);
                }
                let b = Binary {
                    repo: self.binaries[i].repo.duplicate(),
                    path,
                    version: self.binaries[i].version.clone(),
                };
                self.binaries.set(i, b);
                proof {
                    assert forall|x: int, y: int| 0 <= x < y < self.binaries@.len() implies (
                    #[trigger] self.binaries@[x]).repo.lt(&(#[trigger] self.binaries@[y]).repo) by {
                        assert(bs[x].repo.lt(&bs[y].repo));
                    }
                }
                return true;
            }
            i = i + 1;
        }
        false
    }

    /// The installed repositories as arguments for a later install: `owner/name` or
    /// `owner/name:alias`, in manifest order, separated by spaces.
    pub fn install_arguments(&self) -> (r: String)
        ensures
            r@ == requests_text(self.binaries@),
    {
        let mut out = String::new();
        let mut i: usize = 0;
        proof {
            reveal_strlit(" ");
            assert(self.binaries@.take(0) =~= Seq::<Binary>::empty());
        }
        while i < self.binaries.len()
            invariant
                i <= self.binaries@.len(),
                out@ == requests_text(self.binaries@.take(i as int)),
                " "@ == seq![' '],
            decreases self.binaries.len() - i,
        {
            if i > 0 {
                out.append(" ");
            }
            let req = self.binaries[i].repo.to_request();
            out.append(req.as_str());
            proof {
                let t1 = self.binaries@.take(i + 1);
                assert(t1.drop_last() =~= self.binaries@.take(i as int));
                assert(t1.last() == self.binaries@[i as int]);
            }
            i = i + 1;
        }
        proof {
            assert(self.binaries@.take(i as int) =~= self.binaries@);
        }
        out
    }
}

/// The requests of `bs` joined by single spaces.
pub open spec fn requests_text(bs: Seq<Binary>) -> Seq<char>
    decreases bs.len(),
{
    if bs.len() == 0 {
        Seq::empty()
    } else if bs.len() == 1 {
        bs[0].repo.request_text()
    } else {
        requests_text(bs.drop_last()) + seq![' '] + bs.last().repo.request_text()
    }
}

/// Whether `repo` is among the requested repositories.
pub open spec fn requested(repos: Seq<Repo>, repo: &Repo) -> bool {
    exists|k: int| 0 <= k < repos.len() && (#[trigger] repos[k]).same(repo)
}

/// Tells whether `repo` is among the requested repositories.
pub fn is_requested(repos: &Vec<Repo>, repo: &Repo) -> (r: bool)
    ensures
        r == requested(repos@, repo),
{
    let mut k: usize = 0;
    while k < repos.len()
        invariant
            k <= repos@.len(),
            forall|j: int| 0 <= j < k ==> !(#[trigger] repos@[j]).same(repo),
        decreases repos.len() - k,
    {
        if repos[k].same_as(repo) {
            return true;
        }
        k = k + 1;
    }
    false
}

/// Index of the binary of `repo` in `bs`, if there is one.
pub open spec fn find_same(bs: Seq<Binary>, repo: &Repo) -> Option<int> {
    if holds(bs, repo) {
        Some(choose|i: int| 0 <= i < bs.len() && (#[trigger] bs[i]).repo.same(repo))
    } else {
        None
    }
}

/// In sorted binaries, the binary of a repository is the one [`find_same`] names.
pub proof fn lemma_find_same(bs: Seq<Binary>, repo: &Repo, i: int)
    requires
        sorted(bs),
        0 <= i < bs.len(),
        bs[i].repo.same(repo),
    ensures
        find_same(bs, repo) == Some(i),
{
    assert(holds(bs, repo));
    let k = choose|k: int| 0 <= k < bs.len() && (#[trigger] bs[k]).repo.same(repo);
    assert(0 <= k < bs.len() && bs[k].repo.same(repo));
    if k != i {
        if k < i {
            assert(bs[k].repo.lt(&bs[i].repo));
        } else {
            assert(bs[i].repo.lt(&bs[k].repo));
        }
        lemma_repo_lt_irreflexive(&bs[k].repo, &bs[i].repo);
    }
}

/// Index of the last binary of `repo` in `bs`, if there is one.
pub open spec fn last_for(bs: Seq<Binary>, repo: &Repo) -> Option<int> {
    if exists|k: int| is_last_for(bs, repo, k) {
        Some(choose|k: int| is_last_for(bs, repo, k))
    } else {
        None
    }
}

/// `k` is the last binary of `repo` in `bs`.
pub open spec fn is_last_for(bs: Seq<Binary>, repo: &Repo, k: int) -> bool {
    &&& 0 <= k < bs.len()
    &&& bs[k].repo.same(repo)
    &&& forall|j: int| k < j < bs.len() ==> !(#[trigger] bs[j]).repo.same(repo)
}

proof fn lemma_last_for_is(bs: Seq<Binary>, repo: &Repo, k: int)
    requires
        is_last_for(bs, repo, k),
    ensures
        last_for(bs, repo) == Some(k),
{
    let c = choose|c: int| is_last_for(bs, repo, c);
    assert(is_last_for(bs, repo, c));
    if c < k {
        assert(!bs[k].repo.same(repo));
    }
    if k < c {
        assert(!bs[c].repo.same(repo));
    }
}

proof fn lemma_last_for_some(bs: Seq<Binary>, repo: &Repo)
    requires
        last_for(bs, repo) is Some,
    ensures
        is_last_for(bs, repo, last_for(bs, repo)->0),
{
}

/// Identities with the same owner and name find the same binary.
pub proof fn lemma_lookup_key(bs: Seq<Binary>, a: &Repo, b: &Repo)
    requires
        sorted(bs),
        a.same(b),
    ensures
        lookup(bs, a) == lookup(bs, b),
{
    if holds(bs, a) {
        let k = choose|k: int| 0 <= k < bs.len() && (#[trigger] bs[k]).repo.same(a);
        lemma_find_same(bs, a, k);
        lemma_find_same(bs, b, k);
    } else {
        assert forall|k: int| 0 <= k < bs.len() implies !(#[trigger] bs[k]).repo.same(b) by {}
    }
}

/// The binary of `repo` in `bs`, if there is one.
pub open spec fn lookup(bs: Seq<Binary>, repo: &Repo) -> Option<Binary> {
    match find_same(bs, repo) {
        Some(i) => Some(bs[i]),
        None => None,
    }
}

proof fn lemma_lookup_set(bs: Seq<Binary>, nb: Seq<Binary>, p: int, b: Binary)
    requires
        sorted(bs),
        sorted(nb),
        0 <= p < bs.len(),
        b.repo == bs[p].repo,
        nb == bs.update(p, b),
    ensures
        forall|r: Repo|
            !b.repo.same(&r) ==> #[trigger] lookup(nb, &r) == lookup(bs, &r),
        lookup(nb, &b.repo) == Some(b),
{
    lemma_find_same(nb, &b.repo, p);
    assert forall|r: Repo| !b.repo.same(&r) implies #[trigger] lookup(nb, &r) == lookup(bs, &r) by {
        if holds(bs, &r) {
            let k = choose|k: int| 0 <= k < bs.len() && (#[trigger] bs[k]).repo.same(&r);
            lemma_find_same(bs, &r, k);
            lemma_find_same(nb, &r, k);
        } else {
            assert forall|k: int| 0 <= k < nb.len() implies !(#[trigger] nb[k]).repo.same(&r) by {
                assert(nb[k].repo == bs[k].repo);
            }
        }
    }
}

proof fn lemma_lookup_insert(bs: Seq<Binary>, nb: Seq<Binary>, p: int, b: Binary)
    requires
        sorted(bs),
        sorted(nb),
        0 <= p <= bs.len(),
        nb == bs.insert(p, b),
    ensures
        forall|r: Repo|
            !b.repo.same(&r) ==> #[trigger] lookup(nb, &r) == lookup(bs, &r),
        lookup(nb, &b.repo) == Some(b),
{
    lemma_find_same(nb, &b.repo, p);
    assert forall|r: Repo| !b.repo.same(&r) implies #[trigger] lookup(nb, &r) == lookup(bs, &r) by {
        if holds(bs, &r) {
            let k = choose|k: int| 0 <= k < bs.len() && (#[trigger] bs[k]).repo.same(&r);
            lemma_find_same(bs, &r, k);
            if k < p {
                lemma_find_same(nb, &r, k);
            } else {
                lemma_find_same(nb, &r, k + 1);
            }
        } else {
            assert forall|k: int| 0 <= k < nb.len() implies !(#[trigger] nb[k]).repo.same(&r) by {
                if k < p {
                    assert(nb[k] == bs[k]);
                } else if k > p {
                    assert(nb[k] == bs[k - 1]);
                }
            }
        }
    }
}

proof fn lemma_find_none(bs: Seq<Binary>, repo: &Repo)
    requires
        forall|k: int| 0 <= k < bs.len() ==> !(#[trigger] bs[k]).repo.same(repo),
    ensures
        find_same(bs, repo) is None,
{
}

} // verus!
