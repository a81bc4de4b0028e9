//! The decisions of an install or update run. Fetching, downloading and writing happen
//! outside; each repository's task hands its result back here to be folded into the manifest.
use vstd::prelude::*;
use crate::manifest::{holds, lemma_find_same, lemma_lookup_key, lookup, Binary, Manifest};
use crate::repo::{lemma_repo_lt_irreflexive, Repo};
use crate::text::{last_slash, sibling_path, str_eq};

verus! {

/// Splits install requests into those already installed and those to install,
/// each in request order.
pub fn partition_requests(manifest: &Manifest, repos: Vec<Repo>) -> (r: (Vec<Repo>, Vec<Repo>))
    ensures
        r.0@ == repos@.filter(|x: Repo| holds(manifest.binaries@, &x)),
        r.1@ == repos@.filter(|x: Repo| !holds(manifest.binaries@, &x)),
{
    let ghost installed = |x: Repo| holds(manifest.binaries@, &x);
    let ghost missing = |x: Repo| !holds(manifest.binaries@, &x);
    let mut already: Vec<Repo> = Vec::new();
    let mut fresh: Vec<Repo> = Vec::new();
    let mut i: usize = 0;
    proof {
        assert(repos@.take(0) =~= Seq::<Repo>::empty());
    }
    while i < repos.len()
        invariant
            i <= repos@.len(),
            installed == (|x: Repo| holds(manifest.binaries@, &x)),
            missing == (|x: Repo| !holds(manifest.binaries@, &x)),
            already@ == repos@.take(i as int).filter(installed),
            fresh@ == repos@.take(i as int).filter(missing),
        decreases repos.len() - i,
    {
        let repo = repos[i].duplicate();
        proof {
            assert(repos@.take(i + 1) =~= repos@.take(i as int).push(repos@[i as int]));
            repos@.take(i as int).lemma_filter_push(repos@[i as int], installed);
            repos@.take(i as int).lemma_filter_push(repos@[i as int], missing);
        }
        if manifest.contains(&repo) {
            already.push(repo);
        } else {
            fresh.push(repo);
        }
        i = i + 1;
    }
    proof {
        assert(repos@.take(i as int) =~= repos@);
    }
    (already, fresh)
}

/// A task result that installed a binary of `repo`.
pub open spec fn installs(res: Option<Binary>, repo: &Repo) -> bool {
    res matches Some(b) && b.repo.same(repo)
}

/// A task result that installed a binary of `repo` with the path and version of `e`.
pub open spec fn installs_as(res: Option<Binary>, repo: &Repo, e: Binary) -> bool {
    res matches Some(b) && b.repo.same(repo) && e.path == b.path && e.version == b.version
}

/// Whether some task installed a binary of `repo`.
pub open spec fn succeeded(results: Seq<Option<Binary>>, repo: &Repo) -> bool {
    exists|i: int| 0 <= i < results.len() && installs(#[trigger] results[i], repo)
}

/// `new` is `old` with the installed binaries of `results` recorded: the entry of a
/// repository that some task installed holds the path and version of such a result;
/// every other entry is as it was.
pub open spec fn merged(old: &Manifest, results: Seq<Option<Binary>>, new: &Manifest) -> bool {
    &&& new.wf()
    &&& new.version == old.version
    &&& forall|r: Repo|
        !succeeded(results, &r) ==> #[trigger] lookup(new.binaries@, &r) == lookup(old.binaries@, &r)
    &&& forall|r: Repo|
        succeeded(results, &r) ==> (#[trigger] lookup(new.binaries@, &r) matches Some(e) && exists|i: int|
            0 <= i < results.len() && installs_as(#[trigger] results[i], &r, e))
}

/// Records the binaries that the install tasks produced; a failed task (`None`) leaves
/// the manifest as it was.
pub fn merge_installs(manifest: Manifest, results: Vec<Option<Binary>>) -> (r: Manifest)
    requires
        manifest.wf(),
    ensures
        merged(&manifest, results@, &r),
{
    let ghost m0 = manifest;
    let mut m = manifest;
    let mut i: usize = 0;
    proof {
        assert(results@.take(0) =~= Seq::<Option<Binary>>::empty());
    }
    while i < results.len()
        invariant
            i <= results@.len(),
            m0.wf(),
            merged(&m0, results@.take(i as int), &m),
        decreases results.len() - i,
    {
        let ghost t = results@.take(i as int);
        let ghost t1 = results@.take(i + 1);
        proof {
            assert forall|k: int| 0 <= k < t.len() implies t1[k] == t[k] by {}
        }
        match &results[i] {
            Some(b) => {
                let b = b.duplicate();
                let ghost before = m;
                m.update(b);
                proof {
                    assert(t1[i as int] == Some(b));
                    assert forall|r: Repo| !succeeded(t1, &r) implies #[trigger] lookup(m.binaries@, &r)
                        == lookup(m0.binaries@, &r) by {
                        if succeeded(t, &r) {
                            let k = choose|k: int| 0 <= k < t.len() && installs(#[trigger] t[k], &r);
                            assert(t1[k] == t[k]);
                        }
                        assert(!b.repo.same(&r));
                    }
                    assert forall|r: Repo| succeeded(t1, &r) implies (#[trigger] lookup(m.binaries@, &r) matches Some(e)
                        && exists|k: int| 0 <= k < t1.len() && installs_as(#[trigger] t1[k], &r, e)) by {
                        if b.repo.same(&r) {
                            lemma_lookup_key(m.binaries@, &b.repo, &r);
                            assert(t1[i as int] == Some(b));
                        } else {
                            let k = choose|k: int| 0 <= k < t1.len() && installs(#[trigger] t1[k], &r);
                            assert(k != i);
                            assert(t[k] == t1[k]);
                            assert(succeeded(t, &r));
                            let e = lookup(before.binaries@, &r)->0;
                            let j = choose|j: int| 0 <= j < t.len() && installs_as(#[trigger] t[j], &r, e);
                            assert(t1[j] == t[j]);
                        }
                    }
                }
            },
            None => {
                proof {
                    assert(t1[i as int] is None);
                    assert forall|r: Repo| succeeded(t1, &r) implies succeeded(t, &r) by {
                        let k = choose|k: int| 0 <= k < t1.len() && installs(#[trigger] t1[k], &r);
                        assert(t[k] == t1[k]);
                    }
                    assert forall|r: Repo| succeeded(t, &r) implies succeeded(t1, &r) by {
                        let k = choose|k: int| 0 <= k < t.len() && installs(#[trigger] t[k], &r);
                        assert(t[k] == t1[k]);
                    }
                    assert forall|r: Repo| succeeded(t1, &r) implies (#[trigger] lookup(m.binaries@, &r) matches Some(e)
                        && exists|k: int| 0 <= k < t1.len() && installs_as(#[trigger] t1[k], &r, e)) by {
                        let e = lookup(m.binaries@, &r)->0;
                        let j = choose|j: int| 0 <= j < t.len() && installs_as(#[trigger] t[j], &r, e);
                        assert(t1[j] == t[j]);
                    }
                }
            },
        }
        i = i + 1;
    }
    proof {
        assert(results@.take(i as int) =~= results@);
    }
    m
}

/// Where an installed executable ends up: renamed to the repository's alias when it has one.
pub open spec fn target_path(written: Seq<char>, repo: &Repo) -> Seq<char> {
    match repo.rename {
        Some(alias) => written.take(last_slash(written) + 1) + alias@,
        None => written,
    }
}

/// Computes [`target_path`] for an executable written at `written`.
pub fn install_target(written: &str, repo: &Repo) -> (r: String)
    ensures
        r@ == target_path(written@, repo),
{
    match &repo.rename {
        Some(alias) => sibling_path(written, alias.as_str()),
        None => written.to_owned(),
    }
}

/// For a rename request that carries an alias and names an installed repository: the
/// binary's current path and the path it moves to, beside it under the alias.
pub fn plan_rename(manifest: &Manifest, repo: &Repo) -> (r: Option<(String, String)>)
    requires
        manifest.wf(),
    ensures
        r is Some <==> repo.rename is Some && holds(manifest.binaries@, repo),
        r matches Some((from, to)) ==> lookup(manifest.binaries@, repo) matches Some(e) && from == e.path
            && to@ == target_path(from@, repo),
{
    if repo.rename.is_none() {
        return None;
    }
    let mut i: usize = 0;
    while i < manifest.binaries.len()
        invariant
            i <= manifest.binaries@.len(),
            manifest.wf(),
            repo.rename is Some,
            forall|j: int| 0 <= j < i ==> !(#[trigger] manifest.binaries@[j]).repo.same(repo),
        decreases manifest.binaries.len() - i,
    {
        if manifest.binaries[i].repo.same_as(repo) {
            let from = manifest.binaries[i].path.clone();
            let to = install_target(from.as_str(), repo);
            proof {
                lemma_find_same(manifest.binaries@, repo, i as int);
            }
            return Some((from, to));
        }
        i = i + 1;
    }
    None
}

/// The address of the latest-release metadata of a repository.
pub fn release_url(repo: &Repo) -> (r: String)
    ensures
        r@ == "https://api.github.com/repos/"@ + repo.owner@ + "/"@ + repo.name@ + "/releases/latest"@,
{
    let mut url = String::from_str("https://api.github.com/repos/");
    url.append(repo.owner.as_str());
    url.append("/");
    url.append(repo.name.as_str());
    url.append("/releases/latest");
    url
}

/// What became of one binary in an update run.
#[derive(Debug)]
pub enum UpdateOutcome {
    /// The latest release carries the installed version.
    UpToDate,
    /// The release with this tag was installed over the binary.
    Updated(String),
    /// Fetching or installing the new release failed.
    Failed,
}

/// Whether the latest release is a different one: tags are compared as plain text.
pub fn needs_update(binary: &Binary, latest_tag: &str) -> (r: bool)
    ensures
        r == (binary.version@ != latest_tag@),
{
    !str_eq(binary.version.as_str(), latest_tag)
}

/// The outcome for a binary whose latest release carries `tag`, where `installed`
/// tells whether installing that release succeeded (it is not tried when up to date).
pub open spec fn outcome_for(binary: Binary, tag: String, installed: bool) -> UpdateOutcome {
    if binary.version@ == tag@ {
        UpdateOutcome::UpToDate
    } else if installed {
        UpdateOutcome::Updated(tag)
    } else {
        UpdateOutcome::Failed
    }
}

/// Names the outcome for a binary whose latest release carries `tag`.
pub fn update_outcome(binary: &Binary, tag: String, installed: bool) -> (r: UpdateOutcome)
    ensures
        r == outcome_for(*binary, tag, installed),
{
    if !needs_update(binary, tag.as_str()) {
        UpdateOutcome::UpToDate
    } else if installed {
        UpdateOutcome::Updated(tag)
    } else {
        UpdateOutcome::Failed
    }
}

/// `new` is what `old` becomes after `outcome`: an installed release gives its tag as the
/// version and keeps repository and path; otherwise the binary stays as it was.
pub open spec fn updated_to(old: Binary, outcome: UpdateOutcome, new: Binary) -> bool {
    match outcome {
        UpdateOutcome::Updated(tag) => new.repo == old.repo && new.path == old.path && new.version == tag,
        _ => new == old,
    }
}

/// `new` holds, in order, each binary of `old` after its outcome.
pub open spec fn applied(old: &Manifest, outcomes: Seq<UpdateOutcome>, new: &Manifest) -> bool {
    &&& new.version == old.version
    &&& new.binaries@.len() == old.binaries@.len()
    &&& outcomes.len() == old.binaries@.len()
    &&& forall|i: int| 0 <= i < outcomes.len() ==> updated_to(old.binaries@[i], #[trigger] outcomes[i], new.binaries@[i])
}

/// Applies one outcome to a binary.
pub fn resolve_update(binary: Binary, outcome: UpdateOutcome) -> (r: Binary)
    ensures
        updated_to(binary, outcome, r),
{
    match outcome {
        UpdateOutcome::Updated(tag) => Binary { repo: binary.repo, path: binary.path, version: tag },
        _ => binary,
    }
}

/// Applies the outcome of each binary's update, one outcome per binary in manifest order.
pub fn apply_updates(manifest: Manifest, outcomes: Vec<UpdateOutcome>) -> (r: Manifest)
    requires
        manifest.wf(),
        outcomes@.len() == manifest.binaries@.len(),
    ensures
        r.wf(),
        applied(&manifest, outcomes@, &r),
{
    let ghost m0 = manifest;
    let ghost o0 = outcomes@;
    let Manifest { version, binaries } = manifest;
    let mut outcomes = outcomes;
    let mut binaries = binaries;
    let mut out: Vec<Binary> = Vec::new();
    while binaries.len() > 0
        invariant
            binaries@.len() == outcomes@.len(),
            out@.len() + binaries@.len() == m0.binaries@.len(),
            o0.len() == m0.binaries@.len(),
            binaries@ == m0.binaries@.skip(out@.len() as int),
            outcomes@ == o0.skip(out@.len() as int),
            forall|i: int| 0 <= i < out@.len() ==> updated_to(m0.binaries@[i], #[trigger] o0[i], out@[i]),
        decreases binaries.len(),
    {
        let b = binaries.remove(0);
        let o = outcomes.remove(0);
        let ghost k = out@.len() as int;
        proof {
            assert(b == m0.binaries@[k]);
            assert(o == o0[k]);
        }
        out.push(resolve_update(b, o));
        proof {
            assert(binaries@ =~= m0.binaries@.skip(out@.len() as int));
            assert(outcomes@ =~= o0.skip(out@.len() as int));
        }
    }
    let r = Manifest { version, binaries: out };
    proof {
        assert forall|i: int, j: int| 0 <= i < j < r.binaries@.len() implies (#[trigger] r.binaries@[i]).repo.lt(
            &(#[trigger] r.binaries@[j]).repo,
        ) by {
            assert(updated_to(m0.binaries@[i], o0[i], r.binaries@[i]));
            assert(updated_to(m0.binaries@[j], o0[j], r.binaries@[j]));
            assert(m0.binaries@[i].repo.lt(&m0.binaries@[j].repo));
        }
    }
    r
}

/// A well-formed manifest holds at most one binary per repository, whatever sequence of
/// installs, updates and removals produced it.
pub proof fn lemma_manifest_distinct(m: &Manifest)
    requires
        m.wf(),
    ensures
        forall|i: int, j: int|
            0 <= i < m.binaries@.len() && 0 <= j < m.binaries@.len() && i != j ==> !(#[trigger] m.binaries@[i]).repo.same(
                &(#[trigger] m.binaries@[j]).repo,
            ),
{
    assert forall|i: int, j: int|
        0 <= i < m.binaries@.len() && 0 <= j < m.binaries@.len() && i != j implies !(#[trigger] m.binaries@[i]).repo.same(
            &(#[trigger] m.binaries@[j]).repo,
        ) by {
        if i < j {
            assert(m.binaries@[i].repo.lt(&m.binaries@[j].repo));
        } else {
            assert(m.binaries@[j].repo.lt(&m.binaries@[i].repo));
        }
        lemma_repo_lt_irreflexive(&m.binaries@[i].repo, &m.binaries@[j].repo);
    }
}

/// Installing a repository that is already installed changes nothing for it: the request
/// is reported as installed, and when the tasks of the other requests are merged the
/// manifest still holds exactly one binary of it, the one it held before.
pub proof fn lemma_install_idempotent(
    m: &Manifest,
    repos: Seq<Repo>,
    results: Seq<Option<Binary>>,
    new: &Manifest,
    repo: Repo,
)
    requires
        m.wf(),
        holds(m.binaries@, &repo),
        merged(m, results, new),
        forall|i: int| 0 <= i < results.len() ==> !installs(#[trigger] results[i], &repo),
    ensures
        !repos.filter(|x: Repo| !holds(m.binaries@, &x)).contains(repo),
        lookup(new.binaries@, &repo) == lookup(m.binaries@, &repo),
        lookup(new.binaries@, &repo) is Some,
        forall|i: int, j: int|
            0 <= i < new.binaries@.len() && 0 <= j < new.binaries@.len() && (#[trigger] new.binaries@[i]).repo.same(&repo)
                && (#[trigger] new.binaries@[j]).repo.same(&repo) ==> i == j,
{
    let missing = |x: Repo| !holds(m.binaries@, &x);
    if repos.filter(missing).contains(repo) {
        let k = choose|k: int| 0 <= k < repos.filter(missing).len() && repos.filter(missing)[k] == repo;
        repos.lemma_filter_pred(missing, k);
    }
    assert(!succeeded(results, &repo));
    let k = choose|k: int| 0 <= k < m.binaries@.len() && (#[trigger] m.binaries@[k]).repo.same(&repo);
    lemma_find_same(m.binaries@, &repo, k);
    lemma_manifest_distinct(new);
    assert forall|i: int, j: int|
        0 <= i < new.binaries@.len() && 0 <= j < new.binaries@.len() && (#[trigger] new.binaries@[i]).repo.same(&repo)
            && (#[trigger] new.binaries@[j]).repo.same(&repo) implies i == j by {
        if i != j {
            assert(!new.binaries@[i].repo.same(&new.binaries@[j].repo));
        }
    }
}

/// A failed task does not stop the others: of three requests for repositories that were
/// not installed, where the second task failed, the manifest afterwards holds the first
/// and the third, and not the second.
pub proof fn lemma_partial_failure(
    m: &Manifest,
    results: Seq<Option<Binary>>,
    new: &Manifest,
    first: Repo,
    second: Repo,
    third: Repo,
)
    requires
        m.wf(),
        merged(m, results, new),
        results.len() == 3,
        installs(results[0], &first),
        results[1] is None,
        installs(results[2], &third),
        !holds(m.binaries@, &second),
        !first.same(&second),
        !third.same(&second),
    ensures
        holds(new.binaries@, &first),
        holds(new.binaries@, &third),
        !holds(new.binaries@, &second),
{
    assert(succeeded(results, &first));
    assert(succeeded(results, &third));
    assert(!succeeded(results, &second));
    lemma_lookup_holds_any(new.binaries@, &first);
    lemma_lookup_holds_any(new.binaries@, &third);
    lemma_lookup_holds_any(new.binaries@, &second);
    lemma_lookup_holds_any(m.binaries@, &second);
}

proof fn lemma_lookup_holds_any(bs: Seq<Binary>, repo: &Repo)
    ensures
        lookup(bs, repo) is Some <==> holds(bs, repo),
{
}

/// An update whose latest tag equals the installed version leaves the binary exactly as it was.
pub proof fn lemma_same_tag_unchanged(
    m: &Manifest,
    outcomes: Seq<UpdateOutcome>,
    new: &Manifest,
    i: int,
    tag: String,
    installed: bool,
)
    requires
        applied(m, outcomes, new),
        0 <= i < outcomes.len(),
        outcomes[i] == outcome_for(m.binaries@[i], tag, installed),
        tag@ == m.binaries@[i].version@,
    ensures
        new.binaries@[i] == m.binaries@[i],
{
    assert(updated_to(m.binaries@[i], outcomes[i], new.binaries@[i]));
}

/// An update to a release with another tag, once installed, records the new tag as the
/// version and keeps the path.
pub proof fn lemma_new_tag_recorded(
    m: &Manifest,
    outcomes: Seq<UpdateOutcome>,
    new: &Manifest,
    i: int,
    tag: String,
)
    requires
        applied(m, outcomes, new),
        0 <= i < outcomes.len(),
        outcomes[i] == outcome_for(m.binaries@[i], tag, true),
        tag@ != m.binaries@[i].version@,
    ensures
        new.binaries@[i].version == tag,
        new.binaries@[i].path == m.binaries@[i].path,
        new.binaries@[i].repo == m.binaries@[i].repo,
{
    assert(updated_to(m.binaries@[i], outcomes[i], new.binaries@[i]));
}

} // verus!
