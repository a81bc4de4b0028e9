//! Choosing the directory that binaries are installed into.
use vstd::prelude::*;

verus! {

/// Whether the last components of `path` are the components of `suffix`.
pub uninterp spec fn path_ends_with(path: Seq<char>, suffix: Seq<char>) -> bool;

/// Relies on `std::path::Path::ends_with`, which compares whole components from the end:
/// the answer depends on the two texts alone.
#[verifier::external_body]
fn ends_with_components(path: &str, suffix: &str) -> (r: bool)
    ensures
        r == path_ends_with(path@, suffix@),
{
    std::path::Path::new(path).ends_with(suffix)
}

/// A directory of the search path that is the user's local binary directory.
pub open spec fn is_local_bin(dir: Seq<char>) -> bool {
    path_ends_with(dir, ".local/bin"@)
}

/// The index of the first local binary directory of the search path.
pub open spec fn first_local_bin(search_path: Seq<String>) -> Option<int> {
    if exists|i: int| is_first_local_bin(search_path, i) {
        Some(choose|i: int| is_first_local_bin(search_path, i))
    } else {
        None
    }
}

/// `i` is a local binary directory with none before it.
pub open spec fn is_first_local_bin(search_path: Seq<String>, i: int) -> bool {
    &&& 0 <= i < search_path.len()
    &&& is_local_bin(search_path[i]@)
    &&& forall|j: int| 0 <= j < i ==> !is_local_bin(#[trigger] search_path[j]@)
}

/// The install directory: the configured one; else the first directory of the search
/// path that ends in `.local/bin`; else none, and the user has to configure one.
pub fn install_path(configured: Option<String>, search_path: &Vec<String>) -> (r: Option<String>)
    ensures
        configured is Some ==> r == configured,
        configured is None ==> match first_local_bin(search_path@) {
            Some(i) => r matches Some(d) && d@ == search_path@[i]@,
            None => r is None,
        },
{
    if configured.is_some() {
        return configured;
    }
    let mut i: usize = 0;
    while i < search_path.len()
        invariant
            configured is None,
            i <= search_path@.len(),
            forall|j: int| 0 <= j < i ==> !is_local_bin(#[trigger] search_path@[j]@),
        decreases search_path.len() - i,
    {
        if ends_with_components(search_path[i].as_str(), ".local/bin") {
            proof {
                assert(is_first_local_bin(search_path@, i as int));
                let k = choose|k: int| is_first_local_bin(search_path@, k);
                if k < i {
                    assert(!is_local_bin(search_path@[k]@));
                }
                if k > i {
                    assert(!is_local_bin(search_path@[i as int]@));
                }
            }
            return Some(search_path[i].clone());
        }
        i = i + 1;
    }
    proof {
        assert forall|k: int| !is_first_local_bin(search_path@, k) by {
            if is_first_local_bin(search_path@, k) {
                assert(!is_local_bin(search_path@[k]@));
            }
        }
    }
    None
}

} // verus!
