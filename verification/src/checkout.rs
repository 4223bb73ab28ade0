//! Checkout orchestration.
//!
//! A checkout runs through fixed stages: settle the target directory
//! and the reference, resolve the reference to a hash, ask the store
//! whether it already holds that hash, and follow one of two routes —
//! the cached route, which materializes from the store without any
//! backend call, or the fetch route, which shallow-fetches the
//! repository into an ephemeral workspace first. The decisions of
//! every stage live here and in the sibling modules; the unverified
//! shell only performs the filesystem and backend actions each
//! decision calls for, in the order decided here.

use vstd::prelude::*;

use crate::paths::{get_repo_name, head_name, head_name_bytes, spec_repo_name};

verus! {

/// Which route a checkout takes after the store lookup.
#[derive(Clone, Copy, Debug, PartialEq, Eq, Structural)]
pub enum CheckoutRoute {
    /// The resolved hash is in the store: materialize from cache, with
    /// no backend or network call at all.
    Cached,
    /// The hash is absent: shallow-fetch into an ephemeral workspace,
    /// then materialize (filling the store as a side effect).
    Fetched,
}

/// The cached route is taken exactly when the store holds the resolved
/// hash.
pub fn choose_route(stored: bool) -> (r: CheckoutRoute)
    ensures
        (r == CheckoutRoute::Cached) <==> stored,
{
    if stored {
        CheckoutRoute::Cached
    } else {
        CheckoutRoute::Fetched
    }
}

/// The settled inputs of a checkout: where it lands and what it
/// resolves.
#[derive(Debug)]
pub struct CheckoutPlan {
    pub target_dir: Vec<u8>,
    pub reference: Vec<u8>,
}

/// Settle target directory and reference: an explicit directory wins,
/// else the repository's default name; an explicit branch wins, else
/// `HEAD`.
pub fn plan_checkout(repo: &Vec<u8>, dir: Option<Vec<u8>>, branch: Option<Vec<u8>>) -> (p:
    CheckoutPlan)
    ensures
        p.target_dir@ == match dir {
            Some(d) => d@,
            None => spec_repo_name(repo@),
        },
        p.reference@ == match branch {
            Some(b) => b@,
            None => head_name(),
        },
{
    let target_dir = match dir {
        Some(d) => d,
        None => get_repo_name(repo),
    };
    let reference = match branch {
        Some(b) => b,
        None => head_name_bytes(),
    };
    CheckoutPlan { target_dir, reference }
}

/// The arguments of the backend's shallow bare fetch: depth-limited,
/// single-branch, restricted to the requested branch when one was
/// given. The shell appends the workspace path.
pub fn clone_args(repo: &str, branch: Option<&str>) -> (args: Vec<String>)
    ensures
        match branch {
            None => args@.len() == 6 && args@[0]@ == "clone"@ && args@[1]@ == "--bare"@
                && args@[2]@ == "--depth"@ && args@[3]@ == "1"@ && args@[4]@ == "--single-branch"@
                && args@[5]@ == repo@,
            Some(b) => args@.len() == 8 && args@[0]@ == "clone"@ && args@[1]@ == "--bare"@
                && args@[2]@ == "--depth"@ && args@[3]@ == "1"@ && args@[4]@ == "--single-branch"@
                && args@[5]@ == "--branch"@ && args@[6]@ == b@ && args@[7]@ == repo@,
        },
{
    let mut args: Vec<String> = Vec::new();
    args.push("clone".to_owned());
    args.push("--bare".to_owned());
    args.push("--depth".to_owned());
    args.push("1".to_owned());
    args.push("--single-branch".to_owned());
    match branch {
        Some(b) => {
            args.push("--branch".to_owned());
            args.push(b.to_owned());
        },
        None => {},
    }
    args.push(repo.to_owned());
    args
}

/// The arguments of the backend's remote-reference listing.
pub fn ls_remote_args(repo: &str, reference: &str) -> (args: Vec<String>)
    ensures
        args@.len() == 3,
        args@[0]@ == "ls-remote"@,
        args@[1]@ == repo@,
        args@[2]@ == reference@,
{
    let mut args: Vec<String> = Vec::new();
    args.push("ls-remote".to_owned());
    args.push(repo.to_owned());
    args.push(reference.to_owned());
    args
}

/// The arguments of the backend's tree-listing call for one hash.
pub fn ls_tree_args(hash: &str) -> (args: Vec<String>)
    ensures
        args@.len() == 2,
        args@[0]@ == "ls-tree"@,
        args@[1]@ == hash@,
{
    let mut args: Vec<String> = Vec::new();
    args.push("ls-tree".to_owned());
    args.push(hash.to_owned());
    args
}

/// The arguments of the backend's blob-content call for one hash.
pub fn cat_file_args(hash: &str) -> (args: Vec<String>)
    ensures
        args@.len() == 3,
        args@[0]@ == "cat-file"@,
        args@[1]@ == "-p"@,
        args@[2]@ == hash@,
{
    let mut args: Vec<String> = Vec::new();
    args.push("cat-file".to_owned());
    args.push("-p".to_owned());
    args.push(hash.to_owned());
    args
}

} // verus!
