//! Checkout paths.
//!
//! The walker works with paths relative to the checkout root, held as
//! raw bytes with `/` separators. The base path `.` denotes the root
//! itself, so joining from it yields the child name alone. This module
//! also settles where a checkout lands (an explicit directory, or the
//! repository locator's last segment without its trailing `.git`) and
//! where the store root lives.

use vstd::prelude::*;

use crate::errors::Error;
use crate::text::{bytes_concat, bytes_eq, bytes_range, clone_bytes};

verus! {

/// The bytes of the root-relative path `.`.
pub open spec fn dot() -> Seq<u8> {
    seq![46u8]
}

/// The bytes of the suffix `.git`.
pub open spec fn git_suffix() -> Seq<u8> {
    seq![46u8, 103u8, 105u8, 116u8]
}

/// The bytes of the default reference `HEAD`.
pub open spec fn head_name() -> Seq<u8> {
    seq![72u8, 69u8, 65u8, 68u8]
}

/// The bytes of the per-user store location `.cache/.cln-store`,
/// relative to the home directory.
pub open spec fn store_subdir() -> Seq<u8> {
    seq![
        46u8,
        99u8,
        97u8,
        99u8,
        104u8,
        101u8,
        47u8,
        46u8,
        99u8,
        108u8,
        110u8,
        45u8,
        115u8,
        116u8,
        111u8,
        114u8,
        101u8,
    ]
}

/// A base path and a child name joined: `.` stands for the root, so a
/// child of the root keeps its bare name; otherwise a `/` separates.
pub open spec fn spec_join_rel(base: Seq<u8>, name: Seq<u8>) -> Seq<u8> {
    if base == dot() {
        name
    } else {
        base + seq![47u8] + name
    }
}

/// The suffix of `s` after its last `/`; all of `s` when it has none.
pub open spec fn last_segment(s: Seq<u8>) -> Seq<u8>
    decreases s.len(),
{
    if s.len() == 0 {
        s
    } else if s.last() == 47 {
        Seq::empty()
    } else {
        last_segment(s.drop_last()) + seq![s.last()]
    }
}

/// `s` without one trailing `.git`, if it carries one.
pub open spec fn strip_git_suffix(s: Seq<u8>) -> Seq<u8> {
    if s.len() >= 4 && s.skip(s.len() - 4) == git_suffix() {
        s.take(s.len() - 4)
    } else {
        s
    }
}

/// The directory name a repository locator checks out into by default.
pub open spec fn spec_repo_name(repo: Seq<u8>) -> Seq<u8> {
    strip_git_suffix(last_segment(repo))
}

/// The bytes of `.`.
pub fn dot_bytes() -> (r: Vec<u8>)
    ensures
        r@ == dot(),
{
    let mut r: Vec<u8> = Vec::new();
    r.push(46);
    proof {
        assert(r@ =~= dot());
    }
    r
}

/// The bytes of `.git`.
pub fn git_suffix_bytes() -> (r: Vec<u8>)
    ensures
        r@ == git_suffix(),
{
    let mut r: Vec<u8> = Vec::new();
    r.push(46);
    r.push(103);
    r.push(105);
    r.push(116);
    proof {
        assert(r@ =~= git_suffix());
    }
    r
}

/// The bytes of `HEAD`.
pub fn head_name_bytes() -> (r: Vec<u8>)
    ensures
        r@ == head_name(),
{
    let mut r: Vec<u8> = Vec::new();
    r.push(72);
    r.push(69);
    r.push(65);
    r.push(68);
    proof {
        assert(r@ =~= head_name());
    }
    r
}

/// The bytes of `.cache/.cln-store`.
pub fn store_subdir_bytes() -> (r: Vec<u8>)
    ensures
        r@ == store_subdir(),
{
    let mut r: Vec<u8> = Vec::new();
    r.push(46);
    r.push(99);
    r.push(97);
    r.push(99);
    r.push(104);
    r.push(101);
    r.push(47);
    r.push(46);
    r.push(99);
    r.push(108);
    r.push(110);
    r.push(45);
    r.push(115);
    r.push(116);
    r.push(111);
    r.push(114);
    r.push(101);
    proof {
        assert(r@ =~= store_subdir());
    }
    r
}

/// Join a base path and a child name.
pub fn join_rel(base: &Vec<u8>, name: &Vec<u8>) -> (r: Vec<u8>)
    ensures
        r@ == spec_join_rel(base@, name@),
{
    let d = dot_bytes();
    if bytes_eq(base, &d) {
        clone_bytes(name)
    } else {
        let mut stem = clone_bytes(base);
        stem.push(47);
        let r = bytes_concat(&stem, name);
        proof {
            assert(base@.push(47u8) =~= base@ + seq![47u8]);
        }
        r
    }
}

/// A scan that found the last `/` at `k - 1` (or none when `k == 0`)
/// has found the last segment.
proof fn lemma_last_segment_at(s: Seq<u8>, k: int)
    requires
        0 <= k <= s.len(),
        forall|j: int| k <= j < s.len() ==> s[j] != 47,
        k == 0 || s[k - 1] == 47,
    ensures
        last_segment(s) == s.skip(k),
    decreases s.len(),
{
    if k == s.len() {
        assert(s.skip(k) =~= Seq::<u8>::empty());
        if s.len() > 0 {
            assert(s.last() == 47);
        }
    } else {
        assert(s.last() != 47);
        lemma_last_segment_at(s.drop_last(), k);
        assert(s.drop_last().skip(k) + seq![s.last()] =~= s.skip(k));
    }
}

/// The default checkout directory for a repository locator: its last
/// `/`-segment, without a trailing `.git`.
pub fn get_repo_name(repo: &Vec<u8>) -> (r: Vec<u8>)
    ensures
        r@ == spec_repo_name(repo@),
{
    let mut k = repo.len();
    while k > 0 && repo[k - 1] != 47
        invariant
            k <= repo.len(),
            forall|j: int| k <= j < repo@.len() ==> repo@[j] != 47,
        decreases k,
    {
        k = k - 1;
    }
    let seg = bytes_range(repo, k, repo.len());
    proof {
        lemma_last_segment_at(repo@, k as int);
        assert(seg@ =~= repo@.skip(k as int));
    }
    if seg.len() >= 4 {
        let tail = bytes_range(&seg, seg.len() - 4, seg.len());
        let gsuf = git_suffix_bytes();
        proof {
            assert(tail@ =~= seg@.skip(seg@.len() - 4));
        }
        if bytes_eq(&tail, &gsuf) {
            return bytes_range(&seg, 0, seg.len() - 4);
        }
    }
    seg
}

/// The directory a checkout lands in: the explicit choice, or the
/// repository's default name.
pub fn resolve_target_dir(dir: Option<Vec<u8>>, repo: &Vec<u8>) -> (r: Vec<u8>)
    ensures
        r@ == match dir {
            Some(d) => d@,
            None => spec_repo_name(repo@),
        },
{
    match dir {
        Some(d) => d,
        None => get_repo_name(repo),
    }
}

/// The reference a checkout resolves: the requested branch, or `HEAD`.
pub fn reference_or_head(branch: Option<Vec<u8>>) -> (r: Vec<u8>)
    ensures
        r@ == match branch {
            Some(b) => b@,
            None => head_name(),
        },
{
    match branch {
        Some(b) => b,
        None => head_name_bytes(),
    }
}

/// Where the store root lives: an explicit override wins; otherwise it
/// sits under the user's home directory at `.cache/.cln-store`; with
/// neither available the store cannot be placed.
pub fn store_root_path(explicit: Option<Vec<u8>>, home: Option<Vec<u8>>) -> (r: Result<
    Vec<u8>,
    Error,
>)
    ensures
        match r {
            Ok(p) => match explicit {
                Some(e) => p@ == e@,
                None => home is Some && p@ == home->0@ + seq![47u8] + store_subdir(),
            },
            Err(e) => explicit is None && home is None && e == Error::HomeDirError,
        },
{
    match explicit {
        Some(p) => Ok(p),
        None => match home {
            Some(h) => {
                let mut stem = h;
                stem.push(47);
                let sub = store_subdir_bytes();
                let r = bytes_concat(&stem, &sub);
                proof {
                    assert(stem@ =~= stem@.drop_last() + seq![47u8]);
                }
                Ok(r)
            },
            None => Err(Error::HomeDirError),
        },
    }
}

} // verus!
