use cln::checkout::{cat_file_args, choose_route, clone_args, ls_remote_args, ls_tree_args,
    plan_checkout, CheckoutRoute};
use cln::errors::Error;
use cln::mode::{parse_mode_octal, readonly_mode};
use cln::paths::{get_repo_name, join_rel, reference_or_head, resolve_target_dir,
    store_root_path};

#[test]
fn mode_is_parsed_as_octal() {
    // `100644` read as base-8, not base-10.
    assert_eq!(parse_mode_octal(&b"100644".to_vec()).unwrap(), 0o100644);
    assert_eq!(parse_mode_octal(&b"100644".to_vec()).unwrap(), 33188);
    assert_eq!(parse_mode_octal(&b"0".to_vec()).unwrap(), 0);
    assert_eq!(parse_mode_octal(&b"755".to_vec()).unwrap(), 493);
}

#[test]
fn mode_rejects_bad_digits() {
    assert_eq!(parse_mode_octal(&Vec::new()).unwrap_err(), Error::ParseModeError);
    assert_eq!(parse_mode_octal(&b"100648".to_vec()).unwrap_err(), Error::ParseModeError);
    assert_eq!(parse_mode_octal(&b"10x".to_vec()).unwrap_err(), Error::ParseModeError);
    // Too large for 32 bits.
    assert_eq!(parse_mode_octal(&b"77777777777777".to_vec()).unwrap_err(), Error::ParseModeError);
}

#[test]
fn readonly_clears_write_bits_only() {
    assert_eq!(readonly_mode(0o100644), 0o100444);
    assert_eq!(readonly_mode(0o100755), 0o100555);
    assert_eq!(readonly_mode(0o444), 0o444);
}

#[test]
fn repo_name_strips_suffix() {
    assert_eq!(get_repo_name(&b"https://example.com/lua/lua.git".to_vec()), b"lua".to_vec());
    assert_eq!(get_repo_name(&b"https://example.com/lua/lua".to_vec()), b"lua".to_vec());
    assert_eq!(get_repo_name(&b"plain".to_vec()), b"plain".to_vec());
    // Only a trailing suffix is stripped.
    assert_eq!(get_repo_name(&b"a/b.gitx".to_vec()), b"b.gitx".to_vec());
}

#[test]
fn join_rel_treats_dot_as_root() {
    assert_eq!(join_rel(&b".".to_vec(), &b"README".to_vec()), b"README".to_vec());
    assert_eq!(join_rel(&b"src".to_vec(), &b"main.c".to_vec()), b"src/main.c".to_vec());
    assert_eq!(join_rel(&b"a/b".to_vec(), &b"c".to_vec()), b"a/b/c".to_vec());
}

#[test]
fn target_dir_and_reference_defaults() {
    assert_eq!(resolve_target_dir(Some(b"out".to_vec()), &b"x/y.git".to_vec()), b"out".to_vec());
    assert_eq!(resolve_target_dir(None, &b"x/y.git".to_vec()), b"y".to_vec());
    assert_eq!(reference_or_head(Some(b"dev".to_vec())), b"dev".to_vec());
    assert_eq!(reference_or_head(None), b"HEAD".to_vec());
}

#[test]
fn store_root_resolution() {
    assert_eq!(
        store_root_path(Some(b"/tmp/store".to_vec()), Some(b"/home/u".to_vec())).unwrap(),
        b"/tmp/store".to_vec()
    );
    assert_eq!(
        store_root_path(None, Some(b"/home/u".to_vec())).unwrap(),
        b"/home/u/.cache/.cln-store".to_vec()
    );
    assert_eq!(store_root_path(None, None).unwrap_err(), Error::HomeDirError);
}

#[test]
fn checkout_plan_defaults() {
    let p = plan_checkout(&b"https://h/o/repo.git".to_vec(), None, None);
    assert_eq!(p.target_dir, b"repo".to_vec());
    assert_eq!(p.reference, b"HEAD".to_vec());
    let q = plan_checkout(&b"https://h/o/repo.git".to_vec(), Some(b"dir".to_vec()),
        Some(b"main".to_vec()));
    assert_eq!(q.target_dir, b"dir".to_vec());
    assert_eq!(q.reference, b"main".to_vec());
}

#[test]
fn route_follows_store_lookup() {
    assert_eq!(choose_route(true), CheckoutRoute::Cached);
    assert_eq!(choose_route(false), CheckoutRoute::Fetched);
}

#[test]
fn backend_argument_lines() {
    let plain = clone_args("https://h/r.git", None);
    assert_eq!(plain, vec!["clone", "--bare", "--depth", "1", "--single-branch",
        "https://h/r.git"]);
    let branched = clone_args("https://h/r.git", Some("dev"));
    assert_eq!(branched, vec!["clone", "--bare", "--depth", "1", "--single-branch", "--branch",
        "dev", "https://h/r.git"]);
    assert_eq!(ls_remote_args("https://h/r.git", "HEAD"), vec!["ls-remote", "https://h/r.git",
        "HEAD"]);
    assert_eq!(ls_tree_args("abc"), vec!["ls-tree", "abc"]);
    assert_eq!(cat_file_args("abc"), vec!["cat-file", "-p", "abc"]);
}
