use cln::errors::Error;
use cln::refs::{resolve_reference, LsRemote, LsRemoteRow};

#[test]
fn remote_row_parses_hash_and_name() {
    let row = LsRemoteRow::parse(&b"abc123\trefs/heads/main".to_vec()).unwrap();
    assert_eq!(row.hash, b"abc123".to_vec());
    assert_eq!(row.name, b"refs/heads/main".to_vec());
}

#[test]
fn remote_row_name_keeps_spaces() {
    let row = LsRemoteRow::parse(&b"abc refs/tags/v1 rc  1".to_vec()).unwrap();
    assert_eq!(row.name, b"refs/tags/v1 rc 1".to_vec());
}

#[test]
fn remote_row_missing_hash_is_malformed() {
    let err = LsRemoteRow::parse(&b"   ".to_vec()).unwrap_err();
    assert_eq!(err, Error::MalformedRemoteRowError);
}

#[test]
fn exact_match_outranks_tag_match() {
    // A row named exactly `v1` wins over `refs/tags/v1`, wherever the
    // tag row stands in the listing.
    let listing = b"B\trefs/tags/v1\nA\tv1".to_vec();
    let hash = resolve_reference(&listing, &b"v1".to_vec()).unwrap();
    assert_eq!(hash, b"A".to_vec());
}

#[test]
fn tag_match_outranks_branch_match() {
    let listing = b"B\trefs/heads/v1\nC\trefs/tags/v1".to_vec();
    let hash = resolve_reference(&listing, &b"v1".to_vec()).unwrap();
    assert_eq!(hash, b"C".to_vec());
}

#[test]
fn first_row_wins_inside_one_class() {
    let listing = b"A\trefs/heads/main\nB\trefs/heads/main".to_vec();
    let hash = resolve_reference(&listing, &b"main".to_vec()).unwrap();
    assert_eq!(hash, b"A".to_vec());
}

#[test]
fn missing_reference_fails() {
    let listing = b"A\trefs/heads/main\nB\trefs/tags/v2".to_vec();
    let err = resolve_reference(&listing, &b"v1".to_vec()).unwrap_err();
    assert_eq!(err, Error::NoMatchingReferenceError);
}

#[test]
fn empty_listing_fails_with_no_match() {
    let err = resolve_reference(&Vec::new(), &b"main".to_vec()).unwrap_err();
    assert_eq!(err, Error::NoMatchingReferenceError);
}

#[test]
fn malformed_listing_row_fails() {
    let listing = b"A\tv1\n\nB\tv2".to_vec();
    let err = resolve_reference(&listing, &b"v1".to_vec()).unwrap_err();
    assert_eq!(err, Error::MalformedRemoteRowError);
}

#[test]
fn trailing_newline_is_tolerated() {
    let listing = b"A\tHEAD\n".to_vec();
    let hash = resolve_reference(&listing, &b"HEAD".to_vec()).unwrap();
    assert_eq!(hash, b"A".to_vec());
}

#[test]
fn nonmatching_rows_are_dropped() {
    let remote = LsRemote::parse(&b"A\tHEAD\nB\trefs/heads/main\nC\trefs/tags/v9".to_vec(),
        &b"main".to_vec())
        .unwrap();
    assert_eq!(remote.rows.len(), 1);
    assert_eq!(remote.rows[0].hash, b"B".to_vec());
    assert_eq!(remote.get_hash().unwrap(), b"B".to_vec());
}
