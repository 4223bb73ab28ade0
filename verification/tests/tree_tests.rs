use cln::errors::Error;
use cln::tree::{Tree, TreeRow};

#[test]
fn tree_row_parses_four_fields() {
    let row = TreeRow::parse(&b"100644 blob abc123\tsrc/main.c".to_vec()).unwrap();
    assert_eq!(row.mode, b"100644".to_vec());
    assert_eq!(row.otype, b"blob".to_vec());
    assert_eq!(row.name, b"abc123".to_vec());
    assert_eq!(row.path, b"src/main.c".to_vec());
}

#[test]
fn tree_row_path_keeps_spaces() {
    let row = TreeRow::parse(&b"100644 blob abc my file name.txt".to_vec()).unwrap();
    assert_eq!(row.path, b"my file name.txt".to_vec());
}

#[test]
fn tree_row_empty_path_is_allowed() {
    let row = TreeRow::parse(&b"040000 tree abc".to_vec()).unwrap();
    assert_eq!(row.path, Vec::<u8>::new());
}

#[test]
fn tree_row_missing_fields_is_malformed() {
    let err = TreeRow::parse(&b"100644 blob".to_vec()).unwrap_err();
    assert_eq!(err, Error::MalformedTreeRowError);
}

#[test]
fn tree_row_kinds() {
    let blob = TreeRow::parse(&b"100644 blob a f".to_vec()).unwrap();
    assert!(blob.is_blob());
    assert!(!blob.is_tree());
    let tree = TreeRow::parse(&b"040000 tree b d".to_vec()).unwrap();
    assert!(tree.is_tree());
    assert!(!tree.is_blob());
    let link = TreeRow::parse(&b"120000 symlink c l".to_vec()).unwrap();
    assert!(!link.is_blob());
    assert!(!link.is_tree());
}

#[test]
fn tree_parses_whole_listing() {
    let text = b"100644 blob a1\tREADME\n040000 tree d1\tsrc".to_vec();
    let tree = Tree::parse(&text, b".".to_vec()).unwrap();
    assert_eq!(tree.rows.len(), 2);
    assert_eq!(tree.path, b".".to_vec());
    assert_eq!(tree.rows[0].path, b"README".to_vec());
    assert_eq!(tree.rows[1].otype, b"tree".to_vec());
}

#[test]
fn tree_empty_text_has_no_rows() {
    let tree = Tree::parse(&Vec::new(), b".".to_vec()).unwrap();
    assert_eq!(tree.rows.len(), 0);
}

#[test]
fn tree_malformed_line_fails() {
    let text = b"100644 blob a1\tREADME\nbroken".to_vec();
    let err = Tree::parse(&text, b".".to_vec()).unwrap_err();
    assert_eq!(err, Error::MalformedTreeRowError);
}
