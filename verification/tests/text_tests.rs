use cln::text::{
    bytes_concat, bytes_eq, bytes_eq_concat, clone_bytes, join_fields_from, split_fields,
    split_lines, trim_end,
};

#[test]
fn split_fields_basic() {
    let row = b"100644 blob abc123 src/main.c".to_vec();
    let fields = split_fields(&row);
    assert_eq!(fields.len(), 4);
    assert_eq!(fields[0], b"100644".to_vec());
    assert_eq!(fields[1], b"blob".to_vec());
    assert_eq!(fields[2], b"abc123".to_vec());
    assert_eq!(fields[3], b"src/main.c".to_vec());
}

#[test]
fn split_fields_tabs_and_runs() {
    let row = b"100644\tblob\tabc \t name".to_vec();
    let fields = split_fields(&row);
    assert_eq!(fields.len(), 4);
    assert_eq!(fields[3], b"name".to_vec());
}

#[test]
fn split_fields_empty() {
    let fields = split_fields(&Vec::new());
    assert_eq!(fields.len(), 0);
    let blank = split_fields(&b"   \t ".to_vec());
    assert_eq!(blank.len(), 0);
}

#[test]
fn join_fields_rejoins_with_single_spaces() {
    let row = b"a  b\t\tc   d".to_vec();
    let fields = split_fields(&row);
    let joined = join_fields_from(&fields, 0);
    assert_eq!(joined, b"a b c d".to_vec());
    let from_two = join_fields_from(&fields, 2);
    assert_eq!(from_two, b"c d".to_vec());
    let from_end = join_fields_from(&fields, 4);
    assert_eq!(from_end, Vec::<u8>::new());
}

#[test]
fn split_lines_basic() {
    let text = b"one\ntwo\nthree".to_vec();
    let lines = split_lines(&text);
    assert_eq!(lines.len(), 3);
    assert_eq!(lines[0], b"one".to_vec());
    assert_eq!(lines[2], b"three".to_vec());
}

#[test]
fn split_lines_trailing_newline_and_empties() {
    let text = b"one\n\ntwo\n".to_vec();
    let lines = split_lines(&text);
    assert_eq!(lines.len(), 3);
    assert_eq!(lines[1], Vec::<u8>::new());
    assert_eq!(split_lines(&Vec::new()).len(), 0);
}

#[test]
fn trim_end_removes_trailing_blanks() {
    assert_eq!(trim_end(&b"abc \t\r\n".to_vec()), b"abc".to_vec());
    assert_eq!(trim_end(&b"abc".to_vec()), b"abc".to_vec());
    assert_eq!(trim_end(&b" \n".to_vec()), Vec::<u8>::new());
    assert_eq!(trim_end(&b" a b".to_vec()), b" a b".to_vec());
}

#[test]
fn byte_helpers() {
    let a = b"hello".to_vec();
    assert!(bytes_eq(&a, &clone_bytes(&a)));
    assert!(!bytes_eq(&a, &b"hellO".to_vec()));
    assert_eq!(bytes_concat(&b"ab".to_vec(), &b"cd".to_vec()), b"abcd".to_vec());
    assert!(bytes_eq_concat(&b"refs/tags/v1".to_vec(), &b"refs/tags/".to_vec(), &b"v1".to_vec()));
    assert!(!bytes_eq_concat(&b"refs/tags/v2".to_vec(), &b"refs/tags/".to_vec(), &b"v1".to_vec()));
}
