//! Tree listings.
//!
//! A tree listing is the backend's description of one directory level:
//! one row per entry, holding the permission mode, the entry kind
//! (`blob` for a file, `tree` for a subdirectory, other kinds are
//! ignored), the child object hash, and the entry's path. The path is
//! the remainder of the row, rejoined with single spaces, so names
//! containing spaces survive the round trip. A listing also carries
//! the base path, relative to the checkout root, where its entries
//! belong.

use vstd::prelude::*;

use crate::errors::Error;
use crate::text::{
    bytes_eq, fields_of, join_fields, join_fields_from, lines_of, split_fields, split_lines,
    views_of,
};

verus! {

/// One row of a tree listing.
#[derive(Debug)]
pub struct TreeRow {
    pub mode: Vec<u8>,
    pub otype: Vec<u8>,
    pub name: Vec<u8>,
    pub path: Vec<u8>,
}

/// The mathematical value of a tree row.
pub ghost struct TreeRowV {
    pub mode: Seq<u8>,
    pub otype: Seq<u8>,
    pub name: Seq<u8>,
    pub path: Seq<u8>,
}

impl View for TreeRow {
    type V = TreeRowV;

    open spec fn view(&self) -> TreeRowV {
        TreeRowV { mode: self.mode@, otype: self.otype@, name: self.name@, path: self.path@ }
    }
}

/// The views of a sequence of tree rows.
pub open spec fn tree_row_views(rows: Seq<TreeRow>) -> Seq<TreeRowV> {
    rows.map_values(|r: TreeRow| r@)
}

/// A row parses when it holds at least its mode, kind and hash fields.
pub open spec fn tree_row_ok(line: Seq<u8>) -> bool {
    fields_of(line).len() >= 3
}

/// The parsed value of a tree row: mode, kind and hash are the first
/// three fields; the path is the rest, rejoined with single spaces.
pub open spec fn spec_tree_row(line: Seq<u8>) -> TreeRowV {
    TreeRowV {
        mode: fields_of(line)[0],
        otype: fields_of(line)[1],
        name: fields_of(line)[2],
        path: join_fields(fields_of(line).skip(3)),
    }
}

/// All rows of a listing parse.
pub open spec fn tree_rows_ok(text: Seq<u8>) -> bool {
    forall|i: int| 0 <= i < lines_of(text).len() ==> tree_row_ok(#[trigger] lines_of(text)[i])
}

/// The parsed rows of a listing, in listing order.
pub open spec fn tree_rows(text: Seq<u8>) -> Seq<TreeRowV> {
    lines_of(text).map_values(|l: Seq<u8>| spec_tree_row(l))
}

/// The bytes of the file kind `blob`.
pub open spec fn blob_kind() -> Seq<u8> {
    seq![98u8, 108u8, 111u8, 98u8]
}

/// The bytes of the subdirectory kind `tree`.
pub open spec fn tree_kind() -> Seq<u8> {
    seq![116u8, 114u8, 101u8, 101u8]
}

/// The bytes of `blob`.
pub fn blob_kind_bytes() -> (r: Vec<u8>)
    ensures
        r@ == blob_kind(),
{
    let mut r: Vec<u8> = Vec::new();
    r.push(98);
    r.push(108);
    r.push(111);
    r.push(98);
    proof {
        assert(r@ =~= blob_kind());
    }
    r
}

/// The bytes of `tree`.
pub fn tree_kind_bytes() -> (r: Vec<u8>)
    ensures
        r@ == tree_kind(),
{
    let mut r: Vec<u8> = Vec::new();
    r.push(116);
    r.push(114);
    r.push(101);
    r.push(101);
    proof {
        assert(r@ =~= tree_kind());
    }
    r
}

impl TreeRow {
    /// True iff the row describes a file.
    pub fn is_blob(&self) -> (r: bool)
        ensures
            r <==> self.otype@ == blob_kind(),
    {
        let b = blob_kind_bytes();
        bytes_eq(&self.otype, &b)
    }

    /// True iff the row describes a subdirectory.
    pub fn is_tree(&self) -> (r: bool)
        ensures
            r <==> self.otype@ == tree_kind(),
    {
        let t = tree_kind_bytes();
        bytes_eq(&self.otype, &t)
    }

    /// Parse one listing row into its four fields.
    pub fn parse(line: &Vec<u8>) -> (r: Result<TreeRow, Error>)
        ensures
            match r {
                Ok(row) => tree_row_ok(line@) && row@ == spec_tree_row(line@),
                Err(e) => !tree_row_ok(line@) && e == Error::MalformedTreeRowError,
            },
    {
        let mut fields = split_fields(line);
        if fields.len() < 3 {
            return Err(Error::MalformedTreeRowError);
        }
        let path = join_fields_from(&fields, 3);
        let mode = fields.remove(0);
        let otype = fields.remove(0);
        let name = fields.remove(0);
        proof {
            let fs = fields_of(line@);
            assert(mode@ == fs[0]);
            assert(otype@ == fs[1]);
            assert(name@ == fs[2]);
        }
        Ok(TreeRow { mode, otype, name, path })
    }
}

/// One parsed directory level: its rows and the base path, relative to
/// the checkout root, where the entries belong. The base path `.`
/// denotes the root itself.
#[derive(Debug)]
pub struct Tree {
    pub rows: Vec<TreeRow>,
    pub path: Vec<u8>,
}

impl Tree {
    /// Parse a whole listing. The text is expected as persisted in the
    /// store: already trimmed of trailing blanks.
    pub fn parse(text: &Vec<u8>, path: Vec<u8>) -> (r: Result<Tree, Error>)
        ensures
            match r {
                Ok(t) => tree_rows_ok(text@) && tree_row_views(t.rows@) == tree_rows(text@)
                    && t.path@ == path@,
                Err(e) => !tree_rows_ok(text@) && e == Error::MalformedTreeRowError,
            },
    {
        let lines = split_lines(text);
        let mut rows: Vec<TreeRow> = Vec::new();
        let mut li: usize = 0;
        proof {
            assert(tree_row_views(rows@) =~= tree_rows(text@).take(0));
        }
        while li < lines.len()
            invariant
                li <= lines.len(),
                views_of(lines@) == lines_of(text@),
                tree_row_views(rows@) == tree_rows(text@).take(li as int),
                forall|j: int| 0 <= j < li ==> tree_row_ok(#[trigger] lines_of(text@)[j]),
            decreases lines.len() - li,
        {
            let row = match TreeRow::parse(&lines[li]) {
                Ok(row) => row,
                Err(e) => {
                    proof {
                        assert(views_of(lines@)[li as int] == lines@[li as int]@);
                        assert(lines_of(text@).len() == views_of(lines@).len());
                        assert(!tree_row_ok(lines_of(text@)[li as int]));
                    }
                    return Err(e);
                },
            };
            let ghost pre = rows@;
            rows.push(row);
            li = li + 1;
            proof {
                assert(lines@[li - 1]@ == lines_of(text@)[li - 1]);
                assert(row@ == tree_rows(text@)[li - 1]);
                assert(tree_row_views(rows@) =~= tree_row_views(pre).push(row@));
                assert(tree_row_views(pre).push(row@) =~= tree_rows(text@).take(li as int));
            }
        }
        proof {
            assert(tree_rows(text@).take(lines@.len() as int) =~= tree_rows(text@));
        }
        Ok(Tree { rows, path })
    }
}

} // verus!
