//! Reference resolution.
//!
//! The backend's remote listing arrives as text: one row per
//! reference, the object hash first, then the reference name. A
//! requested reference matches a row verbatim, as a tag
//! (`refs/tags/<reference>`), or as a branch (`refs/heads/<reference>`).
//! Among the matches, a verbatim match outranks a tag match, a tag
//! match outranks a branch match, and inside one class the earliest
//! row of the listing wins. Resolution is pure: it touches neither the
//! store nor the filesystem.

use vstd::prelude::*;

use crate::errors::Error;
use crate::text::{
    bytes_eq, bytes_eq_concat, clone_bytes, fields_of, join_fields, join_fields_from, lines_of,
    split_fields, split_lines, trim_end, trimmed_end, views_of,
};

verus! {

/// One row of the remote listing: an object hash and the reference
/// name it stands for.
#[derive(Debug)]
pub struct LsRemoteRow {
    pub hash: Vec<u8>,
    pub name: Vec<u8>,
}

/// The mathematical value of a remote row.
pub ghost struct RemoteRowV {
    pub hash: Seq<u8>,
    pub name: Seq<u8>,
}

impl View for LsRemoteRow {
    type V = RemoteRowV;

    open spec fn view(&self) -> RemoteRowV {
        RemoteRowV { hash: self.hash@, name: self.name@ }
    }
}

/// The views of a sequence of remote rows.
pub open spec fn row_views(rows: Seq<LsRemoteRow>) -> Seq<RemoteRowV> {
    rows.map_values(|r: LsRemoteRow| r@)
}

/// A row parses when it holds at least its hash field.
pub open spec fn remote_row_ok(line: Seq<u8>) -> bool {
    fields_of(line).len() >= 1
}

/// The parsed value of a remote row: the first field is the hash, the
/// rest is the name, rejoined with single spaces.
pub open spec fn spec_remote_row(line: Seq<u8>) -> RemoteRowV {
    RemoteRowV { hash: fields_of(line)[0], name: join_fields(fields_of(line).skip(1)) }
}

/// All rows of a listing parse.
pub open spec fn remote_rows_ok(text: Seq<u8>) -> bool {
    forall|i: int| 0 <= i < lines_of(text).len() ==> remote_row_ok(#[trigger] lines_of(text)[i])
}

/// The parsed rows of a listing, in listing order.
pub open spec fn remote_rows(text: Seq<u8>) -> Seq<RemoteRowV> {
    lines_of(text).map_values(|l: Seq<u8>| spec_remote_row(l))
}

/// The bytes of the tag namespace prefix `refs/tags/`.
pub open spec fn tag_prefix() -> Seq<u8> {
    seq![114u8, 101u8, 102u8, 115u8, 47u8, 116u8, 97u8, 103u8, 115u8, 47u8]
}

/// The bytes of the branch namespace prefix `refs/heads/`.
pub open spec fn head_prefix() -> Seq<u8> {
    seq![114u8, 101u8, 102u8, 115u8, 47u8, 104u8, 101u8, 97u8, 100u8, 115u8, 47u8]
}

pub open spec fn matches_exact(name: Seq<u8>, reference: Seq<u8>) -> bool {
    name == reference
}

pub open spec fn matches_tag(name: Seq<u8>, reference: Seq<u8>) -> bool {
    name == tag_prefix() + reference
}

pub open spec fn matches_head(name: Seq<u8>, reference: Seq<u8>) -> bool {
    name == head_prefix() + reference
}

pub open spec fn matches_any(name: Seq<u8>, reference: Seq<u8>) -> bool {
    matches_exact(name, reference) || matches_tag(name, reference) || matches_head(
        name,
        reference,
    )
}

/// The priority class of a row name for a reference: verbatim matches
/// first, then tags, then branches; everything else is class 3 and
/// never selected.
pub open spec fn class_of(name: Seq<u8>, reference: Seq<u8>) -> int {
    if matches_exact(name, reference) {
        0
    } else if matches_tag(name, reference) {
        1
    } else if matches_head(name, reference) {
        2
    } else {
        3
    }
}

/// The rows of one priority class, in listing order.
pub open spec fn class_rows(rows: Seq<RemoteRowV>, reference: Seq<u8>, c: int) -> Seq<RemoteRowV>
    decreases rows.len(),
{
    if rows.len() == 0 {
        Seq::empty()
    } else {
        class_rows(rows.drop_last(), reference, c) + (if class_of(rows.last().name, reference)
            == c {
            seq![rows.last()]
        } else {
            Seq::empty()
        })
    }
}

/// All matching rows, ordered by priority class and, inside a class,
/// by listing order. The selected row is the first of this sequence.
pub open spec fn selection(rows: Seq<RemoteRowV>, reference: Seq<u8>) -> Seq<RemoteRowV> {
    class_rows(rows, reference, 0) + class_rows(rows, reference, 1) + class_rows(
        rows,
        reference,
        2,
    )
}

/// The hash a listing resolves a reference to, if any row matches.
pub open spec fn resolved_hash(text: Seq<u8>, reference: Seq<u8>) -> Option<Seq<u8>> {
    let sel = selection(remote_rows(trimmed_end(text)), reference);
    if sel.len() > 0 {
        Some(sel[0].hash)
    } else {
        None
    }
}

proof fn lemma_class_rows_empty(rows: Seq<RemoteRowV>, reference: Seq<u8>, c: int)
    requires
        forall|j: int| 0 <= j < rows.len() ==> class_of(#[trigger] rows[j].name, reference) != c,
    ensures
        class_rows(rows, reference, c).len() == 0,
    decreases rows.len(),
{
    if rows.len() > 0 {
        lemma_class_rows_empty(rows.drop_last(), reference, c);
    }
}

proof fn lemma_class_rows_member(rows: Seq<RemoteRowV>, reference: Seq<u8>, c: int, i: int)
    requires
        0 <= i < rows.len(),
        class_of(rows[i].name, reference) == c,
    ensures
        class_rows(rows, reference, c).len() > 0,
    decreases rows.len(),
{
    if i < rows.len() - 1 {
        lemma_class_rows_member(rows.drop_last(), reference, c, i);
    }
}

proof fn lemma_class_rows_first(rows: Seq<RemoteRowV>, reference: Seq<u8>, c: int, i: int)
    requires
        0 <= i < rows.len(),
        class_of(rows[i].name, reference) == c,
        forall|j: int| 0 <= j < i ==> class_of(#[trigger] rows[j].name, reference) != c,
    ensures
        class_rows(rows, reference, c).len() > 0,
        class_rows(rows, reference, c)[0] == rows[i],
    decreases rows.len(),
{
    if i == rows.len() - 1 {
        lemma_class_rows_empty(rows.drop_last(), reference, c);
    } else {
        lemma_class_rows_first(rows.drop_last(), reference, c, i);
    }
}

/// The selection rule is deterministic in the stated sense: when row
/// `i` belongs to class `c`, no earlier row shares that class, and no
/// row at all belongs to a higher-priority class, then row `i` is the
/// selected row. In particular a verbatim match outranks every tag and
/// branch match wherever they stand in the listing.
pub proof fn lemma_selection_first(rows: Seq<RemoteRowV>, reference: Seq<u8>, c: int, i: int)
    requires
        0 <= c <= 2,
        0 <= i < rows.len(),
        class_of(rows[i].name, reference) == c,
        forall|j: int| 0 <= j < i ==> class_of(#[trigger] rows[j].name, reference) != c,
        forall|j: int| 0 <= j < rows.len() ==> class_of(#[trigger] rows[j].name, reference) >= c,
    ensures
        selection(rows, reference).len() > 0,
        selection(rows, reference)[0] == rows[i],
{
    lemma_class_rows_first(rows, reference, c, i);
    if c >= 1 {
        assert(forall|j: int|
            0 <= j < rows.len() ==> class_of(#[trigger] rows[j].name, reference) != 0);
        lemma_class_rows_empty(rows, reference, 0);
    }
    if c >= 2 {
        assert(forall|j: int|
            0 <= j < rows.len() ==> class_of(#[trigger] rows[j].name, reference) != 1);
        lemma_class_rows_empty(rows, reference, 1);
    }
}

/// Resolution fails exactly when no row matches the reference in any
/// of the three forms.
pub proof fn lemma_selection_empty_iff(rows: Seq<RemoteRowV>, reference: Seq<u8>)
    ensures
        selection(rows, reference).len() == 0 <==> forall|j: int|
            0 <= j < rows.len() ==> !matches_any(#[trigger] rows[j].name, reference),
{
    if forall|j: int| 0 <= j < rows.len() ==> !matches_any(#[trigger] rows[j].name, reference) {
        assert(forall|j: int|
            0 <= j < rows.len() ==> class_of(#[trigger] rows[j].name, reference) != 0);
        assert(forall|j: int|
            0 <= j < rows.len() ==> class_of(#[trigger] rows[j].name, reference) != 1);
        assert(forall|j: int|
            0 <= j < rows.len() ==> class_of(#[trigger] rows[j].name, reference) != 2);
        lemma_class_rows_empty(rows, reference, 0);
        lemma_class_rows_empty(rows, reference, 1);
        lemma_class_rows_empty(rows, reference, 2);
    } else {
        let j = choose|j: int| 0 <= j < rows.len() && matches_any(rows[j].name, reference);
        let c = class_of(rows[j].name, reference);
        assert(0 <= c <= 2);
        lemma_class_rows_member(rows, reference, c, j);
    }
}

/// A verbatim match wins the resolution: when row `i` is the first row
/// whose name equals the reference itself, the resolved hash is row
/// `i`'s — whatever tag or branch rows stand anywhere in the listing.
pub proof fn lemma_resolve_prefers_exact(text: Seq<u8>, reference: Seq<u8>, i: int)
    requires
        0 <= i < remote_rows(trimmed_end(text)).len(),
        remote_rows(trimmed_end(text))[i].name == reference,
        forall|j: int|
            0 <= j < i ==> (#[trigger] remote_rows(trimmed_end(text))[j]).name != reference,
    ensures
        resolved_hash(text, reference) == Some(remote_rows(trimmed_end(text))[i].hash),
{
    let rows = remote_rows(trimmed_end(text));
    assert(forall|j: int|
        0 <= j < i ==> class_of(#[trigger] rows[j].name, reference) != 0);
    lemma_selection_first(rows, reference, 0, i);
}

/// A listing where no row matches the reference in any form resolves
/// to nothing.
pub proof fn lemma_resolve_no_match(text: Seq<u8>, reference: Seq<u8>)
    requires
        forall|j: int|
            0 <= j < remote_rows(trimmed_end(text)).len() ==> !matches_any(
                (#[trigger] remote_rows(trimmed_end(text))[j]).name,
                reference,
            ),
    ensures
        resolved_hash(text, reference) is None,
{
    lemma_selection_empty_iff(remote_rows(trimmed_end(text)), reference);
}

/// The bytes of `refs/tags/`.
pub fn tag_prefix_bytes() -> (r: Vec<u8>)
    ensures
        r@ == tag_prefix(),
{
    let mut r: Vec<u8> = Vec::new();
    r.push(114);
    r.push(101);
    r.push(102);
    r.push(115);
    r.push(47);
    r.push(116);
    r.push(97);
    r.push(103);
    r.push(115);
    r.push(47);
    proof {
        assert(r@ =~= tag_prefix());
    }
    r
}

/// The bytes of `refs/heads/`.
pub fn head_prefix_bytes() -> (r: Vec<u8>)
    ensures
        r@ == head_prefix(),
{
    let mut r: Vec<u8> = Vec::new();
    r.push(114);
    r.push(101);
    r.push(102);
    r.push(115);
    r.push(47);
    r.push(104);
    r.push(101);
    r.push(97);
    r.push(100);
    r.push(115);
    r.push(47);
    proof {
        assert(r@ =~= head_prefix());
    }
    r
}

impl LsRemoteRow {
    /// A copy of the row.
    pub fn duplicate(&self) -> (r: LsRemoteRow)
        ensures
            r@ == self@,
    {
        LsRemoteRow { hash: clone_bytes(&self.hash), name: clone_bytes(&self.name) }
    }

    /// Parse one listing row: the first field is the hash, the rest of
    /// the row — rejoined with single spaces — is the reference name.
    pub fn parse(line: &Vec<u8>) -> (r: Result<LsRemoteRow, Error>)
        ensures
            match r {
                Ok(row) => remote_row_ok(line@) && row@ == spec_remote_row(line@),
                Err(e) => !remote_row_ok(line@) && e == Error::MalformedRemoteRowError,
            },
    {
        let mut fields = split_fields(line);
        if fields.len() == 0 {
            return Err(Error::MalformedRemoteRowError);
        }
        let name = join_fields_from(&fields, 1);
        let ghost all_fields = fields@;
        let hash = fields.remove(0);
        proof {
            assert(hash@ == views_of(all_fields)[0]);
        }
        Ok(LsRemoteRow { hash, name })
    }
}

/// The remote listing, reduced to the rows that match a reference and
/// reordered so that the highest-priority match stands first.
#[derive(Debug)]
pub struct LsRemote {
    pub rows: Vec<LsRemoteRow>,
}

impl LsRemote {
    /// Parse a raw remote listing and keep the rows matching
    /// `reference`, ordered by priority class, then listing order.
    pub fn parse(text: &Vec<u8>, reference: &Vec<u8>) -> (r: Result<LsRemote, Error>)
        ensures
            match r {
                Ok(lr) => remote_rows_ok(trimmed_end(text@)) && row_views(lr.rows@) == selection(
                    remote_rows(trimmed_end(text@)),
                    reference@,
                ),
                Err(e) => !remote_rows_ok(trimmed_end(text@)) && e
                    == Error::MalformedRemoteRowError,
            },
    {
        let trimmed = trim_end(text);
        let lines = split_lines(&trimmed);
        let ghost t = trimmed_end(text@);
        let mut parsed: Vec<LsRemoteRow> = Vec::new();
        let mut li: usize = 0;
        proof {
            assert(row_views(parsed@) =~= remote_rows(t).take(0));
        }
        while li < lines.len()
            invariant
                li <= lines.len(),
                t == trimmed_end(text@),
                views_of(lines@) == lines_of(t),
                row_views(parsed@) == remote_rows(t).take(li as int),
                forall|j: int| 0 <= j < li ==> remote_row_ok(#[trigger] lines_of(t)[j]),
            decreases lines.len() - li,
        {
            let row = match LsRemoteRow::parse(&lines[li]) {
                Ok(row) => row,
                Err(e) => {
                    proof {
                        assert(views_of(lines@)[li as int] == lines@[li as int]@);
                        assert(lines_of(t).len() == views_of(lines@).len());
                        assert(!remote_row_ok(lines_of(t)[li as int]));
                    }
                    return Err(e);
                },
            };
            let ghost pre = parsed@;
            parsed.push(row);
            li = li + 1;
            proof {
                assert(lines@[li - 1]@ == lines_of(t)[li - 1]);
                assert(row@ == remote_rows(t)[li - 1]);
                assert(row_views(parsed@) =~= row_views(pre).push(row@));
                assert(row_views(pre).push(row@) =~= remote_rows(t).take(li as int));
            }
        }
        proof {
            assert(remote_rows(t).take(lines@.len() as int) =~= remote_rows(t));
        }
        let tagp = tag_prefix_bytes();
        let headp = head_prefix_bytes();
        let ghost all = row_views(parsed@);
        let mut exact: Vec<LsRemoteRow> = Vec::new();
        let mut tags: Vec<LsRemoteRow> = Vec::new();
        let mut heads: Vec<LsRemoteRow> = Vec::new();
        let mut k: usize = 0;
        proof {
            assert(row_views(exact@) =~= class_rows(all.take(0), reference@, 0));
            assert(row_views(tags@) =~= class_rows(all.take(0), reference@, 1));
            assert(row_views(heads@) =~= class_rows(all.take(0), reference@, 2));
        }
        while k < parsed.len()
            invariant
                k <= parsed.len(),
                all == row_views(parsed@),
                tagp@ == tag_prefix(),
                headp@ == head_prefix(),
                row_views(exact@) == class_rows(all.take(k as int), reference@, 0),
                row_views(tags@) == class_rows(all.take(k as int), reference@, 1),
                row_views(heads@) == class_rows(all.take(k as int), reference@, 2),
            decreases parsed.len() - k,
        {
            let row = parsed[k].duplicate();
            proof {
                assert(row_views(parsed@)[k as int] == parsed@[k as int]@);
                assert(row@ == all[k as int]);
            }
            let is_exact = bytes_eq(&row.name, reference);
            let is_tag = bytes_eq_concat(&row.name, &tagp, reference);
            let is_head = bytes_eq_concat(&row.name, &headp, reference);
            proof {
                assert(all.take(k + 1).drop_last() =~= all.take(k as int));
                assert(all.take(k + 1).last() == all[k as int]);
            }
            if is_exact {
                let ghost pre = exact@;
                exact.push(row);
                proof {
                    assert(row_views(exact@) =~= row_views(pre).push(all[k as int]));
                    assert(class_rows(all.take(k + 1), reference@, 0) =~= row_views(exact@));
                    assert(class_rows(all.take(k + 1), reference@, 1) =~= row_views(tags@));
                    assert(class_rows(all.take(k + 1), reference@, 2) =~= row_views(heads@));
                }
            } else if is_tag {
                let ghost pre = tags@;
                tags.push(row);
                proof {
                    assert(row_views(tags@) =~= row_views(pre).push(all[k as int]));
                    assert(class_rows(all.take(k + 1), reference@, 0) =~= row_views(exact@));
                    assert(class_rows(all.take(k + 1), reference@, 1) =~= row_views(tags@));
                    assert(class_rows(all.take(k + 1), reference@, 2) =~= row_views(heads@));
                }
            } else if is_head {
                let ghost pre = heads@;
                heads.push(row);
                proof {
                    assert(row_views(heads@) =~= row_views(pre).push(all[k as int]));
                    assert(class_rows(all.take(k + 1), reference@, 0) =~= row_views(exact@));
                    assert(class_rows(all.take(k + 1), reference@, 1) =~= row_views(tags@));
                    assert(class_rows(all.take(k + 1), reference@, 2) =~= row_views(heads@));
                }
            } else {
                proof {
                    assert(class_rows(all.take(k + 1), reference@, 0) =~= row_views(exact@));
                    assert(class_rows(all.take(k + 1), reference@, 1) =~= row_views(tags@));
                    assert(class_rows(all.take(k + 1), reference@, 2) =~= row_views(heads@));
                }
            }
            k = k + 1;
        }
        proof {
            assert(all.take(parsed@.len() as int) =~= all);
        }
        let mut rows = exact;
        let ghost exact_v = row_views(rows@);
        rows.append(&mut tags);
        proof {
            assert(row_views(rows@) =~= exact_v + class_rows(all, reference@, 1));
        }
        let ghost two_v = row_views(rows@);
        rows.append(&mut heads);
        proof {
            assert(row_views(rows@) =~= two_v + class_rows(all, reference@, 2));
        }
        Ok(LsRemote { rows })
    }

    /// The selected hash: the first row after priority ordering. Fails
    /// exactly when nothing matched.
    pub fn get_hash(&self) -> (r: Result<Vec<u8>, Error>)
        ensures
            match r {
                Ok(h) => self.rows@.len() > 0 && h@ == self.rows@[0].hash@,
                Err(e) => self.rows@.len() == 0 && e == Error::NoMatchingReferenceError,
            },
    {
        if self.rows.len() == 0 {
            return Err(Error::NoMatchingReferenceError);
        }
        Ok(clone_bytes(&self.rows[0].hash))
    }
}

/// Resolve a reference against a raw remote listing: parse the rows,
/// apply the priority rule, and hand back the selected hash. Pure —
/// no store lookup and no filesystem effect happens here.
pub fn resolve_reference(text: &Vec<u8>, reference: &Vec<u8>) -> (r: Result<Vec<u8>, Error>)
    ensures
        match r {
            Ok(h) => remote_rows_ok(trimmed_end(text@)) && resolved_hash(text@, reference@)
                == Some(h@),
            Err(e) => (e == Error::MalformedRemoteRowError && !remote_rows_ok(trimmed_end(text@)))
                || (e == Error::NoMatchingReferenceError && remote_rows_ok(trimmed_end(text@))
                && resolved_hash(text@, reference@) is None),
        },
{
    let remote = match LsRemote::parse(text, reference) {
        Ok(remote) => remote,
        Err(e) => {
            return Err(e);
        },
    };
    let r = remote.get_hash();
    proof {
        let sel = selection(remote_rows(trimmed_end(text@)), reference@);
        if remote.rows@.len() > 0 {
            assert(row_views(remote.rows@)[0] == sel[0]);
        }
    }
    r
}

} // verus!
