//! Byte-level text utilities.
//!
//! Backend output reaches the library as raw bytes. This module gives
//! the splitting rules their mathematical definitions — fields of a
//! row, lines of an output, trimmed trailing blanks — and executable
//! functions proved against them.

use vstd::prelude::*;

verus! {

/// A byte that separates fields inside one row: space, tab, or
/// carriage return.
pub open spec fn is_blank(b: u8) -> bool {
    b == 32 || b == 9 || b == 13
}

/// A byte trimmed from the end of whole backend output: a blank or a
/// newline.
pub open spec fn is_trailing_blank(b: u8) -> bool {
    is_blank(b) || b == 10
}

/// The views of a sequence of byte vectors.
pub open spec fn views_of(vs: Seq<Vec<u8>>) -> Seq<Seq<u8>> {
    vs.map_values(|v: Vec<u8>| v@)
}

/// Length of the field at the head of `s`: the longest prefix free of
/// blank bytes.
pub open spec fn field_len(s: Seq<u8>) -> nat
    decreases s.len(),
{
    if s.len() == 0 || is_blank(s[0]) {
        0
    } else {
        1 + field_len(s.skip(1))
    }
}

/// The blank-separated fields of one row, in order.
pub open spec fn fields_of(s: Seq<u8>) -> Seq<Seq<u8>>
    decreases s.len(),
    via fields_of_decreases
{
    if s.len() == 0 {
        Seq::empty()
    } else if is_blank(s[0]) {
        fields_of(s.skip(1))
    } else {
        seq![s.take(field_len(s) as int)] + fields_of(s.skip(field_len(s) as int))
    }
}

#[via_fn]
proof fn fields_of_decreases(s: Seq<u8>) {
    lemma_field_len_le(s);
    if s.len() != 0 && !is_blank(s[0]) {
        assert(field_len(s) >= 1);
    }
}

/// Fields joined back together with single spaces between them.
pub open spec fn join_fields(fs: Seq<Seq<u8>>) -> Seq<u8>
    decreases fs.len(),
{
    if fs.len() == 0 {
        Seq::empty()
    } else if fs.len() == 1 {
        fs[0]
    } else {
        fs[0] + seq![32u8] + join_fields(fs.skip(1))
    }
}

/// Index of the first newline in `s`, or `s.len()` if there is none.
pub open spec fn line_break(s: Seq<u8>) -> nat
    decreases s.len(),
{
    if s.len() == 0 || s[0] == 10 {
        0
    } else {
        1 + line_break(s.skip(1))
    }
}

/// The newline-separated lines of `s`. A trailing newline does not
/// open an extra empty line; empty input has no lines.
pub open spec fn lines_of(s: Seq<u8>) -> Seq<Seq<u8>>
    decreases s.len(),
    via lines_of_decreases
{
    if s.len() == 0 {
        Seq::empty()
    } else {
        let k = line_break(s) as int;
        seq![s.take(k)] + (if k < s.len() {
            lines_of(s.skip(k + 1))
        } else {
            Seq::empty()
        })
    }
}

#[via_fn]
proof fn lines_of_decreases(s: Seq<u8>) {
    lemma_line_break_le(s);
}

/// `s` with every trailing blank and newline removed.
pub open spec fn trimmed_end(s: Seq<u8>) -> Seq<u8>
    decreases s.len(),
{
    if s.len() == 0 || !is_trailing_blank(s[s.len() - 1]) {
        s
    } else {
        trimmed_end(s.drop_last())
    }
}

pub proof fn lemma_field_len_le(s: Seq<u8>)
    ensures
        field_len(s) <= s.len(),
    decreases s.len(),
{
    if s.len() != 0 && !is_blank(s[0]) {
        lemma_field_len_le(s.skip(1));
    }
}

pub proof fn lemma_line_break_le(s: Seq<u8>)
    ensures
        line_break(s) <= s.len(),
    decreases s.len(),
{
    if s.len() != 0 && s[0] != 10 {
        lemma_line_break_le(s.skip(1));
    }
}

/// A scan that stopped at index `l` — nothing blank before it, a blank
/// or the end at it — found exactly the head field.
proof fn lemma_field_len_at(t: Seq<u8>, l: int)
    requires
        0 <= l <= t.len(),
        forall|k: int| 0 <= k < l ==> !is_blank(t[k]),
        l == t.len() || is_blank(t[l]),
    ensures
        field_len(t) == l,
    decreases l,
{
    if l == 0 {
    } else {
        lemma_field_len_at(t.skip(1), l - 1);
    }
}

/// The same scan property for lines.
proof fn lemma_line_break_at(t: Seq<u8>, l: int)
    requires
        0 <= l <= t.len(),
        forall|k: int| 0 <= k < l ==> t[k] != 10,
        l == t.len() || t[l] == 10,
    ensures
        line_break(t) == l,
    decreases l,
{
    if l == 0 {
    } else {
        lemma_line_break_at(t.skip(1), l - 1);
    }
}

/// Appending one more field joins it behind a single space.
pub proof fn lemma_join_fields_push(fs: Seq<Seq<u8>>, x: Seq<u8>)
    ensures
        join_fields(fs.push(x)) == if fs.len() == 0 {
            x
        } else {
            join_fields(fs) + seq![32u8] + x
        },
    decreases fs.len(),
{
    if fs.len() == 0 {
        assert(fs.push(x)[0] == x);
    } else {
        lemma_join_fields_push(fs.skip(1), x);
        assert(fs.push(x).skip(1) =~= fs.skip(1).push(x));
        if fs.len() == 1 {
        } else {
            assert(fs[0] + seq![32u8] + (join_fields(fs.skip(1)) + seq![32u8] + x) =~= (fs[0]
                + seq![32u8] + join_fields(fs.skip(1))) + seq![32u8] + x);
        }
    }
}

/// True iff `b` is a field separator.
pub fn blank_byte(b: u8) -> (r: bool)
    ensures
        r == is_blank(b),
{
    b == 32 || b == 9 || b == 13
}

/// True iff `b` is trimmed from the end of backend output.
pub fn trailing_blank_byte(b: u8) -> (r: bool)
    ensures
        r == is_trailing_blank(b),
{
    b == 32 || b == 9 || b == 13 || b == 10
}

/// True iff the two byte strings hold the same bytes.
pub fn bytes_eq(a: &Vec<u8>, b: &Vec<u8>) -> (r: bool)
    ensures
        r <==> a@ == b@,
{
    if a.len() != b.len() {
        return false;
    }
    let mut i: usize = 0;
    while i < a.len()
        invariant
            i <= a.len(),
            a.len() == b.len(),
            forall|j: int| 0 <= j < i ==> a@[j] == b@[j],
        decreases a.len() - i,
    {
        if a[i] != b[i] {
            return false;
        }
        i = i + 1;
    }
    proof {
        assert(a@ =~= b@);
    }
    true
}

/// A copy of the bytes of `s` from `start` up to `end`.
pub fn bytes_range(s: &Vec<u8>, start: usize, end: usize) -> (r: Vec<u8>)
    requires
        start <= end <= s.len(),
    ensures
        r@ == s@.subrange(start as int, end as int),
{
    let mut r: Vec<u8> = Vec::new();
    let mut i: usize = start;
    proof {
        assert(r@ =~= s@.subrange(start as int, start as int));
    }
    while i < end
        invariant
            start <= i <= end <= s.len(),
            r@ == s@.subrange(start as int, i as int),
        decreases end - i,
    {
        r.push(s[i]);
        i = i + 1;
        proof {
            assert(r@ =~= s@.subrange(start as int, i as int));
        }
    }
    r
}

/// A copy of the whole byte string.
pub fn clone_bytes(s: &Vec<u8>) -> (r: Vec<u8>)
    ensures
        r@ == s@,
{
    let r = bytes_range(s, 0, s.len());
    proof {
        assert(s@.subrange(0, s.len() as int) =~= s@);
    }
    r
}

/// `a` followed by `b`.
pub fn bytes_concat(a: &Vec<u8>, b: &Vec<u8>) -> (r: Vec<u8>)
    ensures
        r@ == a@ + b@,
{
    let mut r = clone_bytes(a);
    let mut i: usize = 0;
    proof {
        assert(r@ =~= a@ + b@.subrange(0, 0));
    }
    while i < b.len()
        invariant
            i <= b.len(),
            r@ == a@ + b@.subrange(0, i as int),
        decreases b.len() - i,
    {
        r.push(b[i]);
        i = i + 1;
        proof {
            assert(r@ =~= a@ + b@.subrange(0, i as int));
        }
    }
    proof {
        assert(a@ + b@.subrange(0, b@.len() as int) =~= a@ + b@);
    }
    r
}

/// True iff `s` is exactly `p` followed by `q`.
pub fn bytes_eq_concat(s: &Vec<u8>, p: &Vec<u8>, q: &Vec<u8>) -> (r: bool)
    ensures
        r <==> s@ == p@ + q@,
{
    if s.len() < p.len() || s.len() - p.len() != q.len() {
        proof {
            assert(s@ == p@ + q@ ==> s@.len() == p@.len() + q@.len());
        }
        return false;
    }
    let head = bytes_range(s, 0, p.len());
    let tail = bytes_range(s, p.len(), s.len());
    let r = bytes_eq(&head, p) && bytes_eq(&tail, q);
    proof {
        if r {
            assert(s@ =~= p@ + q@);
        }
        if s@ == p@ + q@ {
            assert(head@ =~= p@);
            assert(tail@ =~= q@);
        }
    }
    r
}

/// The blank-separated fields of one row.
pub fn split_fields(s: &Vec<u8>) -> (fields: Vec<Vec<u8>>)
    ensures
        views_of(fields@) == fields_of(s@),
{
    let mut fields: Vec<Vec<u8>> = Vec::new();
    let mut i: usize = 0;
    proof {
        assert(s@.skip(0) =~= s@);
        assert(views_of(fields@) =~= Seq::<Seq<u8>>::empty());
        assert(views_of(fields@) + fields_of(s@) =~= fields_of(s@));
    }
    while i < s.len()
        invariant
            i <= s.len(),
            views_of(fields@) + fields_of(s@.skip(i as int)) == fields_of(s@),
        decreases s.len() - i,
    {
        if blank_byte(s[i]) {
            proof {
                assert(s@.skip(i as int)[0] == s@[i as int]);
                assert(s@.skip(i as int).skip(1) =~= s@.skip(i as int + 1));
            }
            i = i + 1;
        } else {
            let start = i;
            let mut j = i;
            while j < s.len() && !blank_byte(s[j])
                invariant
                    start <= j <= s.len(),
                    forall|k: int| start <= k < j ==> !is_blank(s@[k]),
                decreases s.len() - j,
            {
                j = j + 1;
            }
            let f = bytes_range(s, start, j);
            let ghost pre = fields@;
            fields.push(f);
            proof {
                let t = s@.skip(start as int);
                assert(forall|k: int|
                    0 <= k < j - start ==> t[k] == s@[start + k] && !is_blank(t[k]));
                if j < s.len() {
                    assert(t[j - start] == s@[j as int]);
                }
                lemma_field_len_at(t, j - start);
                assert(t.take(j - start) =~= s@.subrange(start as int, j as int));
                assert(t.skip(j - start) =~= s@.skip(j as int));
                assert(fields_of(t) == seq![f@] + fields_of(s@.skip(j as int)));
                assert(views_of(fields@) =~= views_of(pre).push(f@));
                assert(views_of(pre).push(f@) + fields_of(s@.skip(j as int)) =~= views_of(pre) + (
                seq![f@] + fields_of(s@.skip(j as int))));
            }
            i = j;
        }
    }
    proof {
        assert(s@.skip(s@.len() as int) =~= Seq::<u8>::empty());
        assert(views_of(fields@) + fields_of(Seq::<u8>::empty()) =~= views_of(fields@));
    }
    fields
}

/// The fields from `start` on, joined with single spaces.
pub fn join_fields_from(fields: &Vec<Vec<u8>>, start: usize) -> (r: Vec<u8>)
    requires
        start <= fields.len(),
    ensures
        r@ == join_fields(views_of(fields@).skip(start as int)),
{
    let mut r: Vec<u8> = Vec::new();
    let mut k = start;
    proof {
        assert(r@ =~= join_fields(views_of(fields@).subrange(start as int, start as int)));
    }
    while k < fields.len()
        invariant
            start <= k <= fields.len(),
            r@ == join_fields(views_of(fields@).subrange(start as int, k as int)),
        decreases fields.len() - k,
    {
        let sep = if k > start {
            let mut with_sep = r;
            with_sep.push(32);
            with_sep
        } else {
            r
        };
        r = bytes_concat(&sep, &fields[k]);
        k = k + 1;
        proof {
            let dv = views_of(fields@);
            let prev = dv.subrange(start as int, k - 1);
            lemma_join_fields_push(prev, dv[k - 1]);
            assert(prev.push(dv[k - 1]) =~= dv.subrange(start as int, k as int));
            assert(dv[k - 1] == fields@[k - 1]@);
            if k - 1 > start {
                assert(join_fields(prev) + seq![32u8] + fields@[k - 1]@ =~= (join_fields(prev).push(
                    32u8)) + fields@[k - 1]@);
            }
        }
    }
    proof {
        let dv = views_of(fields@);
        assert(dv.subrange(start as int, dv.len() as int) =~= dv.skip(start as int));
    }
    r
}

/// The newline-separated lines of `s`.
pub fn split_lines(s: &Vec<u8>) -> (lines: Vec<Vec<u8>>)
    ensures
        views_of(lines@) == lines_of(s@),
{
    let mut lines: Vec<Vec<u8>> = Vec::new();
    let mut i: usize = 0;
    proof {
        assert(s@.skip(0) =~= s@);
        assert(views_of(lines@) =~= Seq::<Seq<u8>>::empty());
        assert(views_of(lines@) + lines_of(s@) =~= lines_of(s@));
    }
    while i < s.len()
        invariant
            i <= s.len(),
            views_of(lines@) + lines_of(s@.skip(i as int)) == lines_of(s@),
        decreases s.len() - i,
    {
        let start = i;
        let mut j = i;
        while j < s.len() && s[j] != 10
            invariant
                start <= j <= s.len(),
                forall|k: int| start <= k < j ==> s@[k] != 10,
            decreases s.len() - j,
        {
            j = j + 1;
        }
        let line = bytes_range(s, start, j);
        let ghost pre = lines@;
        lines.push(line);
        proof {
            let t = s@.skip(start as int);
            assert(forall|k: int| 0 <= k < j - start ==> t[k] == s@[start + k] && t[k] != 10);
            if j < s.len() {
                assert(t[j - start] == s@[j as int]);
            }
            lemma_line_break_at(t, j - start);
            assert(t.take(j - start) =~= s@.subrange(start as int, j as int));
            assert(views_of(lines@) =~= views_of(pre).push(line@));
        }
        if j < s.len() {
            proof {
                let t = s@.skip(start as int);
                assert(t.skip(j - start + 1) =~= s@.skip(j as int + 1));
                assert(lines_of(t) == seq![line@] + lines_of(s@.skip(j as int + 1)));
                assert(views_of(pre).push(line@) + lines_of(s@.skip(j as int + 1)) =~= views_of(pre)
                    + (seq![line@] + lines_of(s@.skip(j as int + 1))));
            }
            i = j + 1;
        } else {
            proof {
                let t = s@.skip(start as int);
                assert(lines_of(t) == seq![t.take(j - start)] + Seq::<Seq<u8>>::empty());
                assert(s@.skip(j as int) =~= Seq::<u8>::empty());
                assert(lines_of(s@.skip(j as int)) == Seq::<Seq<u8>>::empty());
                assert(views_of(pre).push(line@) + Seq::<Seq<u8>>::empty() =~= views_of(pre) + (
                seq![line@] + Seq::<Seq<u8>>::empty()));
            }
            i = j;
        }
    }
    proof {
        assert(s@.skip(s@.len() as int) =~= Seq::<u8>::empty());
        assert(views_of(lines@) + lines_of(Seq::<u8>::empty()) =~= views_of(lines@));
    }
    lines
}

/// `s` with trailing blanks and newlines removed.
pub fn trim_end(s: &Vec<u8>) -> (r: Vec<u8>)
    ensures
        r@ == trimmed_end(s@),
{
    let mut end = s.len();
    proof {
        assert(s@.take(s@.len() as int) =~= s@);
    }
    while end > 0 && trailing_blank_byte(s[end - 1])
        invariant
            end <= s.len(),
            trimmed_end(s@) == trimmed_end(s@.take(end as int)),
        decreases end,
    {
        proof {
            assert(s@.take(end as int).drop_last() =~= s@.take(end - 1));
        }
        end = end - 1;
    }
    let r = bytes_range(s, 0, end);
    proof {
        let t = s@.take(end as int);
        assert(t.len() == 0 || !is_trailing_blank(t[t.len() - 1]));
        assert(r@ =~= t);
    }
    r
}

} // verus!
