//! Line by line differences between two texts.
//!
//! The edit script is found greedily: where two lines differ, the next nine
//! lines of the new text, then of the old text, are searched for the line
//! that is waited for.

use crate::bytes::{bytes_eq, decimal, push_decimal};
use crate::text::{
    join_lines, join_texts, lemma_lines_utf8, lines_of, lines_view, split_text, text_bytes,
    text_from_bytes, texts_view,
};
use vstd::prelude::*;
use vstd::string::*;
use vstd::utf8::*;

verus! {

/// Represents a single edit operation in a diff
#[derive(Debug, Clone, PartialEq)]
pub enum Edit {
    /// Keep a line (common to both)
    Keep(String),
    /// Delete a line (only in old)
    Delete(String),
    /// Insert a line (only in new)
    Insert(String),
}

/// What an `Edit` stands for.
pub enum EditView {
    Keep(Seq<u8>),
    Delete(Seq<u8>),
    Insert(Seq<u8>),
}

impl View for Edit {
    type V = EditView;

    open spec fn view(&self) -> EditView {
        match self {
            Edit::Keep(s) => EditView::Keep(encode_utf8(s@)),
            Edit::Delete(s) => EditView::Delete(encode_utf8(s@)),
            Edit::Insert(s) => EditView::Insert(encode_utf8(s@)),
        }
    }
}

/// The views of edits.
pub open spec fn edits_view(edits: Seq<Edit>) -> Seq<EditView> {
    edits.map_values(|e: Edit| e@)
}

/// The first position in `lines[from..to]` that holds `wanted`, or `to`.
pub open spec fn look_ahead(lines: Seq<Seq<u8>>, from: int, to: int, wanted: Seq<u8>) -> int
    decreases to - from,
{
    if from >= to {
        to
    } else if lines[from] == wanted {
        from
    } else {
        look_ahead(lines, from + 1, to, wanted)
    }
}

/// Where the search that starts behind `at` ends: ten lines on, or at the
/// end of the text.
pub open spec fn window_end(len: int, at: int) -> int {
    if len - at > 10 {
        at + 10
    } else {
        len
    }
}

/// An insertion of each line of `lines[from..to]`.
pub open spec fn inserts(lines: Seq<Seq<u8>>, from: int, to: int) -> Seq<EditView> {
    Seq::new((to - from) as nat, |k: int| EditView::Insert(lines[from + k]))
}

/// A deletion of each line of `lines[from..to]`.
pub open spec fn deletes(lines: Seq<Seq<u8>>, from: int, to: int) -> Seq<EditView> {
    Seq::new((to - from) as nat, |k: int| EditView::Delete(lines[from + k]))
}

/// The edit script that turns `old[i..]` into `new[j..]`.
pub open spec fn diff_from(old: Seq<Seq<u8>>, new: Seq<Seq<u8>>, i: int, j: int) -> Seq<EditView>
    decreases (old.len() - i) + (new.len() - j),
{
    if i < 0 || j < 0 || i > old.len() || j > new.len() || (i == old.len() && j == new.len()) {
        Seq::<EditView>::empty()
    } else if i >= old.len() {
        seq![EditView::Insert(new[j])] + diff_from(old, new, i, j + 1)
    } else if j >= new.len() {
        seq![EditView::Delete(old[i])] + diff_from(old, new, i + 1, j)
    } else if old[i] == new[j] {
        seq![EditView::Keep(old[i])] + diff_from(old, new, i + 1, j + 1)
    } else {
        let ahead = look_ahead(new, j + 1, window_end(new.len() as int, j), old[i]);
        let back = look_ahead(old, i + 1, window_end(old.len() as int, i), new[j]);
        if j < ahead < window_end(new.len() as int, j) {
            inserts(new, j, ahead) + seq![EditView::Keep(old[i])] + diff_from(
                old,
                new,
                i + 1,
                ahead + 1,
            )
        } else if i < back < window_end(old.len() as int, i) {
            deletes(old, i, back) + seq![EditView::Keep(new[j])] + diff_from(
                old,
                new,
                back + 1,
                j + 1,
            )
        } else {
            seq![EditView::Delete(old[i]), EditView::Insert(new[j])] + diff_from(
                old,
                new,
                i + 1,
                j + 1,
            )
        }
    }
}

/// The lines that a script keeps or deletes: the old text.
pub open spec fn old_side(edits: Seq<EditView>) -> Seq<Seq<u8>>
    decreases edits.len(),
{
    if edits.len() == 0 {
        Seq::<Seq<u8>>::empty()
    } else {
        match edits[0] {
            EditView::Keep(l) => seq![l] + old_side(edits.drop_first()),
            EditView::Delete(l) => seq![l] + old_side(edits.drop_first()),
            EditView::Insert(_) => old_side(edits.drop_first()),
        }
    }
}

/// The lines that a script keeps or inserts: the new text.
pub open spec fn new_side(edits: Seq<EditView>) -> Seq<Seq<u8>>
    decreases edits.len(),
{
    if edits.len() == 0 {
        Seq::<Seq<u8>>::empty()
    } else {
        match edits[0] {
            EditView::Keep(l) => seq![l] + new_side(edits.drop_first()),
            EditView::Insert(l) => seq![l] + new_side(edits.drop_first()),
            EditView::Delete(_) => new_side(edits.drop_first()),
        }
    }
}

/// The search stays in its window, finds the wanted line if it stops
/// inside, and passes over no wanted line.
pub proof fn lemma_look_ahead(lines: Seq<Seq<u8>>, from: int, to: int, wanted: Seq<u8>)
    requires
        0 <= from <= to <= lines.len(),
    ensures
        from <= look_ahead(lines, from, to, wanted) <= to,
        look_ahead(lines, from, to, wanted) < to ==> lines[look_ahead(lines, from, to, wanted)]
            == wanted,
        forall|k: int| from <= k < look_ahead(lines, from, to, wanted) ==> lines[k] != wanted,
    decreases to - from,
{
    if from < to && lines[from] != wanted {
        lemma_look_ahead(lines, from + 1, to, wanted);
    }
}

/// The two sides of a script that is put together from two.
pub proof fn lemma_sides_concat(a: Seq<EditView>, b: Seq<EditView>)
    ensures
        old_side(a + b) == old_side(a) + old_side(b),
        new_side(a + b) == new_side(a) + new_side(b),
    decreases a.len(),
{
    if a.len() == 0 {
        assert(a + b =~= b);
        assert(old_side(a) + old_side(b) =~= old_side(b));
        assert(new_side(a) + new_side(b) =~= new_side(b));
    } else {
        let rest = a.drop_first();
        assert((a + b).drop_first() =~= rest + b);
        assert((a + b)[0] == a[0]);
        lemma_sides_concat(rest, b);
        assert(old_side(a + b) =~= old_side(a) + old_side(b));
        assert(new_side(a + b) =~= new_side(a) + new_side(b));
    }
}

/// Insertions add their lines to the new text and nothing to the old.
pub proof fn lemma_inserts_sides(lines: Seq<Seq<u8>>, from: int, to: int)
    requires
        0 <= from <= to <= lines.len(),
    ensures
        old_side(inserts(lines, from, to)) == Seq::<Seq<u8>>::empty(),
        new_side(inserts(lines, from, to)) == lines.subrange(from, to),
    decreases to - from,
{
    let s = inserts(lines, from, to);
    if from < to {
        lemma_inserts_sides(lines, from + 1, to);
        assert(s.drop_first() =~= inserts(lines, from + 1, to));
        assert(s[0] == EditView::Insert(lines[from]));
        assert(seq![lines[from]] + lines.subrange(from + 1, to) =~= lines.subrange(from, to));
    } else {
        assert(lines.subrange(from, to) =~= Seq::<Seq<u8>>::empty());
    }
}

/// Deletions add their lines to the old text and nothing to the new.
pub proof fn lemma_deletes_sides(lines: Seq<Seq<u8>>, from: int, to: int)
    requires
        0 <= from <= to <= lines.len(),
    ensures
        new_side(deletes(lines, from, to)) == Seq::<Seq<u8>>::empty(),
        old_side(deletes(lines, from, to)) == lines.subrange(from, to),
    decreases to - from,
{
    let s = deletes(lines, from, to);
    if from < to {
        lemma_deletes_sides(lines, from + 1, to);
        assert(s.drop_first() =~= deletes(lines, from + 1, to));
        assert(s[0] == EditView::Delete(lines[from]));
        assert(seq![lines[from]] + lines.subrange(from + 1, to) =~= lines.subrange(from, to));
    } else {
        assert(lines.subrange(from, to) =~= Seq::<Seq<u8>>::empty());
    }
}

/// The two sides of a script of one edit.
pub proof fn lemma_single_sides(e: EditView)
    ensures
        old_side(seq![e]) == match e {
            EditView::Insert(_) => Seq::<Seq<u8>>::empty(),
            EditView::Keep(l) => seq![l],
            EditView::Delete(l) => seq![l],
        },
        new_side(seq![e]) == match e {
            EditView::Delete(_) => Seq::<Seq<u8>>::empty(),
            EditView::Keep(l) => seq![l],
            EditView::Insert(l) => seq![l],
        },
{
    let s = seq![e];
    assert(s.len() == 1);
    assert(s.drop_first() =~= Seq::<EditView>::empty());
    assert(s[0] == e);
    assert(old_side(s.drop_first()) =~= Seq::<Seq<u8>>::empty());
    assert(new_side(s.drop_first()) =~= Seq::<Seq<u8>>::empty());
    match e {
        EditView::Keep(l) => {
            assert(seq![l] + Seq::<Seq<u8>>::empty() =~= seq![l]);
        },
        EditView::Delete(l) => {
            assert(seq![l] + Seq::<Seq<u8>>::empty() =~= seq![l]);
        },
        EditView::Insert(l) => {
            assert(seq![l] + Seq::<Seq<u8>>::empty() =~= seq![l]);
        },
    }
}

/// The edit script is a script from the old text to the new: the lines it
/// keeps and deletes are the old text, the lines it keeps and inserts are
/// the new text.
pub proof fn lemma_diff_is_script(old: Seq<Seq<u8>>, new: Seq<Seq<u8>>, i: int, j: int)
    requires
        0 <= i <= old.len(),
        0 <= j <= new.len(),
    ensures
        old_side(diff_from(old, new, i, j)) == old.skip(i),
        new_side(diff_from(old, new, i, j)) == new.skip(j),
    decreases (old.len() - i) + (new.len() - j),
{
    if i >= old.len() && j >= new.len() {
        assert(old.skip(i) =~= Seq::<Seq<u8>>::empty());
        assert(new.skip(j) =~= Seq::<Seq<u8>>::empty());
    } else if i >= old.len() {
        let e = EditView::Insert(new[j]);
        lemma_diff_is_script(old, new, i, j + 1);
        lemma_single_sides(e);
        lemma_sides_concat(seq![e], diff_from(old, new, i, j + 1));
        assert(seq![new[j]] + new.skip(j + 1) =~= new.skip(j));
        assert(Seq::<Seq<u8>>::empty() + old.skip(i) =~= old.skip(i));
    } else if j >= new.len() {
        let e = EditView::Delete(old[i]);
        lemma_diff_is_script(old, new, i + 1, j);
        lemma_single_sides(e);
        lemma_sides_concat(seq![e], diff_from(old, new, i + 1, j));
        assert(seq![old[i]] + old.skip(i + 1) =~= old.skip(i));
        assert(Seq::<Seq<u8>>::empty() + new.skip(j) =~= new.skip(j));
    } else if old[i] == new[j] {
        let e = EditView::Keep(old[i]);
        lemma_diff_is_script(old, new, i + 1, j + 1);
        lemma_single_sides(e);
        lemma_sides_concat(seq![e], diff_from(old, new, i + 1, j + 1));
        assert(seq![old[i]] + old.skip(i + 1) =~= old.skip(i));
        assert(seq![new[j]] + new.skip(j + 1) =~= new.skip(j));
    } else {
        let new_end = window_end(new.len() as int, j);
        let old_end = window_end(old.len() as int, i);
        let ahead = look_ahead(new, j + 1, new_end, old[i]);
        let back = look_ahead(old, i + 1, old_end, new[j]);
        lemma_look_ahead(new, j + 1, new_end, old[i]);
        lemma_look_ahead(old, i + 1, old_end, new[j]);
        if j < ahead < new_end {
            let keep = EditView::Keep(old[i]);
            let rest = diff_from(old, new, i + 1, ahead + 1);
            lemma_diff_is_script(old, new, i + 1, ahead + 1);
            lemma_inserts_sides(new, j, ahead);
            lemma_single_sides(keep);
            lemma_sides_concat(inserts(new, j, ahead), seq![keep]);
            lemma_sides_concat(inserts(new, j, ahead) + seq![keep], rest);
            assert(Seq::<Seq<u8>>::empty() + seq![old[i]] + old.skip(i + 1) =~= old.skip(i));
            assert(new.subrange(j, ahead) + seq![old[i]] + new.skip(ahead + 1) =~= new.skip(j));
        } else if i < back < old_end {
            let keep = EditView::Keep(new[j]);
            let rest = diff_from(old, new, back + 1, j + 1);
            lemma_diff_is_script(old, new, back + 1, j + 1);
            lemma_deletes_sides(old, i, back);
            lemma_single_sides(keep);
            lemma_sides_concat(deletes(old, i, back), seq![keep]);
            lemma_sides_concat(deletes(old, i, back) + seq![keep], rest);
            assert(Seq::<Seq<u8>>::empty() + seq![new[j]] + new.skip(j + 1) =~= new.skip(j));
            assert(old.subrange(i, back) + seq![new[j]] + old.skip(back + 1) =~= old.skip(i));
        } else {
            let d = EditView::Delete(old[i]);
            let a = EditView::Insert(new[j]);
            let rest = diff_from(old, new, i + 1, j + 1);
            lemma_diff_is_script(old, new, i + 1, j + 1);
            lemma_single_sides(d);
            lemma_single_sides(a);
            assert(seq![d, a] =~= seq![d] + seq![a]);
            lemma_sides_concat(seq![d], seq![a]);
            lemma_sides_concat(seq![d, a], rest);
            assert(seq![old[i]] + Seq::<Seq<u8>>::empty() + old.skip(i + 1) =~= old.skip(i));
            assert(Seq::<Seq<u8>>::empty() + seq![new[j]] + new.skip(j + 1) =~= new.skip(j));
        }
    }
}

/// The first position in `lines[from..to]` that holds `wanted`, or `to`.
pub fn find_line(lines: &[String], from: usize, to: usize, wanted: &String) -> (at: usize)
    requires
        from <= to <= lines@.len(),
    ensures
        at == look_ahead(texts_view(lines@), from as int, to as int, encode_utf8(wanted@)),
        from <= at <= to,
{
    let ghost all = texts_view(lines@);
    let mut at: usize = from;
    while at < to
        invariant
            from <= at <= to <= lines@.len(),
            all == texts_view(lines@),
            look_ahead(all, from as int, to as int, encode_utf8(wanted@)) == look_ahead(
                all,
                at as int,
                to as int,
                encode_utf8(wanted@),
            ),
        decreases to - at,
    {
        assert(all[at as int] == encode_utf8(lines@[at as int]@));
        if bytes_eq(lines[at].as_str().as_bytes(), wanted.as_str().as_bytes()) {
            return at;
        }
        at += 1;
    }
    at
}

/// Finds an edit script from `old` to `new`.
pub fn myers_diff(old: &[String], new: &[String]) -> (edits: Vec<Edit>)
    ensures
        edits_view(edits@) == diff_from(texts_view(old@), texts_view(new@), 0, 0),
        old_side(edits_view(edits@)) == texts_view(old@),
        new_side(edits_view(edits@)) == texts_view(new@),
{
    let n = old.len();
    let m = new.len();
    let ghost a = texts_view(old@);
    let ghost b = texts_view(new@);
    let mut edits: Vec<Edit> = Vec::new();
    let mut i: usize = 0;
    let mut j: usize = 0;
    proof {
        assert(edits_view(edits@) =~= Seq::<EditView>::empty());
        assert(edits_view(edits@) + diff_from(a, b, 0, 0) =~= diff_from(a, b, 0, 0));
    }
    while i < n || j < m
        invariant
            i <= n,
            j <= m,
            n == old@.len(),
            m == new@.len(),
            a == texts_view(old@),
            b == texts_view(new@),
            diff_from(a, b, 0, 0) == edits_view(edits@) + diff_from(a, b, i as int, j as int),
        decreases (n - i) + (m - j),
    {
        let ghost done = edits_view(edits@);
        let ghost todo = diff_from(a, b, i as int, j as int);
        if i >= n {
            let e = Edit::Insert(new[j].clone());
            assert(e@ == EditView::Insert(b[j as int]));
            edits.push(e);
            proof {
                assert(edits_view(edits@) =~= done.push(e@));
                assert(done + (seq![e@] + diff_from(a, b, i as int, j + 1)) =~= done.push(e@)
                    + diff_from(a, b, i as int, j + 1));
            }
            j += 1;
        } else if j >= m {
            let e = Edit::Delete(old[i].clone());
            assert(e@ == EditView::Delete(a[i as int]));
            edits.push(e);
            proof {
                assert(edits_view(edits@) =~= done.push(e@));
                assert(done + (seq![e@] + diff_from(a, b, i + 1, j as int)) =~= done.push(e@)
                    + diff_from(a, b, i + 1, j as int));
            }
            i += 1;
        } else {
            assert(a[i as int] == encode_utf8(old@[i as int]@));
            assert(b[j as int] == encode_utf8(new@[j as int]@));
            if bytes_eq(old[i].as_str().as_bytes(), new[j].as_str().as_bytes()) {
                let e = Edit::Keep(old[i].clone());
                edits.push(e);
                proof {
                    assert(edits_view(edits@) =~= done.push(e@));
                    assert(done + (seq![e@] + diff_from(a, b, i + 1, j + 1)) =~= done.push(e@)
                        + diff_from(a, b, i + 1, j + 1));
                }
                i += 1;
                j += 1;
            } else {
                let new_end: usize = if m - j > 10 {
                    j + 10
                } else {
                    m
                };
                let old_end: usize = if n - i > 10 {
                    i + 10
                } else {
                    n
                };
                let ahead = find_line(new, j + 1, new_end, &old[i]);
                if ahead < new_end {
                    let mut k: usize = j;
                    while k < ahead
                        invariant
                            j <= k <= ahead < m,
                            m == new@.len(),
                            b == texts_view(new@),
                            edits_view(edits@) == done + inserts(b, j as int, k as int),
                        decreases ahead - k,
                    {
                        let ghost so_far = edits_view(edits@);
                        let e = Edit::Insert(new[k].clone());
                        assert(e@ == EditView::Insert(b[k as int]));
                        edits.push(e);
                        proof {
                            assert(edits_view(edits@) =~= so_far.push(e@));
                            assert(so_far.push(e@) =~= done + inserts(b, j as int, k + 1));
                        }
                        k += 1;
                    }
                    let ghost so_far = edits_view(edits@);
                    let e = Edit::Keep(old[i].clone());
                    edits.push(e);
                    proof {
                        assert(edits_view(edits@) =~= so_far.push(e@));
                        assert(done + (inserts(b, j as int, ahead as int) + seq![e@] + diff_from(
                            a,
                            b,
                            i + 1,
                            ahead + 1,
                        )) =~= so_far.push(e@) + diff_from(a, b, i + 1, ahead + 1));
                    }
                    i += 1;
                    j = ahead + 1;
                } else {
                    let back = find_line(old, i + 1, old_end, &new[j]);
                    if back < old_end {
                        let mut k: usize = i;
                        while k < back
                            invariant
                                i <= k <= back < n,
                                n == old@.len(),
                                a == texts_view(old@),
                                edits_view(edits@) == done + deletes(a, i as int, k as int),
                            decreases back - k,
                        {
                            let ghost so_far = edits_view(edits@);
                            let e = Edit::Delete(old[k].clone());
                            assert(e@ == EditView::Delete(a[k as int]));
                            edits.push(e);
                            proof {
                                assert(edits_view(edits@) =~= so_far.push(e@));
                                assert(so_far.push(e@) =~= done + deletes(a, i as int, k + 1));
                            }
                            k += 1;
                        }
                        let ghost so_far = edits_view(edits@);
                        let e = Edit::Keep(new[j].clone());
                        edits.push(e);
                        proof {
                            assert(edits_view(edits@) =~= so_far.push(e@));
                            assert(done + (deletes(a, i as int, back as int) + seq![e@] + diff_from(
                                a,
                                b,
                                back + 1,
                                j + 1,
                            )) =~= so_far.push(e@) + diff_from(a, b, back + 1, j + 1));
                        }
                        i = back + 1;
                        j += 1;
                    } else {
                        let d = Edit::Delete(old[i].clone());
                        let e = Edit::Insert(new[j].clone());
                        edits.push(d);
                        edits.push(e);
                        proof {
                            assert(edits_view(edits@) =~= done.push(d@).push(e@));
                            assert(done + (seq![d@, e@] + diff_from(a, b, i + 1, j + 1)) =~= done.push(
                                d@,
                            ).push(e@) + diff_from(a, b, i + 1, j + 1));
                        }
                        i += 1;
                        j += 1;
                    }
                }
            }
        }
    }
    proof {
        assert(edits_view(edits@) + Seq::<EditView>::empty() =~= edits_view(edits@));
        lemma_diff_is_script(a, b, 0, 0);
        assert(a.skip(0) =~= a);
        assert(b.skip(0) =~= b);
    }
    edits
}

/// Split content into lines
pub fn split_lines(content: &[u8]) -> (lines: Vec<String>)
    ensures
        texts_view(lines@) == lines_of(text_bytes(content@)),
{
    let text = text_from_bytes(content);
    let raw = split_text(text.as_str().as_bytes());
    let ghost all = lines_view(raw@);
    proof {
        encode_utf8_valid_utf8(text@);
        lemma_lines_utf8(encode_utf8(text@));
    }
    let mut lines: Vec<String> = Vec::new();
    let mut i: usize = 0;
    while i < raw.len()
        invariant
            i <= raw@.len(),
            all == lines_view(raw@),
            forall|k: int| 0 <= k < all.len() ==> valid_utf8(#[trigger] all[k]),
            texts_view(lines@) == all.take(i as int),
        decreases raw@.len() - i,
    {
        let ghost before = texts_view(lines@);
        let line = text_from_bytes(raw[i].as_slice());
        assert(all[i as int] == raw@[i as int]@);
        lines.push(line);
        assert(texts_view(lines@) =~= before.push(encode_utf8(line@)));
        assert(before.push(all[i as int]) =~= all.take(i + 1));
        i += 1;
    }
    assert(all.take(i as int) =~= all);
    lines
}

/// The lines of a unified diff while it is written.
pub struct HunkState {
    /// The lines that are written.
    pub out: Seq<Seq<u8>>,
    /// The number of the next line of the old text.
    pub old_line: nat,
    /// The number of the next line of the new text.
    pub new_line: nat,
    /// Whether a hunk is open.
    pub in_hunk: bool,
    /// The line of the old text at which the open hunk began.
    pub start_old: nat,
    /// The line of the new text at which the open hunk began.
    pub start_new: nat,
    /// The lines of the open hunk.
    pub pending: Seq<Seq<u8>>,
}

/// The bytes of `--- a/`.
pub open spec fn old_file_mark() -> Seq<u8> {
    seq![45u8, 45u8, 45u8, 32u8, 97u8, 47u8]
}

/// The bytes of `+++ b/`.
pub open spec fn new_file_mark() -> Seq<u8> {
    seq![43u8, 43u8, 43u8, 32u8, 98u8, 47u8]
}

/// The header of a hunk: `@@ -<start>,<count> +<start>,<count> @@`.
pub open spec fn hunk_header(start_old: nat, old_count: nat, start_new: nat, new_count: nat) -> Seq<u8> {
    seq![64u8, 64u8, 32u8, 45u8] + decimal(start_old) + seq![44u8] + decimal(old_count) + seq![
        32u8,
        43u8,
    ] + decimal(start_new) + seq![44u8] + decimal(new_count) + seq![32u8, 64u8, 64u8]
}

/// The state before the first edit: the two file lines are written.
pub open spec fn hunk_start(path: Seq<u8>) -> HunkState {
    HunkState {
        out: seq![old_file_mark() + path, new_file_mark() + path],
        old_line: 1,
        new_line: 1,
        in_hunk: false,
        start_old: 0,
        start_new: 0,
        pending: Seq::empty(),
    }
}

/// The written lines with the open hunk, if there is one, written too.
pub open spec fn hunk_closed(s: HunkState) -> Seq<Seq<u8>> {
    if s.in_hunk {
        s.out.push(
            hunk_header(
                s.start_old,
                (s.old_line - s.start_old) as nat,
                s.start_new,
                (s.new_line - s.start_new) as nat,
            ),
        ) + s.pending
    } else {
        s.out
    }
}

/// The state after one more edit. A kept line closes the open hunk; a
/// deleted or inserted line opens one where none is open, and adds to it
/// the line with `-` or `+` before it.
pub open spec fn hunk_step(s: HunkState, e: EditView) -> HunkState {
    match e {
        EditView::Keep(_) => HunkState {
            out: hunk_closed(s),
            old_line: s.old_line + 1,
            new_line: s.new_line + 1,
            in_hunk: false,
            start_old: s.start_old,
            start_new: s.start_new,
            pending: if s.in_hunk {
                Seq::empty()
            } else {
                s.pending
            },
        },
        EditView::Delete(l) => HunkState {
            out: s.out,
            old_line: s.old_line + 1,
            new_line: s.new_line,
            in_hunk: true,
            start_old: if s.in_hunk {
                s.start_old
            } else {
                s.old_line
            },
            start_new: if s.in_hunk {
                s.start_new
            } else {
                s.new_line
            },
            pending: s.pending.push(seq![45u8] + l),
        },
        EditView::Insert(l) => HunkState {
            out: s.out,
            old_line: s.old_line,
            new_line: s.new_line + 1,
            in_hunk: true,
            start_old: if s.in_hunk {
                s.start_old
            } else {
                s.old_line
            },
            start_new: if s.in_hunk {
                s.start_new
            } else {
                s.new_line
            },
            pending: s.pending.push(seq![43u8] + l),
        },
    }
}

/// The state after the edits `edits`.
pub open spec fn hunk_run(s: HunkState, edits: Seq<EditView>) -> HunkState
    decreases edits.len(),
{
    if edits.len() == 0 {
        s
    } else {
        hunk_step(hunk_run(s, edits.drop_last()), edits.last())
    }
}

/// The unified diff of `path` for the edit script `edits`: the two file
/// lines, then each run of deleted and inserted lines as a hunk.
pub open spec fn unified_diff(path: Seq<u8>, edits: Seq<EditView>) -> Seq<u8> {
    join_lines(hunk_closed(hunk_run(hunk_start(path), edits)))
}

/// The header of a hunk.
pub fn hunk_header_bytes(start_old: usize, old_count: usize, start_new: usize, new_count: usize) -> (line:
    Vec<u8>)
    ensures
        line@ == hunk_header(start_old as nat, old_count as nat, start_new as nat, new_count as nat),
{
    let mut line: Vec<u8> = Vec::new();
    line.push(64);
    line.push(64);
    line.push(32);
    line.push(45);
    push_decimal(&mut line, start_old as u64);
    line.push(44);
    push_decimal(&mut line, old_count as u64);
    line.push(32);
    line.push(43);
    push_decimal(&mut line, start_new as u64);
    line.push(44);
    push_decimal(&mut line, new_count as u64);
    line.push(32);
    line.push(64);
    line.push(64);
    assert(line@ =~= hunk_header(
        start_old as nat,
        old_count as nat,
        start_new as nat,
        new_count as nat,
    ));
    line
}

/// `mark` followed by the bytes of `text`.
pub fn marked_line(mark: u8, text: &String) -> (line: Vec<u8>)
    ensures
        line@ == seq![mark] + encode_utf8(text@),
{
    let mut line: Vec<u8> = Vec::new();
    line.push(mark);
    line.extend_from_slice(text.as_str().as_bytes());
    assert(line@ =~= seq![mark] + encode_utf8(text@));
    line
}

/// Format edits as unified diff. The texts themselves are not looked at:
/// the script holds every line.
pub fn format_unified_diff(
    path: &str,
    _old_lines: &[String],
    _new_lines: &[String],
    edits: &[Edit],
) -> (text: String)
    requires
        edits@.len() < usize::MAX,
    ensures
        encode_utf8(text@) == text_bytes(unified_diff(path.spec_bytes(), edits_view(edits@))),
{
    let ghost all = edits_view(edits@);
    let ghost start = hunk_start(path.spec_bytes());
    let mut out: Vec<Vec<u8>> = Vec::new();
    let mut first: Vec<u8> = Vec::new();
    first.push(45);
    first.push(45);
    first.push(45);
    first.push(32);
    first.push(97);
    first.push(47);
    first.extend_from_slice(path.as_bytes());
    assert(first@ =~= old_file_mark() + path.spec_bytes());
    let mut second: Vec<u8> = Vec::new();
    second.push(43);
    second.push(43);
    second.push(43);
    second.push(32);
    second.push(98);
    second.push(47);
    second.extend_from_slice(path.as_bytes());
    assert(second@ =~= new_file_mark() + path.spec_bytes());
    out.push(first);
    out.push(second);
    let mut old_line: usize = 1;
    let mut new_line: usize = 1;
    let mut in_hunk = false;
    let mut start_old: usize = 0;
    let mut start_new: usize = 0;
    let mut pending: Vec<Vec<u8>> = Vec::new();
    let mut i: usize = 0;
    proof {
        assert(all.take(0) =~= Seq::<EditView>::empty());
        assert(lines_view(out@) =~= start.out);
        assert(lines_view(pending@) =~= start.pending);
    }
    while i < edits.len()
        invariant
            i <= edits@.len(),
            edits@.len() < usize::MAX,
            all == edits_view(edits@),
            start == hunk_start(path.spec_bytes()),
            old_line <= i + 1,
            new_line <= i + 1,
            start_old <= old_line,
            start_new <= new_line,
            hunk_run(start, all.take(i as int)) == (HunkState {
                out: lines_view(out@),
                old_line: old_line as nat,
                new_line: new_line as nat,
                in_hunk,
                start_old: start_old as nat,
                start_new: start_new as nat,
                pending: lines_view(pending@),
            }),
        decreases edits@.len() - i,
    {
        let ghost state = hunk_run(start, all.take(i as int));
        proof {
            assert(all.take(i + 1).drop_last() =~= all.take(i as int));
            assert(all.take(i + 1).last() == edits@[i as int]@);
        }
        match &edits[i] {
            Edit::Keep(_) => {
                if in_hunk {
                    let header = hunk_header_bytes(
                        start_old,
                        old_line - start_old,
                        start_new,
                        new_line - start_new,
                    );
                    let ghost written = lines_view(out@);
                    let ghost held = lines_view(pending@);
                    out.push(header);
                    out.append(&mut pending);
                    proof {
                        assert(lines_view(out@) =~= written.push(header@) + held);
                        assert(lines_view(pending@) =~= Seq::<Seq<u8>>::empty());
                    }
                    in_hunk = false;
                }
                old_line += 1;
                new_line += 1;
            },
            Edit::Delete(s) => {
                if !in_hunk {
                    start_old = old_line;
                    start_new = new_line;
                    in_hunk = true;
                }
                let ghost held = lines_view(pending@);
                let line = marked_line(45, s);
                pending.push(line);
                assert(lines_view(pending@) =~= held.push(line@));
                old_line += 1;
            },
            Edit::Insert(s) => {
                if !in_hunk {
                    start_old = old_line;
                    start_new = new_line;
                    in_hunk = true;
                }
                let ghost held = lines_view(pending@);
                let line = marked_line(43, s);
                pending.push(line);
                assert(lines_view(pending@) =~= held.push(line@));
                new_line += 1;
            },
        }
        i += 1;
    }
    proof {
        assert(all.take(i as int) =~= all);
    }
    if in_hunk {
        let header = hunk_header_bytes(
            start_old,
            old_line - start_old,
            start_new,
            new_line - start_new,
        );
        let ghost written = lines_view(out@);
        let ghost held = lines_view(pending@);
        out.push(header);
        out.append(&mut pending);
        proof {
            assert(lines_view(out@) =~= written.push(header@) + held);
        }
    }
    let joined = join_texts(&out);
    text_from_bytes(joined.as_slice())
}

/// Whether an edit changes anything: it is not a kept line.
pub open spec fn is_change(e: EditView) -> bool {
    !(e is Keep)
}

/// Whether the script deletes or inserts a line.
pub fn has_changes(edits: &[Edit]) -> (yes: bool)
    ensures
        yes == exists|i: int| 0 <= i < edits@.len() && is_change(#[trigger] edits_view(edits@)[i]),
{
    let ghost all = edits_view(edits@);
    let mut i: usize = 0;
    while i < edits.len()
        invariant
            i <= edits@.len(),
            all == edits_view(edits@),
            forall|k: int| 0 <= k < i ==> !is_change(#[trigger] all[k]),
        decreases edits@.len() - i,
    {
        assert(all[i as int] == edits@[i as int]@);
        match &edits[i] {
            Edit::Keep(_) => {},
            _ => {
                return true;
            },
        }
        i += 1;
    }
    false
}

} // verus!
