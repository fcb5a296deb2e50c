//! References: what the text of `HEAD` and of branch and tag files means,
//! and which names and addresses are accepted.

use crate::bytes::{bytes_eq, has_prefix, starts_with};
use crate::ignore::holds;
use crate::text::{
    lemma_ascii_is_utf8, lemma_utf8_concat, text_bytes, text_from_bytes, trim, trim_bounds,
};
use vstd::prelude::*;
use vstd::string::*;
use vstd::utf8::*;

verus! {

/// What `HEAD` points at.
#[derive(Debug, Clone, PartialEq)]
pub enum HeadTarget {
    /// A reference, by its path below the repository directory.
    Ref(String),
    /// A commit, by its address: `HEAD` is detached.
    Commit(String),
    /// Nothing: the file is empty.
    Empty,
}

/// What a `HeadTarget` stands for.
pub enum HeadView {
    Ref(Seq<u8>),
    Commit(Seq<u8>),
    Empty,
}

impl View for HeadTarget {
    type V = HeadView;

    open spec fn view(&self) -> HeadView {
        match self {
            HeadTarget::Ref(p) => HeadView::Ref(encode_utf8(p@)),
            HeadTarget::Commit(a) => HeadView::Commit(encode_utf8(a@)),
            HeadTarget::Empty => HeadView::Empty,
        }
    }
}

/// The bytes of `ref: `.
pub open spec fn ref_mark() -> Seq<u8> {
    seq![114u8, 101u8, 102u8, 58u8, 32u8]
}

/// The bytes of `refs/heads/`.
pub open spec fn heads_dir() -> Seq<u8> {
    seq![114u8, 101u8, 102u8, 115u8, 47u8, 104u8, 101u8, 97u8, 100u8, 115u8, 47u8]
}

/// What the text of `HEAD` points at. The text is trimmed; `ref: ` before
/// a path makes it a reference, any other text is an address.
pub open spec fn head_target(content: Seq<u8>) -> HeadView {
    let t = trim(content);
    if has_prefix(t, ref_mark()) {
        HeadView::Ref(text_bytes(trim(t.skip(5))))
    } else if t.len() > 0 {
        HeadView::Commit(text_bytes(t))
    } else {
        HeadView::Empty
    }
}

/// `ref: `, as text.
pub fn ref_mark_text() -> (mark: &'static str)
    ensures
        mark.spec_bytes() == ref_mark(),
{
    proof {
        reveal_strlit("ref: ");
        is_ascii_spec_bytes("ref: ");
        assert("ref: ".spec_bytes() =~= ref_mark());
    }
    "ref: "
}

/// `refs/heads/`, as text.
pub fn heads_dir_text() -> (dir: &'static str)
    ensures
        dir.spec_bytes() == heads_dir(),
{
    proof {
        reveal_strlit("refs/heads/");
        is_ascii_spec_bytes("refs/heads/");
        assert("refs/heads/".spec_bytes() =~= heads_dir());
    }
    "refs/heads/"
}

/// Reads the text of `HEAD`.
pub fn parse_head(content: &str) -> (target: HeadTarget)
    ensures
        target@ == head_target(content.spec_bytes()),
{
    let data = content.as_bytes();
    let (a, b) = trim_bounds(data, 0, data.len());
    assert(data@.subrange(0, data.len() as int) =~= data@);
    let t = &data[a..b];
    if starts_with(t, ref_mark_text().as_bytes()) {
        let (c, d) = trim_bounds(t, 5, t.len());
        assert(t@.subrange(5, t.len() as int) =~= t@.skip(5));
        HeadTarget::Ref(text_from_bytes(&t[c..d]))
    } else if t.len() > 0 {
        HeadTarget::Commit(text_from_bytes(t))
    } else {
        HeadTarget::Empty
    }
}

/// The branch that the text of `HEAD` names: what stands behind
/// `ref: refs/heads/`. `None` where `HEAD` is detached or names another
/// kind of reference.
pub open spec fn branch_of_head(content: Seq<u8>) -> Option<Seq<u8>> {
    let t = trim(content);
    let path = trim(t.skip(5));
    if has_prefix(t, ref_mark()) && has_prefix(path, heads_dir()) {
        Some(text_bytes(path.skip(11)))
    } else {
        None
    }
}

/// The branch that the text of `HEAD` names.
pub fn current_branch(content: &str) -> (branch: Option<String>)
    ensures
        match branch {
            Some(name) => branch_of_head(content.spec_bytes()) == Some(encode_utf8(name@)),
            None => branch_of_head(content.spec_bytes()) is None,
        },
{
    let data = content.as_bytes();
    let (a, b) = trim_bounds(data, 0, data.len());
    assert(data@.subrange(0, data.len() as int) =~= data@);
    let t = &data[a..b];
    if !starts_with(t, ref_mark_text().as_bytes()) {
        return None;
    }
    let (c, d) = trim_bounds(t, 5, t.len());
    assert(t@.subrange(5, t.len() as int) =~= t@.skip(5));
    let path = &t[c..d];
    if !starts_with(path, heads_dir_text().as_bytes()) {
        return None;
    }
    assert(path@.subrange(11, path.len() as int) =~= path@.skip(11));
    Some(text_from_bytes(&path[11..path.len()]))
}

/// The address that a branch or tag file holds: its text, trimmed.
pub fn ref_commit(content: &str) -> (address: String)
    ensures
        encode_utf8(address@) == text_bytes(trim(content.spec_bytes())),
{
    let data = content.as_bytes();
    let (a, b) = trim_bounds(data, 0, data.len());
    assert(data@.subrange(0, data.len() as int) =~= data@);
    text_from_bytes(&data[a..b])
}

/// Whether `name` can name a branch or a tag: it is not empty and holds no
/// slash, backslash or space.
pub open spec fn name_ok(name: Seq<u8>) -> bool {
    name.len() > 0 && !name.contains(47) && !name.contains(92) && !name.contains(32)
}

/// Whether `name` can name a branch or a tag.
pub fn is_valid_ref_name(name: &str) -> (ok: bool)
    ensures
        ok == name_ok(name.spec_bytes()),
{
    let data = name.as_bytes();
    data.len() > 0 && !holds(data, 47) && !holds(data, 92) && !holds(data, 32)
}

/// Whether `b` is a hexadecimal digit of either case.
pub open spec fn is_hex_digit(b: u8) -> bool {
    48 <= b <= 57 || 97 <= b <= 102 || 65 <= b <= 70
}

/// Whether `text` is written like a full address: 40 hexadecimal digits.
pub open spec fn full_hash(text: Seq<u8>) -> bool {
    text.len() == 40 && forall|i: int| 0 <= i < text.len() ==> is_hex_digit(#[trigger] text[i])
}

/// Whether `reference` is written like a full address.
pub fn is_full_hash(reference: &str) -> (yes: bool)
    ensures
        yes == full_hash(reference.spec_bytes()),
{
    let data = reference.as_bytes();
    if data.len() != 40 {
        return false;
    }
    let mut i: usize = 0;
    while i < data.len()
        invariant
            i <= data.len(),
            data@ == reference.spec_bytes(),
            forall|k: int| 0 <= k < i ==> is_hex_digit(#[trigger] data@[k]),
        decreases data.len() - i,
    {
        let b: u8 = data[i];
        if !((48 <= b && b <= 57) || (97 <= b && b <= 102) || (65 <= b && b <= 70)) {
            assert(!is_hex_digit(data@[i as int]));
            return false;
        }
        i += 1;
    }
    true
}

/// The text of a branch or tag file for `address`: the address and a line feed.
pub fn ref_line(address: &str) -> (line: String)
    ensures
        encode_utf8(line@) == address.spec_bytes() + seq![10u8],
{
    let mut out: Vec<u8> = Vec::new();
    out.extend_from_slice(address.as_bytes());
    out.push(10);
    proof {
        encode_utf8_valid_utf8(address@);
        lemma_ascii_is_utf8(seq![10u8]);
        lemma_utf8_concat(address.spec_bytes(), seq![10u8]);
        assert(out@ =~= address.spec_bytes() + seq![10u8]);
    }
    text_from_bytes(out.as_slice())
}

/// The text of `HEAD` on the branch `name`: `ref: refs/heads/<name>` and a
/// line feed.
pub fn head_for_branch(name: &str) -> (line: String)
    ensures
        encode_utf8(line@) == ref_mark() + heads_dir() + name.spec_bytes() + seq![10u8],
{
    let mut out: Vec<u8> = Vec::new();
    out.extend_from_slice(ref_mark_text().as_bytes());
    out.extend_from_slice(heads_dir_text().as_bytes());
    out.extend_from_slice(name.as_bytes());
    out.push(10);
    proof {
        encode_utf8_valid_utf8(name@);
        lemma_ascii_is_utf8(ref_mark());
        lemma_ascii_is_utf8(heads_dir());
        lemma_ascii_is_utf8(seq![10u8]);
        lemma_utf8_concat(ref_mark(), heads_dir());
        lemma_utf8_concat(ref_mark() + heads_dir(), name.spec_bytes());
        lemma_utf8_concat(ref_mark() + heads_dir() + name.spec_bytes(), seq![10u8]);
        assert(out@ =~= ref_mark() + heads_dir() + name.spec_bytes() + seq![10u8]);
    }
    text_from_bytes(out.as_slice())
}

/// Why a branch is not deleted.
#[derive(Debug, Clone, Copy, PartialEq, Eq, Structural)]
pub enum DeleteRefusal {
    /// The branch is the one that is checked out.
    CheckedOut,
    /// The branch points at another commit than `HEAD`.
    NotMerged,
}

/// Whether a branch may be deleted. Unless forced, the branch that is
/// checked out is kept, and so is a branch that points at another commit
/// than `HEAD` does.
pub open spec fn delete_check(
    branch: Seq<u8>,
    current: Option<Seq<u8>>,
    branch_commit: Seq<u8>,
    head_commit: Option<Seq<u8>>,
    force: bool,
) -> Result<(), DeleteRefusal> {
    if !force && current == Some(branch) {
        Err(DeleteRefusal::CheckedOut)
    } else if !force && head_commit is Some && head_commit->0 != branch_commit {
        Err(DeleteRefusal::NotMerged)
    } else {
        Ok(())
    }
}

/// The bytes of an optional text.
pub open spec fn optional_bytes(text: Option<&str>) -> Option<Seq<u8>> {
    match text {
        Some(t) => Some(t.spec_bytes()),
        None => None,
    }
}

/// Whether the branch `branch`, which points at `branch_commit`, may be
/// deleted while `current` is checked out and `HEAD` is at `head_commit`.
pub fn may_delete_branch(
    branch: &str,
    current: Option<&str>,
    branch_commit: &str,
    head_commit: Option<&str>,
    force: bool,
) -> (res: Result<(), DeleteRefusal>)
    ensures
        res == delete_check(
            branch.spec_bytes(),
            optional_bytes(current),
            branch_commit.spec_bytes(),
            optional_bytes(head_commit),
            force,
        ),
{
    if force {
        return Ok(());
    }
    match current {
        Some(c) => {
            if bytes_eq(c.as_bytes(), branch.as_bytes()) {
                return Err(DeleteRefusal::CheckedOut);
            }
        },
        None => {},
    }
    match head_commit {
        Some(h) => {
            if !bytes_eq(h.as_bytes(), branch_commit.as_bytes()) {
                return Err(DeleteRefusal::NotMerged);
            }
        },
        None => {},
    }
    Ok(())
}

} // verus!
