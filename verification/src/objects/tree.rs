//! Tree objects: the listing of one directory.
//!
//! An entry is written as `<mode> <name>\0` followed by the 20 raw bytes of
//! the address; a tree is its entries one after the other. Entries are
//! sorted by name, a directory's name counting as if it ended in `/`.

use crate::bytes::{
    bytes_eq, bytes_lt, find_byte, index_of, lemma_index_of_delimited, lemma_lex_lt_asymmetric,
    lemma_lex_lt_total, lemma_lex_lt_transitive, lex_lt,
};
use crate::error::{bytes_result, RitError};
use crate::hexcodec::{
    from_hex, hex_bytes, hex_digits, is_address, is_hex, lemma_hex_canonical, to_hex,
};
use crate::text::{text_bytes, text_from_bytes};
use vstd::prelude::*;
use vstd::seq_lib::to_multiset_insert;
use vstd::string::*;
use vstd::utf8::*;

verus! {

/// File mode for a regular file
pub const MODE_FILE: &'static str = "100644";

/// File mode for an executable file
pub const MODE_EXEC: &'static str = "100755";

/// File mode for a directory (tree), as it is stored: without a leading zero
pub const MODE_DIR: &'static str = "40000";

/// File mode for a symbolic link
pub const MODE_SYMLINK: &'static str = "120000";

/// The bytes of `100644`.
pub open spec fn mode_file() -> Seq<u8> {
    seq![49u8, 48u8, 48u8, 54u8, 52u8, 52u8]
}

/// The bytes of `100755`.
pub open spec fn mode_exec() -> Seq<u8> {
    seq![49u8, 48u8, 48u8, 55u8, 53u8, 53u8]
}

/// The bytes of `40000`.
pub open spec fn mode_dir() -> Seq<u8> {
    seq![52u8, 48u8, 48u8, 48u8, 48u8]
}

/// The bytes of `040000`, the directory mode as some tools print it.
pub open spec fn mode_dir_padded() -> Seq<u8> {
    seq![48u8, 52u8, 48u8, 48u8, 48u8, 48u8]
}

/// The mode of a regular file, as text.
pub fn file_mode() -> (mode: &'static str)
    ensures
        mode.spec_bytes() == mode_file(),
{
    proof {
        reveal_strlit("100644");
        is_ascii_spec_bytes("100644");
        assert("100644".spec_bytes() =~= mode_file());
    }
    "100644"
}

/// The mode of an executable file, as text.
pub fn exec_mode() -> (mode: &'static str)
    ensures
        mode.spec_bytes() == mode_exec(),
{
    proof {
        reveal_strlit("100755");
        is_ascii_spec_bytes("100755");
        assert("100755".spec_bytes() =~= mode_exec());
    }
    "100755"
}

/// The mode of a directory, as text.
pub fn dir_mode() -> (mode: &'static str)
    ensures
        mode.spec_bytes() == mode_dir(),
{
    proof {
        reveal_strlit("40000");
        is_ascii_spec_bytes("40000");
        assert("40000".spec_bytes() =~= mode_dir());
    }
    "40000"
}

/// The mode of a directory with its leading zero, as text.
pub fn padded_dir_mode() -> (mode: &'static str)
    ensures
        mode.spec_bytes() == mode_dir_padded(),
{
    proof {
        reveal_strlit("040000");
        is_ascii_spec_bytes("040000");
        assert("040000".spec_bytes() =~= mode_dir_padded());
    }
    "040000"
}

/// A single entry in a tree object
#[derive(Debug, Clone, PartialEq)]
pub struct TreeEntry {
    /// File mode (e.g., "100644" for regular file)
    pub mode: String,
    /// Filename (just the name, not full path)
    pub name: String,
    /// Address of the blob or subtree (40 hex chars)
    pub hash: String,
}

/// What a `TreeEntry` stands for: the bytes of its three texts.
pub struct EntryView {
    pub mode: Seq<u8>,
    pub name: Seq<u8>,
    pub hash: Seq<u8>,
}

impl View for TreeEntry {
    type V = EntryView;

    open spec fn view(&self) -> EntryView {
        EntryView {
            mode: encode_utf8(self.mode@),
            name: encode_utf8(self.name@),
            hash: encode_utf8(self.hash@),
        }
    }
}

/// Whether an entry with this mode is a directory.
pub open spec fn is_tree_mode(mode: Seq<u8>) -> bool {
    mode == mode_dir() || mode == mode_dir_padded()
}

/// Whether an entry with this mode is a file.
pub open spec fn is_blob_mode(mode: Seq<u8>) -> bool {
    mode == mode_file() || mode == mode_exec()
}

/// The bytes of one entry, or `None` where its address is not hexadecimal.
pub open spec fn entry_bytes(e: EntryView) -> Option<Seq<u8>> {
    if is_hex(e.hash) {
        Some(e.mode + seq![32u8] + e.name + seq![0u8] + hex_bytes(e.hash))
    } else {
        None
    }
}

/// The bytes of a tree: those of its entries in order. `None` where an
/// address is not hexadecimal.
pub open spec fn tree_bytes(t: Seq<EntryView>) -> Option<Seq<u8>>
    decreases t.len(),
{
    if t.len() == 0 {
        Some(Seq::<u8>::empty())
    } else {
        match (entry_bytes(t[0]), tree_bytes(t.drop_first())) {
            (Some(first), Some(rest)) => Some(first + rest),
            _ => None,
        }
    }
}

/// What serializing returns for the bytes that the specification gives.
pub open spec fn serialized(bytes: Option<Seq<u8>>) -> Result<Seq<u8>, RitError> {
    match bytes {
        Some(b) => Ok(b),
        None => Err(RitError::InvalidAddress),
    }
}

/// Appending an entry to a tree appends its bytes.
pub proof fn lemma_tree_bytes_push(t: Seq<EntryView>, e: EntryView)
    ensures
        tree_bytes(t.push(e)) == match (tree_bytes(t), entry_bytes(e)) {
            (Some(front), Some(last)) => Some(front + last),
            _ => None,
        },
    decreases t.len(),
{
    let more = t.push(e);
    assert(more.len() > 0);
    assert(tree_bytes(more) == match (entry_bytes(more[0]), tree_bytes(more.drop_first())) {
        (Some(first), Some(rest)) => Some(first + rest),
        _ => None,
    });
    if t.len() == 0 {
        assert(more.drop_first() =~= Seq::<EntryView>::empty());
        assert(more[0] == e);
        assert(tree_bytes(t) == Some(Seq::<u8>::empty()));
        assert(tree_bytes(more.drop_first()) == Some(Seq::<u8>::empty()));
        match entry_bytes(e) {
            Some(last) => {
                assert(last + Seq::<u8>::empty() =~= Seq::<u8>::empty() + last);
            },
            None => {},
        }
    } else {
        assert(more.drop_first() =~= t.drop_first().push(e));
        assert(more[0] == t[0]);
        lemma_tree_bytes_push(t.drop_first(), e);
        assert(tree_bytes(t) == match (entry_bytes(t[0]), tree_bytes(t.drop_first())) {
            (Some(first), Some(rest)) => Some(first + rest),
            _ => None,
        });
        match (entry_bytes(t[0]), tree_bytes(t.drop_first()), entry_bytes(e)) {
            (Some(first), Some(rest), Some(last)) => {
                assert(first + (rest + last) =~= (first + rest) + last);
            },
            _ => {},
        }
    }
}

impl TreeEntry {
    /// Create a new tree entry
    pub fn new(mode: String, name: String, hash: String) -> (entry: Self)
        ensures
            entry.mode == mode,
            entry.name == name,
            entry.hash == hash,
    {
        TreeEntry { mode, name, hash }
    }

    /// Create a tree entry for a regular file
    pub fn file(name: String, hash: String) -> (entry: Self)
        ensures
            entry@.mode == mode_file(),
            entry.name == name,
            entry.hash == hash,
    {
        TreeEntry { mode: file_mode().to_owned(), name, hash }
    }

    /// Create a tree entry for a directory (subtree)
    pub fn directory(name: String, hash: String) -> (entry: Self)
        ensures
            entry@.mode == mode_dir(),
            entry.name == name,
            entry.hash == hash,
    {
        TreeEntry { mode: dir_mode().to_owned(), name, hash }
    }

    /// Check if this entry is a directory (subtree)
    pub fn is_tree(&self) -> (yes: bool)
        ensures
            yes == is_tree_mode(self@.mode),
    {
        let mode = self.mode.as_str().as_bytes();
        bytes_eq(mode, dir_mode().as_bytes()) || bytes_eq(mode, padded_dir_mode().as_bytes())
    }

    /// Check if this entry is a regular file (blob)
    pub fn is_blob(&self) -> (yes: bool)
        ensures
            yes == is_blob_mode(self@.mode),
    {
        let mode = self.mode.as_str().as_bytes();
        bytes_eq(mode, file_mode().as_bytes()) || bytes_eq(mode, exec_mode().as_bytes())
    }

    /// An entry equal to this one.
    pub fn duplicate(&self) -> (entry: Self)
        ensures
            entry == *self,
    {
        TreeEntry { mode: self.mode.clone(), name: self.name.clone(), hash: self.hash.clone() }
    }

    /// Serialize this entry to binary format: `<mode> <name>\0<20-byte-hash>`.
    /// `InvalidAddress` where the address is not hexadecimal.
    pub fn serialize(&self) -> (res: Result<Vec<u8>, RitError>)
        ensures
            bytes_result(res) == serialized(entry_bytes(self@)),
    {
        let mut data: Vec<u8> = Vec::new();
        data.extend_from_slice(self.mode.as_str().as_bytes());
        data.push(32);
        data.extend_from_slice(self.name.as_str().as_bytes());
        data.push(0);
        match from_hex(self.hash.as_str()) {
            Ok(raw) => {
                data.extend_from_slice(raw.as_slice());
                assert(data@ =~= entry_bytes(self@)->0);
                Ok(data)
            },
            Err(e) => Err(e),
        }
    }
}

/// Represents a tree object (directory)
#[derive(Debug, Clone)]
pub struct Tree {
    /// The entries in this tree
    pub entries: Vec<TreeEntry>,
}

impl View for Tree {
    type V = Seq<EntryView>;

    open spec fn view(&self) -> Seq<EntryView> {
        self.entries@.map_values(|e: TreeEntry| e@)
    }
}

impl Tree {
    /// Create a new empty tree: it has no entry, and its bytes are empty
    pub fn new() -> (tree: Self)
        ensures
            tree.entries@ == Seq::<TreeEntry>::empty(),
            tree@ == Seq::<EntryView>::empty(),
            tree_bytes(tree@) == Some(Seq::<u8>::empty()),
    {
        let tree = Tree { entries: Vec::new() };
        assert(tree@ =~= Seq::<EntryView>::empty());
        tree
    }

    /// Add an entry to the tree
    pub fn add_entry(&mut self, entry: TreeEntry)
        ensures
            final(self)@ == old(self)@.push(entry@),
            final(self).entries@ == old(self).entries@.push(entry),
    {
        self.entries.push(entry);
        assert(self@ =~= old(self)@.push(entry@));
    }

    /// Serialize the tree to binary format. `InvalidAddress` where the
    /// address of an entry is not hexadecimal.
    pub fn serialize(&self) -> (res: Result<Vec<u8>, RitError>)
        ensures
            bytes_result(res) == serialized(tree_bytes(self@)),
    {
        let mut data: Vec<u8> = Vec::new();
        let mut i: usize = 0;
        assert(self@.take(0) =~= Seq::<EntryView>::empty());
        while i < self.entries.len()
            invariant
                i <= self.entries@.len(),
                tree_bytes(self@.take(i as int)) == Some(data@),
            decreases self.entries@.len() - i,
        {
            proof {
                lemma_tree_bytes_push(self@.take(i as int), self@[i as int]);
                assert(self@.take(i + 1) =~= self@.take(i as int).push(self@[i as int]));
            }
            match self.entries[i].serialize() {
                Ok(bytes) => {
                    data.extend_from_slice(bytes.as_slice());
                },
                Err(e) => {
                    proof {
                        lemma_tree_bytes_rest(self@, i + 1);
                    }
                    return Err(e);
                },
            }
            i += 1;
        }
        assert(self@.take(i as int) =~= self@);
        Ok(data)
    }
}

/// A tree has no bytes where one of its prefixes has none.
pub proof fn lemma_tree_bytes_rest(t: Seq<EntryView>, k: int)
    requires
        0 <= k <= t.len(),
        tree_bytes(t.take(k)) is None,
    ensures
        tree_bytes(t) is None,
    decreases t.len() - k,
{
    if k < t.len() {
        lemma_tree_bytes_push(t.take(k), t[k]);
        assert(t.take(k + 1) =~= t.take(k).push(t[k]));
        lemma_tree_bytes_rest(t, k + 1);
    } else {
        assert(t.take(k) =~= t);
    }
}

impl Default for Tree {
    fn default() -> (tree: Self)
        ensures
            tree.entries@ == Seq::<TreeEntry>::empty(),
            tree@ == Seq::<EntryView>::empty(),
    {
        Tree::new()
    }
}

/// The name that an entry is sorted under: a directory's name ends in `/`.
pub open spec fn sort_key(e: EntryView) -> Seq<u8> {
    if is_tree_mode(e.mode) {
        e.name.push(47u8)
    } else {
        e.name
    }
}

/// Whether `a` sorts strictly before `b`.
pub open spec fn entry_before(a: EntryView, b: EntryView) -> bool {
    lex_lt(sort_key(a), sort_key(b))
}

/// Whether no entry of `t` sorts strictly before an earlier one.
pub open spec fn is_sorted(t: Seq<EntryView>) -> bool {
    forall|i: int, j: int| 0 <= i < j < t.len() ==> !entry_before(#[trigger] t[j], #[trigger] t[i])
}

/// `t` with `e` put behind the last entry that does not sort after it.
pub open spec fn insert_sorted(t: Seq<EntryView>, e: EntryView) -> Seq<EntryView>
    decreases t.len(),
{
    if t.len() == 0 {
        seq![e]
    } else if entry_before(e, t.last()) {
        insert_sorted(t.drop_last(), e).push(t.last())
    } else {
        t.push(e)
    }
}

/// The entries of `t` in sorted order; entries that sort alike keep the
/// order they had.
pub open spec fn sorted_entries(t: Seq<EntryView>) -> Seq<EntryView>
    decreases t.len(),
{
    if t.len() == 0 {
        t
    } else {
        insert_sorted(sorted_entries(t.drop_last()), t.last())
    }
}

/// `insert_sorted` puts the entry at the one position that has only later
/// entries behind it and no later entry right before it.
pub proof fn lemma_insert_position(t: Seq<EntryView>, e: EntryView, at: int)
    requires
        0 <= at <= t.len(),
        forall|k: int| at <= k < t.len() ==> entry_before(e, #[trigger] t[k]),
        at > 0 ==> !entry_before(e, t[at - 1]),
    ensures
        insert_sorted(t, e) == t.insert(at, e),
    decreases t.len(),
{
    if t.len() == 0 {
        assert(t.insert(at, e) =~= seq![e]);
    } else if at == t.len() {
        assert(t.insert(at, e) =~= t.push(e));
    } else {
        assert(entry_before(e, t[t.len() - 1]));
        let front = t.drop_last();
        assert forall|k: int| at <= k < front.len() implies entry_before(e, #[trigger] front[k]) by {
            assert(front[k] == t[k]);
        }
        lemma_insert_position(front, e, at);
        assert(front.insert(at, e).push(t.last()) =~= t.insert(at, e));
    }
}

/// The position at which `insert_sorted` puts an entry.
pub open spec fn insert_point(t: Seq<EntryView>, e: EntryView) -> int
    decreases t.len(),
{
    if t.len() == 0 {
        0
    } else if entry_before(e, t.last()) {
        insert_point(t.drop_last(), e)
    } else {
        t.len() as int
    }
}

/// `insert_sorted` is an insertion at `insert_point`, behind which every
/// entry sorts after the new one.
pub proof fn lemma_insert_point(t: Seq<EntryView>, e: EntryView)
    ensures
        0 <= insert_point(t, e) <= t.len(),
        insert_sorted(t, e) == t.insert(insert_point(t, e), e),
        forall|k: int| insert_point(t, e) <= k < t.len() ==> entry_before(e, #[trigger] t[k]),
        insert_point(t, e) > 0 ==> !entry_before(e, t[insert_point(t, e) - 1]),
    decreases t.len(),
{
    if t.len() > 0 && entry_before(e, t.last()) {
        let front = t.drop_last();
        lemma_insert_point(front, e);
        let at = insert_point(front, e);
        assert forall|k: int| at <= k < t.len() implies entry_before(e, #[trigger] t[k]) by {
            if k < front.len() {
                assert(front[k] == t[k]);
            }
        }
        if at > 0 {
            assert(front[at - 1] == t[at - 1]);
        }
    }
    lemma_insert_position(t, e, insert_point(t, e));
}

/// Putting an entry into a sorted tree leaves it sorted.
pub proof fn lemma_insert_sorted_is_sorted(t: Seq<EntryView>, e: EntryView)
    requires
        is_sorted(t),
    ensures
        is_sorted(insert_sorted(t, e)),
{
    lemma_insert_point(t, e);
    let at = insert_point(t, e);
    let r = t.insert(at, e);
    assert forall|i: int, j: int| 0 <= i < j < r.len() implies !entry_before(
        #[trigger] r[j],
        #[trigger] r[i],
    ) by {
        if j == at {
            // r[j] is the new entry, r[i] an entry before the insertion point
            assert(r[i] == t[i]);
            let last = t[at - 1];
            if i < at - 1 {
                assert(!entry_before(t[at - 1], t[i]));
            }
            if entry_before(e, t[i]) {
                lemma_lex_lt_total(sort_key(t[i]), sort_key(last));
                if lex_lt(sort_key(t[i]), sort_key(last)) {
                    lemma_lex_lt_transitive(sort_key(e), sort_key(t[i]), sort_key(last));
                }
            }
        } else if i == at {
            assert(r[j] == t[j - 1]);
            assert(entry_before(e, t[j - 1]));
            lemma_lex_lt_asymmetric(sort_key(e), sort_key(t[j - 1]));
        } else {
            let a = if i < at {
                i
            } else {
                i - 1
            };
            let b = if j < at {
                j
            } else {
                j - 1
            };
            assert(r[i] == t[a]);
            assert(r[j] == t[b]);
        }
    }
}

/// `sorted_entries` is sorted.
pub proof fn lemma_sorted_entries_sorted(t: Seq<EntryView>)
    ensures
        is_sorted(sorted_entries(t)),
    decreases t.len(),
{
    if t.len() > 0 {
        lemma_sorted_entries_sorted(t.drop_last());
        lemma_insert_sorted_is_sorted(sorted_entries(t.drop_last()), t.last());
    }
}

/// `sorted_entries` holds the same entries, each as often as before.
pub proof fn lemma_sorted_entries_permutes(t: Seq<EntryView>)
    ensures
        sorted_entries(t).len() == t.len(),
        sorted_entries(t).to_multiset() == t.to_multiset(),
    decreases t.len(),
{
    if t.len() > 0 {
        let front = t.drop_last();
        lemma_sorted_entries_permutes(front);
        let s = sorted_entries(front);
        lemma_insert_point(s, t.last());
        to_multiset_insert(s, insert_point(s, t.last()), t.last());
        assert(t =~= front.push(t.last()));
        vstd::seq_lib::to_multiset_build(front, t.last());
    }
}

/// The bytes of the name that `entry` is sorted under.
pub fn sort_key_bytes(entry: &TreeEntry) -> (key: Vec<u8>)
    ensures
        key@ == sort_key(entry@),
{
    let mut key: Vec<u8> = Vec::new();
    key.extend_from_slice(entry.name.as_str().as_bytes());
    if entry.is_tree() {
        key.push(47);
    }
    assert(key@ =~= sort_key(entry@));
    key
}

impl Tree {
    /// Sort entries by name (required before serializing). A directory is
    /// sorted as if its name had a trailing `/`.
    pub fn sort(&mut self)
        ensures
            final(self)@ == sorted_entries(old(self)@),
    {
        let mut done: Vec<TreeEntry> = Vec::new();
        let mut i: usize = 0;
        assert(self@.take(0) =~= Seq::<EntryView>::empty());
        assert(done@.map_values(|e: TreeEntry| e@) =~= Seq::<EntryView>::empty());
        while i < self.entries.len()
            invariant
                i <= self.entries@.len(),
                *self == *old(self),
                done@.map_values(|e: TreeEntry| e@) == sorted_entries(self@.take(i as int)),
            decreases self.entries@.len() - i,
        {
            let entry = self.entries[i].duplicate();
            let key = sort_key_bytes(&entry);
            let ghost before = done@.map_values(|e: TreeEntry| e@);
            let mut at: usize = done.len();
            while at > 0
                invariant
                    at <= done@.len(),
                    key@ == sort_key(entry@),
                    before == done@.map_values(|e: TreeEntry| e@),
                    forall|k: int| at <= k < before.len() ==> entry_before(entry@, #[trigger] before[k]),
                ensures
                    at > 0 ==> !entry_before(entry@, before[at - 1]),
                decreases at,
            {
                let other = sort_key_bytes(&done[at - 1]);
                if !bytes_lt(key.as_slice(), other.as_slice()) {
                    break;
                }
                at -= 1;
            }
            proof {
                lemma_insert_position(before, entry@, at as int);
                assert(self@.take(i + 1).drop_last() =~= self@.take(i as int));
                assert(self@.take(i + 1).last() == entry@);
            }
            done.insert(at, entry);
            assert(done@.map_values(|e: TreeEntry| e@) =~= before.insert(at as int, entry@));
            i += 1;
        }
        assert(self@.take(i as int) =~= self@);
        self.entries = done;
    }
}

/// The entries that tree bytes hold, or `None` where the bytes are not a
/// tree. Each entry runs to the first space (the mode), on to the first NUL
/// (the name), and 20 bytes further (the address).
pub open spec fn parse_tree(raw: Seq<u8>) -> Option<Seq<EntryView>>
    decreases raw.len(),
{
    if raw.len() == 0 {
        Some(Seq::<EntryView>::empty())
    } else {
        let space = index_of(raw, 32);
        let rest = raw.skip(space + 1);
        let nul = index_of(rest, 0);
        let tail = rest.skip(nul + 1);
        if 0 <= space < raw.len() && 0 <= nul < rest.len() && tail.len() >= 20 {
            match parse_tree(tail.skip(20)) {
                Some(more) => Some(
                    seq![
                        EntryView {
                            mode: text_bytes(raw.take(space)),
                            name: text_bytes(rest.take(nul)),
                            hash: hex_digits(tail.take(20)),
                        },
                    ] + more,
                ),
                None => None,
            }
        } else {
            None
        }
    }
}

/// The view of the result of parsing a tree.
pub open spec fn tree_result(res: Result<Tree, RitError>) -> Result<Seq<EntryView>, RitError> {
    match res {
        Ok(t) => Ok(t@),
        Err(e) => Err(e),
    }
}

/// What `Tree::parse` returns for what the bytes hold.
pub open spec fn parsed(entries: Option<Seq<EntryView>>) -> Result<Seq<EntryView>, RitError> {
    match entries {
        Some(t) => Ok(t),
        None => Err(RitError::MalformedTree),
    }
}

impl Tree {
    /// Parse a tree from raw content bytes. `MalformedTree` where a
    /// separator is missing or fewer than 20 bytes follow a name.
    pub fn parse(content: &[u8]) -> (res: Result<Tree, RitError>)
        ensures
            tree_result(res) == parsed(parse_tree(content@)),
    {
        let mut entries: Vec<TreeEntry> = Vec::new();
        let mut pos: usize = 0;
        let ghost mut seen: Seq<EntryView> = Seq::empty();
        proof {
            assert(content@.skip(0) =~= content@);
            match parse_tree(content@) {
                Some(all) => {
                    assert(seen + all =~= all);
                },
                None => {},
            }
        }
        while pos < content.len()
            invariant
                pos <= content.len(),
                seen == entries@.map_values(|e: TreeEntry| e@),
                parse_tree(content@) == match parse_tree(content@.skip(pos as int)) {
                    Some(more) => Some(seen + more),
                    None => None,
                },
            decreases content.len() - pos,
        {
            let ghost raw = content@.skip(pos as int);
            let space = find_byte(content, pos, 32);
            if space == content.len() {
                return Err(RitError::MalformedTree);
            }
            let name_start = space + 1;
            let ghost rest = raw.skip(space - pos + 1);
            assert(rest =~= content@.skip(name_start as int));
            let nul = find_byte(content, name_start, 0);
            if nul == content.len() {
                return Err(RitError::MalformedTree);
            }
            let hash_start = nul + 1;
            let ghost tail = rest.skip(nul - name_start + 1);
            assert(tail =~= content@.skip(hash_start as int));
            if content.len() - hash_start < 20 {
                return Err(RitError::MalformedTree);
            }
            let mode = text_from_bytes(&content[pos..space]);
            let name = text_from_bytes(&content[name_start..nul]);
            let hash = to_hex(&content[hash_start..hash_start + 20]);
            let entry = TreeEntry { mode, name, hash };
            proof {
                assert(content@.subrange(pos as int, space as int) =~= raw.take(space - pos));
                assert(content@.subrange(name_start as int, nul as int) =~= rest.take(
                    nul - name_start,
                ));
                assert(content@.subrange(hash_start as int, hash_start + 20) =~= tail.take(20));
                assert(tail.skip(20) =~= content@.skip(hash_start + 20));
                match parse_tree(tail.skip(20)) {
                    Some(more) => {
                        assert(seen + (seq![entry@] + more) =~= seen.push(entry@) + more);
                    },
                    None => {},
                }
                seen = seen.push(entry@);
            }
            entries.push(entry);
            assert(entries@.map_values(|e: TreeEntry| e@) =~= seen);
            pos = hash_start + 20;
        }
        proof {
            assert(seen + Seq::<EntryView>::empty() =~= seen);
        }
        Ok(Tree { entries })
    }
}

/// Whether an entry can be read back from its bytes: its mode and name are
/// texts, the mode without a space and the name without a NUL byte, and its
/// address is 40 lower-case hexadecimal digits.
pub open spec fn entry_reads_back(e: EntryView) -> bool {
    &&& valid_utf8(e.mode)
    &&& valid_utf8(e.name)
    &&& !e.mode.contains(32)
    &&& !e.name.contains(0)
    &&& is_address(e.hash)
}

/// The bytes of such an entry, followed by anything, parse to the entry and
/// what the rest parses to.
pub proof fn lemma_parse_entry(e: EntryView, rest: Seq<u8>)
    requires
        entry_reads_back(e),
    ensures
        entry_bytes(e) is Some,
        parse_tree(entry_bytes(e)->0 + rest) == match parse_tree(rest) {
            Some(more) => Some(seq![e] + more),
            None => None,
        },
{
    lemma_hex_canonical(e.hash);
    let address = hex_bytes(e.hash);
    let raw = entry_bytes(e)->0 + rest;
    let after_mode = e.name + seq![0u8] + address + rest;
    assert(raw =~= e.mode + seq![32u8] + after_mode);
    lemma_index_of_delimited(e.mode, 32, after_mode);
    let space = index_of(raw, 32);
    assert(raw.take(space) =~= e.mode);
    assert(raw.skip(space + 1) =~= after_mode);
    let after_name = address + rest;
    assert(after_mode =~= e.name + seq![0u8] + after_name);
    lemma_index_of_delimited(e.name, 0, after_name);
    let nul = index_of(after_mode, 0);
    assert(after_mode.take(nul) =~= e.name);
    assert(after_mode.skip(nul + 1) =~= after_name);
    assert(after_name.take(20) =~= address);
    assert(after_name.skip(20) =~= rest);
}

/// Round trip: a tree whose entries can be read back serializes, and its
/// bytes parse to the same tree.
pub proof fn lemma_tree_roundtrip(t: Seq<EntryView>)
    requires
        forall|i: int| 0 <= i < t.len() ==> entry_reads_back(#[trigger] t[i]),
    ensures
        tree_bytes(t) is Some,
        parse_tree(tree_bytes(t)->0) == Some(t),
    decreases t.len(),
{
    if t.len() > 0 {
        let rest = t.drop_first();
        assert forall|i: int| 0 <= i < rest.len() implies entry_reads_back(#[trigger] rest[i]) by {
            assert(rest[i] == t[i + 1]);
        }
        lemma_tree_roundtrip(rest);
        assert(entry_reads_back(t[0]));
        lemma_parse_entry(t[0], tree_bytes(rest)->0);
        assert(seq![t[0]] + rest =~= t);
    }
}

/// Sorting keeps the entries: each entry of the sorted tree is one of the tree.
pub proof fn lemma_sorted_entries_members(t: Seq<EntryView>, i: int)
    requires
        0 <= i < sorted_entries(t).len(),
    ensures
        t.contains(sorted_entries(t)[i]),
    decreases t.len(),
{
    if t.len() > 0 {
        let front = t.drop_last();
        let s = sorted_entries(front);
        lemma_insert_point(s, t.last());
        let at = insert_point(s, t.last());
        if i == at {
            assert(t[t.len() - 1] == t.last());
        } else {
            let k = if i < at {
                i
            } else {
                i - 1
            };
            assert(sorted_entries(t)[i] == s[k]);
            lemma_sorted_entries_members(front, k);
            let w = choose|w: int| 0 <= w < front.len() && front[w] == s[k];
            assert(t[w] == s[k]);
        }
    }
}

/// Round trip after sorting: the sorted tree serializes, and its bytes parse
/// to the sorted tree.
pub proof fn lemma_sorted_tree_roundtrip(t: Seq<EntryView>)
    requires
        forall|i: int| 0 <= i < t.len() ==> entry_reads_back(#[trigger] t[i]),
    ensures
        tree_bytes(sorted_entries(t)) is Some,
        parse_tree(tree_bytes(sorted_entries(t))->0) == Some(sorted_entries(t)),
{
    let s = sorted_entries(t);
    assert forall|i: int| 0 <= i < s.len() implies entry_reads_back(#[trigger] s[i]) by {
        lemma_sorted_entries_members(t, i);
        let w = choose|w: int| 0 <= w < t.len() && t[w] == s[i];
        assert(entry_reads_back(t[w]));
    }
    lemma_tree_roundtrip(s);
}

} // verus!
