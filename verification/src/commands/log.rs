//! Commit history: the first-parent walk from a starting commit.

use crate::bytes::{bytes_eq, decimal, distinct_keys, lemma_found_bound, position_of, push_decimal};
use crate::commands::cat_file::{read_object, read_spec};
use crate::commands::hash_object::{commit_type, tag_commit};
use crate::error::RitError;
use crate::objects::commit::{parse_commit, Commit, CommitView};
use crate::store::ObjectStore;
use crate::text::{
    first_line, first_line_end, join_lines, join_texts, lines_of, lines_view, split_text,
    text_bytes, text_from_bytes, texts_view,
};
use vstd::prelude::*;
use vstd::string::*;
use vstd::utf8::*;

verus! {

/// What reading `address` as a commit gives: the commit; `None` where the
/// object is of another type; the failure where the object cannot be read
/// or its text is no commit.
pub open spec fn read_commit(store: Map<Seq<u8>, Seq<u8>>, address: Seq<u8>) -> Result<
    Option<CommitView>,
    RitError,
> {
    match read_spec(store, address) {
        Err(e) => Err(e),
        Ok(o) => if o.object_type != tag_commit() {
            Ok(None)
        } else {
            match parse_commit(text_bytes(o.content)) {
                Ok(c) => Ok(Some(c)),
                Err(e) => Err(e),
            }
        },
    }
}

/// The view of the result of reading a commit.
pub open spec fn loaded(res: Result<Option<Commit>, RitError>) -> Result<
    Option<CommitView>,
    RitError,
> {
    match res {
        Ok(Some(c)) => Ok(Some(c@)),
        Ok(None) => Ok(None),
        Err(e) => Err(e),
    }
}

/// Reads the object at `address` as a commit; `Ok(None)` where it is of
/// another type.
pub fn load_commit(store: &ObjectStore, address: &str) -> (res: Result<Option<Commit>, RitError>)
    ensures
        loaded(res) == read_commit(store@, address.spec_bytes()),
{
    let object = match read_object(store, address) {
        Ok(o) => o,
        Err(e) => {
            return Err(e);
        },
    };
    if !bytes_eq(object.object_type.as_str().as_bytes(), commit_type().as_bytes()) {
        return Ok(None);
    }
    let text = text_from_bytes(object.content.as_slice());
    match Commit::parse(text.as_str()) {
        Ok(c) => Ok(Some(c)),
        Err(e) => Err(e),
    }
}

/// A commit together with the address it was read from.
#[derive(Debug, Clone)]
pub struct CommitRecord {
    pub address: String,
    pub commit: Commit,
}

/// What a `CommitRecord` stands for.
pub struct RecordView {
    pub address: Seq<u8>,
    pub commit: CommitView,
}

impl View for CommitRecord {
    type V = RecordView;

    open spec fn view(&self) -> RecordView {
        RecordView { address: encode_utf8(self.address@), commit: self.commit@ }
    }
}

/// The views of records.
pub open spec fn records_view(records: Seq<CommitRecord>) -> Seq<RecordView> {
    records.map_values(|r: CommitRecord| r@)
}

/// The addresses of records.
pub open spec fn addresses_of(records: Seq<RecordView>) -> Seq<Seq<u8>> {
    records.map_values(|r: RecordView| r.address)
}

/// The address that a walk from `start` looks at next, after it has
/// yielded `records`: the first parent of the last commit, if it has one.
pub open spec fn next_address(start: Seq<u8>, records: Seq<RecordView>) -> Option<Seq<u8>> {
    if records.len() == 0 {
        Some(start)
    } else if records.last().commit.parents.len() == 0 {
        None
    } else {
        Some(records.last().commit.parents[0])
    }
}

/// Whether a walk that has yielded `records` goes on to `address`: the
/// address is not empty and was not visited.
pub open spec fn goes_on(records: Seq<RecordView>, address: Seq<u8>) -> bool {
    address.len() > 0 && forall|i: int| 0 <= i < records.len() ==> (#[trigger] records[i]).address
        != address
}

/// Whether `records` is what a first-parent walk from `start` yields, as
/// far as it goes: each record is the commit stored at its address, the
/// first is at `start`, each further one at the first parent of the one
/// before, and no address occurs twice.
pub open spec fn is_chain(
    store: Map<Seq<u8>, Seq<u8>>,
    start: Seq<u8>,
    records: Seq<RecordView>,
) -> bool {
    &&& forall|i: int|
        0 <= i < records.len() ==> read_commit(store, (#[trigger] records[i]).address) == Ok::<
            Option<CommitView>,
            RitError,
        >(Some(records[i].commit))
    &&& forall|i: int|
        0 <= i < records.len() ==> next_address(start, records.take(i)) == Some(
            (#[trigger] records[i]).address,
        )
    &&& forall|i: int| 0 <= i < records.len() ==> goes_on(records.take(i), #[trigger] records[i].address)
}

/// Whether a walk from `start` that has yielded `records` ends there: no
/// parent is left, or the next address is empty or was visited, or the
/// object there is not a commit.
pub open spec fn chain_ends(
    store: Map<Seq<u8>, Seq<u8>>,
    start: Seq<u8>,
    records: Seq<RecordView>,
) -> bool {
    match next_address(start, records) {
        None => true,
        Some(a) => !goes_on(records, a) || read_commit(store, a) == Ok::<
            Option<CommitView>,
            RitError,
        >(None),
    }
}

/// Whether a walk from `start` that has yielded `records` fails with `e` at
/// the next address.
pub open spec fn chain_fails(
    store: Map<Seq<u8>, Seq<u8>>,
    start: Seq<u8>,
    records: Seq<RecordView>,
    e: RitError,
) -> bool {
    match next_address(start, records) {
        None => false,
        Some(a) => goes_on(records, a) && read_commit(store, a) == Err::<
            Option<CommitView>,
            RitError,
        >(e),
    }
}

/// In a chain no address occurs twice.
pub proof fn lemma_chain_distinct(
    store: Map<Seq<u8>, Seq<u8>>,
    start: Seq<u8>,
    records: Seq<RecordView>,
)
    requires
        is_chain(store, start, records),
    ensures
        distinct_keys(addresses_of(records)),
{
    let addresses = addresses_of(records);
    assert forall|i: int, j: int| 0 <= i < j < addresses.len() implies #[trigger] addresses[i]
        != #[trigger] addresses[j] by {
        assert(goes_on(records.take(j), records[j].address));
        assert(records.take(j)[i] == records[i]);
    }
}

/// Two chains from one start agree as far as the shorter one goes.
pub proof fn lemma_chain_prefix(
    store: Map<Seq<u8>, Seq<u8>>,
    start: Seq<u8>,
    a: Seq<RecordView>,
    b: Seq<RecordView>,
    k: int,
)
    requires
        is_chain(store, start, a),
        is_chain(store, start, b),
        0 <= k <= a.len(),
        k <= b.len(),
    ensures
        a.take(k) == b.take(k),
    decreases k,
{
    if k == 0 {
        assert(a.take(0) =~= b.take(0));
    } else {
        lemma_chain_prefix(store, start, a, b, k - 1);
        let i = k - 1;
        assert(next_address(start, a.take(i)) == Some(a[i].address));
        assert(next_address(start, b.take(i)) == Some(b[i].address));
        assert(read_commit(store, a[i].address) == Ok::<Option<CommitView>, RitError>(
            Some(a[i].commit),
        ));
        assert(read_commit(store, b[i].address) == Ok::<Option<CommitView>, RitError>(
            Some(b[i].commit),
        ));
        assert(a.take(k) =~= a.take(i).push(a[i]));
        assert(b.take(k) =~= b.take(i).push(b[i]));
    }
}

/// A store and a start have one history: two chains that both end where
/// they stand are the same.
pub proof fn lemma_walk_unique(
    store: Map<Seq<u8>, Seq<u8>>,
    start: Seq<u8>,
    a: Seq<RecordView>,
    b: Seq<RecordView>,
)
    requires
        is_chain(store, start, a),
        chain_ends(store, start, a),
        is_chain(store, start, b),
        chain_ends(store, start, b),
    ensures
        a == b,
{
    if a.len() <= b.len() {
        lemma_chain_prefix(store, start, a, b, a.len() as int);
        assert(a.take(a.len() as int) =~= a);
        if a.len() < b.len() {
            let next = b[a.len() as int];
            assert(next_address(start, b.take(a.len() as int)) == Some(next.address));
            assert(goes_on(b.take(a.len() as int), next.address));
            assert(read_commit(store, next.address) == Ok::<Option<CommitView>, RitError>(
                Some(next.commit),
            ));
        } else {
            assert(b.take(b.len() as int) =~= b);
        }
    } else {
        lemma_chain_prefix(store, start, a, b, b.len() as int);
        assert(b.take(b.len() as int) =~= b);
        let next = a[b.len() as int];
        assert(next_address(start, a.take(b.len() as int)) == Some(next.address));
        assert(goes_on(a.take(b.len() as int), next.address));
        assert(read_commit(store, next.address) == Ok::<Option<CommitView>, RitError>(
            Some(next.commit),
        ));
    }
}

/// Whether `address` is the address of one of `records`.
pub fn visited(records: &Vec<CommitRecord>, address: &str) -> (yes: bool)
    ensures
        yes == exists|i: int|
            0 <= i < records@.len() && (#[trigger] records_view(records@)[i]).address
                == address.spec_bytes(),
{
    let ghost views = records_view(records@);
    let mut i: usize = 0;
    while i < records.len()
        invariant
            i <= records@.len(),
            views == records_view(records@),
            forall|k: int| 0 <= k < i ==> (#[trigger] views[k]).address != address.spec_bytes(),
        decreases records@.len() - i,
    {
        if bytes_eq(records[i].address.as_str().as_bytes(), address.as_bytes()) {
            assert(views[i as int].address == address.spec_bytes());
            return true;
        }
        i += 1;
    }
    false
}

/// The history of `start_hash`: the commit there, then the commit at its
/// first parent, and so on, newest first.
///
/// The walk ends at a commit without parents, at an empty address, at an
/// address that it has visited (which a corrupted history can lead back
/// to), or at an object that is not a commit. It fails where an object on
/// the way cannot be read or parsed.
pub fn walk(store: &ObjectStore, start_hash: &str) -> (res: Result<Vec<CommitRecord>, RitError>)
    ensures
        match res {
            Ok(records) => is_chain(store@, start_hash.spec_bytes(), records_view(records@))
                && chain_ends(store@, start_hash.spec_bytes(), records_view(records@)),
            Err(e) => exists|records: Seq<RecordView>|
                is_chain(store@, start_hash.spec_bytes(), records) && #[trigger] chain_fails(
                    store@,
                    start_hash.spec_bytes(),
                    records,
                    e,
                ),
        },
{
    let ghost start = start_hash.spec_bytes();
    let ghost map = store@;
    let mut records: Vec<CommitRecord> = Vec::new();
    let mut current: String = start_hash.to_owned();
    proof {
        assert(records_view(records@) =~= Seq::<RecordView>::empty());
    }
    loop
        invariant_except_break
            map == store@,
            start == start_hash.spec_bytes(),
            is_chain(map, start, records_view(records@)),
            next_address(start, records_view(records@)) == Some(encode_utf8(current@)),
        ensures
            is_chain(map, start, records_view(records@)),
            chain_ends(map, start, records_view(records@)),
        decreases store.objects@.len() - records@.len(),
    {
        let ghost views = records_view(records@);
        let ghost here = encode_utf8(current@);
        if current.as_str().as_bytes().len() == 0 || visited(&records, current.as_str()) {
            break;
        }
        assert(goes_on(views, here));
        let commit = match load_commit(store, current.as_str()) {
            Ok(Some(c)) => c,
            Ok(None) => {
                break;
            },
            Err(e) => {
                assert(chain_fails(map, start, views, e));
                return Err(e);
            },
        };
        let next: Option<String> = if commit.parents.len() > 0 {
            Some(commit.parents[0].clone())
        } else {
            None
        };
        let record = CommitRecord { address: current, commit };
        let ghost longer = views.push(record@);
        proof {
            assert(is_chain(map, start, longer)) by {
                assert forall|i: int| 0 <= i < longer.len() implies next_address(
                    start,
                    longer.take(i),
                ) == Some((#[trigger] longer[i]).address) && goes_on(longer.take(i), longer[i].address)
                    && read_commit(map, longer[i].address) == Ok::<Option<CommitView>, RitError>(
                    Some(longer[i].commit),
                ) by {
                    if i < views.len() {
                        assert(longer[i] == views[i]);
                        assert(longer.take(i) =~= views.take(i));
                    } else {
                        assert(longer.take(i) =~= views);
                    }
                }
            }
            lemma_chain_distinct(map, start, longer);
            assert forall|i: int| 0 <= i < longer.len() implies position_of(
                store.keys(),
                #[trigger] addresses_of(longer)[i],
            ) < store.keys().len() by {
                assert(read_commit(map, longer[i].address) is Ok);
                assert(map.contains_key(longer[i].address));
            }
            lemma_found_bound(store.keys(), addresses_of(longer));
        }
        records.push(record);
        assert(records_view(records@) =~= longer);
        match next {
            Some(parent) => {
                assert(encode_utf8(parent@) == longer.last().commit.parents[0]);
                current = parent;
            },
            None => {
                break;
            },
        }
    }
    Ok(records)
}

/// The first seven bytes of an address, or all of it where it is shorter.
pub open spec fn short_hash(hash: Seq<u8>) -> Seq<u8> {
    hash.take(
        if hash.len() < 7 {
            hash.len() as int
        } else {
            7
        },
    )
}

/// The bytes of `commit `.
pub open spec fn word_commit() -> Seq<u8> {
    seq![99u8, 111u8, 109u8, 109u8, 105u8, 116u8, 32u8]
}

/// The bytes of `Merge: `.
pub open spec fn word_merge() -> Seq<u8> {
    seq![77u8, 101u8, 114u8, 103u8, 101u8, 58u8, 32u8]
}

/// The bytes of `Author: `.
pub open spec fn word_author() -> Seq<u8> {
    seq![65u8, 117u8, 116u8, 104u8, 111u8, 114u8, 58u8, 32u8]
}

/// The bytes of `Date:   `.
pub open spec fn word_date() -> Seq<u8> {
    seq![68u8, 97u8, 116u8, 101u8, 58u8, 32u8, 32u8, 32u8]
}

/// The bytes of four spaces, which stand before each line of a message.
pub open spec fn indent() -> Seq<u8> {
    seq![32u8, 32u8, 32u8, 32u8]
}

/// The lines that show a commit in full: its address, its first two
/// parents if it is a merge, its author, the author's time, an empty line,
/// and the lines of the message, indented.
pub open spec fn commit_lines(c: CommitView, hash: Seq<u8>) -> Seq<Seq<u8>> {
    seq![word_commit() + hash] + (if c.parents.len() >= 2 {
        seq![word_merge() + short_hash(c.parents[0]) + seq![32u8] + short_hash(c.parents[1])]
    } else {
        Seq::<Seq<u8>>::empty()
    }) + seq![
        word_author() + c.author.name + seq![32u8, 60u8] + c.author.email + seq![62u8],
        word_date() + decimal(c.author.timestamp),
        Seq::<u8>::empty(),
    ] + lines_of(c.message).map_values(|l: Seq<u8>| indent() + l)
}

/// The text that shows a commit: on one line its short address and the
/// first line of its message, or else its lines in full.
pub open spec fn commit_text(c: CommitView, hash: Seq<u8>, oneline: bool) -> Seq<u8> {
    if oneline {
        short_hash(hash) + seq![32u8] + first_line(c.message)
    } else {
        join_lines(commit_lines(c, hash))
    }
}

/// Appends the first seven bytes of `hash`, or all of it where it is shorter.
pub fn push_short_hash(out: &mut Vec<u8>, hash: &[u8])
    ensures
        final(out)@ == old(out)@ + short_hash(hash@),
{
    let n: usize = if hash.len() < 7 {
        hash.len()
    } else {
        7
    };
    out.extend_from_slice(&hash[0..n]);
    assert(hash@.subrange(0, n as int) =~= short_hash(hash@));
}

/// Format Unix timestamp for display: its decimal digits
pub fn format_timestamp(timestamp: u64) -> (text: String)
    ensures
        encode_utf8(text@) == text_bytes(decimal(timestamp as nat)),
{
    let mut out: Vec<u8> = Vec::new();
    push_decimal(&mut out, timestamp);
    assert(out@ =~= decimal(timestamp as nat));
    text_from_bytes(out.as_slice())
}

/// Format a commit for display
pub fn format_commit(commit: &Commit, commit_hash: &str, oneline: bool) -> (text: String)
    ensures
        encode_utf8(text@) == text_bytes(commit_text(commit@, commit_hash.spec_bytes(), oneline)),
{
    let hash = commit_hash.as_bytes();
    let message = commit.message.as_str().as_bytes();
    if oneline {
        let mut out: Vec<u8> = Vec::new();
        push_short_hash(&mut out, hash);
        out.push(32);
        let end = first_line_end(message);
        out.extend_from_slice(&message[0..end]);
        proof {
            assert(message@.subrange(0, end as int) =~= message@.take(end as int));
            assert(out@ =~= commit_text(commit@, commit_hash.spec_bytes(), true));
        }
        return text_from_bytes(out.as_slice());
    }
    let ghost c = commit@;
    let mut lines: Vec<Vec<u8>> = Vec::new();
    let mut first: Vec<u8> = Vec::new();
    first.push(99);
    first.push(111);
    first.push(109);
    first.push(109);
    first.push(105);
    first.push(116);
    first.push(32);
    first.extend_from_slice(hash);
    assert(first@ =~= word_commit() + hash@);
    lines.push(first);
    if commit.parents.len() >= 2 {
        let mut merge: Vec<u8> = Vec::new();
        merge.push(77);
        merge.push(101);
        merge.push(114);
        merge.push(103);
        merge.push(101);
        merge.push(58);
        merge.push(32);
        push_short_hash(&mut merge, commit.parents[0].as_str().as_bytes());
        merge.push(32);
        push_short_hash(&mut merge, commit.parents[1].as_str().as_bytes());
        proof {
            assert(c.parents[0] == encode_utf8(commit.parents@[0]@));
            assert(c.parents[1] == encode_utf8(commit.parents@[1]@));
            assert(merge@ =~= word_merge() + short_hash(c.parents[0]) + seq![32u8] + short_hash(
                c.parents[1],
            ));
        }
        lines.push(merge);
    }
    let mut author: Vec<u8> = Vec::new();
    author.push(65);
    author.push(117);
    author.push(116);
    author.push(104);
    author.push(111);
    author.push(114);
    author.push(58);
    author.push(32);
    author.extend_from_slice(commit.author.name.as_str().as_bytes());
    author.push(32);
    author.push(60);
    author.extend_from_slice(commit.author.email.as_str().as_bytes());
    author.push(62);
    assert(author@ =~= word_author() + c.author.name + seq![32u8, 60u8] + c.author.email + seq![
        62u8,
    ]);
    lines.push(author);
    let mut date: Vec<u8> = Vec::new();
    date.push(68);
    date.push(97);
    date.push(116);
    date.push(101);
    date.push(58);
    date.push(32);
    date.push(32);
    date.push(32);
    push_decimal(&mut date, commit.author.timestamp);
    assert(date@ =~= word_date() + decimal(c.author.timestamp));
    lines.push(date);
    lines.push(Vec::new());
    let ghost head = lines_view(lines@);
    proof {
        assert(head =~= seq![word_commit() + hash@] + (if c.parents.len() >= 2 {
            seq![word_merge() + short_hash(c.parents[0]) + seq![32u8] + short_hash(c.parents[1])]
        } else {
            Seq::<Seq<u8>>::empty()
        }) + seq![
            word_author() + c.author.name + seq![32u8, 60u8] + c.author.email + seq![62u8],
            word_date() + decimal(c.author.timestamp),
            Seq::<u8>::empty(),
        ]);
    }
    let body = split_text(message);
    let ghost all = lines_view(body@);
    let mut i: usize = 0;
    assert(lines_view(lines@) =~= head + all.take(0).map_values(|l: Seq<u8>| indent() + l));
    while i < body.len()
        invariant
            i <= body@.len(),
            all == lines_view(body@),
            lines_view(lines@) == head + all.take(i as int).map_values(|l: Seq<u8>| indent() + l),
        decreases body@.len() - i,
    {
        let ghost before = lines_view(lines@);
        let mut line: Vec<u8> = Vec::new();
        line.push(32);
        line.push(32);
        line.push(32);
        line.push(32);
        line.extend_from_slice(body[i].as_slice());
        assert(line@ =~= indent() + all[i as int]);
        lines.push(line);
        proof {
            assert(lines_view(lines@) =~= before.push(line@));
            assert(before.push(line@) =~= head + all.take(i + 1).map_values(
                |l: Seq<u8>| indent() + l,
            ));
        }
        i += 1;
    }
    proof {
        assert(all.take(i as int) =~= all);
        assert(lines_view(lines@) =~= commit_lines(c, hash@));
    }
    let joined = join_texts(&lines);
    text_from_bytes(joined.as_slice())
}

/// The texts that show `records`.
pub open spec fn history_texts(records: Seq<RecordView>, oneline: bool) -> Seq<Seq<u8>> {
    records.map_values(|r: RecordView| text_bytes(commit_text(r.commit, r.address, oneline)))
}

/// Traverse commit history starting from a commit hash, and format each
/// commit of it for display.
pub fn traverse_commits(store: &ObjectStore, start_hash: &str, oneline: bool) -> (res: Result<
    Vec<String>,
    RitError,
>)
    ensures
        match res {
            Ok(texts) => exists|records: Seq<RecordView>|
                #[trigger] is_chain(store@, start_hash.spec_bytes(), records) && chain_ends(
                    store@,
                    start_hash.spec_bytes(),
                    records,
                ) && texts_view(texts@) == history_texts(records, oneline),
            Err(e) => exists|records: Seq<RecordView>|
                is_chain(store@, start_hash.spec_bytes(), records) && #[trigger] chain_fails(
                    store@,
                    start_hash.spec_bytes(),
                    records,
                    e,
                ),
        },
{
    let records = match walk(store, start_hash) {
        Ok(r) => r,
        Err(e) => {
            return Err(e);
        },
    };
    let ghost all = records_view(records@);
    let mut output: Vec<String> = Vec::new();
    let mut i: usize = 0;
    assert(texts_view(output@) =~= history_texts(all.take(0), oneline));
    while i < records.len()
        invariant
            i <= records@.len(),
            all == records_view(records@),
            texts_view(output@) == history_texts(all.take(i as int), oneline),
        decreases records@.len() - i,
    {
        let ghost before = texts_view(output@);
        assert(all[i as int] == records@[i as int]@);
        let text = format_commit(&records[i].commit, records[i].address.as_str(), oneline);
        output.push(text);
        proof {
            assert(texts_view(output@) =~= before.push(encode_utf8(text@)));
            assert(before.push(encode_utf8(text@)) =~= history_texts(all.take(i + 1), oneline));
        }
        i += 1;
    }
    assert(all.take(i as int) =~= all);
    Ok(output)
}

} // verus!
