//! Commit objects: a tree, its parents, who made it, and why.
//!
//! ```text
//! tree <address>
//! parent <address>        (one line per parent, none for a root commit)
//! author <name> <<email>> <timestamp> <timezone>
//! committer <name> <<email>> <timestamp> <timezone>
//!
//! <message>
//! ```
//!
//! Header lines end at a line feed; the first empty line ends the headers,
//! and every byte after it is the message.

use crate::bytes::{
    decimal, find_byte, has_prefix, index_of, is_digit, lemma_decimal, lemma_index_of_absent,
    lemma_index_of_delimited, parse_unsigned, push_decimal, starts_with, unsigned_value,
};
use crate::error::RitError;
use crate::text::{
    is_ascii_bytes, leading_space, lemma_ascii_is_utf8, lemma_utf8_concat, text_bytes,
    text_from_bytes, texts_view, trailing_space, trim, trim_bounds, trim_end, trim_start,
};
use std::time::{SystemTime, UNIX_EPOCH};
use vstd::prelude::*;
use vstd::string::*;
use vstd::utf8::*;

verus! {

/// Represents an author or committer
#[derive(Debug, Clone)]
pub struct Author {
    /// Full name
    pub name: String,
    /// Email address
    pub email: String,
    /// Unix timestamp
    pub timestamp: u64,
    /// Timezone offset (e.g., "+0000", "-0500")
    pub timezone: String,
}

/// What an `Author` stands for: the bytes of its texts, and its time.
pub struct AuthorView {
    pub name: Seq<u8>,
    pub email: Seq<u8>,
    pub timestamp: nat,
    pub timezone: Seq<u8>,
}

impl View for Author {
    type V = AuthorView;

    open spec fn view(&self) -> AuthorView {
        AuthorView {
            name: encode_utf8(self.name@),
            email: encode_utf8(self.email@),
            timestamp: self.timestamp as nat,
            timezone: encode_utf8(self.timezone@),
        }
    }
}

/// The bytes of `+0000`, the timezone of a new author.
pub open spec fn utc_zone() -> Seq<u8> {
    seq![43u8, 48u8, 48u8, 48u8, 48u8]
}

/// The line of an author: `name <email> timestamp timezone`.
pub open spec fn author_bytes(a: AuthorView) -> Seq<u8> {
    a.name + seq![32u8, 60u8] + a.email + seq![62u8, 32u8] + decimal(a.timestamp) + seq![32u8]
        + a.timezone
}

/// The author that a line holds. The email stands between the first `<` and
/// the first `>` behind it, the name before it, trimmed. What follows the
/// `>` is trimmed and split at spaces: the first part is the timestamp, the
/// second the timezone.
pub open spec fn parse_author(s: Seq<u8>) -> Option<AuthorView> {
    let lt = index_of(s, 60);
    let after = s.skip(lt + 1);
    let gt = index_of(after, 62);
    let rest = trim(after.skip(gt + 1));
    let space = index_of(rest, 32);
    let tail = rest.skip(space + 1);
    let zone = tail.take(index_of(tail, 32));
    if lt < s.len() && gt < after.len() && space < rest.len() {
        match unsigned_value(rest.take(space)) {
            Some(v) => if v <= u64::MAX {
                Some(
                    AuthorView {
                        name: text_bytes(trim(s.take(lt))),
                        email: text_bytes(after.take(gt)),
                        timestamp: v,
                        timezone: text_bytes(zone),
                    },
                )
            } else {
                None
            },
            None => None,
        }
    } else {
        None
    }
}

/// The view of the result of parsing an author.
pub open spec fn author_result(res: Result<Author, RitError>) -> Result<AuthorView, RitError> {
    match res {
        Ok(a) => Ok(a@),
        Err(e) => Err(e),
    }
}

/// What parsing an author returns for what the line holds.
pub open spec fn parsed_author(author: Option<AuthorView>) -> Result<AuthorView, RitError> {
    match author {
        Some(a) => Ok(a),
        None => Err(RitError::MalformedCommit),
    }
}

/// `SystemTime::now`, in seconds since the Unix epoch; 0 for a clock set
/// before it. Trusted, and nothing is claimed of the result.
#[verifier::external_body]
fn unix_time_now() -> u64 {
    match SystemTime::now().duration_since(UNIX_EPOCH) {
        Ok(d) => d.as_secs(),
        Err(_) => 0,
    }
}

/// Appends the line of `author` to `out`.
pub fn push_author(out: &mut Vec<u8>, author: &Author)
    ensures
        final(out)@ == old(out)@ + author_bytes(author@),
{
    out.extend_from_slice(author.name.as_str().as_bytes());
    out.push(32);
    out.push(60);
    out.extend_from_slice(author.email.as_str().as_bytes());
    out.push(62);
    out.push(32);
    push_decimal(out, author.timestamp);
    out.push(32);
    out.extend_from_slice(author.timezone.as_str().as_bytes());
    assert(final(out)@ =~= old(out)@ + author_bytes(author@));
}

/// Digits are ASCII.
pub proof fn lemma_decimal_ascii(n: nat)
    ensures
        is_ascii_bytes(decimal(n)),
        valid_utf8(decimal(n)),
{
    lemma_decimal(n);
    assert forall|i: int| 0 <= i < decimal(n).len() implies #[trigger] decimal(n)[i] < 128 by {
        assert(is_digit(decimal(n)[i]));
    }
    lemma_ascii_is_utf8(decimal(n));
}

/// The line of an author is UTF-8.
pub proof fn lemma_author_bytes_utf8(a: Author)
    ensures
        valid_utf8(author_bytes(a@)),
{
    let v = a@;
    encode_utf8_valid_utf8(a.name@);
    encode_utf8_valid_utf8(a.email@);
    encode_utf8_valid_utf8(a.timezone@);
    lemma_decimal_ascii(v.timestamp);
    lemma_ascii_is_utf8(seq![32u8, 60u8]);
    lemma_ascii_is_utf8(seq![62u8, 32u8]);
    lemma_ascii_is_utf8(seq![32u8]);
    lemma_utf8_concat(v.name, seq![32u8, 60u8]);
    lemma_utf8_concat(v.name + seq![32u8, 60u8], v.email);
    lemma_utf8_concat(v.name + seq![32u8, 60u8] + v.email, seq![62u8, 32u8]);
    lemma_utf8_concat(v.name + seq![32u8, 60u8] + v.email + seq![62u8, 32u8], decimal(v.timestamp));
    lemma_utf8_concat(
        v.name + seq![32u8, 60u8] + v.email + seq![62u8, 32u8] + decimal(v.timestamp),
        seq![32u8],
    );
    lemma_utf8_concat(
        v.name + seq![32u8, 60u8] + v.email + seq![62u8, 32u8] + decimal(v.timestamp) + seq![32u8],
        v.timezone,
    );
}

/// Reads the line of an author; `MalformedCommit` where it has no `<`, no
/// `>` behind that, or no timestamp and timezone after it.
pub fn parse_author_bytes(s: &[u8]) -> (res: Result<Author, RitError>)
    ensures
        author_result(res) == parsed_author(parse_author(s@)),
{
    proof {
        assert(s@.skip(0) =~= s@);
    }
    let lt = find_byte(s, 0, 60);
    if lt == s.len() {
        return Err(RitError::MalformedCommit);
    }
    let ghost after = s@.skip(lt + 1);
    let gt = find_byte(s, lt + 1, 62);
    if gt == s.len() {
        return Err(RitError::MalformedCommit);
    }
    let (a, b) = trim_bounds(s, gt + 1, s.len());
    let ghost rest = s@.subrange(a as int, b as int);
    proof {
        assert(s@.subrange(gt + 1, s.len() as int) =~= after.skip(gt - lt));
    }
    let trimmed = &s[a..b];
    assert(trimmed@ =~= rest);
    assert(trimmed@.skip(0) =~= rest);
    let space = find_byte(trimmed, 0, 32);
    if space == trimmed.len() {
        return Err(RitError::MalformedCommit);
    }
    let ghost tail = rest.skip(space + 1);
    let zone_end = find_byte(trimmed, space + 1, 32);
    assert(trimmed@.subrange(0, space as int) =~= rest.take(space as int));
    let timestamp: u64 = match parse_unsigned(&trimmed[0..space]) {
        Some(v) => v,
        None => {
            return Err(RitError::MalformedCommit);
        },
    };
    let (na, nb) = trim_bounds(s, 0, lt);
    proof {
        assert(s@.subrange(0, lt as int) =~= s@.take(lt as int));
        assert(s@.subrange(lt + 1, gt as int) =~= after.take(gt - lt - 1));
        assert(trimmed@.subrange(space + 1, zone_end as int) =~= tail.take(zone_end - space - 1));
    }
    let name = text_from_bytes(&s[na..nb]);
    let email = text_from_bytes(&s[lt + 1..gt]);
    let timezone = text_from_bytes(&trimmed[space + 1..zone_end]);
    Ok(Author { name, email, timestamp, timezone })
}

impl Author {
    /// Create a new author with the current time and the timezone `+0000`
    pub fn new(name: &str, email: &str) -> (author: Self)
        ensures
            author@.name == name.spec_bytes(),
            author@.email == email.spec_bytes(),
            author@.timezone == utc_zone(),
    {
        proof {
            reveal_strlit("+0000");
            is_ascii_spec_bytes("+0000");
            assert("+0000".spec_bytes() =~= utc_zone());
        }
        Author::with_timestamp(name, email, unix_time_now(), "+0000")
    }

    /// Create an author with a specific timestamp
    pub fn with_timestamp(name: &str, email: &str, timestamp: u64, timezone: &str) -> (author: Self)
        ensures
            author@ == (AuthorView {
                name: name.spec_bytes(),
                email: email.spec_bytes(),
                timestamp: timestamp as nat,
                timezone: timezone.spec_bytes(),
            }),
    {
        Author {
            name: name.to_owned(),
            email: email.to_owned(),
            timestamp,
            timezone: timezone.to_owned(),
        }
    }

    /// An author equal to this one.
    pub fn duplicate(&self) -> (author: Self)
        ensures
            author == *self,
    {
        Author {
            name: self.name.clone(),
            email: self.email.clone(),
            timestamp: self.timestamp,
            timezone: self.timezone.clone(),
        }
    }

    /// Serialize to one line: `Name <email> timestamp timezone`
    pub fn serialize(&self) -> (line: String)
        ensures
            encode_utf8(line@) == author_bytes(self@),
    {
        let mut out: Vec<u8> = Vec::new();
        push_author(&mut out, self);
        proof {
            lemma_author_bytes_utf8(*self);
            assert(out@ =~= author_bytes(self@));
        }
        text_from_bytes(out.as_slice())
    }

    /// Parse from one line. `MalformedCommit` where the line has no `<`, no
    /// `>` behind that, or no timestamp and timezone after it.
    pub fn parse(s: &str) -> (res: Result<Self, RitError>)
        ensures
            author_result(res) == parsed_author(parse_author(s.spec_bytes())),
    {
        parse_author_bytes(s.as_bytes())
    }
}

/// Represents a commit object
#[derive(Debug, Clone)]
pub struct Commit {
    /// Address of the tree object
    pub tree: String,
    /// Addresses of parent commits (0 for initial, 1 for normal, 2+ for merge)
    pub parents: Vec<String>,
    /// The author (who wrote the changes)
    pub author: Author,
    /// The committer (who created this commit)
    pub committer: Author,
    /// The commit message
    pub message: String,
}

/// What a `Commit` stands for.
pub struct CommitView {
    pub tree: Seq<u8>,
    pub parents: Seq<Seq<u8>>,
    pub author: AuthorView,
    pub committer: AuthorView,
    pub message: Seq<u8>,
}

impl View for Commit {
    type V = CommitView;

    open spec fn view(&self) -> CommitView {
        CommitView {
            tree: encode_utf8(self.tree@),
            parents: texts_view(self.parents@),
            author: self.author@,
            committer: self.committer@,
            message: encode_utf8(self.message@),
        }
    }
}

/// The bytes of `tree `.
pub open spec fn key_tree() -> Seq<u8> {
    seq![116u8, 114u8, 101u8, 101u8, 32u8]
}

/// The bytes of `parent `.
pub open spec fn key_parent() -> Seq<u8> {
    seq![112u8, 97u8, 114u8, 101u8, 110u8, 116u8, 32u8]
}

/// The bytes of `author `.
pub open spec fn key_author() -> Seq<u8> {
    seq![97u8, 117u8, 116u8, 104u8, 111u8, 114u8, 32u8]
}

/// The bytes of `committer `.
pub open spec fn key_committer() -> Seq<u8> {
    seq![99u8, 111u8, 109u8, 109u8, 105u8, 116u8, 116u8, 101u8, 114u8, 32u8]
}

/// The start of a tree line, as text.
pub fn tree_key() -> (key: &'static str)
    ensures
        key.spec_bytes() == key_tree(),
{
    proof {
        reveal_strlit("tree ");
        is_ascii_spec_bytes("tree ");
        assert("tree ".spec_bytes() =~= key_tree());
    }
    "tree "
}

/// The start of a parent line, as text.
pub fn parent_key() -> (key: &'static str)
    ensures
        key.spec_bytes() == key_parent(),
{
    proof {
        reveal_strlit("parent ");
        is_ascii_spec_bytes("parent ");
        assert("parent ".spec_bytes() =~= key_parent());
    }
    "parent "
}

/// The start of an author line, as text.
pub fn author_key() -> (key: &'static str)
    ensures
        key.spec_bytes() == key_author(),
{
    proof {
        reveal_strlit("author ");
        is_ascii_spec_bytes("author ");
        assert("author ".spec_bytes() =~= key_author());
    }
    "author "
}

/// The start of a committer line, as text.
pub fn committer_key() -> (key: &'static str)
    ensures
        key.spec_bytes() == key_committer(),
{
    proof {
        reveal_strlit("committer ");
        is_ascii_spec_bytes("committer ");
        assert("committer ".spec_bytes() =~= key_committer());
    }
    "committer "
}

/// One `parent` line for each parent, in order.
pub open spec fn parent_lines(parents: Seq<Seq<u8>>) -> Seq<u8>
    decreases parents.len(),
{
    if parents.len() == 0 {
        Seq::<u8>::empty()
    } else {
        key_parent() + parents[0] + seq![10u8] + parent_lines(parents.drop_first())
    }
}

/// The text of a commit: the tree line, the parent lines, the author and
/// committer lines, an empty line, and the message as it is.
pub open spec fn commit_bytes(c: CommitView) -> Seq<u8> {
    key_tree() + c.tree + seq![10u8] + parent_lines(c.parents) + key_author() + author_bytes(
        c.author,
    ) + seq![10u8] + key_committer() + author_bytes(c.committer) + seq![10u8, 10u8] + c.message
}

/// The header fields read so far.
pub struct Headers {
    pub tree: Option<Seq<u8>>,
    pub parents: Seq<Seq<u8>>,
    pub author: Option<AuthorView>,
    pub committer: Option<AuthorView>,
}

/// No header field read yet.
pub open spec fn no_headers() -> Headers {
    Headers { tree: None, parents: Seq::empty(), author: None, committer: None }
}

/// The header fields after one more line; `None` where the line is an
/// author or committer line that cannot be read. A line of no known kind
/// changes nothing; a later `tree`, `author` or `committer` line replaces an
/// earlier one.
#[verifier::opaque]
pub open spec fn header_line(h: Headers, line: Seq<u8>) -> Option<Headers> {
    if has_prefix(line, key_tree()) {
        Some(Headers { tree: Some(text_bytes(line.skip(5))), ..h })
    } else if has_prefix(line, key_parent()) {
        Some(Headers { parents: h.parents.push(text_bytes(line.skip(7))), ..h })
    } else if has_prefix(line, key_author()) {
        match parse_author(line.skip(7)) {
            Some(a) => Some(Headers { author: Some(a), ..h }),
            None => None,
        }
    } else if has_prefix(line, key_committer()) {
        match parse_author(line.skip(10)) {
            Some(a) => Some(Headers { committer: Some(a), ..h }),
            None => None,
        }
    } else {
        Some(h)
    }
}

/// The commit of the header fields `h` and a message; `MissingField` where
/// no tree, author or committer line was read.
pub open spec fn finish_commit(h: Headers, message: Seq<u8>) -> Result<CommitView, RitError> {
    if h.tree is Some && h.author is Some && h.committer is Some {
        Ok(
            CommitView {
                tree: h.tree->0,
                parents: h.parents,
                author: h.author->0,
                committer: h.committer->0,
                message: text_bytes(message),
            },
        )
    } else {
        Err(RitError::MissingField)
    }
}

/// The commit that the text `raw` holds, the header fields `h` having been
/// read before it.
pub open spec fn parse_commit_from(raw: Seq<u8>, h: Headers) -> Result<CommitView, RitError>
    decreases raw.len(),
{
    if raw.len() == 0 {
        finish_commit(h, Seq::<u8>::empty())
    } else {
        let end = index_of(raw, 10);
        if end == 0 {
            finish_commit(h, raw.skip(1))
        } else if 0 < end < raw.len() {
            match header_line(h, raw.take(end)) {
                Some(next) => parse_commit_from(raw.skip(end + 1), next),
                None => Err(RitError::MalformedCommit),
            }
        } else {
            match header_line(h, raw) {
                Some(next) => finish_commit(next, Seq::<u8>::empty()),
                None => Err(RitError::MalformedCommit),
            }
        }
    }
}

/// The commit that the text `raw` holds.
pub open spec fn parse_commit(raw: Seq<u8>) -> Result<CommitView, RitError> {
    parse_commit_from(raw, no_headers())
}

/// The view of the result of parsing a commit.
pub open spec fn commit_result(res: Result<Commit, RitError>) -> Result<CommitView, RitError> {
    match res {
        Ok(c) => Ok(c@),
        Err(e) => Err(e),
    }
}

/// Appending a parent appends its line.
pub proof fn lemma_parent_lines_push(parents: Seq<Seq<u8>>, p: Seq<u8>)
    ensures
        parent_lines(parents.push(p)) == parent_lines(parents) + key_parent() + p + seq![10u8],
    decreases parents.len(),
{
    let more = parents.push(p);
    assert(more.len() > 0);
    if parents.len() == 0 {
        assert(more.drop_first() =~= Seq::<Seq<u8>>::empty());
        assert(more[0] == p);
        assert(parent_lines(more.drop_first()) =~= Seq::<u8>::empty());
        assert(parent_lines(more) =~= parent_lines(parents) + key_parent() + p + seq![10u8]);
    } else {
        assert(more.drop_first() =~= parents.drop_first().push(p));
        assert(more[0] == parents[0]);
        lemma_parent_lines_push(parents.drop_first(), p);
        assert(parent_lines(more) =~= parent_lines(parents) + key_parent() + p + seq![10u8]);
    }
}

/// The text of a commit is UTF-8.
pub proof fn lemma_parent_lines_utf8(parents: Seq<String>)
    ensures
        valid_utf8(parent_lines(texts_view(parents))),
    decreases parents.len(),
{
    let views = texts_view(parents);
    if parents.len() > 0 {
        assert(views.drop_first() =~= texts_view(parents.drop_first()));
        lemma_parent_lines_utf8(parents.drop_first());
        encode_utf8_valid_utf8(parents[0]@);
        lemma_ascii_is_utf8(key_parent());
        lemma_ascii_is_utf8(seq![10u8]);
        lemma_utf8_concat(key_parent(), views[0]);
        lemma_utf8_concat(key_parent() + views[0], seq![10u8]);
        lemma_utf8_concat(key_parent() + views[0] + seq![10u8], parent_lines(views.drop_first()));
    }
}

/// The text of a commit is UTF-8.
pub proof fn lemma_commit_bytes_utf8(c: Commit)
    ensures
        valid_utf8(commit_bytes(c@)),
{
    let v = c@;
    encode_utf8_valid_utf8(c.tree@);
    encode_utf8_valid_utf8(c.message@);
    lemma_parent_lines_utf8(c.parents@);
    lemma_author_bytes_utf8(c.author);
    lemma_author_bytes_utf8(c.committer);
    lemma_ascii_is_utf8(key_tree());
    lemma_ascii_is_utf8(key_author());
    lemma_ascii_is_utf8(key_committer());
    lemma_ascii_is_utf8(seq![10u8]);
    lemma_ascii_is_utf8(seq![10u8, 10u8]);
    let s1 = key_tree() + v.tree;
    lemma_utf8_concat(key_tree(), v.tree);
    let s2 = s1 + seq![10u8];
    lemma_utf8_concat(s1, seq![10u8]);
    let s3 = s2 + parent_lines(v.parents);
    lemma_utf8_concat(s2, parent_lines(v.parents));
    let s4 = s3 + key_author();
    lemma_utf8_concat(s3, key_author());
    let s5 = s4 + author_bytes(v.author);
    lemma_utf8_concat(s4, author_bytes(v.author));
    let s6 = s5 + seq![10u8];
    lemma_utf8_concat(s5, seq![10u8]);
    let s7 = s6 + key_committer();
    lemma_utf8_concat(s6, key_committer());
    let s8 = s7 + author_bytes(v.committer);
    lemma_utf8_concat(s7, author_bytes(v.committer));
    let s9 = s8 + seq![10u8, 10u8];
    lemma_utf8_concat(s8, seq![10u8, 10u8]);
    lemma_utf8_concat(s9, v.message);
}

/// The header fields of a commit while its text is read.
#[derive(Debug, Clone)]
pub struct HeaderFields {
    pub tree: Option<String>,
    pub parents: Vec<String>,
    pub author: Option<Author>,
    pub committer: Option<Author>,
}

impl View for HeaderFields {
    type V = Headers;

    open spec fn view(&self) -> Headers {
        Headers {
            tree: match self.tree {
                Some(t) => Some(encode_utf8(t@)),
                None => None,
            },
            parents: texts_view(self.parents@),
            author: match self.author {
                Some(a) => Some(a@),
                None => None,
            },
            committer: match self.committer {
                Some(a) => Some(a@),
                None => None,
            },
        }
    }
}

/// Reads one header line into `fields`; `MalformedCommit`, with `fields`
/// unchanged, where the line is an author or committer line that cannot be
/// read.
pub fn read_header(fields: &mut HeaderFields, line: &[u8]) -> (res: Result<(), RitError>)
    ensures
        match header_line(old(fields)@, line@) {
            Some(next) => res is Ok && final(fields)@ == next,
            None => res == Err::<(), RitError>(RitError::MalformedCommit) && final(fields)@ == old(
                fields,
            )@,
        },
{
    reveal(header_line);
    if starts_with(line, tree_key().as_bytes()) {
        let value = text_from_bytes(&line[5..line.len()]);
        assert(line@.subrange(5, line.len() as int) =~= line@.skip(5));
        fields.tree = Some(value);
        Ok(())
    } else if starts_with(line, parent_key().as_bytes()) {
        let value = text_from_bytes(&line[7..line.len()]);
        assert(line@.subrange(7, line.len() as int) =~= line@.skip(7));
        fields.parents.push(value);
        assert(texts_view(fields.parents@) =~= texts_view(old(fields).parents@).push(
            encode_utf8(value@),
        ));
        Ok(())
    } else if starts_with(line, author_key().as_bytes()) {
        assert(line@.subrange(7, line.len() as int) =~= line@.skip(7));
        match parse_author_bytes(&line[7..line.len()]) {
            Ok(a) => {
                fields.author = Some(a);
                Ok(())
            },
            Err(e) => Err(e),
        }
    } else if starts_with(line, committer_key().as_bytes()) {
        assert(line@.subrange(10, line.len() as int) =~= line@.skip(10));
        match parse_author_bytes(&line[10..line.len()]) {
            Ok(a) => {
                fields.committer = Some(a);
                Ok(())
            },
            Err(e) => Err(e),
        }
    } else {
        Ok(())
    }
}

impl Commit {
    /// Create a new commit
    pub fn new(
        tree: String,
        parents: Vec<String>,
        author: Author,
        committer: Author,
        message: String,
    ) -> (commit: Self)
        ensures
            commit.tree == tree,
            commit.parents == parents,
            commit.author == author,
            commit.committer == committer,
            commit.message == message,
    {
        Commit { tree, parents, author, committer, message }
    }

    /// Create a simple commit with same author and committer, and at most
    /// one parent
    pub fn simple(tree: &str, parent: Option<&str>, author: Author, message: &str) -> (commit: Self)
        ensures
            commit@ == (CommitView {
                tree: tree.spec_bytes(),
                parents: match parent {
                    Some(p) => seq![p.spec_bytes()],
                    None => Seq::<Seq<u8>>::empty(),
                },
                author: author@,
                committer: author@,
                message: message.spec_bytes(),
            }),
    {
        let mut parents: Vec<String> = Vec::new();
        match parent {
            Some(p) => {
                parents.push(p.to_owned());
                assert(texts_view(parents@) =~= seq![p.spec_bytes()]);
            },
            None => {
                assert(texts_view(parents@) =~= Seq::<Seq<u8>>::empty());
            },
        }
        Commit {
            tree: tree.to_owned(),
            parents,
            author: author.duplicate(),
            committer: author,
            message: message.to_owned(),
        }
    }

    /// The text of the commit, as bytes.
    pub fn to_bytes(&self) -> (out: Vec<u8>)
        ensures
            out@ == commit_bytes(self@),
    {
        let mut out: Vec<u8> = Vec::new();
        out.extend_from_slice(tree_key().as_bytes());
        out.extend_from_slice(self.tree.as_str().as_bytes());
        out.push(10);
        let ghost head = out@;
        let mut i: usize = 0;
        assert(texts_view(self.parents@).take(0) =~= Seq::<Seq<u8>>::empty());
        assert(out@ =~= head + parent_lines(texts_view(self.parents@).take(0)));
        while i < self.parents.len()
            invariant
                i <= self.parents@.len(),
                out@ == head + parent_lines(texts_view(self.parents@).take(i as int)),
            decreases self.parents@.len() - i,
        {
            let ghost views = texts_view(self.parents@);
            let ghost before = out@;
            out.extend_from_slice(parent_key().as_bytes());
            out.extend_from_slice(self.parents[i].as_str().as_bytes());
            out.push(10);
            proof {
                lemma_parent_lines_push(views.take(i as int), views[i as int]);
                assert(views.take(i + 1) =~= views.take(i as int).push(views[i as int]));
                assert(out@ =~= before + key_parent() + views[i as int] + seq![10u8]);
                assert(out@ =~= head + parent_lines(views.take(i + 1)));
            }
            i += 1;
        }
        assert(texts_view(self.parents@).take(i as int) =~= texts_view(self.parents@));
        let ghost lines = out@;
        out.extend_from_slice(author_key().as_bytes());
        push_author(&mut out, &self.author);
        out.push(10);
        out.extend_from_slice(committer_key().as_bytes());
        push_author(&mut out, &self.committer);
        out.push(10);
        out.push(10);
        out.extend_from_slice(self.message.as_str().as_bytes());
        assert(out@ =~= commit_bytes(self@));
        out
    }

    /// Serialize the commit to its text
    pub fn serialize(&self) -> (text: String)
        ensures
            encode_utf8(text@) == commit_bytes(self@),
    {
        let out = self.to_bytes();
        proof {
            lemma_commit_bytes_utf8(*self);
        }
        text_from_bytes(out.as_slice())
    }

    /// Whether this is the initial commit (no parents)
    pub fn is_initial(&self) -> (yes: bool)
        ensures
            yes == (self@.parents.len() == 0),
    {
        self.parents.len() == 0
    }

    /// Whether this is a merge commit (2+ parents)
    pub fn is_merge(&self) -> (yes: bool)
        ensures
            yes == (self@.parents.len() >= 2),
    {
        self.parents.len() >= 2
    }

    /// Parse a commit from its text, as bytes. `MalformedCommit` where an
    /// author or committer line cannot be read, `MissingField` where there
    /// is no tree, author or committer line.
    pub fn from_bytes(raw: &[u8]) -> (res: Result<Commit, RitError>)
        ensures
            commit_result(res) == parse_commit(raw@),
    {
        let mut fields = HeaderFields { tree: None, parents: Vec::new(), author: None, committer: None };
        let mut message_start: usize = raw.len();
        let mut pos: usize = 0;
        proof {
            assert(raw@.skip(0) =~= raw@);
            assert(texts_view(fields.parents@) =~= Seq::<Seq<u8>>::empty());
            assert(fields@ == no_headers());
        }
        loop
            invariant_except_break
                pos <= raw.len(),
                message_start == raw.len(),
                parse_commit(raw@) == parse_commit_from(raw@.skip(pos as int), fields@),
            ensures
                message_start <= raw.len(),
                parse_commit(raw@) == finish_commit(fields@, raw@.skip(message_start as int)),
            decreases raw.len() - pos,
        {
            let ghost rest = raw@.skip(pos as int);
            if pos >= raw.len() {
                assert(rest =~= Seq::<u8>::empty());
                break;
            }
            let end = find_byte(raw, pos, 10);
            if end == pos {
                message_start = pos + 1;
                assert(rest.skip(1) =~= raw@.skip(message_start as int));
                break;
            }
            let line = &raw[pos..end];
            proof {
                if end < raw.len() {
                    assert(line@ =~= rest.take(end - pos));
                    assert(rest.skip(end - pos + 1) =~= raw@.skip(end + 1));
                } else {
                    assert(line@ =~= rest);
                    assert(raw@.skip(raw.len() as int) =~= Seq::<u8>::empty());
                }
            }
            match read_header(&mut fields, line) {
                Ok(_) => {},
                Err(e) => {
                    return Err(e);
                },
            }
            if end < raw.len() {
                pos = end + 1;
            } else {
                pos = end;
            }
        }
        let message = text_from_bytes(&raw[message_start..raw.len()]);
        assert(raw@.subrange(message_start as int, raw.len() as int) =~= raw@.skip(
            message_start as int,
        ));
        match (fields.tree, fields.author, fields.committer) {
            (Some(tree), Some(author), Some(committer)) => Ok(
                Commit { tree, parents: fields.parents, author, committer, message },
            ),
            _ => Err(RitError::MissingField),
        }
    }

    /// Parse a commit from its text
    pub fn parse(content: &str) -> (res: Result<Commit, RitError>)
        ensures
            commit_result(res) == parse_commit(content.spec_bytes()),
    {
        Commit::from_bytes(content.as_bytes())
    }
}

/// Whether an author can be read back from its line: the name holds no `<`
/// and no white space at either end, the email no `>`, and the timezone is
/// not empty, holds no space and does not end in white space.
pub open spec fn author_reads_back(a: AuthorView) -> bool {
    &&& valid_utf8(a.name)
    &&& !a.name.contains(60)
    &&& leading_space(a.name) == 0
    &&& trailing_space(a.name) == 0
    &&& valid_utf8(a.email)
    &&& !a.email.contains(62)
    &&& a.timestamp <= u64::MAX
    &&& valid_utf8(a.timezone)
    &&& a.timezone.len() > 0
    &&& !a.timezone.contains(32)
    &&& trailing_space(a.timezone) == 0
}

/// A name that holds no white space at either end is what trimming the
/// name and a space gives.
pub proof fn lemma_trim_name(name: Seq<u8>)
    requires
        leading_space(name) == 0,
        trailing_space(name) == 0,
    ensures
        trim(name + seq![32u8]) == name,
{
    let s = name + seq![32u8];
    if name.len() == 0 {
        assert(leading_space(s) == 1);
        assert(s.skip(1) =~= name);
        assert(trim_start(s) == trim_start(name));
        assert(trim_start(name) == name);
        assert(trim_end(name) == name);
    } else {
        assert(s[0] == name[0]);
        if name.len() >= 2 {
            assert(s[1] == name[1]);
        }
        if name.len() >= 3 {
            assert(s[2] == name[2]);
        }
        assert(leading_space(s) == 0);
        assert(trim_start(s) == s);
        assert(trailing_space(s) == 1);
        assert(s.take(s.len() - 1) =~= name);
        assert(trim_end(s) == trim_end(name));
        assert(trim_end(name) == name);
    }
}

/// Trimming ` <timestamp> <timezone>` takes the first space away and
/// nothing else.
pub proof fn lemma_trim_stamp(n: nat, zone: Seq<u8>)
    requires
        zone.len() > 0,
        trailing_space(zone) == 0,
    ensures
        trim(seq![32u8] + decimal(n) + seq![32u8] + zone) == decimal(n) + seq![32u8] + zone,
{
    let digits = decimal(n);
    lemma_decimal(n);
    let core = digits + seq![32u8] + zone;
    let s = seq![32u8] + digits + seq![32u8] + zone;
    assert(s[0] == 32);
    assert(leading_space(s) == 1);
    assert(s.skip(1) =~= core);
    assert(core[0] == digits[0]);
    assert(is_digit(digits[0]));
    assert(leading_space(core) == 0);
    assert(trim_start(core) == core);
    assert(trim_start(s) == core);
    let m = core.len() as int;
    let z = zone.len() as int;
    assert(core[m - 1] == zone[z - 1]);
    if z >= 2 {
        assert(core[m - 2] == zone[z - 2]);
    } else {
        assert(core[m - 2] == 32);
    }
    if z >= 3 {
        assert(core[m - 3] == zone[z - 3]);
    } else if z == 2 {
        assert(core[m - 3] == 32);
    } else {
        assert(core[m - 3] == digits[digits.len() - 1]);
        assert(is_digit(digits[digits.len() - 1]));
    }
    assert(trailing_space(core) == 0);
    assert(trim_end(core) == core);
}

/// Round trip: the line of an author that can be read back parses to the author.
pub proof fn lemma_author_roundtrip(a: AuthorView)
    requires
        author_reads_back(a),
    ensures
        parse_author(author_bytes(a)) == Some(a),
{
    let digits = decimal(a.timestamp);
    lemma_decimal(a.timestamp);
    let s = author_bytes(a);
    let stamp = seq![32u8] + digits + seq![32u8] + a.timezone;
    let after = a.email + seq![62u8] + stamp;
    let head = a.name + seq![32u8];
    assert(s =~= head + seq![60u8] + after);
    assert(!head.contains(60)) by {
        if head.contains(60) {
            let i = choose|i: int| 0 <= i < head.len() && head[i] == 60;
            if i < a.name.len() {
                assert(a.name.contains(head[i]));
            }
        }
    }
    lemma_index_of_delimited(head, 60, after);
    let lt = index_of(s, 60);
    assert(s.take(lt) =~= head);
    assert(s.skip(lt + 1) =~= after);
    lemma_trim_name(a.name);
    lemma_index_of_delimited(a.email, 62, stamp);
    let gt = index_of(after, 62);
    assert(after.take(gt) =~= a.email);
    assert(after.skip(gt + 1) =~= stamp);
    lemma_trim_stamp(a.timestamp, a.timezone);
    let rest = digits + seq![32u8] + a.timezone;
    assert(!digits.contains(32)) by {
        if digits.contains(32) {
            let i = choose|i: int| 0 <= i < digits.len() && digits[i] == 32;
            assert(is_digit(digits[i]));
        }
    }
    lemma_index_of_delimited(digits, 32, a.timezone);
    let space = index_of(rest, 32);
    assert(rest.take(space) =~= digits);
    assert(rest.skip(space + 1) =~= a.timezone);
    lemma_index_of_absent(a.timezone, 32);
    assert(a.timezone.take(a.timezone.len() as int) =~= a.timezone);
}

/// Whether a commit can be read back from its text: no header field holds
/// a line feed, and both authors can be read back.
pub open spec fn commit_reads_back(c: CommitView) -> bool {
    &&& valid_utf8(c.tree)
    &&& !c.tree.contains(10)
    &&& forall|i: int|
        0 <= i < c.parents.len() ==> valid_utf8(#[trigger] c.parents[i]) && !c.parents[i].contains(
            10,
        )
    &&& author_reads_back(c.author)
    &&& !author_bytes(c.author).contains(10)
    &&& author_reads_back(c.committer)
    &&& !author_bytes(c.committer).contains(10)
    &&& valid_utf8(c.message)
}

/// A header line that ends in a line feed is read, and parsing goes on behind it.
pub proof fn lemma_header_step(line: Seq<u8>, rest: Seq<u8>, h: Headers)
    requires
        line.len() > 0,
        !line.contains(10),
    ensures
        parse_commit_from(line + seq![10u8] + rest, h) == match header_line(h, line) {
            Some(next) => parse_commit_from(rest, next),
            None => Err(RitError::MalformedCommit),
        },
{
    let raw = line + seq![10u8] + rest;
    lemma_index_of_delimited(line, 10, rest);
    let end = index_of(raw, 10);
    assert(raw.take(end) =~= line);
    assert(raw.skip(end + 1) =~= rest);
}

/// A key followed by a value without a line feed is a line without one.
pub proof fn lemma_key_line(key: Seq<u8>, value: Seq<u8>)
    requires
        key.len() > 0,
        !key.contains(10),
        !value.contains(10),
    ensures
        (key + value).len() > 0,
        !(key + value).contains(10),
        has_prefix(key + value, key),
        (key + value).skip(key.len() as int) == value,
{
    let line = key + value;
    if line.contains(10) {
        let i = choose|i: int| 0 <= i < line.len() && line[i] == 10;
        if i < key.len() {
            assert(key.contains(line[i]));
        } else {
            assert(line[i] == value[i - key.len()]);
            assert(value.contains(line[i]));
        }
    }
    assert(line.subrange(0, key.len() as int) =~= key);
    assert(line.skip(key.len() as int) =~= value);
}

/// The keys hold no line feed.
pub proof fn lemma_keys()
    ensures
        !key_tree().contains(10),
        !key_parent().contains(10),
        !key_author().contains(10),
        !key_committer().contains(10),
{
    assert forall|i: int| 0 <= i < key_tree().len() implies key_tree()[i] != 10 by {}
    assert forall|i: int| 0 <= i < key_parent().len() implies key_parent()[i] != 10 by {}
    assert forall|i: int| 0 <= i < key_author().len() implies key_author()[i] != 10 by {}
    assert forall|i: int| 0 <= i < key_committer().len() implies key_committer()[i] != 10 by {}
}

/// What the four kinds of header line do to the header fields.
pub proof fn lemma_header_lines(h: Headers, value: Seq<u8>)
    requires
        !value.contains(10),
    ensures
        header_line(h, key_tree() + value) == Some(Headers { tree: Some(text_bytes(value)), ..h }),
        header_line(h, key_parent() + value) == Some(
            Headers { parents: h.parents.push(text_bytes(value)), ..h },
        ),
        header_line(h, key_author() + value) == match parse_author(value) {
            Some(a) => Some(Headers { author: Some(a), ..h }),
            None => None,
        },
        header_line(h, key_committer() + value) == match parse_author(value) {
            Some(a) => Some(Headers { committer: Some(a), ..h }),
            None => None,
        },
{
    reveal(header_line);
    lemma_keys();
    lemma_key_line(key_tree(), value);
    lemma_key_line(key_parent(), value);
    lemma_key_line(key_author(), value);
    lemma_key_line(key_committer(), value);
    let p = key_parent() + value;
    assert(!has_prefix(p, key_tree())) by {
        if has_prefix(p, key_tree()) {
            assert(p.subrange(0, 5)[0] == p[0]);
        }
    }
    let a = key_author() + value;
    assert(!has_prefix(a, key_tree())) by {
        if has_prefix(a, key_tree()) {
            assert(a.subrange(0, 5)[0] == a[0]);
        }
    }
    assert(!has_prefix(a, key_parent())) by {
        if has_prefix(a, key_parent()) {
            assert(a.subrange(0, 7)[0] == a[0]);
        }
    }
    let c = key_committer() + value;
    assert(!has_prefix(c, key_tree())) by {
        if has_prefix(c, key_tree()) {
            assert(c.subrange(0, 5)[0] == c[0]);
        }
    }
    assert(!has_prefix(c, key_parent())) by {
        if has_prefix(c, key_parent()) {
            assert(c.subrange(0, 7)[0] == c[0]);
        }
    }
    assert(!has_prefix(c, key_author())) by {
        if has_prefix(c, key_author()) {
            assert(c.subrange(0, 7)[0] == c[0]);
        }
    }
}

/// Parent lines are read into the list of parents, in order.
pub proof fn lemma_parents_parse(parents: Seq<Seq<u8>>, rest: Seq<u8>, h: Headers)
    requires
        forall|i: int|
            0 <= i < parents.len() ==> valid_utf8(#[trigger] parents[i]) && !parents[i].contains(10),
    ensures
        parse_commit_from(parent_lines(parents) + rest, h) == parse_commit_from(
            rest,
            Headers { parents: h.parents + parents, ..h },
        ),
    decreases parents.len(),
{
    if parents.len() == 0 {
        assert(parent_lines(parents) + rest =~= rest);
        assert(h.parents + parents =~= h.parents);
    } else {
        let p = parents[0];
        let more = parents.drop_first();
        let line = key_parent() + p;
        let behind = parent_lines(more) + rest;
        assert(parent_lines(parents) + rest =~= line + seq![10u8] + behind);
        lemma_keys();
        lemma_key_line(key_parent(), p);
        lemma_header_step(line, behind, h);
        lemma_header_lines(h, p);
        let next = Headers { parents: h.parents.push(p), ..h };
        assert forall|i: int| 0 <= i < more.len() implies valid_utf8(#[trigger] more[i])
            && !more[i].contains(10) by {
            assert(more[i] == parents[i + 1]);
        }
        lemma_parents_parse(more, rest, next);
        assert(h.parents.push(p) + more =~= h.parents + parents);
    }
}

/// Round trip: the text of a commit that can be read back parses to the
/// commit: its tree, parents, author, committer and message.
pub proof fn lemma_commit_roundtrip(c: CommitView)
    requires
        commit_reads_back(c),
    ensures
        parse_commit(commit_bytes(c)) == Ok::<CommitView, RitError>(c),
{
    lemma_keys();
    let h0 = no_headers();
    let message_part = seq![10u8] + c.message;
    let committer_line = key_committer() + author_bytes(c.committer);
    let author_line = key_author() + author_bytes(c.author);
    let tree_line = key_tree() + c.tree;
    let r3 = committer_line + seq![10u8] + message_part;
    let r2 = author_line + seq![10u8] + r3;
    let r1 = parent_lines(c.parents) + r2;
    assert(commit_bytes(c) =~= tree_line + seq![10u8] + r1);
    lemma_key_line(key_tree(), c.tree);
    lemma_header_step(tree_line, r1, h0);
    lemma_header_lines(h0, c.tree);
    let h1 = Headers { tree: Some(c.tree), ..h0 };
    lemma_parents_parse(c.parents, r2, h1);
    let h2 = Headers { parents: h1.parents + c.parents, ..h1 };
    assert(h1.parents + c.parents =~= c.parents);
    lemma_key_line(key_author(), author_bytes(c.author));
    lemma_header_step(author_line, r3, h2);
    lemma_header_lines(h2, author_bytes(c.author));
    lemma_author_roundtrip(c.author);
    let h3 = Headers { author: Some(c.author), ..h2 };
    lemma_key_line(key_committer(), author_bytes(c.committer));
    lemma_header_step(committer_line, message_part, h3);
    lemma_header_lines(h3, author_bytes(c.committer));
    lemma_author_roundtrip(c.committer);
    let h4 = Headers { committer: Some(c.committer), ..h3 };
    assert(message_part[0] == 10);
    assert(index_of(message_part, 10) == 0);
    assert(message_part.skip(1) =~= c.message);
}

} // verus!
