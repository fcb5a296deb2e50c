//! Ignore rules: which paths are left out of the staging area.
//!
//! A rule is a pattern with at most one `*`, or with `?` for single
//! characters. A rule that begins with `!` takes back what earlier rules
//! ignore, and a rule that ends in `/` holds for directories only.

use crate::bytes::{bytes_eq, find_byte, has_prefix, index_of, lemma_index_of_absent, starts_with};
use crate::text::{lines_of, lines_view, split_text, text_bytes, text_from_bytes, trim, trim_bounds};
use vstd::prelude::*;
use vstd::string::*;
use vstd::utf8::*;

verus! {

/// Represents a single ignore pattern
#[derive(Debug, Clone)]
pub struct IgnorePattern {
    /// The pattern string
    pub pattern: String,
    /// Whether this is a negation pattern (starts with !)
    pub negated: bool,
    /// Whether this matches directories only (ends with /)
    pub directory_only: bool,
    /// Whether this is anchored to the start (doesn't start with *)
    pub anchored: bool,
}

/// What an `IgnorePattern` stands for.
pub struct PatternView {
    pub pattern: Seq<u8>,
    pub negated: bool,
    pub directory_only: bool,
    pub anchored: bool,
}

impl View for IgnorePattern {
    type V = PatternView;

    open spec fn view(&self) -> PatternView {
        PatternView {
            pattern: encode_utf8(self.pattern@),
            negated: self.negated,
            directory_only: self.directory_only,
            anchored: self.anchored,
        }
    }
}

/// The rule that a line of an ignore file holds; `None` for an empty line,
/// a comment (`#`), and a `!` with nothing behind it.
pub open spec fn parse_pattern(line: Seq<u8>) -> Option<PatternView> {
    let trimmed = trim(line);
    if trimmed.len() == 0 || trimmed[0] == 35 {
        None
    } else {
        let negated = trimmed[0] == 33;
        let body = if negated {
            trim(trimmed.skip(1))
        } else {
            trimmed
        };
        if body.len() == 0 {
            None
        } else {
            let directory_only = body.last() == 47;
            let clean = if directory_only {
                body.drop_last()
            } else {
                body
            };
            Some(
                PatternView {
                    pattern: text_bytes(clean),
                    negated,
                    directory_only,
                    anchored: !(clean.len() > 0 && clean[0] == 42),
                },
            )
        }
    }
}

/// Whether `s` ends with `suffix`.
pub open spec fn has_suffix(s: Seq<u8>, suffix: Seq<u8>) -> bool {
    suffix.len() <= s.len() && s.skip(s.len() - suffix.len()) == suffix
}

/// Whether `data` ends with `suffix`.
pub fn ends_with(data: &[u8], suffix: &[u8]) -> (yes: bool)
    ensures
        yes == has_suffix(data@, suffix@),
{
    if suffix.len() > data.len() {
        return false;
    }
    let from: usize = data.len() - suffix.len();
    assert(data@.subrange(from as int, data.len() as int) =~= data@.skip(from as int));
    bytes_eq(&data[from..data.len()], suffix)
}

/// The number of bytes of the character that begins with `b`.
pub open spec fn char_width(b: u8) -> int {
    if b < 0x80 {
        1
    } else if b < 0xE0 {
        2
    } else if b < 0xF0 {
        3
    } else {
        4
    }
}

/// The number of bytes of the character that `s` begins with.
pub open spec fn first_width(s: Seq<u8>) -> int {
    if s.len() == 0 {
        0
    } else if char_width(s[0]) < s.len() {
        char_width(s[0])
    } else {
        s.len() as int
    }
}

/// Whether pattern and text agree character by character, as far as the
/// shorter of the two goes; a `?` in the pattern agrees with any character.
pub open spec fn wild_match(pattern: Seq<u8>, text: Seq<u8>) -> bool
    decreases pattern.len(),
{
    if pattern.len() == 0 || text.len() == 0 {
        true
    } else {
        let wp = first_width(pattern);
        let wt = first_width(text);
        (pattern[0] == 63 || pattern.take(wp) == text.take(wt)) && wild_match(
            pattern.skip(wp),
            text.skip(wt),
        )
    }
}

/// Whether `text` matches `pattern`: the two are equal; or the pattern
/// holds exactly one `*` and the text begins with what stands before it
/// and ends with what stands behind it, the two not overlapping; or the
/// pattern holds a `?`, is as long as the text, and agrees with it
/// character by character.
pub open spec fn glob_match(text: Seq<u8>, pattern: Seq<u8>) -> bool {
    if pattern == text {
        true
    } else {
        let star = index_of(pattern, 42);
        let prefix = pattern.take(star);
        let suffix = pattern.skip(star + 1);
        if star < pattern.len() && !suffix.contains(42) && has_prefix(text, prefix) && has_suffix(
            text,
            suffix,
        ) {
            prefix.len() + suffix.len() <= text.len()
        } else if pattern.contains(63) && pattern.len() == text.len() {
            wild_match(pattern, text)
        } else {
            false
        }
    }
}

/// The number of bytes of the character at `data[at]`.
pub fn width_at(data: &[u8], at: usize) -> (w: usize)
    requires
        at < data.len(),
    ensures
        w == first_width(data@.skip(at as int)),
        0 < w <= data.len() - at,
{
    let b: u8 = data[at];
    assert(data@.skip(at as int)[0] == b);
    let full: usize = if b < 0x80 {
        1
    } else if b < 0xE0 {
        2
    } else if b < 0xF0 {
        3
    } else {
        4
    };
    if full < data.len() - at {
        full
    } else {
        data.len() - at
    }
}

/// Whether pattern and text agree character by character.
pub fn wild_matches(pattern: &[u8], text: &[u8]) -> (yes: bool)
    ensures
        yes == wild_match(pattern@, text@),
{
    let mut i: usize = 0;
    let mut j: usize = 0;
    proof {
        assert(pattern@.skip(0) =~= pattern@);
        assert(text@.skip(0) =~= text@);
    }
    while i < pattern.len() && j < text.len()
        invariant
            i <= pattern.len(),
            j <= text.len(),
            wild_match(pattern@, text@) == wild_match(pattern@.skip(i as int), text@.skip(j as int)),
        decreases pattern.len() - i,
    {
        let ghost p = pattern@.skip(i as int);
        let ghost t = text@.skip(j as int);
        let wp = width_at(pattern, i);
        let wt = width_at(text, j);
        proof {
            assert(p[0] == pattern@[i as int]);
            assert(p.take(wp as int) =~= pattern@.subrange(i as int, i + wp));
            assert(t.take(wt as int) =~= text@.subrange(j as int, j + wt));
            assert(p.skip(wp as int) =~= pattern@.skip(i + wp));
            assert(t.skip(wt as int) =~= text@.skip(j + wt));
        }
        if pattern[i] != 63 && !bytes_eq(&pattern[i..i + wp], &text[j..j + wt]) {
            return false;
        }
        i += wp;
        j += wt;
    }
    true
}

/// Whether `b` occurs in `data`.
pub fn holds(data: &[u8], b: u8) -> (yes: bool)
    ensures
        yes == data@.contains(b),
{
    let at = find_byte(data, 0, b);
    proof {
        assert(data@.skip(0) =~= data@);
        lemma_index_of_absent(data@, b);
    }
    at < data.len()
}

/// Whether `text` matches `pattern`.
pub fn glob_matches(text: &[u8], pattern: &[u8]) -> (yes: bool)
    ensures
        yes == glob_match(text@, pattern@),
{
    if bytes_eq(pattern, text) {
        return true;
    }
    let star = find_byte(pattern, 0, 42);
    proof {
        assert(pattern@.skip(0) =~= pattern@);
    }
    if star < pattern.len() {
        let prefix = &pattern[0..star];
        let suffix = &pattern[star + 1..pattern.len()];
        assert(prefix@ =~= pattern@.take(star as int));
        assert(suffix@ =~= pattern@.skip(star + 1));
        if !holds(suffix, 42) && starts_with(text, prefix) && ends_with(text, suffix) {
            return prefix.len() <= text.len() && suffix.len() <= text.len() - prefix.len();
        }
    }
    if holds(pattern, 63) && pattern.len() == text.len() {
        return wild_matches(pattern, text);
    }
    false
}

/// `s` with every backslash turned into a slash.
pub open spec fn slashed(s: Seq<u8>) -> Seq<u8> {
    s.map_values(
        |b: u8|
            if b == 92 {
                47u8
            } else {
                b
            },
    )
}

/// A copy of `data` with every backslash turned into a slash.
pub fn with_slashes(data: &[u8]) -> (out: Vec<u8>)
    ensures
        out@ == slashed(data@),
{
    let mut out: Vec<u8> = Vec::new();
    let mut i: usize = 0;
    while i < data.len()
        invariant
            i <= data.len(),
            out@ == slashed(data@.take(i as int)),
        decreases data.len() - i,
    {
        let b: u8 = data[i];
        out.push(if b == 92 {
            47
        } else {
            b
        });
        assert(out@ =~= slashed(data@.take(i + 1)));
        i += 1;
    }
    assert(data@.take(i as int) =~= data@);
    out
}

/// What stands behind the last `/` of `path`; all of it where it holds none.
pub open spec fn base_name(path: Seq<u8>) -> Seq<u8>
    decreases path.len(),
{
    let at = index_of(path, 47);
    if 0 <= at < path.len() {
        base_name(path.skip(at + 1))
    } else {
        path
    }
}

/// Where the last segment of `path` begins.
pub fn base_start(path: &[u8]) -> (from: usize)
    ensures
        from <= path.len(),
        path@.skip(from as int) == base_name(path@),
{
    let mut from: usize = 0;
    proof {
        assert(path@.skip(0) =~= path@);
    }
    loop
        invariant_except_break
            from <= path.len(),
            base_name(path@) == base_name(path@.skip(from as int)),
        ensures
            from <= path.len(),
            path@.skip(from as int) == base_name(path@),
        decreases path.len() - from,
    {
        let at = find_byte(path, from, 47);
        if at == path.len() {
            break;
        }
        assert(path@.skip(from as int).skip(at - from + 1) =~= path@.skip(at + 1));
        from = at + 1;
    }
    from
}

/// Whether the rule `p` holds for `path`. A rule for directories holds for
/// directories only. Backslashes count as slashes. The rule holds where the
/// whole path matches the pattern; a pattern that begins with `*` and
/// holds no `/` also holds where the last segment of the path matches it.
pub open spec fn pattern_matches(p: PatternView, path: Seq<u8>, is_dir: bool) -> bool {
    if p.directory_only && !is_dir {
        false
    } else {
        let whole = slashed(path);
        let pattern = slashed(p.pattern);
        glob_match(whole, pattern) || (!p.anchored && !pattern.contains(47) && base_name(
            whole,
        ).len() > 0 && glob_match(base_name(whole), pattern))
    }
}

impl IgnorePattern {
    /// Parse a pattern line
    pub fn parse(line: &str) -> (res: Option<Self>)
        ensures
            match res {
                Some(p) => parse_pattern(line.spec_bytes()) == Some(p@),
                None => parse_pattern(line.spec_bytes()) is None,
            },
    {
        pattern_of_line(line.as_bytes())
    }

    /// Simple glob matching (supports one `*`, and `?`)
    pub fn matches_glob(&self, text: &str, pattern: &str) -> (yes: bool)
        ensures
            yes == glob_match(text.spec_bytes(), pattern.spec_bytes()),
    {
        glob_matches(text.as_bytes(), pattern.as_bytes())
    }

    /// Check if a path matches this pattern
    pub fn matches(&self, path: &str, is_dir: bool) -> (yes: bool)
        ensures
            yes == pattern_matches(self@, path.spec_bytes(), is_dir),
    {
        if self.directory_only && !is_dir {
            return false;
        }
        let whole = with_slashes(path.as_bytes());
        let pattern = with_slashes(self.pattern.as_str().as_bytes());
        if glob_matches(whole.as_slice(), pattern.as_slice()) {
            return true;
        }
        if !self.anchored && !holds(pattern.as_slice(), 47) {
            let from = base_start(whole.as_slice());
            if from < whole.len() {
                let base = &whole.as_slice()[from..whole.len()];
                assert(base@ =~= whole@.skip(from as int));
                if glob_matches(base, pattern.as_slice()) {
                    return true;
                }
            }
        }
        false
    }
}

/// Represents a collection of ignore patterns
#[derive(Debug, Clone)]
pub struct IgnoreRules {
    /// The rules, in the order of the ignore file
    pub patterns: Vec<IgnorePattern>,
}

impl View for IgnoreRules {
    type V = Seq<PatternView>;

    open spec fn view(&self) -> Seq<PatternView> {
        self.patterns@.map_values(|p: IgnorePattern| p@)
    }
}

/// Whether `rules` ignore `path`: the last rule that holds for the path
/// decides, and a path for which no rule holds is not ignored.
pub open spec fn verdict(rules: Seq<PatternView>, path: Seq<u8>, is_dir: bool) -> bool
    decreases rules.len(),
{
    if rules.len() == 0 {
        false
    } else if pattern_matches(rules.last(), path, is_dir) {
        !rules.last().negated
    } else {
        verdict(rules.drop_last(), path, is_dir)
    }
}

/// The rules that the lines of an ignore file hold, in order.
pub open spec fn rules_of(lines: Seq<Seq<u8>>) -> Seq<PatternView>
    decreases lines.len(),
{
    if lines.len() == 0 {
        Seq::<PatternView>::empty()
    } else {
        match parse_pattern(lines.last()) {
            Some(p) => rules_of(lines.drop_last()).push(p),
            None => rules_of(lines.drop_last()),
        }
    }
}

impl IgnoreRules {
    /// Create empty ignore rules: no pattern, so no path is ignored
    pub fn new() -> (rules: Self)
        ensures
            rules.patterns@ == Seq::<IgnorePattern>::empty(),
            rules@ == Seq::<PatternView>::empty(),
            forall|path: Seq<u8>, is_dir: bool| !verdict(rules@, path, is_dir),
    {
        let rules = IgnoreRules { patterns: Vec::new() };
        assert(rules@ =~= Seq::<PatternView>::empty());
        rules
    }

    /// The rules of an ignore file with the content `content`.
    pub fn load(content: &str) -> (rules: Self)
        ensures
            rules@ == rules_of(lines_of(content.spec_bytes())),
    {
        let lines = split_text(content.as_bytes());
        let ghost all = lines_view(lines@);
        let mut patterns: Vec<IgnorePattern> = Vec::new();
        let mut i: usize = 0;
        assert(all.take(0) =~= Seq::<Seq<u8>>::empty());
        assert(patterns@.map_values(|p: IgnorePattern| p@) =~= Seq::<PatternView>::empty());
        while i < lines.len()
            invariant
                i <= lines@.len(),
                all == lines_view(lines@),
                patterns@.map_values(|p: IgnorePattern| p@) == rules_of(all.take(i as int)),
            decreases lines@.len() - i,
        {
            let ghost before = patterns@.map_values(|p: IgnorePattern| p@);
            proof {
                assert(all.take(i + 1).drop_last() =~= all.take(i as int));
                assert(all.take(i + 1).last() == lines@[i as int]@);
            }
            match pattern_of_line(lines[i].as_slice()) {
                Some(p) => {
                    patterns.push(p);
                    assert(patterns@.map_values(|p: IgnorePattern| p@) =~= before.push(p@));
                },
                None => {},
            }
            i += 1;
        }
        assert(all.take(i as int) =~= all);
        IgnoreRules { patterns }
    }

    /// Check if a path should be ignored
    pub fn is_ignored(&self, path: &str, is_dir: bool) -> (ignored: bool)
        ensures
            ignored == verdict(self@, path.spec_bytes(), is_dir),
    {
        let mut ignored = false;
        let mut i: usize = 0;
        assert(self@.take(0) =~= Seq::<PatternView>::empty());
        while i < self.patterns.len()
            invariant
                i <= self.patterns@.len(),
                ignored == verdict(self@.take(i as int), path.spec_bytes(), is_dir),
            decreases self.patterns@.len() - i,
        {
            proof {
                assert(self@.take(i + 1).drop_last() =~= self@.take(i as int));
                assert(self@.take(i + 1).last() == self.patterns@[i as int]@);
            }
            if self.patterns[i].matches(path, is_dir) {
                ignored = !self.patterns[i].negated;
            }
            i += 1;
        }
        assert(self@.take(i as int) =~= self@);
        ignored
    }

    /// Check if a path should be ignored; backslashes in the path count as
    /// slashes
    pub fn is_ignored_path(&self, path: &str, is_dir: bool) -> (ignored: bool)
        ensures
            ignored == verdict(self@, text_bytes(slashed(path.spec_bytes())), is_dir),
    {
        let normal = with_slashes(path.as_bytes());
        let text = text_from_bytes(normal.as_slice());
        self.is_ignored(text.as_str(), is_dir)
    }
}

/// The rule of a line, given as bytes.
pub fn pattern_of_line(line: &[u8]) -> (res: Option<IgnorePattern>)
    ensures
        match res {
            Some(p) => parse_pattern(line@) == Some(p@),
            None => parse_pattern(line@) is None,
        },
{
    let data = line;
    let (a, b) = trim_bounds(data, 0, data.len());
    proof {
        assert(data@.subrange(0, data.len() as int) =~= data@);
    }
    let ghost trimmed = data@.subrange(a as int, b as int);
    if a == b || data[a] == 35 {
        assert(a < b ==> trimmed[0] == data@[a as int]);
        return None;
    }
    assert(trimmed[0] == data@[a as int]);
    let negated = data[a] == 33;
    let (from, to) = if negated {
        proof {
            assert(trimmed.skip(1) =~= data@.subrange(a + 1, b as int));
        }
        trim_bounds(data, a + 1, b)
    } else {
        (a, b)
    };
    let ghost body = data@.subrange(from as int, to as int);
    if from == to {
        return None;
    }
    assert(body.last() == data@[to - 1]);
    let directory_only = data[to - 1] == 47;
    let end: usize = if directory_only {
        (to - 1) as usize
    } else {
        to
    };
    let ghost clean = data@.subrange(from as int, end as int);
    proof {
        if directory_only {
            assert(clean =~= body.drop_last());
        }
        if clean.len() > 0 {
            assert(clean[0] == data@[from as int]);
        }
    }
    let anchored = !(end > from && data[from] == 42);
    let pattern = text_from_bytes(&data[from..end]);
    Some(IgnorePattern { pattern, negated, directory_only, anchored })
}

impl Default for IgnoreRules {
    fn default() -> (rules: Self)
        ensures
            rules.patterns@ == Seq::<IgnorePattern>::empty(),
            rules@ == Seq::<PatternView>::empty(),
    {
        IgnoreRules::new()
    }
}

/// Get the path to the .ritignore file
pub fn get_ignore_path(repo_root: &str) -> (path: String)
    ensures
        encode_utf8(path@) == crate::path_join(repo_root.spec_bytes(), ".ritignore".spec_bytes()),
{
    crate::join_paths(repo_root, ".ritignore")
}

/// The ignore rules of a repository whose ignore file has the content
/// `content`; no rules where there is no such file.
pub fn load_ignore_rules(content: Option<&str>) -> (rules: IgnoreRules)
    ensures
        rules@ == match content {
            Some(c) => rules_of(lines_of(c.spec_bytes())),
            None => Seq::<PatternView>::empty(),
        },
{
    match content {
        Some(c) => IgnoreRules::load(c),
        None => IgnoreRules::new(),
    }
}

/// The bytes of `.rit/`.
pub open spec fn rit_prefix() -> Seq<u8> {
    seq![46u8, 114u8, 105u8, 116u8, 47u8]
}

/// The bytes of `.ritignore`.
pub open spec fn ignore_file_name() -> Seq<u8> {
    seq![46u8, 114u8, 105u8, 116u8, 105u8, 103u8, 110u8, 111u8, 114u8, 101u8]
}

/// Whether the file at `path` is staged when it is added: it lies outside
/// the repository directory, is not the ignore file, and is not ignored.
pub open spec fn stageable(rules: Seq<PatternView>, path: Seq<u8>) -> bool {
    !has_prefix(path, rit_prefix()) && path != ignore_file_name() && !verdict(rules, path, false)
}

/// Whether the file at `path`, relative to the repository root, is staged
/// when it is added.
pub fn should_stage(rules: &IgnoreRules, path: &str) -> (yes: bool)
    ensures
        yes == stageable(rules@, path.spec_bytes()),
{
    proof {
        reveal_strlit(".rit/");
        is_ascii_spec_bytes(".rit/");
        assert(".rit/".spec_bytes() =~= rit_prefix());
        reveal_strlit(".ritignore");
        is_ascii_spec_bytes(".ritignore");
        assert(".ritignore".spec_bytes() =~= ignore_file_name());
    }
    let data = path.as_bytes();
    if starts_with(data, ".rit/".as_bytes()) {
        return false;
    }
    if bytes_eq(data, ".ritignore".as_bytes()) {
        return false;
    }
    !rules.is_ignored(path, false)
}

} // verus!
