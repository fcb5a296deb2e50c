//! Byte-string helpers shared by the encoders and parsers: searching,
//! comparing, and decimal numbers.

use vstd::prelude::*;
use vstd::set_lib::{lemma_int_range, lemma_len_subset, set_int_range};

verus! {

/// Index of the first occurrence of `b` in `s`, or `s.len()` when `b` does not occur.
pub open spec fn index_of(s: Seq<u8>, b: u8) -> int
    decreases s.len(),
{
    if s.len() == 0 {
        0
    } else if s[0] == b {
        0
    } else {
        1 + index_of(s.drop_first(), b)
    }
}

/// `index_of` is in range, points at `b` when it is inside `s`, and nothing before it is `b`.
pub proof fn lemma_index_of(s: Seq<u8>, b: u8)
    ensures
        0 <= index_of(s, b) <= s.len(),
        index_of(s, b) < s.len() ==> s[index_of(s, b)] == b,
        forall|i: int| 0 <= i < index_of(s, b) ==> s[i] != b,
    decreases s.len(),
{
    if s.len() > 0 && s[0] != b {
        let t = s.drop_first();
        lemma_index_of(t, b);
        assert forall|i: int| 0 <= i < index_of(s, b) implies s[i] != b by {
            if i > 0 {
                assert(s[i] == t[i - 1]);
            }
        }
    }
}

/// The only position that satisfies the three facts of `lemma_index_of` is `index_of` itself.
pub proof fn lemma_index_of_unique(s: Seq<u8>, b: u8, p: int)
    requires
        0 <= p <= s.len(),
        p < s.len() ==> s[p] == b,
        forall|i: int| 0 <= i < p ==> s[i] != b,
    ensures
        index_of(s, b) == p,
{
    lemma_index_of(s, b);
    let q = index_of(s, b);
    if q < p {
        assert(s[q] != b);
    }
}

/// Searching in `head + [b] + tail` stops at the end of `head` when `head` holds no `b`.
pub proof fn lemma_index_of_delimited(head: Seq<u8>, b: u8, tail: Seq<u8>)
    requires
        !head.contains(b),
    ensures
        index_of(head + seq![b] + tail, b) == head.len(),
{
    let s = head + seq![b] + tail;
    assert(s[head.len() as int] == b);
    assert forall|i: int| 0 <= i < head.len() implies s[i] != b by {
        assert(s[i] == head[i]);
        assert(head.contains(head[i]));
    }
    lemma_index_of_unique(s, b, head.len() as int);
}

/// A byte that does not occur is reported at the end.
pub proof fn lemma_index_of_absent(s: Seq<u8>, b: u8)
    ensures
        index_of(s, b) == s.len() <==> !s.contains(b),
{
    lemma_index_of(s, b);
    if index_of(s, b) == s.len() {
        assert forall|i: int| 0 <= i < s.len() implies s[i] != b by {}
    } else {
        assert(s.contains(s[index_of(s, b)]));
    }
}

/// Position of the first `b` at or after `start`, or `data.len()`.
pub fn find_byte(data: &[u8], start: usize, b: u8) -> (pos: usize)
    requires
        start <= data.len(),
    ensures
        pos == start + index_of(data@.skip(start as int), b),
        start <= pos <= data.len(),
{
    let mut pos: usize = start;
    while pos < data.len() && data[pos] != b
        invariant
            start <= pos <= data.len(),
            forall|i: int| start <= i < pos ==> data@[i] != b,
        decreases data.len() - pos,
    {
        pos += 1;
    }
    proof {
        let rest = data@.skip(start as int);
        assert forall|i: int| 0 <= i < pos - start implies rest[i] != b by {
            assert(rest[i] == data@[start + i]);
        }
        lemma_index_of_unique(rest, b, pos - start);
    }
    pos
}

/// Index of the first element of `keys` that equals `key`, or `keys.len()`
/// when none does.
pub open spec fn position_of(keys: Seq<Seq<u8>>, key: Seq<u8>) -> int
    decreases keys.len(),
{
    if keys.len() == 0 {
        0
    } else if keys[0] == key {
        0
    } else {
        1 + position_of(keys.drop_first(), key)
    }
}

/// `position_of` is in range, points at `key` when inside, and nothing before it is `key`.
pub proof fn lemma_position_of(keys: Seq<Seq<u8>>, key: Seq<u8>)
    ensures
        0 <= position_of(keys, key) <= keys.len(),
        position_of(keys, key) < keys.len() ==> keys[position_of(keys, key)] == key,
        forall|i: int| 0 <= i < position_of(keys, key) ==> keys[i] != key,
    decreases keys.len(),
{
    if keys.len() > 0 && keys[0] != key {
        let t = keys.drop_first();
        lemma_position_of(t, key);
        assert forall|i: int| 0 <= i < position_of(keys, key) implies keys[i] != key by {
            if i > 0 {
                assert(keys[i] == t[i - 1]);
            }
        }
    }
}

/// The only position with the three facts of `lemma_position_of` is `position_of` itself.
pub proof fn lemma_position_of_unique(keys: Seq<Seq<u8>>, key: Seq<u8>, p: int)
    requires
        0 <= p <= keys.len(),
        p < keys.len() ==> keys[p] == key,
        forall|i: int| 0 <= i < p ==> keys[i] != key,
    ensures
        position_of(keys, key) == p,
{
    lemma_position_of(keys, key);
    let q = position_of(keys, key);
    if q < p {
        assert(keys[q] != key);
    }
}

/// Appending a key keeps every earlier position; the new key is found at the
/// end unless it occurred before.
pub proof fn lemma_position_of_push(keys: Seq<Seq<u8>>, added: Seq<u8>, key: Seq<u8>)
    ensures
        0 <= position_of(keys, key) <= keys.len(),
        position_of(keys.push(added), key) == if position_of(keys, key) < keys.len() {
            position_of(keys, key)
        } else if key == added {
            keys.len() as int
        } else {
            keys.len() as int + 1
        },
{
    let more = keys.push(added);
    lemma_position_of(keys, key);
    let p = position_of(keys, key);
    assert forall|i: int| 0 <= i < p implies more[i] != key by {
        assert(more[i] == keys[i]);
    }
    if p < keys.len() {
        assert(more[p] == keys[p]);
        lemma_position_of_unique(more, key, p);
    } else if key == added {
        lemma_position_of_unique(more, key, p);
    } else {
        lemma_position_of_unique(more, key, p + 1);
    }
}

/// Whether no key occurs twice.
pub open spec fn distinct_keys(keys: Seq<Seq<u8>>) -> bool {
    forall|i: int, j: int| 0 <= i < j < keys.len() ==> #[trigger] keys[i] != #[trigger] keys[j]
}

/// Among distinct keys, a key is found exactly where it stands.
pub proof fn lemma_position_of_distinct(keys: Seq<Seq<u8>>, at: int)
    requires
        distinct_keys(keys),
        0 <= at < keys.len(),
    ensures
        position_of(keys, keys[at]) == at,
{
    assert forall|i: int| 0 <= i < at implies keys[i] != keys[at] by {}
    lemma_position_of_unique(keys, keys[at], at);
}

/// Taking the key at `at` out of distinct keys: that key is found no more,
/// and every other key is found where it now stands.
pub proof fn lemma_position_of_remove(keys: Seq<Seq<u8>>, at: int, key: Seq<u8>)
    requires
        distinct_keys(keys),
        0 <= at < keys.len(),
    ensures
        distinct_keys(keys.remove(at)),
        0 <= position_of(keys, key) <= keys.len(),
        position_of(keys.remove(at), key) == if key == keys[at] {
            keys.len() - 1
        } else if position_of(keys, key) < at {
            position_of(keys, key)
        } else {
            position_of(keys, key) - 1
        },
{
    let less = keys.remove(at);
    assert forall|i: int, j: int| 0 <= i < j < less.len() implies #[trigger] less[i]
        != #[trigger] less[j] by {
        let a = if i < at {
            i
        } else {
            i + 1
        };
        let b = if j < at {
            j
        } else {
            j + 1
        };
        assert(less[i] == keys[a]);
        assert(less[j] == keys[b]);
    }
    lemma_position_of(keys, key);
    let p = position_of(keys, key);
    if key == keys[at] {
        lemma_position_of_distinct(keys, at);
        assert forall|i: int| 0 <= i < less.len() implies less[i] != key by {
            let a = if i < at {
                i
            } else {
                i + 1
            };
            assert(less[i] == keys[a]);
        }
        lemma_position_of_unique(less, key, less.len() as int);
    } else if p < at {
        assert(less[p] == keys[p]);
        assert forall|i: int| 0 <= i < p implies less[i] != key by {
            assert(less[i] == keys[i]);
        }
        lemma_position_of_unique(less, key, p);
    } else {
        assert forall|i: int| 0 <= i < p - 1 implies less[i] != key by {
            let a = if i < at {
                i
            } else {
                i + 1
            };
            assert(less[i] == keys[a]);
        }
        if p < keys.len() {
            assert(less[p - 1] == keys[p]);
        }
        lemma_position_of_unique(less, key, p - 1);
    }
}

/// The positions in `keys` of the keys of `found`.
pub open spec fn positions_of(keys: Seq<Seq<u8>>, found: Seq<Seq<u8>>) -> Set<int> {
    Set::new(|p: int| exists|i: int| 0 <= i < found.len() && p == position_of(keys, #[trigger] found[i]))
}

/// Distinct keys that are all found among `keys` stand at as many positions.
pub proof fn lemma_positions_of(keys: Seq<Seq<u8>>, found: Seq<Seq<u8>>)
    requires
        distinct_keys(found),
        forall|i: int| 0 <= i < found.len() ==> position_of(keys, #[trigger] found[i]) < keys.len(),
    ensures
        positions_of(keys, found).finite(),
        positions_of(keys, found).len() == found.len(),
        positions_of(keys, found).subset_of(set_int_range(0, keys.len() as int)),
    decreases found.len(),
{
    let all = positions_of(keys, found);
    lemma_int_range(0, keys.len() as int);
    assert forall|p: int| all.contains(p) implies set_int_range(0, keys.len() as int).contains(p) by {
        let i = choose|i: int| 0 <= i < found.len() && p == position_of(keys, #[trigger] found[i]);
        lemma_position_of(keys, found[i]);
    }
    if found.len() == 0 {
        assert(all =~= Set::<int>::empty());
    } else {
        let front = found.drop_last();
        let last = found.last();
        assert forall|i: int| 0 <= i < front.len() implies position_of(keys, #[trigger] front[i])
            < keys.len() by {
            assert(front[i] == found[i]);
        }
        assert(distinct_keys(front)) by {
            assert forall|i: int, j: int| 0 <= i < j < front.len() implies #[trigger] front[i]
                != #[trigger] front[j] by {
                assert(front[i] == found[i]);
                assert(front[j] == found[j]);
            }
        }
        lemma_positions_of(keys, front);
        let before = positions_of(keys, front);
        let p = position_of(keys, last);
        assert(found[found.len() - 1] == last);
        lemma_position_of(keys, last);
        assert(!before.contains(p)) by {
            if before.contains(p) {
                let i = choose|i: int| 0 <= i < front.len() && p == position_of(keys, #[trigger] front[i]);
                lemma_position_of(keys, front[i]);
                assert(front[i] == found[i]);
                assert(keys[p] == found[i]);
                assert(found[i] != found[found.len() - 1]);
            }
        }
        assert(all =~= before.insert(p)) by {
            assert forall|q: int| all.contains(q) implies before.insert(p).contains(q) by {
                let i = choose|i: int| 0 <= i < found.len() && q == position_of(keys, #[trigger] found[i]);
                if i < front.len() {
                    assert(front[i] == found[i]);
                }
            }
            assert forall|q: int| before.insert(p).contains(q) implies all.contains(q) by {
                if q != p {
                    let i = choose|i: int| 0 <= i < front.len() && q == position_of(keys, #[trigger] front[i]);
                    assert(front[i] == found[i]);
                }
            }
        }
    }
}

/// Distinct keys that are all found among `keys` are no more than `keys`.
pub proof fn lemma_found_bound(keys: Seq<Seq<u8>>, found: Seq<Seq<u8>>)
    requires
        distinct_keys(found),
        forall|i: int| 0 <= i < found.len() ==> position_of(keys, #[trigger] found[i]) < keys.len(),
    ensures
        found.len() <= keys.len(),
{
    lemma_positions_of(keys, found);
    lemma_int_range(0, keys.len() as int);
    lemma_len_subset(positions_of(keys, found), set_int_range(0, keys.len() as int));
}

/// Whether two byte strings are the same.
pub fn bytes_eq(a: &[u8], b: &[u8]) -> (same: bool)
    ensures
        same == (a@ == b@),
{
    if a.len() != b.len() {
        return false;
    }
    let mut i: usize = 0;
    while i < a.len()
        invariant
            a.len() == b.len(),
            i <= a.len(),
            forall|k: int| 0 <= k < i ==> a@[k] == b@[k],
        decreases a.len() - i,
    {
        if a[i] != b[i] {
            return false;
        }
        i += 1;
    }
    assert(a@ =~= b@);
    true
}

/// Whether `prefix` is a prefix of `s`.
pub open spec fn has_prefix(s: Seq<u8>, prefix: Seq<u8>) -> bool {
    prefix.len() <= s.len() && s.subrange(0, prefix.len() as int) == prefix
}

/// Whether `data` begins with `prefix`.
pub fn starts_with(data: &[u8], prefix: &[u8]) -> (yes: bool)
    ensures
        yes == has_prefix(data@, prefix@),
{
    if prefix.len() > data.len() {
        return false;
    }
    bytes_eq(&data[0..prefix.len()], prefix)
}

/// A fresh copy of `data[from..to]`.
pub fn copy_range(data: &[u8], from: usize, to: usize) -> (out: Vec<u8>)
    requires
        from <= to <= data.len(),
    ensures
        out@ == data@.subrange(from as int, to as int),
{
    let mut out: Vec<u8> = Vec::new();
    out.extend_from_slice(&data[from..to]);
    out
}

/// Strict lexicographic order on byte strings: the order of `str` and `String`.
pub open spec fn lex_lt(a: Seq<u8>, b: Seq<u8>) -> bool
    decreases a.len(),
{
    if b.len() == 0 {
        false
    } else if a.len() == 0 {
        true
    } else if a[0] != b[0] {
        a[0] < b[0]
    } else {
        lex_lt(a.drop_first(), b.drop_first())
    }
}

/// No byte string is below itself, and of two strings at most one is below the other.
pub proof fn lemma_lex_lt_asymmetric(a: Seq<u8>, b: Seq<u8>)
    ensures
        !(lex_lt(a, b) && lex_lt(b, a)),
    decreases a.len(),
{
    if a.len() > 0 && b.len() > 0 && a[0] == b[0] {
        lemma_lex_lt_asymmetric(a.drop_first(), b.drop_first());
    }
}

/// Two different byte strings are ordered one way or the other.
pub proof fn lemma_lex_lt_total(a: Seq<u8>, b: Seq<u8>)
    ensures
        lex_lt(a, b) || lex_lt(b, a) || a == b,
    decreases a.len(),
{
    if a.len() == 0 || b.len() == 0 {
        if a.len() == 0 && b.len() == 0 {
            assert(a =~= b);
        }
    } else if a[0] == b[0] {
        lemma_lex_lt_total(a.drop_first(), b.drop_first());
        if a.drop_first() == b.drop_first() {
            assert(a =~= seq![a[0]] + a.drop_first());
            assert(b =~= seq![b[0]] + b.drop_first());
        }
    }
}

/// The order is transitive.
pub proof fn lemma_lex_lt_transitive(a: Seq<u8>, b: Seq<u8>, c: Seq<u8>)
    requires
        lex_lt(a, b),
        lex_lt(b, c),
    ensures
        lex_lt(a, c),
    decreases a.len(),
{
    if a.len() > 0 && a[0] == b[0] && b[0] == c[0] {
        lemma_lex_lt_transitive(a.drop_first(), b.drop_first(), c.drop_first());
    }
}

/// Whether `a` sorts strictly before `b`.
pub fn bytes_lt(a: &[u8], b: &[u8]) -> (below: bool)
    ensures
        below == lex_lt(a@, b@),
{
    let mut i: usize = 0;
    proof {
        assert(a@.skip(0) =~= a@);
        assert(b@.skip(0) =~= b@);
    }
    while i < a.len() && i < b.len()
        invariant
            i <= a.len(),
            i <= b.len(),
            lex_lt(a@, b@) == lex_lt(a@.skip(i as int), b@.skip(i as int)),
        decreases a.len() - i,
    {
        proof {
            let x = a@.skip(i as int);
            let y = b@.skip(i as int);
            assert(x[0] == a@[i as int]);
            assert(y[0] == b@[i as int]);
            assert(x.drop_first() =~= a@.skip(i + 1));
            assert(y.drop_first() =~= b@.skip(i + 1));
        }
        if a[i] != b[i] {
            return a[i] < b[i];
        }
        i += 1;
    }
    i < b.len()
}

/// The decimal digits of `n`, most significant first, without leading zeros.
pub open spec fn decimal(n: nat) -> Seq<u8>
    decreases n,
{
    if n < 10 {
        seq![(48 + n) as u8]
    } else {
        decimal(n / 10).push((48 + n % 10) as u8)
    }
}

/// Whether `b` is one of the ASCII digits `0` to `9`.
pub open spec fn is_digit(b: u8) -> bool {
    48 <= b <= 57
}

/// Whether `s` holds ASCII digits only.
pub open spec fn all_digits(s: Seq<u8>) -> bool {
    forall|i: int| 0 <= i < s.len() ==> is_digit(#[trigger] s[i])
}

/// The number that a string of digits writes; leading zeros are allowed.
pub open spec fn digits_value(s: Seq<u8>) -> nat
    decreases s.len(),
{
    if s.len() == 0 {
        0
    } else {
        digits_value(s.drop_last()) * 10 + (s.last() - 48) as nat
    }
}

/// The number written by an optional `+` followed by at least one digit;
/// `None` for any other text.
pub open spec fn unsigned_value(s: Seq<u8>) -> Option<nat> {
    let digits = if s.len() > 0 && s[0] == 43 {
        s.skip(1)
    } else {
        s
    };
    if digits.len() > 0 && all_digits(digits) {
        Some(digits_value(digits))
    } else {
        None
    }
}

/// `decimal(n)` is a non-empty string of digits that writes `n`.
pub proof fn lemma_decimal(n: nat)
    ensures
        decimal(n).len() > 0,
        all_digits(decimal(n)),
        digits_value(decimal(n)) == n,
        unsigned_value(decimal(n)) == Some(n),
    decreases n,
{
    if n < 10 {
        let s = decimal(n);
        assert(s.drop_last() =~= Seq::<u8>::empty());
        assert(digits_value(s.drop_last()) == 0);
    } else {
        lemma_decimal(n / 10);
        let s = decimal(n);
        assert(s.drop_last() =~= decimal(n / 10));
        assert(s[0] == decimal(n / 10)[0]);
    }
}

/// Appends the decimal digits of `n` to `out`.
pub fn push_decimal(out: &mut Vec<u8>, n: u64)
    ensures
        final(out)@ == old(out)@ + decimal(n as nat),
    decreases n,
{
    if n >= 10 {
        push_decimal(out, n / 10);
    }
    let digit: u8 = (n % 10) as u8;
    out.push(48 + digit);
    proof {
        if n >= 10 {
            assert(final(out)@ =~= old(out)@ + decimal(n as nat));
        } else {
            assert(final(out)@ =~= old(out)@ + decimal(n as nat));
        }
    }
}

/// Extending a digit string never lowers the number it writes.
pub proof fn lemma_digits_value_prefix(s: Seq<u8>, k: int)
    requires
        0 <= k <= s.len(),
    ensures
        digits_value(s.take(k)) <= digits_value(s) || !all_digits(s),
    decreases s.len() - k,
{
    if k < s.len() && all_digits(s) {
        lemma_digits_value_prefix(s, k + 1);
        assert(s.take(k + 1).drop_last() =~= s.take(k));
        assert(is_digit(s[k]));
        assert(s.take(k + 1).last() == s[k]);
    } else if k == s.len() {
        assert(s.take(k) =~= s);
    }
}

/// Reads an unsigned decimal number: an optional `+`, then digits.
/// `None` when the text is anything else or the number is above `u64::MAX`.
pub fn parse_unsigned(text: &[u8]) -> (value: Option<u64>)
    ensures
        value == match unsigned_value(text@) {
            Some(v) => if v <= u64::MAX {
                Some(v as u64)
            } else {
                None
            },
            None => None,
        },
{
    let start: usize = if text.len() > 0 && text[0] == 43 {
        1
    } else {
        0
    };
    if start == text.len() {
        return None;
    }
    let ghost digits = text@.skip(start as int);
    proof {
        if start == 0 {
            assert(digits =~= text@);
        }
    }
    let mut acc: u64 = 0;
    let mut i: usize = start;
    while i < text.len()
        invariant
            start <= i <= text.len(),
            start < text.len(),
            digits == text@.skip(start as int),
            unsigned_value(text@) == if all_digits(digits) {
                Some(digits_value(digits))
            } else {
                None
            },
            all_digits(digits.take(i - start)),
            acc == digits_value(digits.take(i - start)),
        decreases text.len() - i,
    {
        let b: u8 = text[i];
        proof {
            assert(digits[i - start] == b);
            assert(digits.take(i - start + 1).drop_last() =~= digits.take(i - start));
            assert(digits.take(i - start + 1).last() == b);
        }
        if b < 48 || b > 57 {
            assert(!is_digit(digits[i - start]));
            return None;
        }
        proof {
            assert forall|k: int| 0 <= k < i - start + 1 implies is_digit(
                #[trigger] digits.take(i - start + 1)[k],
            ) by {
                if k < i - start {
                    assert(digits.take(i - start + 1)[k] == digits.take(i - start)[k]);
                }
            }
            lemma_digits_value_prefix(digits, i - start + 1);
        }
        let digit: u64 = (b - 48) as u64;
        if acc > (u64::MAX - digit) / 10 {
            return None;
        }
        acc = acc * 10 + digit;
        i += 1;
    }
    proof {
        assert(digits.take(i - start) =~= digits);
    }
    Some(acc)
}

} // verus!
