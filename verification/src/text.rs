//! Conversions between byte strings and `String`s.
//!
//! A text field is modelled by its UTF-8 bytes. Going from bytes to a
//! `String` is lossy where the bytes are not UTF-8; `text_bytes` says what
//! bytes the resulting `String` holds.

use crate::bytes::{find_byte, index_of, lemma_index_of};
use vstd::prelude::*;
use vstd::string::*;
use vstd::utf8::*;

verus! {

/// The text that lossy UTF-8 decoding makes of `raw`: invalid sequences are
/// replaced by U+FFFD.
pub uninterp spec fn lossy_text(raw: Seq<u8>) -> Seq<char>;

/// The UTF-8 bytes of the `String` that `raw` is turned into: `raw` itself
/// where it is valid UTF-8.
pub open spec fn text_bytes(raw: Seq<u8>) -> Seq<u8> {
    if valid_utf8(raw) {
        raw
    } else {
        encode_utf8(lossy_text(raw))
    }
}

/// `String::from_utf8_lossy`. Trusted: the result is the lossy decoding of
/// the argument, and holds exactly the argument's bytes where those are valid
/// UTF-8.
#[verifier::external_body]
fn lossy_string(raw: &[u8]) -> (text: String)
    ensures
        text@ == lossy_text(raw@),
        valid_utf8(raw@) ==> encode_utf8(text@) == raw@,
{
    String::from_utf8_lossy(raw).into_owned()
}

/// `String::from_utf8`. Trusted: it succeeds exactly on valid UTF-8, and the
/// `String` then holds the argument's bytes.
#[verifier::external_body]
fn checked_string(raw: Vec<u8>) -> (text: Option<String>)
    ensures
        text is Some <==> valid_utf8(raw@),
        text matches Some(t) ==> encode_utf8(t@) == raw@,
{
    String::from_utf8(raw).ok()
}

/// The `String` for `raw`, replacing what is not UTF-8.
pub fn text_from_bytes(raw: &[u8]) -> (text: String)
    ensures
        encode_utf8(text@) == text_bytes(raw@),
{
    lossy_string(raw)
}

/// The `String` for `raw`, if `raw` is UTF-8.
pub fn text_if_utf8(raw: &[u8]) -> (text: Option<String>)
    ensures
        text is Some <==> valid_utf8(raw@),
        text matches Some(t) ==> encode_utf8(t@) == raw@,
{
    let mut owned: Vec<u8> = Vec::new();
    owned.extend_from_slice(raw);
    assert(owned@ =~= raw@);
    checked_string(owned)
}

/// Two texts with the same UTF-8 bytes are the same text.
pub proof fn lemma_utf8_injective(a: Seq<char>, b: Seq<char>)
    requires
        encode_utf8(a) == encode_utf8(b),
    ensures
        a == b,
{
    encode_utf8_decode_utf8(a);
    encode_utf8_decode_utf8(b);
}

/// The bytes of a text survive the trip through a `String` unchanged.
pub proof fn lemma_text_bytes_of_text(t: Seq<char>)
    ensures
        text_bytes(encode_utf8(t)) == encode_utf8(t),
{
    encode_utf8_valid_utf8(t);
}

/// Whether every byte of `s` is ASCII.
pub open spec fn is_ascii_bytes(s: Seq<u8>) -> bool {
    forall|i: int| 0 <= i < s.len() ==> #[trigger] s[i] < 128
}

/// ASCII bytes are valid UTF-8.
pub proof fn lemma_ascii_is_utf8(s: Seq<u8>)
    requires
        is_ascii_bytes(s),
    ensures
        valid_utf8(s),
    decreases s.len(),
{
    if s.len() > 0 {
        let b: u8 = s[0];
        assert(b < 128);
        assert(decode_first_codepoint(s) == (b & 0x7F) as u32);
        assert(!(0xD800u32 <= (b & 0x7F) as u32 <= 0xDFFFu32)) by (bit_vector);
        let rest = pop_first_scalar(s);
        assert(rest =~= s.skip(1));
        assert forall|i: int| 0 <= i < rest.len() implies #[trigger] rest[i] < 128 by {
            assert(rest[i] == s[i + 1]);
        }
        lemma_ascii_is_utf8(rest);
    }
}

/// Joining two UTF-8 strings gives UTF-8.
pub proof fn lemma_utf8_concat(a: Seq<u8>, b: Seq<u8>)
    requires
        valid_utf8(a),
        valid_utf8(b),
    ensures
        valid_utf8(a + b),
{
    valid_utf8_concat(a, b);
}

/// Whether `b` is a white-space character of one byte: U+0009 to U+000D, or a space.
pub open spec fn is_space1(b: u8) -> bool {
    9 <= b <= 13 || b == 32
}

/// Whether `a b` is a white-space character of two bytes: U+0085 or U+00A0.
pub open spec fn is_space2(a: u8, b: u8) -> bool {
    a == 0xC2 && (b == 0x85 || b == 0xA0)
}

/// Whether `a b c` is a white-space character of three bytes: U+1680,
/// U+2000 to U+200A, U+2028, U+2029, U+202F, U+205F or U+3000.
pub open spec fn is_space3(a: u8, b: u8, c: u8) -> bool {
    ||| (a == 0xE1 && b == 0x9A && c == 0x80)
    ||| (a == 0xE2 && b == 0x80 && (0x80 <= c <= 0x8A || c == 0xA8 || c == 0xA9 || c == 0xAF))
    ||| (a == 0xE2 && b == 0x81 && c == 0x9F)
    ||| (a == 0xE3 && b == 0x80 && c == 0x80)
}

/// The length of the white-space character that `s` begins with, or 0.
pub open spec fn leading_space(s: Seq<u8>) -> int {
    if s.len() >= 1 && is_space1(s[0]) {
        1
    } else if s.len() >= 2 && is_space2(s[0], s[1]) {
        2
    } else if s.len() >= 3 && is_space3(s[0], s[1], s[2]) {
        3
    } else {
        0
    }
}

/// The length of the white-space character that `s` ends with, or 0.
pub open spec fn trailing_space(s: Seq<u8>) -> int {
    let n = s.len() as int;
    if n >= 1 && is_space1(s[n - 1]) {
        1
    } else if n >= 2 && is_space2(s[n - 2], s[n - 1]) {
        2
    } else if n >= 3 && is_space3(s[n - 3], s[n - 2], s[n - 1]) {
        3
    } else {
        0
    }
}

/// `s` without the white space that it begins with.
pub open spec fn trim_start(s: Seq<u8>) -> Seq<u8>
    decreases s.len(),
{
    if leading_space(s) > 0 {
        trim_start(s.skip(leading_space(s)))
    } else {
        s
    }
}

/// `s` without the white space that it ends with.
pub open spec fn trim_end(s: Seq<u8>) -> Seq<u8>
    decreases s.len(),
{
    if trailing_space(s) > 0 {
        trim_end(s.take(s.len() - trailing_space(s)))
    } else {
        s
    }
}

/// `s` without the white space at either end.
pub open spec fn trim(s: Seq<u8>) -> Seq<u8> {
    trim_end(trim_start(s))
}

/// The length of the white-space character that `data[from..to]` begins with, or 0.
pub fn leading_space_len(data: &[u8], from: usize, to: usize) -> (n: usize)
    requires
        from <= to <= data.len(),
    ensures
        n == leading_space(data@.subrange(from as int, to as int)),
{
    let ghost s = data@.subrange(from as int, to as int);
    let len: usize = to - from;
    if len >= 1 {
        let a: u8 = data[from];
        assert(s[0] == a);
        if (9 <= a && a <= 13) || a == 32 {
            return 1;
        }
        if len >= 2 {
            let b: u8 = data[from + 1];
            assert(s[1] == b);
            if a == 0xC2 && (b == 0x85 || b == 0xA0) {
                return 2;
            }
            if len >= 3 {
                let c: u8 = data[from + 2];
                assert(s[2] == c);
                if (a == 0xE1 && b == 0x9A && c == 0x80) || (a == 0xE2 && b == 0x80 && ((0x80 <= c
                    && c <= 0x8A) || c == 0xA8 || c == 0xA9 || c == 0xAF)) || (a == 0xE2 && b
                    == 0x81 && c == 0x9F) || (a == 0xE3 && b == 0x80 && c == 0x80) {
                    return 3;
                }
            }
        }
    }
    0
}

/// The length of the white-space character that `data[from..to]` ends with, or 0.
pub fn trailing_space_len(data: &[u8], from: usize, to: usize) -> (n: usize)
    requires
        from <= to <= data.len(),
    ensures
        n == trailing_space(data@.subrange(from as int, to as int)),
{
    let ghost s = data@.subrange(from as int, to as int);
    let len: usize = to - from;
    if len >= 1 {
        let c: u8 = data[to - 1];
        assert(s[len - 1] == c);
        if (9 <= c && c <= 13) || c == 32 {
            return 1;
        }
        if len >= 2 {
            let b: u8 = data[to - 2];
            assert(s[len - 2] == b);
            if b == 0xC2 && (c == 0x85 || c == 0xA0) {
                return 2;
            }
            if len >= 3 {
                let a: u8 = data[to - 3];
                assert(s[len - 3] == a);
                if (a == 0xE1 && b == 0x9A && c == 0x80) || (a == 0xE2 && b == 0x80 && ((0x80 <= c
                    && c <= 0x8A) || c == 0xA8 || c == 0xA9 || c == 0xAF)) || (a == 0xE2 && b
                    == 0x81 && c == 0x9F) || (a == 0xE3 && b == 0x80 && c == 0x80) {
                    return 3;
                }
            }
        }
    }
    0
}

/// The bounds of `data[from..to]` without the white space at either end.
pub fn trim_bounds(data: &[u8], from: usize, to: usize) -> (bounds: (usize, usize))
    requires
        from <= to <= data.len(),
    ensures
        from <= bounds.0 <= bounds.1 <= to,
        data@.subrange(bounds.0 as int, bounds.1 as int) == trim(
            data@.subrange(from as int, to as int),
        ),
{
    let mut a: usize = from;
    loop
        invariant
            from <= a <= to <= data.len(),
            trim_start(data@.subrange(from as int, to as int)) == trim_start(
                data@.subrange(a as int, to as int),
            ),
        ensures
            from <= a <= to,
            trim_start(data@.subrange(from as int, to as int)) == data@.subrange(
                a as int,
                to as int,
            ),
        decreases to - a,
    {
        let n = leading_space_len(data, a, to);
        if n == 0 {
            break;
        }
        assert(data@.subrange(a as int, to as int).skip(n as int) =~= data@.subrange(
            a + n,
            to as int,
        ));
        a += n;
    }
    let mut b: usize = to;
    loop
        invariant
            a <= b <= to <= data.len(),
            trim_end(data@.subrange(a as int, to as int)) == trim_end(
                data@.subrange(a as int, b as int),
            ),
        ensures
            a <= b <= to,
            trim_end(data@.subrange(a as int, to as int)) == data@.subrange(a as int, b as int),
        decreases b - a,
    {
        let n = trailing_space_len(data, a, b);
        if n == 0 {
            break;
        }
        assert(data@.subrange(a as int, b as int).take(b - a - n) =~= data@.subrange(
            a as int,
            b - n,
        ));
        b -= n;
    }
    (a, b)
}

/// Cutting UTF-8 at an ASCII byte leaves UTF-8 on both sides.
pub proof fn lemma_split_at_ascii(s: Seq<u8>, at: int)
    requires
        valid_utf8(s),
        0 <= at < s.len(),
        s[at] < 128,
    ensures
        valid_utf8(s.take(at)),
        valid_utf8(s.skip(at + 1)),
{
    let b: u8 = s[at];
    assert(!is_continuation_byte(b));
    is_char_boundary_iff_not_is_continuation_byte(s, at);
    valid_utf8_split(s, at);
    assert(s.subrange(0, at) =~= s.take(at));
    let rest = s.subrange(at, s.len() as int);
    assert(rest[0] == b);
    assert(is_leading_byte_width_1(b));
    assert(pop_first_scalar(rest) =~= s.skip(at + 1));
}

/// A line without the carriage return that it ends with, if it does.
pub open spec fn strip_cr(line: Seq<u8>) -> Seq<u8> {
    if line.len() > 0 && line.last() == 13 {
        line.drop_last()
    } else {
        line
    }
}

/// The lines of a text. A line ends at a line feed, or at a carriage return
/// right before a line feed; neither belongs to the line. What follows the
/// last line feed is a line if it is not empty.
pub open spec fn lines_of(s: Seq<u8>) -> Seq<Seq<u8>>
    decreases s.len(),
{
    if s.len() == 0 {
        Seq::<Seq<u8>>::empty()
    } else {
        let end = index_of(s, 10);
        if 0 <= end < s.len() {
            seq![strip_cr(s.take(end))] + lines_of(s.skip(end + 1))
        } else {
            seq![s]
        }
    }
}

/// The lines of UTF-8 are UTF-8.
pub proof fn lemma_lines_utf8(s: Seq<u8>)
    requires
        valid_utf8(s),
    ensures
        forall|i: int| 0 <= i < lines_of(s).len() ==> valid_utf8(#[trigger] lines_of(s)[i]),
    decreases s.len(),
{
    if s.len() > 0 {
        let end = index_of(s, 10);
        lemma_index_of(s, 10);
        if end < s.len() {
            lemma_split_at_ascii(s, end);
            let line = s.take(end);
            if line.len() > 0 && line.last() == 13 {
                lemma_split_at_ascii(line, line.len() - 1);
                assert(line.take(line.len() - 1) =~= line.drop_last());
            }
            lemma_lines_utf8(s.skip(end + 1));
            let rest = lines_of(s.skip(end + 1));
            assert forall|i: int| 0 <= i < lines_of(s).len() implies valid_utf8(
                #[trigger] lines_of(s)[i],
            ) by {
                if i > 0 {
                    assert(lines_of(s)[i] == rest[i - 1]);
                }
            }
        }
    }
}

/// The bytes of each of `lines`.
pub open spec fn lines_view(lines: Seq<Vec<u8>>) -> Seq<Seq<u8>> {
    lines.map_values(|l: Vec<u8>| l@)
}

/// The lines of `text`.
pub fn split_text(text: &[u8]) -> (lines: Vec<Vec<u8>>)
    ensures
        lines_view(lines@) == lines_of(text@),
{
    let mut lines: Vec<Vec<u8>> = Vec::new();
    let mut pos: usize = 0;
    proof {
        assert(text@.skip(0) =~= text@);
        assert(lines_view(lines@) =~= Seq::<Seq<u8>>::empty());
        assert(lines_view(lines@) + lines_of(text@) =~= lines_of(text@));
    }
    while pos < text.len()
        invariant
            pos <= text.len(),
            lines_of(text@) == lines_view(lines@) + lines_of(text@.skip(pos as int)),
        decreases text.len() - pos,
    {
        let ghost rest = text@.skip(pos as int);
        let ghost before = lines_view(lines@);
        let end = find_byte(text, pos, 10);
        if end < text.len() {
            let stop: usize = if end > pos && text[end - 1] == 13 {
                (end - 1) as usize
            } else {
                end
            };
            let mut line: Vec<u8> = Vec::new();
            line.extend_from_slice(&text[pos..stop]);
            proof {
                assert(rest.take(end - pos) =~= text@.subrange(pos as int, end as int));
                assert(line@ =~= strip_cr(rest.take(end - pos)));
                assert(rest.skip(end - pos + 1) =~= text@.skip(end + 1));
            }
            lines.push(line);
            proof {
                assert(lines_view(lines@) =~= before.push(line@));
                assert(before + (seq![line@] + lines_of(text@.skip(end + 1))) =~= before.push(line@)
                    + lines_of(text@.skip(end + 1)));
            }
            pos = end + 1;
        } else {
            let mut line: Vec<u8> = Vec::new();
            line.extend_from_slice(&text[pos..end]);
            proof {
                assert(line@ =~= rest);
                assert(text@.skip(end as int) =~= Seq::<u8>::empty());
            }
            lines.push(line);
            proof {
                assert(lines_view(lines@) =~= before.push(line@));
                assert(before + seq![rest] =~= before.push(line@) + lines_of(text@.skip(end as int)));
            }
            pos = end;
        }
    }
    proof {
        assert(text@.skip(pos as int) =~= Seq::<u8>::empty());
        assert(lines_view(lines@) + Seq::<Seq<u8>>::empty() =~= lines_view(lines@));
    }
    lines
}

/// The first line of a text, empty where the text is empty.
pub open spec fn first_line(s: Seq<u8>) -> Seq<u8> {
    if lines_of(s).len() > 0 {
        lines_of(s)[0]
    } else {
        Seq::<u8>::empty()
    }
}

/// The bounds of the first line of `text`.
pub fn first_line_end(text: &[u8]) -> (end: usize)
    ensures
        end <= text.len(),
        text@.take(end as int) == first_line(text@),
{
    proof {
        assert(text@.skip(0) =~= text@);
    }
    if text.len() == 0 {
        assert(text@.take(0) =~= Seq::<u8>::empty());
        return 0;
    }
    let end = find_byte(text, 0, 10);
    if end < text.len() {
        if end > 0 && text[end - 1] == 13 {
            assert(text@.take(end - 1) =~= strip_cr(text@.take(end as int)));
            end - 1
        } else {
            assert(text@.take(end as int) =~= strip_cr(text@.take(end as int)));
            end
        }
    } else {
        assert(text@.take(end as int) =~= text@);
        end
    }
}

/// The lines joined by line feeds.
pub open spec fn join_lines(lines: Seq<Seq<u8>>) -> Seq<u8>
    decreases lines.len(),
{
    if lines.len() == 0 {
        Seq::<u8>::empty()
    } else if lines.len() == 1 {
        lines[0]
    } else {
        join_lines(lines.drop_last()) + seq![10u8] + lines.last()
    }
}

/// The lines joined by line feeds.
pub fn join_texts(lines: &Vec<Vec<u8>>) -> (out: Vec<u8>)
    ensures
        out@ == join_lines(lines_view(lines@)),
{
    let ghost all = lines_view(lines@);
    let mut out: Vec<u8> = Vec::new();
    let mut i: usize = 0;
    assert(all.take(0) =~= Seq::<Seq<u8>>::empty());
    while i < lines.len()
        invariant
            i <= lines@.len(),
            all == lines_view(lines@),
            out@ == join_lines(all.take(i as int)),
        decreases lines@.len() - i,
    {
        proof {
            assert(all.take(i + 1).drop_last() =~= all.take(i as int));
            assert(all.take(i + 1).last() == lines@[i as int]@);
        }
        if i > 0 {
            out.push(10);
        }
        out.extend_from_slice(lines[i].as_slice());
        proof {
            if i == 0 {
                assert(all.take(1)[0] == lines@[0]@);
                assert(out@ =~= lines@[0]@);
            } else {
                assert(out@ =~= join_lines(all.take(i as int)) + seq![10u8] + lines@[i as int]@);
            }
        }
        i += 1;
    }
    assert(all.take(i as int) =~= all);
    out
}

/// The bytes of each text of `texts`.
pub open spec fn texts_view(texts: Seq<String>) -> Seq<Seq<u8>> {
    texts.map_values(|t: String| encode_utf8(t@))
}

} // verus!
