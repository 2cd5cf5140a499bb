//! Character, byte and number helpers shared by the parsers.

use vstd::prelude::*;
use vstd::string::*;
use vstd::utf8::{
    encode_scalar, encode_utf8, has_width_1_encoding, has_width_2_encoding, has_width_3_encoding,
    is_ascii_chars, is_ascii_chars_encode_utf8,
};

verus! {

broadcast use vstd::string::group_string_axioms;

/// The Unicode `White_Space` property, as used by `char::is_whitespace`
/// and by `str::trim`, `str::trim_end`.
pub open spec fn is_whitespace(c: char) -> bool {
    ||| ('\u{9}' <= c && c <= '\u{d}')
    ||| c == ' '
    ||| c == '\u{85}'
    ||| c == '\u{a0}'
    ||| c == '\u{1680}'
    ||| ('\u{2000}' <= c && c <= '\u{200a}')
    ||| c == '\u{2028}'
    ||| c == '\u{2029}'
    ||| c == '\u{202f}'
    ||| c == '\u{205f}'
    ||| c == '\u{3000}'
}

/// Every character of `s` is whitespace (so `trim` leaves nothing).
pub open spec fn all_whitespace(s: Seq<char>) -> bool {
    forall|i: int| 0 <= i < s.len() ==> #[trigger] is_whitespace(s[i])
}

/// `s` with its trailing whitespace removed, as `str::trim_end` does.
pub open spec fn trim_end_chars(s: Seq<char>) -> Seq<char>
    decreases s.len(),
{
    if s.len() > 0 && is_whitespace(s.last()) {
        trim_end_chars(s.drop_last())
    } else {
        s
    }
}

/// Trimming keeps a prefix, removes only whitespace, leaves no trailing
/// whitespace, and trimming again changes nothing.
pub proof fn lemma_trim_end(s: Seq<char>)
    ensures
        trim_end_chars(s).len() <= s.len(),
        trim_end_chars(s) == s.take(trim_end_chars(s).len() as int),
        forall|i: int| trim_end_chars(s).len() <= i < s.len() ==> #[trigger] is_whitespace(s[i]),
        trim_end_chars(s).len() > 0 ==> !is_whitespace(trim_end_chars(s).last()),
        trim_end_chars(trim_end_chars(s)) == trim_end_chars(s),
    decreases s.len(),
{
    if s.len() > 0 && is_whitespace(s.last()) {
        lemma_trim_end(s.drop_last());
        let t = trim_end_chars(s.drop_last());
        assert(s.drop_last().take(t.len() as int) =~= s.take(t.len() as int));
        assert forall|i: int| t.len() <= i < s.len() implies #[trigger] is_whitespace(s[i]) by {
            if i < s.len() - 1 {
                assert(s.drop_last()[i] == s[i]);
            }
        }
    } else {
        assert(s.take(s.len() as int) =~= s);
    }
}

/// Trimming text that ends in a non-whitespace character followed by more
/// text trims only the text that follows.
pub proof fn lemma_trim_end_concat(x: Seq<char>, y: Seq<char>)
    requires
        x.len() > 0,
        !is_whitespace(x.last()),
    ensures
        trim_end_chars(x + y) == x + trim_end_chars(y),
    decreases y.len(),
{
    if y.len() == 0 {
        assert(x + y =~= x);
        assert(x + trim_end_chars(y) =~= x);
    } else {
        assert((x + y).last() == y.last());
        if is_whitespace(y.last()) {
            assert((x + y).drop_last() =~= x + y.drop_last());
            lemma_trim_end_concat(x, y.drop_last());
        }
    }
}

/// Executable test of the Unicode `White_Space` property.
pub fn is_whitespace_char(c: char) -> (b: bool)
    ensures
        b == is_whitespace(c),
{
    ('\u{9}' <= c && c <= '\u{d}') || c == ' ' || c == '\u{85}' || c == '\u{a0}' || c
        == '\u{1680}' || ('\u{2000}' <= c && c <= '\u{200a}') || c == '\u{2028}' || c
        == '\u{2029}' || c == '\u{202f}' || c == '\u{205f}' || c == '\u{3000}'
}

/// The characters of `s`, in order.
pub fn chars_of(s: &str) -> (v: Vec<char>)
    ensures
        v@ == s@,
{
    let mut v: Vec<char> = Vec::new();
    for c in it: s.chars()
        invariant
            it.seq() == s@,
            v@ == s@.take(it.index() as int),
    {
        v.push(c);
    }
    assert(v@ =~= s@);
    v
}

/// Appends one character to a string by `String::push`; the contract takes
/// std's word that the character lands at the end and nothing else changes.
#[verifier::external_body]
pub(crate) fn push_char(s: &mut String, c: char)
    ensures
        final(s)@ == old(s)@.push(c),
{
    s.push(c);
}

/// Appends every character of `cs` to `s`.
pub fn push_chars(s: &mut String, cs: &[char])
    ensures
        final(s)@ == old(s)@ + cs@,
{
    let ghost start = s@;
    for i in 0..cs.len()
        invariant
            s@ == start + cs@.take(i as int),
    {
        push_char(s, cs[i]);
        assert(cs@.take(i + 1) =~= cs@.take(i as int).push(cs@[i as int]));
    }
    assert(cs@.take(cs@.len() as int) =~= cs@);
}

/// A string holding exactly `s`.
pub fn owned(s: &str) -> (r: String)
    ensures
        r@ == s@,
{
    String::from_str(s)
}

/// Position of the first element equal to `x` in `s` at or after `from`.
pub open spec fn find_from<T>(s: Seq<T>, x: T, from: int) -> Option<int>
    decreases s.len() - from,
{
    if from < 0 || from >= s.len() {
        None
    } else if s[from] == x {
        Some(from)
    } else {
        find_from(s, x, from + 1)
    }
}

/// A found position lies in range, holds `x`, and nothing before it from `from` does.
pub proof fn lemma_find_from<T>(s: Seq<T>, x: T, from: int)
    requires
        0 <= from,
    ensures
        match find_from(s, x, from) {
            Some(i) => from <= i < s.len() && s[i] == x && forall|j: int|
                from <= j < i ==> s[j] != x,
            None => forall|j: int| from <= j < s.len() ==> s[j] != x,
        },
    decreases s.len() - from,
{
    if from < s.len() && s[from] != x {
        lemma_find_from(s, x, from + 1);
    }
}

/// The search from `from` stops at `e` when nothing before `e` matches and
/// `e` does (or runs off the end when `e` is the length).
pub proof fn lemma_find_from_at<T>(s: Seq<T>, x: T, from: int, e: int)
    requires
        0 <= from <= e <= s.len(),
        forall|j: int| from <= j < e ==> s[j] != x,
        e < s.len() ==> s[e] == x,
    ensures
        find_from(s, x, from) == if e < s.len() {
            Some(e)
        } else {
            None::<int>
        },
    decreases e - from,
{
    if from < e {
        lemma_find_from_at(s, x, from + 1, e);
    }
}

/// Executable search for the first byte `b` in `s` at or after `from`.
pub fn find_byte(s: &[u8], b: u8, from: usize) -> (r: Option<usize>)
    ensures
        match r {
            Some(i) => find_from(s@, b, from as int) == Some(i as int),
            None => find_from(s@, b, from as int) is None,
        },
{
    let mut i = from;
    while i < s.len()
        invariant
            from <= i,
            find_from(s@, b, from as int) == find_from(s@, b, i as int),
        decreases s.len() - i,
    {
        if s[i] == b {
            return Some(i);
        }
        i = i + 1;
    }
    None
}

/// Executable search for the first character `c` in `s` at or after `from`.
pub fn find_char(s: &[char], c: char, from: usize) -> (r: Option<usize>)
    ensures
        match r {
            Some(i) => find_from(s@, c, from as int) == Some(i as int),
            None => find_from(s@, c, from as int) is None,
        },
{
    let mut i = from;
    while i < s.len()
        invariant
            from <= i,
            find_from(s@, c, from as int) == find_from(s@, c, i as int),
        decreases s.len() - i,
    {
        if s[i] == c {
            return Some(i);
        }
        i = i + 1;
    }
    None
}

/// Position of the first occurrence of the pattern `p` in `s` at or after `from`.
pub open spec fn find_seq_from<T>(s: Seq<T>, p: Seq<T>, from: int) -> Option<int>
    decreases s.len() + 1 - from,
{
    if from < 0 || from + p.len() > s.len() {
        None
    } else if s.subrange(from, from + p.len()) == p {
        Some(from)
    } else {
        find_seq_from(s, p, from + 1)
    }
}

/// A found occurrence of `p` lies within `s`.
pub proof fn lemma_find_seq_from<T>(s: Seq<T>, p: Seq<T>, from: int)
    requires
        0 <= from,
    ensures
        find_seq_from(s, p, from) matches Some(i) ==> from <= i && i + p.len() <= s.len()
            && s.subrange(i, i + p.len()) == p,
        find_seq_from(s, p, from) is None ==> forall|j: int|
            from <= j && j + p.len() <= s.len() ==> #[trigger] s.subrange(j, j + p.len()) != p,
    decreases s.len() + 1 - from,
{
    if from + p.len() <= s.len() && s.subrange(from, from + p.len()) != p {
        lemma_find_seq_from(s, p, from + 1);
    }
}

/// The search for `p` from `from` stops at `e` when `p` occurs at `e` and at
/// no position from `from` before it.
pub proof fn lemma_find_seq_from_at<T>(s: Seq<T>, p: Seq<T>, from: int, e: int)
    requires
        0 <= from <= e,
        e + p.len() <= s.len(),
        s.subrange(e, e + p.len()) == p,
        forall|j: int| from <= j < e ==> #[trigger] s.subrange(j, j + p.len()) != p,
    ensures
        find_seq_from(s, p, from) == Some(e),
    decreases e - from,
{
    if from < e {
        lemma_find_seq_from_at(s, p, from + 1, e);
    }
}

/// A search for `p` that finds it at `i` in `s` finds it at `i` in any `t`
/// that agrees with `s` up to the end of that occurrence.
pub proof fn lemma_find_seq_same_prefix<T>(s: Seq<T>, t: Seq<T>, p: Seq<T>, from: int, i: int)
    requires
        0 <= from,
        find_seq_from(s, p, from) == Some(i),
        i + p.len() <= t.len(),
        forall|j: int| 0 <= j < i + p.len() ==> s[j] == t[j],
    ensures
        find_seq_from(t, p, from) == Some(i),
    decreases s.len() + 1 - from,
{
    lemma_find_seq_from(s, p, from);
    assert(s.subrange(from, from + p.len()) =~= t.subrange(from, from + p.len()));
    if from < i {
        lemma_find_seq_same_prefix(s, t, p, from + 1, i);
    }
}

/// Whether the characters of `s` starting at `at` are exactly `p`.
pub fn chars_match_at(s: &[char], at: usize, p: &[char]) -> (r: bool)
    requires
        at + p@.len() <= s@.len(),
    ensures
        r == (s@.subrange(at as int, at + p@.len()) == p@),
{
    let n = s.len();
    let mut i: usize = 0;
    while i < p.len()
        invariant
            i <= p.len(),
            n == s@.len(),
            at + p@.len() <= s@.len(),
            forall|k: int| 0 <= k < i ==> s@[at + k] == p@[k],
        decreases p.len() - i,
    {
        if s[at + i] != p[i] {
            assert(s@.subrange(at as int, at + p@.len())[i as int] != p@[i as int]);
            return false;
        }
        i = i + 1;
    }
    assert(s@.subrange(at as int, at + p@.len()) =~= p@);
    true
}

/// Executable search for the first occurrence of `p` in `s`.
pub fn find_chars(s: &[char], p: &[char]) -> (r: Option<usize>)
    ensures
        match r {
            Some(i) => find_seq_from(s@, p@, 0) == Some(i as int),
            None => find_seq_from(s@, p@, 0) is None,
        },
{
    if p.len() > s.len() {
        return None;
    }
    let last = s.len() - p.len();
    let mut i: usize = 0;
    while i <= last
        invariant
            last + p@.len() == s@.len(),
            find_seq_from(s@, p@, 0) == find_seq_from(s@, p@, i as int),
        decreases last + 1 - i,
    {
        if chars_match_at(s, i, p) {
            return Some(i);
        }
        if i == last {
            assert(find_seq_from(s@, p@, i + 1) is None);
            return None;
        }
        i = i + 1;
    }
    None
}

/// The byte at `i` starts a character of a valid UTF-8 sequence when it is ASCII.
pub proof fn lemma_ascii_byte_is_boundary(bytes: Seq<u8>, i: int)
    requires
        vstd::utf8::valid_utf8(bytes),
        0 <= i <= bytes.len(),
        i < bytes.len() ==> bytes[i] < 0x80,
    ensures
        vstd::utf8::is_char_boundary(bytes, i),
{
    broadcast use vstd::utf8::group_utf8_lib;

    if i < bytes.len() {
        vstd::utf8::is_char_boundary_iff_not_is_continuation_byte(bytes, i);
    }
}

/// The byte after an ASCII byte of a valid UTF-8 sequence starts a character.
pub proof fn lemma_boundary_after_ascii(bytes: Seq<u8>, j: int)
    requires
        vstd::utf8::valid_utf8(bytes),
        0 <= j < bytes.len(),
        bytes[j] < 0x80,
    ensures
        vstd::utf8::is_char_boundary(bytes, j + 1),
{
    broadcast use vstd::utf8::group_utf8_lib;

    lemma_ascii_byte_is_boundary(bytes, j);
    let s = bytes.subrange(j, bytes.len() as int);
    vstd::utf8::valid_utf8_split(bytes, j);
    if j + 1 < bytes.len() {
        assert(vstd::utf8::valid_utf8(s));
        assert(s[0] == bytes[j]);
        assert(vstd::utf8::length_of_first_scalar(s) == 1);
        let rest = vstd::utf8::pop_first_scalar(s);
        assert(rest =~= bytes.subrange(j + 1, bytes.len() as int));
        assert(rest.len() > 0);
        assert(vstd::utf8::valid_utf8(rest));
        assert(vstd::utf8::valid_first_scalar(rest));
        assert(rest[0] == bytes[j + 1]);
        vstd::utf8::is_char_boundary_iff_not_is_continuation_byte(bytes, j + 1);
    }
}

/// The bytes between two character boundaries of valid UTF-8 are valid UTF-8.
pub proof fn lemma_valid_subrange(s: Seq<u8>, i: int, j: int)
    requires
        vstd::utf8::valid_utf8(s),
        0 <= i <= j <= s.len(),
        vstd::utf8::is_char_boundary(s, i),
        vstd::utf8::is_char_boundary(s, j),
    ensures
        vstd::utf8::valid_utf8(s.subrange(i, j)),
{
    broadcast use vstd::utf8::group_utf8_lib;

    let t = s.subrange(i, s.len() as int);
    vstd::utf8::valid_utf8_split(s, i);
    if j < s.len() {
        vstd::utf8::is_char_boundary_iff_not_is_continuation_byte(s, j);
        vstd::utf8::is_char_boundary_iff_not_is_continuation_byte(t, j - i);
        assert(t[j - i] == s[j]);
    } else {
        vstd::utf8::is_char_boundary_start_end_of_seq(t);
    }
    vstd::utf8::valid_utf8_split(t, j - i);
    assert(t.subrange(0, j - i) =~= s.subrange(i, j));
}

/// The UTF-8 encoding of a concatenation is the concatenation of the encodings.
pub proof fn lemma_encode_concat(x: Seq<char>, y: Seq<char>)
    ensures
        encode_utf8(x + y) == encode_utf8(x) + encode_utf8(y),
    decreases x.len(),
{
    if x.len() == 0 {
        assert(x + y =~= y);
        assert(encode_utf8(x) + encode_utf8(y) =~= encode_utf8(y));
    } else {
        lemma_encode_concat(x.drop_first(), y);
        assert((x + y).drop_first() =~= x.drop_first() + y);
        assert((x + y)[0] == x[0]);
        assert(encode_utf8(x + y) =~= encode_utf8(x) + encode_utf8(y));
    }
}

/// The UTF-8 encoding of ASCII text is its characters as bytes.
pub proof fn lemma_encode_ascii(chars: Seq<char>)
    requires
        is_ascii_chars(chars),
    ensures
        encode_utf8(chars) == chars.map_values(|c: char| c as u8),
{
    is_ascii_chars_encode_utf8(chars);
    assert(encode_utf8(chars) =~= chars.map_values(|c: char| c as u8));
}

/// No character but the space encodes to a byte 32: the bytes of a
/// multi-byte character are all at least 0x80.
proof fn lemma_encode_scalar_not_space(c: char)
    requires
        c != ' ',
    ensures
        !encode_scalar(c as u32).contains(32u8),
{
    let v = c as u32;
    let e = encode_scalar(v);
    if has_width_1_encoding(v) {
        assert((v & 0x7F) as u8 == v as u8) by (bit_vector)
            requires
                v <= 0x7F,
        ;
        assert(e[0] == v as u8);
        assert(v != 32);
    } else if has_width_2_encoding(v) {
        let b0 = ((v >> 6) & 0x1F) as u8;
        let b1 = (v & 0x3F) as u8;
        assert(0xC0u8 | b0 != 32u8) by (bit_vector);
        assert(0x80u8 | b1 != 32u8) by (bit_vector);
        assert(e[0] != 32u8 && e[1] != 32u8);
    } else if has_width_3_encoding(v) {
        let b0 = ((v >> 12) & 0x0F) as u8;
        let b1 = ((v >> 6) & 0x3F) as u8;
        let b2 = (v & 0x3F) as u8;
        assert(0xE0u8 | b0 != 32u8) by (bit_vector);
        assert(0x80u8 | b1 != 32u8) by (bit_vector);
        assert(0x80u8 | b2 != 32u8) by (bit_vector);
        assert(e[0] != 32u8 && e[1] != 32u8 && e[2] != 32u8);
    } else {
        let b0 = ((v >> 18) & 0x7) as u8;
        let b1 = ((v >> 12) & 0x3F) as u8;
        let b2 = ((v >> 6) & 0x3F) as u8;
        let b3 = (v & 0x3F) as u8;
        assert(0xF0u8 | b0 != 32u8) by (bit_vector);
        assert(0x80u8 | b1 != 32u8) by (bit_vector);
        assert(0x80u8 | b2 != 32u8) by (bit_vector);
        assert(0x80u8 | b3 != 32u8) by (bit_vector);
        assert(e[0] != 32u8 && e[1] != 32u8 && e[2] != 32u8 && e[3] != 32u8);
    }
}

/// Text without a space encodes to bytes without a byte 32, and to at least
/// as many bytes as it has characters.
pub proof fn lemma_encode_without_space(s: Seq<char>)
    requires
        !s.contains(' '),
    ensures
        !encode_utf8(s).contains(32u8),
        encode_utf8(s).len() >= s.len(),
    decreases s.len(),
{
    if s.len() > 0 {
        assert(s.drop_first().len() < s.len());
        assert(!s.drop_first().contains(' ')) by {
            if s.drop_first().contains(' ') {
                let i = choose|i: int| 0 <= i < s.drop_first().len() && s.drop_first()[i] == ' ';
                assert(s[i + 1] == ' ');
            }
        }
        assert(s[0] != ' ');
        lemma_encode_without_space(s.drop_first());
        lemma_encode_scalar_not_space(s[0]);
        let a = encode_scalar(s[0] as u32);
        let b = encode_utf8(s.drop_first());
        assert(encode_utf8(s) == a + b);
        assert forall|i: int| 0 <= i < a.len() + b.len() implies (a + b)[i] != 32u8 by {
            if i < a.len() {
                assert((a + b)[i] == a[i]);
            } else {
                assert((a + b)[i] == b[i - a.len()]);
            }
        }
    }
}

/// Bytes `p` at the start of `f`.
pub open spec fn starts_with(f: Seq<u8>, p: Seq<u8>) -> bool {
    f.len() >= p.len() && f.take(p.len() as int) == p
}

/// Whether the bytes of `s` from `start` to `end` begin with `p`.
pub fn has_prefix_at(s: &[u8], start: usize, end: usize, p: &[u8]) -> (r: bool)
    requires
        start <= end <= s@.len(),
    ensures
        r == starts_with(s@.subrange(start as int, end as int), p@),
{
    if end - start < p.len() {
        return false;
    }
    let ghost f = s@.subrange(start as int, end as int);
    let mut i: usize = 0;
    while i < p.len()
        invariant
            i <= p.len(),
            start + p.len() <= end <= s@.len(),
            f == s@.subrange(start as int, end as int),
            forall|k: int| 0 <= k < i ==> f[k] == p@[k],
        decreases p.len() - i,
    {
        if s[start + i] != p[i] {
            assert(f.take(p.len() as int)[i as int] != p@[i as int]);
            return false;
        }
        i = i + 1;
    }
    assert(f.take(p.len() as int) =~= p@);
    true
}

/// Whether two byte strings are equal.
pub fn bytes_equal(a: &[u8], b: &[u8]) -> (r: bool)
    ensures
        r == (a@ == b@),
{
    if a.len() != b.len() {
        return false;
    }
    let mut i: usize = 0;
    while i < a.len()
        invariant
            i <= a.len(),
            a.len() == b.len(),
            forall|k: int| 0 <= k < i ==> a@[k] == b@[k],
        decreases a.len() - i,
    {
        if a[i] != b[i] {
            return false;
        }
        i = i + 1;
    }
    assert(a@ =~= b@);
    true
}

/// Whether every character of `s` is whitespace (`s.trim().is_empty()`).
pub fn is_blank(s: &str) -> (r: bool)
    ensures
        r == all_whitespace(s@),
{
    let chars = chars_of(s);
    let mut i: usize = 0;
    while i < chars.len()
        invariant
            i <= chars@.len(),
            chars@ == s@,
            forall|k: int| 0 <= k < i ==> #[trigger] is_whitespace(chars@[k]),
        decreases chars.len() - i,
    {
        if !is_whitespace_char(chars[i]) {
            return false;
        }
        i = i + 1;
    }
    true
}

/// The part of `s` between the byte positions `from` and `to`, borrowed from `s`.
pub fn substr(s: &str, from: usize, to: usize) -> (r: &str)
    requires
        from <= to <= s.spec_bytes().len(),
        vstd::utf8::is_char_boundary(s.spec_bytes(), from as int),
        vstd::utf8::is_char_boundary(s.spec_bytes(), to as int),
    ensures
        r.spec_bytes() == s.spec_bytes().subrange(from as int, to as int),
{
    broadcast use vstd::utf8::group_utf8_lib;

    let ghost bytes = s.spec_bytes();
    let (_, tail) = s.split_at(from);
    let ghost tail_bytes = tail.spec_bytes();
    assert(tail_bytes =~= bytes.subrange(from as int, bytes.len() as int));
    proof {
        let k = to - from;
        if to < bytes.len() {
            vstd::utf8::is_char_boundary_iff_not_is_continuation_byte(bytes, to as int);
            vstd::utf8::is_char_boundary_iff_not_is_continuation_byte(tail_bytes, k as int);
            assert(tail_bytes[k as int] == bytes[to as int]);
        } else {
            vstd::utf8::is_char_boundary_start_end_of_seq(tail_bytes);
        }
    }
    let (mid, _) = tail.split_at(to - from);
    assert(mid.spec_bytes() =~= bytes.subrange(from as int, to as int));
    mid
}

/// The character of the decimal digit `d` (`d < 10`).
pub open spec fn digit_char(d: nat) -> char {
    (48 + d) as char
}

/// The decimal representation of `n`, most significant digit first, as `{}` prints it.
pub open spec fn decimal(n: nat) -> Seq<char>
    decreases n,
{
    if n < 10 {
        seq![digit_char(n)]
    } else {
        decimal(n / 10).push(digit_char(n % 10))
    }
}

/// `n` printed with two digits, as `{:02}` prints a number below 100.
pub open spec fn two_digits(n: nat) -> Seq<char> {
    seq![digit_char(n / 10), digit_char(n % 10)]
}

/// Executable `digit_char`.
pub fn digit(d: u64) -> (c: char)
    requires
        d < 10,
    ensures
        c == digit_char(d as nat),
{
    let b: u8 = 48 + d as u8;
    b as char
}

/// Appends the decimal representation of `n` to `s`.
pub fn push_decimal(s: &mut String, n: u64)
    ensures
        final(s)@ == old(s)@ + decimal(n as nat),
    decreases n,
{
    if n >= 10 {
        push_decimal(s, n / 10);
    }
    push_char(s, digit(n % 10));
    assert(final(s)@ =~= old(s)@ + decimal(n as nat)) by {
        if n >= 10 {
            assert(decimal(n as nat) == decimal((n / 10) as nat).push(digit_char((n % 10) as nat)));
        }
    }
}

/// Appends `n` (below 100) with two digits to `s`.
pub fn push_two_digits(s: &mut String, n: u64)
    requires
        n < 100,
    ensures
        final(s)@ == old(s)@ + two_digits(n as nat),
{
    push_char(s, digit(n / 10));
    push_char(s, digit(n % 10));
    assert(final(s)@ =~= old(s)@ + two_digits(n as nat));
}

/// Why a text is not an unsigned integer, as `core::num::IntErrorKind` tells it.
#[derive(Debug, PartialEq, Eq, Clone, Copy)]
pub enum IntParseError {
    Empty,
    InvalidDigit,
    PosOverflow,
}

impl IntParseError {
    /// The text that `ParseIntError` displays for this kind.
    pub open spec fn spec_message(self) -> Seq<char> {
        match self {
            IntParseError::Empty => "cannot parse integer from empty string"@,
            IntParseError::InvalidDigit => "invalid digit found in string"@,
            IntParseError::PosOverflow => "number too large to fit in target type"@,
        }
    }

    /// The text that `ParseIntError` displays for this kind.
    pub fn message(&self) -> (r: String)
        ensures
            r@ == self.spec_message(),
    {
        match self {
            IntParseError::Empty => owned("cannot parse integer from empty string"),
            IntParseError::InvalidDigit => owned("invalid digit found in string"),
            IntParseError::PosOverflow => owned("number too large to fit in target type"),
        }
    }
}

/// ASCII `0` to `9`.
pub open spec fn is_ascii_digit(b: u8) -> bool {
    48 <= b <= 57
}

/// Reads the digits `d` left to right onto `acc`, failing on the first
/// non-digit, or as soon as the value would exceed `max`.
pub open spec fn accumulate_digits(d: Seq<u8>, acc: nat, max: nat) -> Result<nat, IntParseError>
    decreases d.len(),
{
    if d.len() == 0 {
        Ok(acc)
    } else if !is_ascii_digit(d[0]) {
        Err(IntParseError::InvalidDigit)
    } else if acc * 10 + (d[0] - 48) > max {
        Err(IntParseError::PosOverflow)
    } else {
        accumulate_digits(d.drop_first(), (acc * 10 + (d[0] - 48)) as nat, max)
    }
}

/// What `str::parse` gives for an unsigned integer type whose largest value is
/// `max`: an optional `+`, then decimal digits.
pub open spec fn parse_unsigned_spec(s: Seq<u8>, max: nat) -> Result<nat, IntParseError> {
    if s.len() == 0 {
        Err(IntParseError::Empty)
    } else if s.len() == 1 && (s[0] == '+' as u8 || s[0] == '-' as u8) {
        Err(IntParseError::InvalidDigit)
    } else if s[0] == '+' as u8 {
        accumulate_digits(s.drop_first(), 0, max)
    } else {
        accumulate_digits(s, 0, max)
    }
}

/// Reading one more digit continues from the value read so far.
pub proof fn lemma_accumulate_push(s: Seq<u8>, c: u8, acc: nat, max: nat)
    ensures
        accumulate_digits(s.push(c), acc, max) == match accumulate_digits(s, acc, max) {
            Ok(v) => accumulate_digits(seq![c], v, max),
            Err(e) => Err(e),
        },
    decreases s.len(),
{
    if s.len() == 0 {
        assert(s.push(c) =~= seq![c]);
    } else {
        assert(s.push(c).drop_first() =~= s.drop_first().push(c));
        assert(s.push(c)[0] == s[0]);
        if is_ascii_digit(s[0]) && acc * 10 + (s[0] - 48) <= max {
            lemma_accumulate_push(s.drop_first(), c, (acc * 10 + (s[0] - 48)) as nat, max);
        }
    }
}

/// The bytes of the decimal representation of `n`.
pub open spec fn decimal_bytes(n: nat) -> Seq<u8>
    decreases n,
{
    if n < 10 {
        seq![(48 + n) as u8]
    } else {
        decimal_bytes(n / 10).push((48 + n % 10) as u8)
    }
}

/// The decimal representation is ASCII, so its UTF-8 bytes are its digits.
pub proof fn lemma_decimal_bytes(n: nat)
    ensures
        encode_utf8(decimal(n)) == decimal_bytes(n),
        decimal(n).len() == decimal_bytes(n).len(),
        decimal(n).len() >= 1,
        is_ascii_digit(decimal_bytes(n)[0]),
    decreases n,
{
    broadcast use vstd::utf8::group_utf8_lib;

    if n >= 10 {
        lemma_decimal_bytes(n / 10);
    }
    assert(is_ascii_chars(decimal(n))) by {
        if n >= 10 {
            lemma_decimal_bytes(n / 10);
            assert(is_ascii_chars(decimal(n / 10))) by {
                assert forall|i: int| 0 <= i < decimal(n / 10).len() implies '\0' <= #[trigger] decimal(
                    n / 10,
                )[i] <= '\u{7f}' by {
                    lemma_decimal_digits(n / 10, i);
                }
            }
        }
    }
    assert(encode_utf8(decimal(n)) =~= decimal_bytes(n)) by {
        assert forall|i: int| 0 <= i < decimal(n).len() implies encode_utf8(decimal(n))[i]
            == decimal_bytes(n)[i] by {
            lemma_decimal_digits(n, i);
            lemma_decimal_digit_bytes(n, i);
        }
    }
}

/// Each character of a decimal representation is a digit, and its byte is
/// the matching entry of `decimal_bytes`.
proof fn lemma_decimal_digits(n: nat, i: int)
    requires
        0 <= i < decimal(n).len(),
    ensures
        '0' <= decimal(n)[i] <= '9',
        decimal(n).len() == decimal_bytes(n).len(),
        decimal(n)[i] as u8 == decimal_bytes(n)[i],
    decreases n,
{
    if n >= 10 {
        if i < decimal(n / 10).len() {
            lemma_decimal_digits(n / 10, i);
        } else {
            lemma_decimal_lengths(n / 10);
        }
    }
}

/// Every byte of a decimal representation is a digit.
pub proof fn lemma_decimal_digit_byte(n: nat, i: int)
    requires
        0 <= i < decimal_bytes(n).len(),
    ensures
        is_ascii_digit(decimal_bytes(n)[i]),
    decreases n,
{
    if n >= 10 && i < decimal_bytes(n / 10).len() {
        lemma_decimal_digit_byte(n / 10, i);
    }
}

/// `decimal` and `decimal_bytes` have the same length.
proof fn lemma_decimal_lengths(n: nat)
    ensures
        decimal(n).len() == decimal_bytes(n).len(),
    decreases n,
{
    if n >= 10 {
        lemma_decimal_lengths(n / 10);
    }
}

/// The UTF-8 byte at `i` of a decimal representation.
proof fn lemma_decimal_digit_bytes(n: nat, i: int)
    requires
        0 <= i < decimal(n).len(),
        is_ascii_chars(decimal(n)),
    ensures
        encode_utf8(decimal(n))[i] == decimal(n)[i] as u8,
{
    broadcast use vstd::utf8::group_utf8_lib;

    is_ascii_chars_encode_utf8(decimal(n));
}

/// Printing a number in decimal and parsing it back gives the number.
pub proof fn lemma_decimal_parses_back(n: nat, max: nat)
    requires
        n <= max,
    ensures
        parse_unsigned_spec(encode_utf8(decimal(n)), max) == Ok::<nat, IntParseError>(n),
{
    lemma_decimal_bytes(n);
    lemma_accumulate_decimal(n, max);
    let b = decimal_bytes(n);
    assert(b[0] != 43 && b[0] != 45);
}

/// Reading the digits of `n` from zero gives `n`.
proof fn lemma_accumulate_decimal(n: nat, max: nat)
    requires
        n <= max,
    ensures
        accumulate_digits(decimal_bytes(n), 0, max) == Ok::<nat, IntParseError>(n),
    decreases n,
{
    reveal_with_fuel(accumulate_digits, 2);
    if n >= 10 {
        lemma_accumulate_decimal(n / 10, max);
        lemma_accumulate_push(decimal_bytes(n / 10), (48 + n % 10) as u8, 0, max);
        assert((n / 10) * 10 + n % 10 == n);
    }
}

/// Parses the bytes `s` as an unsigned integer no larger than `max`.
pub fn parse_unsigned(s: &[u8], max: u64) -> (r: Result<u64, IntParseError>)
    ensures
        match r {
            Ok(v) => parse_unsigned_spec(s@, max as nat) == Ok::<nat, IntParseError>(v as nat) && v
                <= max,
            Err(e) => parse_unsigned_spec(s@, max as nat) == Err::<nat, IntParseError>(e),
        },
{
    if s.len() == 0 {
        return Err(IntParseError::Empty);
    }
    if s.len() == 1 && (s[0] == '+' as u8 || s[0] == '-' as u8) {
        return Err(IntParseError::InvalidDigit);
    }
    let start: usize = if s[0] == '+' as u8 { 1 } else { 0 };
    let ghost digits = s@.skip(start as int);
    assert(parse_unsigned_spec(s@, max as nat) == accumulate_digits(digits, 0, max as nat)) by {
        if start == 1 {
            assert(digits =~= s@.drop_first());
        } else {
            assert(digits =~= s@);
        }
    }
    let mut acc: u64 = 0;
    let mut i: usize = start;
    while i < s.len()
        invariant
            start <= i <= s.len(),
            acc <= max,
            digits == s@.skip(start as int),
            parse_unsigned_spec(s@, max as nat) == accumulate_digits(digits, 0, max as nat),
            accumulate_digits(digits, 0, max as nat) == accumulate_digits(
                s@.skip(i as int),
                acc as nat,
                max as nat,
            ),
        decreases s.len() - i,
    {
        let b = s[i];
        assert(s@.skip(i as int)[0] == b);
        assert(s@.skip(i as int).drop_first() =~= s@.skip(i + 1));
        if !(48 <= b && b <= 57) {
            return Err(IntParseError::InvalidDigit);
        }
        let d: u64 = (b - 48) as u64;
        if d > max || acc > (max - d) / 10 {
            assert(acc * 10 + d > max) by (nonlinear_arith)
                requires
                    d > max || acc > (max - d) / 10,
                    d <= max ==> acc > (max - d) / 10,
            ;
            return Err(IntParseError::PosOverflow);
        }
        assert(acc * 10 + d <= max) by (nonlinear_arith)
            requires
                acc <= (max - d) / 10,
                d <= 9,
        ;
        acc = acc * 10 + d;
        i = i + 1;
    }
    assert(s@.skip(i as int).len() == 0);
    Ok(acc)
}

} // verus!
