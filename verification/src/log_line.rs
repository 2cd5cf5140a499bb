//! The log line format `<timestamp> <LEVEL> token=<value> message=<text>`:
//! splitting a line into borrowed fields, validating it, normalizing it and
//! redacting its token.
//!
//! Field positions are byte positions in the line's UTF-8 encoding, as
//! `str::splitn` and `str::find` report them.

use vstd::prelude::*;
use vstd::string::*;
use vstd::utf8::*;
use crate::text::{
    all_whitespace, bytes_equal, chars_of, find_byte, find_char, find_chars, find_from,
    find_seq_from, has_prefix_at, is_blank, is_whitespace, is_whitespace_char,
    lemma_ascii_byte_is_boundary, lemma_boundary_after_ascii, lemma_find_from,
    lemma_encode_ascii, lemma_encode_concat, lemma_encode_without_space, lemma_find_from_at,
    lemma_find_seq_from, lemma_find_seq_from_at, lemma_find_seq_same_prefix, lemma_trim_end_concat,
    lemma_valid_subrange,
    decimal, owned, push_char, push_chars, push_decimal, starts_with, substr, trim_end_chars,
};

verus! {

broadcast use vstd::string::group_string_axioms, vstd::utf8::group_utf8_lib;

/// The byte that separates fields.
pub open spec fn space() -> u8 {
    32
}

/// The bytes of `token=`.
pub open spec fn token_marker() -> Seq<u8> {
    seq!['t' as u8, 'o' as u8, 'k' as u8, 'e' as u8, 'n' as u8, '=' as u8]
}

/// The bytes of `message=`.
pub open spec fn message_marker() -> Seq<u8> {
    seq!['m' as u8, 'e' as u8, 's' as u8, 's' as u8, 'a' as u8, 'g' as u8, 'e' as u8, '=' as u8]
}

/// `token=`, as bytes.
pub const TOKEN_MARKER: [u8; 6] = ['t' as u8, 'o' as u8, 'k' as u8, 'e' as u8, 'n' as u8, '=' as u8];

/// `message=`, as bytes.
pub const MESSAGE_MARKER: [u8; 8] = [
    'm' as u8,
    'e' as u8,
    's' as u8,
    's' as u8,
    'a' as u8,
    'g' as u8,
    'e' as u8,
    '=' as u8,
];

/// Position of the first space of the line.
pub open spec fn first_space(line: Seq<u8>) -> Option<int> {
    find_from(line, space(), 0)
}

/// Position of the second space of the line.
pub open spec fn second_space(line: Seq<u8>) -> Option<int> {
    match first_space(line) {
        Some(a) => find_from(line, space(), a + 1),
        None => None,
    }
}

/// Position of the third space of the line.
pub open spec fn third_space(line: Seq<u8>) -> Option<int> {
    match second_space(line) {
        Some(b) => find_from(line, space(), b + 1),
        None => None,
    }
}

/// The line cut at its first three spaces, as `splitn(4, ' ')` cuts it:
/// timestamp, level, token field and message field (which keeps any further
/// spaces).
pub open spec fn split_fields(line: Seq<u8>) -> Result<
    (Seq<u8>, Seq<u8>, Seq<u8>, Seq<u8>),
    Seq<char>,
> {
    match (first_space(line), second_space(line), third_space(line)) {
        (Some(a), Some(b), Some(c)) => Ok(
            (
                line.subrange(0, a),
                line.subrange(a + 1, b),
                line.subrange(b + 1, c),
                line.subrange(c + 1, line.len() as int),
            ),
        ),
        (None, _, _) => Err("missing log level"@),
        (Some(_), None, _) => Err("missing token field"@),
        (Some(_), Some(_), None) => Err("missing message field"@),
    }
}

/// The four fields of a line with the `token=` and `message=` prefixes
/// removed: timestamp, level, token and message, or the first error found.
pub open spec fn template_fields(line: Seq<u8>) -> Result<
    (Seq<u8>, Seq<u8>, Seq<u8>, Seq<u8>),
    Seq<char>,
> {
    match split_fields(line) {
        Err(e) => Err(e),
        Ok((ts, level, token_field, message_field)) => {
            if !starts_with(token_field, token_marker()) {
                Err("token field must start with `token=`"@)
            } else if !starts_with(message_field, message_marker()) {
                Err("message field must start with `message=`"@)
            } else if token_field.len() == token_marker().len() {
                Err("token cannot be empty"@)
            } else if message_field.len() == message_marker().len() {
                Err("message cannot be empty"@)
            } else {
                Ok(
                    (
                        ts,
                        level,
                        token_field.skip(token_marker().len() as int),
                        message_field.skip(message_marker().len() as int),
                    ),
                )
            }
        },
    }
}

/// Timestamp, level and message of a line, or the first error found.
pub open spec fn line_fields(line: Seq<u8>) -> Result<(Seq<u8>, Seq<u8>, Seq<u8>), Seq<char>> {
    match template_fields(line) {
        Ok((ts, level, _token, message)) => Ok((ts, level, message)),
        Err(e) => Err(e),
    }
}

/// The line made of the four fields: timestamp, level, `token=` and the
/// token, `message=` and the message, separated by single spaces.
pub open spec fn assemble_line(ts: Seq<u8>, level: Seq<u8>, token: Seq<u8>, message: Seq<u8>) -> Seq<u8> {
    ts + seq![space()] + level + seq![space()] + token_marker() + token + seq![space()]
        + message_marker() + message
}

/// An assembled line (no spaces in its first three fields) splits at the
/// spaces that were put between its fields.
proof fn lemma_split_assembled(ts: Seq<u8>, level: Seq<u8>, token: Seq<u8>, message: Seq<u8>)
    requires
        !ts.contains(space()),
        !level.contains(space()),
        !token.contains(space()),
    ensures
        split_fields(assemble_line(ts, level, token, message)) == Ok::<
            (Seq<u8>, Seq<u8>, Seq<u8>, Seq<u8>),
            Seq<char>,
        >((ts, level, token_marker() + token, message_marker() + message)),
{
    let line = assemble_line(ts, level, token, message);
    let a = ts.len() as int;
    let b = a + 1 + level.len();
    let c = b + 1 + 6 + token.len();
    let token_field = token_marker() + token;
    let message_field = message_marker() + message;
    assert(line =~= ts + seq![space()] + level + seq![space()] + token_field + seq![space()]
        + message_field);
    assert forall|j: int| 0 <= j < a implies line[j] != space() by {
        assert(line[j] == ts[j]);
    }
    lemma_find_from_at(line, space(), 0, a);
    assert forall|j: int| a + 1 <= j < b implies line[j] != space() by {
        assert(line[j] == level[j - a - 1]);
    }
    lemma_find_from_at(line, space(), a + 1, b);
    assert forall|j: int| b + 1 <= j < c implies line[j] != space() by {
        assert(line[j] == token_field[j - b - 1]);
        if j - b - 1 >= 6 {
            assert(token_field[j - b - 1] == token[j - b - 7]);
        }
    }
    lemma_find_from_at(line, space(), b + 1, c);
    assert(line.subrange(0, a) =~= ts);
    assert(line.subrange(a + 1, b) =~= level);
    assert(line.subrange(b + 1, c) =~= token_field);
    assert(line.subrange(c + 1, line.len() as int) =~= message_field);
}

/// Assembling fields (no spaces in the first three, a token and a message)
/// and splitting the line gives the same fields back.
pub proof fn lemma_fields_roundtrip(ts: Seq<u8>, level: Seq<u8>, token: Seq<u8>, message: Seq<u8>)
    requires
        !ts.contains(space()),
        !level.contains(space()),
        !token.contains(space()),
        token.len() > 0,
        message.len() > 0,
    ensures
        template_fields(assemble_line(ts, level, token, message)) == Ok::<
            (Seq<u8>, Seq<u8>, Seq<u8>, Seq<u8>),
            Seq<char>,
        >((ts, level, token, message)),
{
    lemma_split_assembled(ts, level, token, message);
    let token_field = token_marker() + token;
    let message_field = message_marker() + message;
    assert(token_field.take(6) =~= token_marker());
    assert(message_field.take(8) =~= message_marker());
    assert(token_field.skip(6) =~= token);
    assert(message_field.skip(8) =~= message);
}

/// What the timestamp, level and message of an assembled line come to does
/// not depend on which token (without spaces, not empty) it carries.
proof fn lemma_line_fields_ignore_token(
    ts: Seq<u8>,
    level: Seq<u8>,
    token1: Seq<u8>,
    token2: Seq<u8>,
    message: Seq<u8>,
)
    requires
        !ts.contains(space()),
        !level.contains(space()),
        !token1.contains(space()),
        !token2.contains(space()),
        token1.len() > 0,
        token2.len() > 0,
    ensures
        line_fields(assemble_line(ts, level, token1, message)) == line_fields(
            assemble_line(ts, level, token2, message),
        ),
        line_fields(assemble_line(ts, level, token1, message)) is Ok ==> line_fields(
            assemble_line(ts, level, token1, message),
        )->Ok_0 == (ts, level, message),
{
    lemma_split_assembled(ts, level, token1, message);
    lemma_split_assembled(ts, level, token2, message);
    let message_field = message_marker() + message;
    assert((token_marker() + token1).take(6) =~= token_marker());
    assert((token_marker() + token2).take(6) =~= token_marker());
    assert(message_field.take(8) =~= message_marker());
    assert(message_field.skip(8) =~= message);
}

/// A line whose fields split is exactly the assembly of its fields, none of
/// the first three holding a space.
pub proof fn lemma_fields_cover_line(line: Seq<u8>)
    requires
        template_fields(line) is Ok,
    ensures
        ({
            let (ts, level, token, message) = template_fields(line)->Ok_0;
            &&& line == assemble_line(ts, level, token, message)
            &&& !ts.contains(space())
            &&& !level.contains(space())
            &&& !token.contains(space())
            &&& token.len() > 0
            &&& message.len() > 0
        }),
{
    let (ts, level, token, message) = template_fields(line)->Ok_0;
    lemma_find_from(line, space(), 0);
    let a = first_space(line)->0;
    lemma_find_from(line, space(), a + 1);
    let b = second_space(line)->0;
    lemma_find_from(line, space(), b + 1);
    let c = third_space(line)->0;
    let token_field = line.subrange(b + 1, c);
    let message_field = line.subrange(c + 1, line.len() as int);
    assert(token_field =~= token_marker() + token);
    assert(message_field =~= message_marker() + message);
    assert(line =~= assemble_line(ts, level, token, message));
    assert forall|j: int| 0 <= j < ts.len() implies ts[j] != space() by {
        assert(ts[j] == line[j]);
    }
    assert forall|j: int| 0 <= j < level.len() implies level[j] != space() by {
        assert(level[j] == line[a + 1 + j]);
    }
    assert forall|j: int| 0 <= j < token.len() implies token[j] != space() by {
        assert(token[j] == line[b + 7 + j]);
    }
}

/// The fields of a valid UTF-8 line are valid UTF-8 (they are cut at ASCII
/// bytes).
pub proof fn lemma_fields_valid_utf8(line: Seq<u8>)
    requires
        valid_utf8(line),
        template_fields(line) is Ok,
    ensures
        ({
            let (ts, level, token, message) = template_fields(line)->Ok_0;
            &&& valid_utf8(ts)
            &&& valid_utf8(level)
            &&& valid_utf8(token)
            &&& valid_utf8(message)
        }),
{
    lemma_find_from(line, space(), 0);
    let a = first_space(line)->0;
    lemma_find_from(line, space(), a + 1);
    let b = second_space(line)->0;
    lemma_find_from(line, space(), b + 1);
    let c = third_space(line)->0;
    let n = line.len() as int;
    is_char_boundary_start_end_of_seq(line);
    lemma_ascii_byte_is_boundary(line, a);
    lemma_boundary_after_ascii(line, a);
    lemma_ascii_byte_is_boundary(line, b);
    assert(line.subrange(b + 1, c).take(6)[5] == line[b + 6]);
    lemma_boundary_after_ascii(line, b + 6);
    lemma_ascii_byte_is_boundary(line, c);
    assert(line.subrange(c + 1, n).take(8)[7] == line[c + 8]);
    lemma_boundary_after_ascii(line, c + 8);
    is_char_boundary_start_end_of_seq(line);
    lemma_valid_subrange(line, 0, a);
    lemma_valid_subrange(line, a + 1, b);
    lemma_valid_subrange(line, b + 7, c);
    lemma_valid_subrange(line, c + 9, n);
    assert(line.subrange(b + 1, c).skip(6) =~= line.subrange(b + 7, c));
    assert(line.subrange(c + 1, n).skip(8) =~= line.subrange(c + 9, n));
}

/// Splits a template line into its timestamp, level, token and message,
/// each borrowed from `line`.
pub fn parse_template_fields(line: &str) -> (r: Result<(&str, &str, &str, &str), String>)
    ensures
        match r {
            Ok((ts, level, token, message)) => template_fields(line.spec_bytes()) == Ok::<
                (Seq<u8>, Seq<u8>, Seq<u8>, Seq<u8>),
                Seq<char>,
            >((ts.spec_bytes(), level.spec_bytes(), token.spec_bytes(), message.spec_bytes())),
            Err(e) => template_fields(line.spec_bytes()) == Err::<
                (Seq<u8>, Seq<u8>, Seq<u8>, Seq<u8>),
                Seq<char>,
            >(e@),
        },
{
    let bytes = line.as_bytes();
    let ghost s = bytes@;
    let len = bytes.len();
    let a = match find_byte(bytes, ' ' as u8, 0) {
        Some(a) => a,
        None => {
            return Err(owned("missing log level"));
        },
    };
    proof {
        lemma_find_from(s, space(), 0);
        assert(first_space(s) == Some(a as int));
        assert(a < s.len());
    }
    let b = match find_byte(bytes, ' ' as u8, a + 1) {
        Some(b) => b,
        None => {
            return Err(owned("missing token field"));
        },
    };
    proof {
        lemma_find_from(s, space(), a + 1);
    }
    let c = match find_byte(bytes, ' ' as u8, b + 1) {
        Some(c) => c,
        None => {
            return Err(owned("missing message field"));
        },
    };
    proof {
        lemma_find_from(s, space(), b + 1);
    }
    let token_marker_bytes: [u8; 6] = TOKEN_MARKER;
    let message_marker_bytes: [u8; 8] = MESSAGE_MARKER;
    assert(token_marker_bytes@ == token_marker());
    assert(message_marker_bytes@ == message_marker());
    if !has_prefix_at(bytes, b + 1, c, &token_marker_bytes) {
        return Err(owned("token field must start with `token=`"));
    }
    if !has_prefix_at(bytes, c + 1, len, &message_marker_bytes) {
        return Err(owned("message field must start with `message=`"));
    }
    if c - (b + 1) == 6 {
        return Err(owned("token cannot be empty"));
    }
    if len - (c + 1) == 8 {
        return Err(owned("message cannot be empty"));
    }
    proof {
        lemma_ascii_byte_is_boundary(s, a as int);
        lemma_boundary_after_ascii(s, a as int);
        lemma_ascii_byte_is_boundary(s, b as int);
        lemma_ascii_byte_is_boundary(s, c as int);
        assert(s.subrange(b + 1, c as int).take(6)[5] == s[b + 6]);
        lemma_boundary_after_ascii(s, b + 6);
        assert(s.subrange(c + 1, len as int).take(8)[7] == s[c + 8]);
        lemma_boundary_after_ascii(s, c + 8);
        is_char_boundary_start_end_of_seq(s);
    }
    let timestamp = substr(line, 0, a);
    let level = substr(line, a + 1, b);
    let token = substr(line, b + 7, c);
    let message = substr(line, c + 9, len);
    assert(token.spec_bytes() =~= s.subrange(b + 1, c as int).skip(6));
    assert(message.spec_bytes() =~= s.subrange(c + 1, len as int).skip(8));
    Ok((timestamp, level, token, message))
}

/// Splits a log line into its timestamp, level and message, each borrowed
/// from `line`, after checking its token and message fields.
pub fn parse_fields(line: &str) -> (r: Result<(&str, &str, &str), String>)
    ensures
        match r {
            Ok((ts, level, message)) => line_fields(line.spec_bytes()) == Ok::<
                (Seq<u8>, Seq<u8>, Seq<u8>),
                Seq<char>,
            >((ts.spec_bytes(), level.spec_bytes(), message.spec_bytes())),
            Err(e) => line_fields(line.spec_bytes()) == Err::<(Seq<u8>, Seq<u8>, Seq<u8>), Seq<char>>(
                e@,
            ),
        },
{
    match parse_template_fields(line) {
        Ok((timestamp, level, _token, message)) => Ok((timestamp, level, message)),
        Err(e) => Err(e),
    }
}

/// The bytes of `DEBUG`.
pub open spec fn level_debug() -> Seq<u8> {
    seq!['D' as u8, 'E' as u8, 'B' as u8, 'U' as u8, 'G' as u8]
}

/// The bytes of `INFO`.
pub open spec fn level_info() -> Seq<u8> {
    seq!['I' as u8, 'N' as u8, 'F' as u8, 'O' as u8]
}

/// The bytes of `WARN`.
pub open spec fn level_warn() -> Seq<u8> {
    seq!['W' as u8, 'A' as u8, 'R' as u8, 'N' as u8]
}

/// The bytes of `ERROR`.
pub open spec fn level_error() -> Seq<u8> {
    seq!['E' as u8, 'R' as u8, 'R' as u8, 'O' as u8, 'R' as u8]
}

/// `DEBUG`, `INFO`, `WARN` or `ERROR`.
pub open spec fn known_level(level: Seq<u8>) -> bool {
    level == level_debug() || level == level_info() || level == level_warn() || level
        == level_error()
}

/// Twenty bytes holding a `T` and ending in `Z`.
pub open spec fn timestamp_shape_ok(ts: Seq<u8>) -> bool {
    ts.len() == 20 && ts.contains('T' as u8) && ts.last() == 'Z' as u8
}

/// The error for a timestamp that cannot be read.
pub open spec fn invalid_timestamp(ts: Seq<u8>) -> Seq<char> {
    "invalid timestamp `"@ + decode_utf8(ts) + "`"@
}

/// The outcome of validating a line: its fields split, a well-shaped
/// timestamp, a known level and a message that is not only whitespace.
pub open spec fn line_check(line: Seq<u8>) -> Result<(), Seq<char>> {
    match line_fields(line) {
        Err(e) => Err(e),
        Ok((ts, level, message)) => {
            if !timestamp_shape_ok(ts) {
                Err(invalid_timestamp(ts))
            } else if !known_level(level) {
                Err("unsupported log level `"@ + decode_utf8(level) + "`"@)
            } else if all_whitespace(decode_utf8(message)) {
                Err("message cannot be empty"@)
            } else {
                Ok(())
            }
        },
    }
}

/// `DEBUG`, as bytes.
pub const LEVEL_DEBUG: [u8; 5] = ['D' as u8, 'E' as u8, 'B' as u8, 'U' as u8, 'G' as u8];

/// `INFO`, as bytes.
pub const LEVEL_INFO: [u8; 4] = ['I' as u8, 'N' as u8, 'F' as u8, 'O' as u8];

/// `WARN`, as bytes.
pub const LEVEL_WARN: [u8; 4] = ['W' as u8, 'A' as u8, 'R' as u8, 'N' as u8];

/// `ERROR`, as bytes.
pub const LEVEL_ERROR: [u8; 5] = ['E' as u8, 'R' as u8, 'R' as u8, 'O' as u8, 'R' as u8];

/// The accepted level names, as bytes, are the UTF-8 texts `DEBUG`, `INFO`,
/// `WARN` and `ERROR`, and nothing else.
pub proof fn lemma_level_names()
    ensures
        forall|level: Seq<u8>|
            #[trigger] known_level(level) <==> (level == encode_utf8("DEBUG"@) || level
                == encode_utf8("INFO"@) || level == encode_utf8("WARN"@) || level == encode_utf8(
                "ERROR"@,
            )),
{
    reveal_strlit("DEBUG");
    reveal_strlit("INFO");
    reveal_strlit("WARN");
    reveal_strlit("ERROR");
    lemma_encode_ascii("DEBUG"@);
    lemma_encode_ascii("INFO"@);
    lemma_encode_ascii("WARN"@);
    lemma_encode_ascii("ERROR"@);
    assert(encode_utf8("DEBUG"@) =~= level_debug());
    assert(encode_utf8("INFO"@) =~= level_info());
    assert(encode_utf8("WARN"@) =~= level_warn());
    assert(encode_utf8("ERROR"@) =~= level_error());
}

/// A line passes validation only when its level is exactly `DEBUG`, `INFO`,
/// `WARN` or `ERROR`; a line whose fields split and whose timestamp is well
/// shaped but whose level is any other text is refused with
/// ``unsupported log level `<level>` ``.
pub proof fn lemma_line_check_levels(line: Seq<u8>)
    ensures
        line_check(line) is Ok ==> (line_fields(line) matches Ok((_ts, level, _message)) && (level
            == encode_utf8("DEBUG"@) || level == encode_utf8("INFO"@) || level == encode_utf8(
            "WARN"@,
        ) || level == encode_utf8("ERROR"@))),
        line_fields(line) matches Ok((ts, level, _message)) ==> (timestamp_shape_ok(ts) && !(level
            == encode_utf8("DEBUG"@) || level == encode_utf8("INFO"@) || level == encode_utf8(
            "WARN"@,
        ) || level == encode_utf8("ERROR"@)) ==> line_check(line) == Err::<(), Seq<char>>(
            "unsupported log level `"@ + decode_utf8(level) + "`"@,
        )),
{
    lemma_level_names();
}

/// Whether `level` is one of the accepted level names.
pub fn is_known_level(level: &[u8]) -> (r: bool)
    ensures
        r == known_level(level@),
        r == (level@ == encode_utf8("DEBUG"@) || level@ == encode_utf8("INFO"@) || level@
            == encode_utf8("WARN"@) || level@ == encode_utf8("ERROR"@)),
{

    let debug: [u8; 5] = LEVEL_DEBUG;
    let info: [u8; 4] = LEVEL_INFO;
    let warn: [u8; 4] = LEVEL_WARN;
    let error: [u8; 5] = LEVEL_ERROR;
    assert(debug@ == level_debug());
    assert(info@ == level_info());
    assert(warn@ == level_warn());
    assert(error@ == level_error());
    let r = bytes_equal(level, &debug) || bytes_equal(level, &info) || bytes_equal(level, &warn)
        || bytes_equal(level, &error);
    proof {
        lemma_level_names();
        assert(known_level(level@) == r);
    }
    r
}

/// Whether `ts` has the shape of a timestamp.
pub fn has_timestamp_shape(ts: &str) -> (r: bool)
    ensures
        r == timestamp_shape_ok(ts.spec_bytes()),
{
    let bytes = ts.as_bytes();
    if bytes.len() != 20 {
        return false;
    }
    let found = find_byte(bytes, 'T' as u8, 0);
    proof {
        lemma_find_from(bytes@, 84u8, 0);
        if bytes@.contains(84u8) {
            let k = choose|k: int| 0 <= k < bytes@.len() && bytes@[k] == 84u8;
            assert(bytes@[k] == 84u8);
        }
    }
    found.is_some() && bytes[19] == 'Z' as u8
}

/// `prefix`, then `s`, then a backquote.
pub fn quoted(prefix: &str, s: &str) -> (r: String)
    ensures
        r@ == prefix@ + s@ + "`"@,
{
    let mut r = owned(prefix);
    r.append(s);
    r.append("`");
    r
}

/// Checks a log line: its fields, the shape of its timestamp, its level and
/// that its message is not blank.
pub fn validate_line(line: &str) -> (r: Result<(), String>)
    ensures
        match r {
            Ok(()) => line_check(line.spec_bytes()) == Ok::<(), Seq<char>>(()),
            Err(e) => line_check(line.spec_bytes()) == Err::<(), Seq<char>>(e@),
        },
        r is Ok ==> (line_fields(line.spec_bytes()) matches Ok((_ts, level, _message)) && (level
            == encode_utf8("DEBUG"@) || level == encode_utf8("INFO"@) || level == encode_utf8(
            "WARN"@,
        ) || level == encode_utf8("ERROR"@))),
{
    proof {
        lemma_line_check_levels(line.spec_bytes());
    }
    let (timestamp, level, message) = match parse_fields(line) {
        Ok(fields) => fields,
        Err(e) => {
            return Err(e);
        },
    };
    proof {
        encode_utf8_decode_utf8(timestamp@);
        encode_utf8_decode_utf8(level@);
        encode_utf8_decode_utf8(message@);
    }
    if !has_timestamp_shape(timestamp) {
        return Err(quoted("invalid timestamp `", timestamp));
    }
    if !is_known_level(level.as_bytes()) {
        return Err(quoted("unsupported log level `", level));
    }
    if is_blank(message) {
        return Err(owned("message cannot be empty"));
    }
    Ok(())
}

/// The line without its trailing whitespace, as a new string.
pub fn normalize(line: String) -> (r: String)
    ensures
        r@ == trim_end_chars(line@),
{
    let chars = chars_of(line.as_str());
    let mut keep = chars.len();
    assert(line@.take(keep as int) =~= line@);
    while keep > 0 && is_whitespace_char(chars[keep - 1])
        invariant
            keep <= chars@.len(),
            chars@ == line@,
            trim_end_chars(line@) == trim_end_chars(line@.take(keep as int)),
        decreases keep,
    {
        assert(line@.take(keep as int).drop_last() =~= line@.take(keep - 1));
        keep = keep - 1;
    }
    let mut r = String::new();
    push_chars(&mut r, vstd::slice::slice_subrange(chars.as_slice(), 0, keep));
    r
}

/// The characters of `token=`.
pub open spec fn token_marker_chars() -> Seq<char> {
    seq!['t', 'o', 'k', 'e', 'n', '=']
}

/// `token=`, as characters.
pub const TOKEN_MARKER_CHARS: [char; 6] = ['t', 'o', 'k', 'e', 'n', '='];

/// Character positions of the token value: from just after the first
/// `token=` to the next space or the end of the line.
pub open spec fn token_span(s: Seq<char>) -> Option<(int, int)> {
    match find_seq_from(s, token_marker_chars(), 0) {
        None => None,
        Some(i) => {
            let start = i + token_marker_chars().len();
            match find_from(s, ' ', start) {
                Some(end) => Some((start, end)),
                None => Some((start, s.len() as int)),
            }
        },
    }
}

/// `n` asterisks.
pub open spec fn mask(n: nat) -> Seq<char> {
    Seq::new(n, |_i: int| '*')
}

/// The line with each character of its token value replaced by `*`, or why
/// it has no token to redact.
pub open spec fn redacted(s: Seq<char>) -> Result<Seq<char>, Seq<char>> {
    match token_span(s) {
        None => Err("missing token field"@),
        Some((start, end)) => {
            if start == end {
                Err("token cannot be empty"@)
            } else {
                Ok(s.take(start) + mask((end - start) as nat) + s.skip(end))
            }
        },
    }
}

/// Redaction keeps the length of the line and every character outside the
/// token value, puts `*` in place of each character of the token value, and
/// the token value follows a `token=`.
pub proof fn lemma_redaction_keeps_shape(s: Seq<char>)
    requires
        redacted(s) is Ok,
    ensures
        ({
            let t = redacted(s)->Ok_0;
            let (start, end) = token_span(s)->0;
            &&& 6 <= start < end <= s.len()
            &&& s.subrange(start - 6, start) == token_marker_chars()
            &&& t.len() == s.len()
            &&& forall|i: int|
                0 <= i < s.len() ==> #[trigger] t[i] == if start <= i < end {
                    '*'
                } else {
                    s[i]
                }
        }),
{
    let (start, end) = token_span(s)->0;
    lemma_find_seq_from(s, token_marker_chars(), 0);
    lemma_find_from(s, ' ', start);
    let t = redacted(s)->Ok_0;
    assert forall|i: int| 0 <= i < s.len() implies #[trigger] t[i] == if start <= i < end {
        '*'
    } else {
        s[i]
    } by {
        if i < start {
        } else if i < end {
            assert(t[i] == mask((end - start) as nat)[i - start]);
        } else {
            assert(t[i] == s.skip(end)[i - end]);
        }
    }
}

/// Redacting a redacted line changes nothing.
pub proof fn lemma_redaction_idempotent(s: Seq<char>)
    requires
        redacted(s) is Ok,
    ensures
        redacted(redacted(s)->Ok_0) == redacted(s),
{
    let t = redacted(s)->Ok_0;
    let (start, end) = token_span(s)->0;
    lemma_redaction_keeps_shape(s);
    lemma_find_seq_from(s, token_marker_chars(), 0);
    lemma_find_from(s, ' ', start);
    let i = start - 6;
    lemma_find_seq_same_prefix(s, t, token_marker_chars(), 0, i);
    assert forall|j: int| start <= j < end implies t[j] != ' ' by {
        assert(t[j] == '*');
    }
    lemma_find_from_at(t, ' ', start, end);
    assert(token_span(t) == Some((start, end)));
    assert(t.take(start) + mask((end - start) as nat) + t.skip(end) =~= t);
}

/// Redaction forgets the token value: a line that differs only inside the
/// token value, by a value of the same length with no space, redacts to the
/// same line.
pub proof fn lemma_redaction_forgets_token(s1: Seq<char>, s2: Seq<char>)
    requires
        token_span(s1) is Some,
        s1.len() == s2.len(),
        ({
            let (a, b) = token_span(s1)->0;
            &&& forall|i: int| 0 <= i < s1.len() && !(a <= i < b) ==> s1[i] == s2[i]
            &&& forall|i: int| a <= i < b ==> s2[i] != ' '
        }),
    ensures
        token_span(s2) == token_span(s1),
        redacted(s2) == redacted(s1),
{
    let (a, b) = token_span(s1)->0;
    lemma_find_seq_from(s1, token_marker_chars(), 0);
    lemma_find_from(s1, ' ', a);
    lemma_find_seq_same_prefix(s1, s2, token_marker_chars(), 0, a - 6);
    assert forall|j: int| a <= j < b implies s2[j] != ' ' by {}
    if b < s1.len() {
        assert(s2[b] == s1[b]);
    }
    lemma_find_from_at(s2, ' ', a, b);
    assert(s2.take(a) =~= s1.take(a));
    assert(s2.skip(b) =~= s1.skip(b));
}

/// Masks the token value of the line, one `*` per character: `line` is
/// replaced by a masked copy of itself, or left as it was on an error.
pub fn redact_token(line: &mut String) -> (r: Result<(), String>)
    ensures
        match r {
            Ok(()) => redacted(old(line)@) == Ok::<Seq<char>, Seq<char>>(final(line)@),
            Err(e) => redacted(old(line)@) == Err::<Seq<char>, Seq<char>>(e@) && final(line)@
                == old(line)@,
        },
{
    let chars = chars_of(line.as_str());
    let marker: [char; 6] = TOKEN_MARKER_CHARS;
    assert(marker@ == token_marker_chars());
    let n = chars.len();
    let at = match find_chars(&chars, &marker) {
        Some(at) => at,
        None => {
            return Err(owned("missing token field"));
        },
    };
    proof {
        lemma_find_seq_from(chars@, marker@, 0);
    }
    let start = at + 6;
    let end = match find_char(&chars, ' ', start) {
        Some(end) => end,
        None => chars.len(),
    };
    proof {
        lemma_find_from(chars@, ' ', start as int);
    }
    if start == end {
        return Err(owned("token cannot be empty"));
    }
    let mut r = String::new();
    push_chars(&mut r, vstd::slice::slice_subrange(chars.as_slice(), 0, start));
    let mut i = start;
    while i < end
        invariant
            start <= i <= end <= chars@.len(),
            r@ == chars@.take(start as int) + mask((i - start) as nat),
        decreases end - i,
    {
        push_char(&mut r, '*');
        assert(mask((i + 1 - start) as nat) =~= mask((i - start) as nat).push('*'));
        i = i + 1;
    }
    push_chars(&mut r, vstd::slice::slice_subrange(chars.as_slice(), end, chars.len()));
    assert(r@ =~= chars@.take(start as int) + mask((end - start) as nat) + chars@.skip(end as int));
    *line = r;
    Ok(())
}

/// What processing a raw line gives: the line with trailing whitespace
/// removed, validated, and its token redacted, provided its fields can still
/// be split afterwards.
pub open spec fn processed(line: Seq<char>) -> Result<Seq<char>, Seq<char>> {
    let trimmed = trim_end_chars(line);
    match line_check(encode_utf8(trimmed)) {
        Err(e) => Err(e),
        Ok(()) => match redacted(trimmed) {
            Err(e) => Err(e),
            Ok(hidden) => match line_fields(encode_utf8(hidden)) {
                Err(e) => Err(e),
                Ok(_) => Ok(hidden),
            },
        },
    }
}

/// A processed line: normalized, validated and redacted, with the byte
/// offsets of its timestamp, level and message.
pub struct ProcessedLine {
    text: String,
    level_offset: usize,
    message_offset: usize,
}

impl View for ProcessedLine {
    type V = Seq<char>;

    closed spec fn view(&self) -> Seq<char> {
        self.text@
    }
}

impl ProcessedLine {
    /// The fields of the text split, and the offsets are those of its level
    /// and message.
    #[verifier::type_invariant]
    closed spec fn inv(self) -> bool {
        let bytes = encode_utf8(self.text@);
        &&& line_fields(bytes) is Ok
        &&& first_space(bytes) == Some(self.level_offset - 1)
        &&& third_space(bytes) == Some(self.message_offset - 1 - message_marker().len())
        &&& self.message_offset > message_marker().len()
    }

    /// The processed text.
    pub fn text(&self) -> (r: &str)
        ensures
            r@ == self@,
    {
        self.text.as_str()
    }

    /// Byte offset of the timestamp: it opens the line.
    pub fn timestamp_offset(&self) -> (r: usize)
        ensures
            r == 0,
    {
        0
    }

    /// Byte offset of the level: just past the first space.
    pub fn level_offset(&self) -> (r: usize)
        ensures
            first_space(encode_utf8(self@)) == Some(r - 1),
    {
        proof {
            use_type_invariant(self);
        }
        self.level_offset
    }

    /// Byte offset of the message: just past the third space and `message=`.
    pub fn message_offset(&self) -> (r: usize)
        ensures
            third_space(encode_utf8(self@)) == Some(r - 1 - message_marker().len()),
            r > message_marker().len(),
    {
        proof {
            use_type_invariant(self);
        }
        self.message_offset
    }

    /// Timestamp, level and message, borrowed from the processed text.
    pub fn fields(&self) -> (r: (&str, &str, &str))
        ensures
            line_fields(encode_utf8(self@)) == Ok::<(Seq<u8>, Seq<u8>, Seq<u8>), Seq<char>>(
                (r.0.spec_bytes(), r.1.spec_bytes(), r.2.spec_bytes()),
            ),
    {
        proof {
            use_type_invariant(self);
        }
        match parse_fields(self.text.as_str()) {
            Ok(fields) => fields,
            Err(_) => {
                proof {
                    assert(false);
                }
                ("", "", "")
            },
        }
    }

    /// The line the parser prints for this processed line: the level padded
    /// to five characters, the timestamp, the message and three offsets. The
    /// timestamp and level offsets are those of their slices; the message
    /// offset printed is the one the format's documentation shows, one past
    /// the start of the `message=` field (40 for
    /// `2026-09-15T10:20:30Z INFO token=abc123 message=Server started`, whose
    /// message text itself starts at `message_offset()`, byte 47).
    pub fn output_line(&self) -> (r: String)
        ensures
            ({
                let bytes = encode_utf8(self@);
                let (ts, level, message) = line_fields(bytes)->Ok_0;
                r@ == output_text(
                    decode_utf8(ts),
                    decode_utf8(level),
                    decode_utf8(message),
                    (first_space(bytes)->0 + 1) as nat,
                    (third_space(bytes)->0 + 2) as nat,
                )
            }),
    {
        let (timestamp, level, message) = self.fields();
        let level_offset = self.level_offset();
        let message_offset = self.message_offset();
        proof {
            encode_utf8_decode_utf8(timestamp@);
            encode_utf8_decode_utf8(level@);
            encode_utf8_decode_utf8(message@);
        }
        let mut r = String::new();
        r.append(level);
        let level_chars = chars_of(level).len();
        let mut width = level_chars;
        while width < 5
            invariant
                level_chars == level@.len(),
                level_chars <= width <= 5 || (width == level_chars && level_chars > 5),
                r@ == level@ + Seq::new((width - level_chars) as nat, |_i: int| ' '),
            decreases 5 - width,
        {
            push_char(&mut r, ' ');
            assert(Seq::new((width + 1 - level_chars) as nat, |_i: int| ' ') =~= Seq::new(
                (width - level_chars) as nat,
                |_i: int| ' ',
            ).push(' '));
            width = width + 1;
        }
        assert(r@ =~= padded(level@, 5));
        push_char(&mut r, ' ');
        r.append(timestamp);
        r.append(" | ");
        r.append(message);
        r.append(" [offsets: timestamp=");
        push_decimal(&mut r, self.timestamp_offset() as u64);
        r.append(", level=");
        push_decimal(&mut r, level_offset as u64);
        r.append(", message=");
        push_decimal(&mut r, (message_offset - 7) as u64);
        r.append("]");
        r
    }
}

/// `s` padded with spaces on the right to `width` characters, as `{:<width}`
/// prints a string.
pub open spec fn padded(s: Seq<char>, width: nat) -> Seq<char> {
    if s.len() >= width {
        s
    } else {
        s + Seq::new((width - s.len()) as nat, |_i: int| ' ')
    }
}

/// The printed form of a processed line.
pub open spec fn output_text(
    ts: Seq<char>,
    level: Seq<char>,
    message: Seq<char>,
    level_offset: nat,
    message_offset: nat,
) -> Seq<char> {
    padded(level, 5) + seq![' '] + ts + " | "@ + message + " [offsets: timestamp="@ + decimal(0)
        + ", level="@ + decimal(level_offset) + ", message="@ + decimal(message_offset) + "]"@
}

/// The offsets of the level and message in a line whose fields split.
fn field_offsets(line: &str) -> (r: (usize, usize))
    requires
        line_fields(line.spec_bytes()) is Ok,
    ensures
        first_space(line.spec_bytes()) == Some(r.0 - 1),
        third_space(line.spec_bytes()) == Some(r.1 - 1 - message_marker().len()),
        r.1 > message_marker().len(),
{
    let bytes = line.as_bytes();
    let n = bytes.len();
    let a = find_byte(bytes, ' ' as u8, 0);
    proof {
        lemma_find_from(bytes@, space(), 0);
    }
    let a = match a {
        Some(a) => a,
        None => {
            proof {
                assert(false);
            }
            0
        },
    };
    let b = find_byte(bytes, ' ' as u8, a + 1);
    proof {
        lemma_find_from(bytes@, space(), a + 1);
    }
    let b = match b {
        Some(b) => b,
        None => {
            proof {
                assert(false);
            }
            0
        },
    };
    let c = find_byte(bytes, ' ' as u8, b + 1);
    proof {
        lemma_find_from(bytes@, space(), b + 1);
    }
    match c {
        Some(c) => {
            proof {
                let f = bytes@.subrange(c + 1, n as int);
                assert(starts_with(f, message_marker()));
            }
            (a + 1, c + 9)
        },
        None => {
            proof {
                assert(false);
            }
            (0, 0)
        },
    }
}

/// Normalizes, validates and redacts a raw log line, and locates its fields.
pub fn process_line(line: String) -> (r: Result<ProcessedLine, String>)
    ensures
        match r {
            Ok(p) => processed(line@) == Ok::<Seq<char>, Seq<char>>(p@),
            Err(e) => processed(line@) == Err::<Seq<char>, Seq<char>>(e@),
        },
{
    let mut line = normalize(line);
    if let Err(e) = validate_line(line.as_str()) {
        return Err(e);
    }
    if let Err(e) = redact_token(&mut line) {
        return Err(e);
    }
    if let Err(e) = parse_fields(line.as_str()) {
        return Err(e);
    }
    let (level_offset, message_offset) = field_offsets(line.as_str());
    Ok(ProcessedLine { text: line, level_offset, message_offset })
}

/// The characters of `message=`.
pub open spec fn message_marker_chars() -> Seq<char> {
    seq!['m', 'e', 's', 's', 'a', 'g', 'e', '=']
}

/// The line `<ts> <level> token=<token> message=<message>`, as characters.
pub open spec fn log_line_chars(
    ts: Seq<char>,
    level: Seq<char>,
    token: Seq<char>,
    message: Seq<char>,
) -> Seq<char> {
    ts + seq![' '] + level + seq![' '] + token_marker_chars() + token + seq![' ']
        + message_marker_chars() + message
}

/// The encoding of such a line is the assembly of the encoded fields.
proof fn lemma_encode_log_line(ts: Seq<char>, level: Seq<char>, token: Seq<char>, message: Seq<char>)
    ensures
        encode_utf8(log_line_chars(ts, level, token, message)) == assemble_line(
            encode_utf8(ts),
            encode_utf8(level),
            encode_utf8(token),
            encode_utf8(message),
        ),
{
    let sp = seq![' '];
    let tm = token_marker_chars();
    let mm = message_marker_chars();
    lemma_encode_ascii(sp);
    lemma_encode_ascii(tm);
    lemma_encode_ascii(mm);
    assert(encode_utf8(sp) =~= seq![space()]);
    assert(encode_utf8(tm) =~= token_marker());
    assert(encode_utf8(mm) =~= message_marker());
    let p1 = ts + sp;
    let p2 = p1 + level;
    let p3 = p2 + sp;
    let p4 = p3 + tm;
    let p5 = p4 + token;
    let p6 = p5 + sp;
    let p7 = p6 + mm;
    lemma_encode_concat(ts, sp);
    lemma_encode_concat(p1, level);
    lemma_encode_concat(p2, sp);
    lemma_encode_concat(p3, tm);
    lemma_encode_concat(p4, token);
    lemma_encode_concat(p5, sp);
    lemma_encode_concat(p6, mm);
    lemma_encode_concat(p7, message);
    assert(log_line_chars(ts, level, token, message) == p7 + message);
}

/// In such a line, with no space in the timestamp, level or token, no
/// `token=` in the timestamp and a level shorter than `token=`, the token
/// value is exactly the token.
proof fn lemma_token_span_of_line(
    ts: Seq<char>,
    level: Seq<char>,
    token: Seq<char>,
    message: Seq<char>,
)
    requires
        !ts.contains(' '),
        !level.contains(' '),
        !token.contains(' '),
        find_seq_from(ts, token_marker_chars(), 0) is None,
        level.len() < 6,
    ensures
        ({
            let start: int = (ts.len() + level.len() + 8) as int;
            token_span(log_line_chars(ts, level, token, message)) == Some(
                (start, start + token.len()),
            )
        }),
{
    let line = log_line_chars(ts, level, token, message);
    let tm = token_marker_chars();
    let a = ts.len() as int;
    let e = a + level.len() + 2;
    let start = e + 6;
    let end = start + token.len();
    let tail = seq![' '] + message_marker_chars() + message;
    assert(line =~= ts + seq![' '] + level + seq![' '] + tm + token + tail);
    assert(line.subrange(e, e + 6) =~= tm);
    lemma_find_seq_from(ts, tm, 0);
    assert forall|j: int| 0 <= j < e implies #[trigger] line.subrange(j, j + 6) != tm by {
        if j + 6 <= a {
            assert(line.subrange(j, j + 6) =~= ts.subrange(j, j + 6));
        } else if j <= a {
            assert(line.subrange(j, j + 6)[a - j] == ' ');
        } else {
            assert(line.subrange(j, j + 6)[e - 1 - j] == ' ');
        }
    }
    lemma_find_seq_from_at(line, tm, 0, e);
    assert forall|j: int| start <= j < end implies line[j] != ' ' by {
        assert(line[j] == token[j - start]);
    }
    assert(line[end] == ' ');
    lemma_find_from_at(line, ' ', start, end);
}

/// Trimming such a line trims its message.
proof fn lemma_trim_log_line(ts: Seq<char>, level: Seq<char>, token: Seq<char>, message: Seq<char>)
    ensures
        trim_end_chars(log_line_chars(ts, level, token, message)) == log_line_chars(
            ts,
            level,
            token,
            trim_end_chars(message),
        ),
{
    let head = ts + seq![' '] + level + seq![' '] + token_marker_chars() + token + seq![' ']
        + message_marker_chars();
    assert(head.last() == '=');
    lemma_trim_end_concat(head, message);
    assert(log_line_chars(ts, level, token, message) == head + message);
    assert(log_line_chars(ts, level, token, trim_end_chars(message)) == head + trim_end_chars(
        message,
    ));
}

/// Validating such a line does not depend on its token (without spaces, not
/// empty), and a valid one has a level shorter than `token=`.
proof fn lemma_check_ignores_token(
    ts: Seq<char>,
    level: Seq<char>,
    token1: Seq<char>,
    token2: Seq<char>,
    message: Seq<char>,
)
    requires
        !ts.contains(' '),
        !level.contains(' '),
        !token1.contains(' '),
        !token2.contains(' '),
        token1.len() > 0,
        token2.len() > 0,
    ensures
        line_check(encode_utf8(log_line_chars(ts, level, token1, message))) == line_check(
            encode_utf8(log_line_chars(ts, level, token2, message)),
        ),
        line_check(encode_utf8(log_line_chars(ts, level, token1, message))) is Ok ==> level.len()
            < 6,
{
    lemma_encode_log_line(ts, level, token1, message);
    lemma_encode_log_line(ts, level, token2, message);
    lemma_encode_without_space(ts);
    lemma_encode_without_space(level);
    lemma_encode_without_space(token1);
    lemma_encode_without_space(token2);
    lemma_line_fields_ignore_token(
        encode_utf8(ts),
        encode_utf8(level),
        encode_utf8(token1),
        encode_utf8(token2),
        encode_utf8(message),
    );
    if line_check(encode_utf8(log_line_chars(ts, level, token1, message))) is Ok {
        assert(known_level(encode_utf8(level)));
        assert(encode_utf8(level).len() <= 5);
    }
}

/// Redacting two such lines that differ only in their tokens (without
/// spaces, of the same length) gives the same line.
proof fn lemma_redaction_ignores_token(
    ts: Seq<char>,
    level: Seq<char>,
    token1: Seq<char>,
    token2: Seq<char>,
    message: Seq<char>,
)
    requires
        !ts.contains(' '),
        !level.contains(' '),
        find_seq_from(ts, token_marker_chars(), 0) is None,
        level.len() < 6,
        !token1.contains(' '),
        !token2.contains(' '),
        token1.len() == token2.len(),
    ensures
        redacted(log_line_chars(ts, level, token1, message)) == redacted(
            log_line_chars(ts, level, token2, message),
        ),
{
    let t1 = log_line_chars(ts, level, token1, message);
    let t2 = log_line_chars(ts, level, token2, message);
    lemma_token_span_of_line(ts, level, token1, message);
    let start: int = (ts.len() + level.len() + 8) as int;
    let end: int = start + token1.len();
    let prefix = ts + seq![' '] + level + seq![' '] + token_marker_chars();
    let rest = seq![' '] + message_marker_chars() + message;
    assert(t1 =~= prefix + token1 + rest);
    assert(t2 =~= prefix + token2 + rest);
    assert forall|i: int| 0 <= i < t1.len() && !(start <= i < end) implies t1[i] == t2[i] by {
        if i < start {
            assert(t1[i] == prefix[i] && t2[i] == prefix[i]);
        } else {
            assert(t1[i] == rest[i - end] && t2[i] == rest[i - end]);
        }
    }
    assert forall|i: int| start <= i < end implies t2[i] != ' ' by {
        assert(t2[i] == token2[i - start]);
    }
    lemma_redaction_forgets_token(t1, t2);
}

/// Processing forgets the token value beyond its length in characters: two
/// lines with the same timestamp, level and message (no space in the first
/// two, no `token=` in the timestamp) and tokens without spaces of the same
/// length process to the same result, so the same text is printed for both.
pub proof fn lemma_processing_forgets_token(
    ts: Seq<char>,
    level: Seq<char>,
    token1: Seq<char>,
    token2: Seq<char>,
    message: Seq<char>,
)
    requires
        !ts.contains(' '),
        !level.contains(' '),
        find_seq_from(ts, token_marker_chars(), 0) is None,
        !token1.contains(' '),
        !token2.contains(' '),
        token1.len() == token2.len(),
    ensures
        processed(log_line_chars(ts, level, token1, message)) == processed(
            log_line_chars(ts, level, token2, message),
        ),
{
    if token1.len() == 0 {
        assert(token1 =~= token2);
    } else {
        let m = trim_end_chars(message);
        lemma_trim_log_line(ts, level, token1, message);
        lemma_trim_log_line(ts, level, token2, message);
        lemma_check_ignores_token(ts, level, token1, token2, m);
        if line_check(encode_utf8(log_line_chars(ts, level, token1, m))) is Ok {
            lemma_redaction_ignores_token(ts, level, token1, token2, m);
        }
    }
}

} // verus!
