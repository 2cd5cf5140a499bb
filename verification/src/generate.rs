//! Synthetic log generation: each template line is copied with its
//! timestamp moved forward, its token and message tagged with the entry
//! number.

use vstd::prelude::*;
use vstd::string::*;
use vstd::utf8::*;
use crate::log_line::{
    assemble_line, invalid_timestamp, known_level, line_check, has_timestamp_shape, lemma_fields_cover_line, lemma_fields_roundtrip,
    lemma_fields_valid_utf8, message_marker, parse_template_fields, quoted, template_fields,
    timestamp_shape_ok, token_marker,
};
use crate::text::{
    is_whitespace, decimal, decimal_bytes, digit_char, lemma_decimal_bytes, lemma_decimal_digit_byte,
    lemma_ascii_byte_is_boundary, lemma_encode_ascii, lemma_encode_concat, owned, parse_unsigned, parse_unsigned_spec, push_char, push_decimal,
    push_two_digits, substr, two_digits, accumulate_digits, IntParseError,
};

verus! {

broadcast use vstd::string::group_string_axioms, vstd::utf8::group_utf8_lib;

/// The byte positions at which the hour, minute and second are cut out of a
/// timestamp fall on character boundaries.
pub open spec fn clock_cuts_ok(ts: Seq<u8>) -> bool {
    &&& is_char_boundary(ts, 11)
    &&& is_char_boundary(ts, 13)
    &&& is_char_boundary(ts, 14)
    &&& is_char_boundary(ts, 16)
    &&& is_char_boundary(ts, 17)
    &&& is_char_boundary(ts, 19)
}

/// Hour, minute and second read from bytes 11..13, 14..16 and 17..19 of a
/// well-shaped timestamp, each as `str::parse::<u32>` reads it.
pub open spec fn timestamp_components(ts: Seq<u8>) -> Result<(nat, nat, nat), Seq<char>> {
    if !timestamp_shape_ok(ts) {
        Err(invalid_timestamp(ts))
    } else {
        match (
            parse_unsigned_spec(ts.subrange(11, 13), u32::MAX as nat),
            parse_unsigned_spec(ts.subrange(14, 16), u32::MAX as nat),
            parse_unsigned_spec(ts.subrange(17, 19), u32::MAX as nat),
        ) {
            (Ok(h), Ok(m), Ok(s)) => Ok((h, m, s)),
            _ => Err(invalid_timestamp(ts)),
        }
    }
}

/// Two bytes read as an unsigned number give at most 99.
pub proof fn lemma_two_bytes_below_100(s: Seq<u8>, max: nat)
    requires
        s.len() == 2,
        max >= 99,
    ensures
        parse_unsigned_spec(s, max) matches Ok(v) ==> v < 100,
{
    reveal_with_fuel(accumulate_digits, 3);
    let d = s.drop_first();
    assert(d.drop_first().len() == 0);
    assert(d[0] == s[1]);
}

/// Reads the two bytes `bytes[at..at + 2]` as a `u32`.
fn clock_field(bytes: &[u8], at: usize) -> (r: Option<u32>)
    requires
        at + 2 <= bytes@.len(),
    ensures
        match parse_unsigned_spec(bytes@.subrange(at as int, at + 2), u32::MAX as nat) {
            Ok(v) => r == Some(v as u32) && v < 100,
            Err(_) => r is None,
        },
{
    let _len = bytes.len();
    let field = vstd::slice::slice_subrange(bytes, at, at + 2);
    proof {
        lemma_two_bytes_below_100(field@, u32::MAX as nat);
    }
    match parse_unsigned(field, 0xffff_ffff) {
        Ok(v) => Some(v as u32),
        Err(_) => None,
    }
}

/// Reads the hour, minute and second of a timestamp such as
/// `2026-09-15T10:20:30Z`.
pub fn parse_timestamp_components(timestamp: &str) -> (r: Result<(u32, u32, u32), String>)
    requires
        timestamp_shape_ok(timestamp.spec_bytes()) ==> clock_cuts_ok(timestamp.spec_bytes()),
    ensures
        match r {
            Ok((h, m, s)) => timestamp_components(timestamp.spec_bytes()) == Ok::<
                (nat, nat, nat),
                Seq<char>,
            >((h as nat, m as nat, s as nat)) && h < 100 && m < 100 && s < 100,
            Err(e) => timestamp_components(timestamp.spec_bytes()) == Err::<
                (nat, nat, nat),
                Seq<char>,
            >(e@),
        },
{
    proof {
        encode_utf8_decode_utf8(timestamp@);
    }
    if !has_timestamp_shape(timestamp) {
        return Err(quoted("invalid timestamp `", timestamp));
    }
    let bytes = timestamp.as_bytes();
    let hour = clock_field(bytes, 11);
    let minute = clock_field(bytes, 14);
    let second = clock_field(bytes, 17);
    match (hour, minute, second) {
        (Some(h), Some(m), Some(s)) => Ok((h, m, s)),
        _ => Err(quoted("invalid timestamp `", timestamp)),
    }
}

/// Seconds in a day.
pub open spec fn day_seconds() -> nat {
    86400
}

/// The seconds of the day of a clock reading, plus the `u32` truncation of
/// the shift (`seconds_to_add as u32`).
pub open spec fn shifted_seconds(h: nat, m: nat, s: nat, seconds_to_add: nat) -> nat {
    h * 3600 + m * 60 + s + seconds_to_add % 0x1_0000_0000
}

/// `format_timestamp` stays within `u32` and cuts the base on character
/// boundaries, so it neither overflows nor panics.
pub open spec fn shift_defined(base: Seq<u8>, seconds_to_add: nat) -> bool {
    &&& timestamp_shape_ok(base) ==> clock_cuts_ok(base)
    &&& timestamp_components(base) matches Ok((h, m, s)) ==> shifted_seconds(h, m, s, seconds_to_add)
        <= u32::MAX && is_char_boundary(base, 10)
}

/// The timestamp moved forward by `seconds_to_add` seconds, wrapping within
/// the day: the first ten bytes (the date) are kept, the clock is printed as
/// `Thh:mm:ssZ`.
pub open spec fn shifted_timestamp(base: Seq<u8>, seconds_to_add: nat) -> Result<Seq<char>, Seq<char>> {
    match timestamp_components(base) {
        Err(e) => Err(e),
        Ok((h, m, s)) => {
            let w = shifted_seconds(h, m, s, seconds_to_add) % day_seconds();
            Ok(decode_utf8(base.subrange(0, 10)) + clock_chars(w))
        },
    }
}

/// The clock `h:m:s` moved forward by the `u32` truncation of
/// `seconds_to_add` seconds, wrapping within the day.
fn shift_clock(h: u32, m: u32, s: u32, seconds_to_add: usize) -> (r: (u32, u32, u32))
    requires
        h < 100,
        m < 100,
        s < 100,
        shifted_seconds(h as nat, m as nat, s as nat, seconds_to_add as nat) <= u32::MAX,
    ensures
        ({
            let w = shifted_seconds(h as nat, m as nat, s as nat, seconds_to_add as nat)
                % day_seconds();
            r == ((w / 3600) as u32, ((w % 3600) / 60) as u32, (w % 60) as u32)
        }),
        r.0 < 24,
        r.1 < 60,
        r.2 < 60,
{
    let shift: u32 = (seconds_to_add as u64 % 0x1_0000_0000) as u32;
    let total: u32 = h * 3600 + m * 60 + s + shift;
    let wrapped = total % (24 * 3600);
    (wrapped / 3600, (wrapped % 3600) / 60, wrapped % 60)
}

/// Moves the clock of `base_timestamp` forward by `seconds_to_add` seconds,
/// wrapping at midnight and keeping the date.
pub fn format_timestamp(base_timestamp: &str, seconds_to_add: usize) -> (r: Result<String, String>)
    requires
        shift_defined(base_timestamp.spec_bytes(), seconds_to_add as nat),
    ensures
        match r {
            Ok(t) => shifted_timestamp(base_timestamp.spec_bytes(), seconds_to_add as nat) == Ok::<
                Seq<char>,
                Seq<char>,
            >(t@),
            Err(e) => shifted_timestamp(base_timestamp.spec_bytes(), seconds_to_add as nat)
                == Err::<Seq<char>, Seq<char>>(e@),
        },
{
    let (hour, minute, second) = match parse_timestamp_components(base_timestamp) {
        Ok(parts) => parts,
        Err(e) => {
            return Err(e);
        },
    };
    let (next_hour, next_minute, next_second) = shift_clock(hour, minute, second, seconds_to_add);
    let ghost w = shifted_seconds(hour as nat, minute as nat, second as nat, seconds_to_add as nat)
        % day_seconds();
    let date = substr(base_timestamp, 0, 10);
    proof {
        encode_utf8_decode_utf8(date@);
    }
    let mut r = owned(date);
    push_char(&mut r, 'T');
    push_two_digits(&mut r, next_hour as u64);
    push_char(&mut r, ':');
    push_two_digits(&mut r, next_minute as u64);
    push_char(&mut r, ':');
    push_two_digits(&mut r, next_second as u64);
    push_char(&mut r, 'Z');
    assert(r@ =~= decode_utf8(base_timestamp.spec_bytes().subrange(0, 10)) + seq!['T'] + two_digits(
        next_hour as nat,
    ) + seq![':'] + two_digits(next_minute as nat) + seq![':'] + two_digits(next_second as nat)
        + seq!['Z']);
    assert(r@ =~= decode_utf8(base_timestamp.spec_bytes().subrange(0, 10)) + clock_chars(w));
    Ok(r)
}

/// Generating from a template neither overflows nor panics.
pub open spec fn generation_defined(template: Seq<u8>, sequence: nat) -> bool {
    template_fields(template) matches Ok((ts, _level, _token, _message)) ==> {
        &&& shift_defined(ts, sequence)
        &&& shifted_timestamp(ts, sequence) is Ok ==> sequence < usize::MAX
    }
}

/// The text of a generated line from its parts.
pub open spec fn generated_text(
    stamp: Seq<char>,
    level: Seq<char>,
    token: Seq<char>,
    message: Seq<char>,
    entry: Seq<char>,
) -> Seq<char> {
    stamp + seq![' '] + level + " token="@ + token + seq!['-'] + entry + " message="@ + message
        + " [copy "@ + entry + seq![']']
}

/// Copy number `sequence + 1` of a template line: its timestamp shifted by
/// `sequence` seconds, its level, its token tagged `-<entry>`, its message
/// followed by `[copy <entry>]`.
pub open spec fn generated_line(template: Seq<u8>, sequence: nat) -> Result<Seq<char>, Seq<char>> {
    match template_fields(template) {
        Err(e) => Err(e),
        Ok((ts, level, token, message)) => match shifted_timestamp(ts, sequence) {
            Err(e) => Err(e),
            Ok(stamp) => Ok(
                generated_text(
                    stamp,
                    decode_utf8(level),
                    decode_utf8(token),
                    decode_utf8(message),
                    decimal(sequence + 1),
                ),
            ),
        },
    }
}

/// The bytes of ` [copy `.
pub open spec fn copy_marker() -> Seq<u8> {
    seq![' ' as u8, '[' as u8, 'c' as u8, 'o' as u8, 'p' as u8, 'y' as u8, ' ' as u8]
}

/// The clock part of a shifted timestamp: `T`, then hours, minutes and
/// seconds with two digits each separated by `:`, then `Z`.
pub open spec fn clock_chars(w: nat) -> Seq<char> {
    seq!['T'] + two_digits(w / 3600) + seq![':'] + two_digits((w % 3600) / 60) + seq![':']
        + two_digits(w % 60) + seq!['Z']
}

/// The clock part is ten ASCII characters, none a space.
proof fn lemma_clock_chars(w: nat)
    requires
        w < day_seconds(),
    ensures
        clock_chars(w).len() == 10,
        is_ascii_chars(clock_chars(w)),
        clock_chars(w)[0] == 'T',
        clock_chars(w)[9] == 'Z',
        forall|i: int| 0 <= i < 10 ==> #[trigger] clock_chars(w)[i] != ' ',
{
    let c = clock_chars(w);
    assert(c =~= seq![
        'T',
        digit_char(w / 3600 / 10),
        digit_char(w / 3600 % 10),
        ':',
        digit_char((w % 3600) / 60 / 10),
        digit_char((w % 3600) / 60 % 10),
        ':',
        digit_char(w % 60 / 10),
        digit_char(w % 60 % 10),
        'Z',
    ]);
}

/// A shifted timestamp is twenty bytes: the date kept from the base, then
/// the clock; it has the shape of a timestamp again and holds no space.
pub proof fn lemma_shifted_timestamp_shape(base: Seq<u8>, seconds_to_add: nat)
    requires
        valid_utf8(base),
        shift_defined(base, seconds_to_add),
        shifted_timestamp(base, seconds_to_add) is Ok,
    ensures
        ({
            let stamp = encode_utf8(shifted_timestamp(base, seconds_to_add)->Ok_0);
            let (h, m, s) = timestamp_components(base)->Ok_0;
            let w = shifted_seconds(h, m, s, seconds_to_add) % day_seconds();
            &&& stamp.len() == 20
            &&& stamp.take(10) == base.take(10)
            &&& stamp == base.take(10) + clock_chars(w).map_values(|c: char| c as u8)
            &&& timestamp_shape_ok(stamp)
            &&& !base.contains(32u8) ==> !stamp.contains(32u8)
        }),
{
    broadcast use vstd::utf8::group_utf8_lib;

    let (h, m, s) = timestamp_components(base)->Ok_0;
    let w = shifted_seconds(h, m, s, seconds_to_add) % day_seconds();
    let date = base.subrange(0, 10);
    valid_utf8_split(base, 10);
    decode_utf8_encode_utf8(date);
    let clock = clock_chars(w);
    lemma_clock_chars(w);
    let text = decode_utf8(date) + clock;
    lemma_encode_concat(decode_utf8(date), clock);
    lemma_encode_ascii(clock);
    let stamp = encode_utf8(text);
    let clock_bytes = clock.map_values(|c: char| c as u8);
    assert(stamp =~= date + clock_bytes);
    assert(date =~= base.take(10));
    assert(stamp[10] == 'T' as u8);
    assert(stamp.contains('T' as u8));
    assert(stamp.take(10) =~= base.take(10));
    if !base.contains(32u8) {
        assert forall|i: int| 0 <= i < 20 implies stamp[i] != 32u8 by {
            if i < 10 {
                assert(stamp[i] == base[i]);
            } else {
                assert(clock[i - 10] != ' ');
                assert(clock[i - 10] as u8 != 32u8) by {
                    assert(is_ascii_chars(clock));
                }
            }
        }
    }
}

/// Two digit bytes read as an unsigned number give their value.
proof fn lemma_two_digits_parse(x: nat, max: nat)
    requires
        x < 100,
        max >= 99,
    ensures
        parse_unsigned_spec(two_digits(x).map_values(|c: char| c as u8), max) == Ok::<
            nat,
            IntParseError,
        >(x),
{
    reveal_with_fuel(accumulate_digits, 3);
    let b = two_digits(x).map_values(|c: char| c as u8);
    assert(b[0] == (48 + x / 10) as u8);
    assert(b[1] == (48 + x % 10) as u8);
    assert(b.drop_first()[0] == b[1]);
    assert(b.drop_first().drop_first().len() == 0);
    assert((x / 10) * 10 + x % 10 == x);
}

/// A timestamp whose first ten bytes are `date` and whose clock part is
/// printed from `w` reads back as the clock of `w`, and may be shifted again.
proof fn lemma_stamp_reads_back(date: Seq<u8>, w: nat)
    requires
        date.len() == 10,
        valid_utf8(date + clock_chars(w).map_values(|ch: char| ch as u8)),
        w < day_seconds(),
    ensures
        ({
            let stamp = date + clock_chars(w).map_values(|ch: char| ch as u8);
            &&& timestamp_components(stamp) == Ok::<(nat, nat, nat), Seq<char>>(
                (w / 3600, (w % 3600) / 60, w % 60),
            )
            &&& clock_cuts_ok(stamp)
            &&& is_char_boundary(stamp, 10)
            &&& stamp.subrange(0, 10) == date
        }),
{
    broadcast use vstd::utf8::group_utf8_lib;

    lemma_clock_chars(w);
    let clock = clock_chars(w);
    let clock_bytes = clock.map_values(|ch: char| ch as u8);
    let stamp = date + clock_bytes;
    let hh = w / 3600;
    let mm = (w % 3600) / 60;
    let ss = w % 60;
    assert(stamp[10] == 'T' as u8);
    assert(stamp[19] == 'Z' as u8);
    assert(stamp.contains('T' as u8));
    assert(stamp.subrange(11, 13) =~= two_digits(hh).map_values(|ch: char| ch as u8));
    assert(stamp.subrange(14, 16) =~= two_digits(mm).map_values(|ch: char| ch as u8));
    assert(stamp.subrange(17, 19) =~= two_digits(ss).map_values(|ch: char| ch as u8));
    lemma_two_digits_parse(hh, u32::MAX as nat);
    lemma_two_digits_parse(mm, u32::MAX as nat);
    lemma_two_digits_parse(ss, u32::MAX as nat);
    assert forall|i: int| 10 <= i < 20 implies stamp[i] < 0x80 by {
        assert(stamp[i] == clock_bytes[i - 10]);
        assert(is_ascii_chars(clock));
    }
    lemma_ascii_byte_is_boundary(stamp, 10);
    lemma_ascii_byte_is_boundary(stamp, 11);
    lemma_ascii_byte_is_boundary(stamp, 13);
    lemma_ascii_byte_is_boundary(stamp, 14);
    lemma_ascii_byte_is_boundary(stamp, 16);
    lemma_ascii_byte_is_boundary(stamp, 17);
    lemma_ascii_byte_is_boundary(stamp, 19);
    assert(stamp.subrange(0, 10) =~= date);
}

/// Wrapping within the day, then adding `c`, then wrapping again, is adding
/// `c` before the first wrap.
proof fn lemma_wrap_twice(t: nat, c: nat)
    ensures
        (t % 86400) / 3600 * 3600 + (t % 86400) % 3600 / 60 * 60 + (t % 86400) % 60 == t % 86400,
        t % 86400 <= t,
        ((t % 86400) + c) % 86400 == (t + c) % 86400,
{
    let w = t % 86400;
    assert(w / 3600 * 3600 + w % 3600 / 60 * 60 + w % 60 == w) by (nonlinear_arith)
        requires
            0 <= w,
    ;
    assert(w <= t) by (nonlinear_arith)
        requires
            w == t % 86400,
    ;
    assert((w + c) % 86400 == (t + c) % 86400) by (nonlinear_arith)
        requires
            w == t % 86400,
    ;
}

/// Shifting a timestamp by `a` seconds and then by `c` seconds is shifting it
/// by `a + c` seconds, when no sum leaves `u32`; the first result can always
/// be shifted again.
#[verifier::rlimit(40)]
pub proof fn lemma_shift_twice(base: Seq<u8>, a: nat, c: nat)
    requires
        valid_utf8(base),
        shift_defined(base, a),
        timestamp_components(base) is Ok,
        ({
            let (h, m, s) = timestamp_components(base)->Ok_0;
            h * 3600 + m * 60 + s + a + c <= u32::MAX
        }),
    ensures
        ({
            let stamp = encode_utf8(shifted_timestamp(base, a)->Ok_0);
            &&& shift_defined(stamp, c)
            &&& shifted_timestamp(stamp, c) == shifted_timestamp(base, a + c)
        }),
{
    broadcast use vstd::utf8::group_utf8_lib;

    let (h, m, s) = timestamp_components(base)->Ok_0;
    let t = h * 3600 + m * 60 + s;
    assert(a % 0x1_0000_0000 == a && c % 0x1_0000_0000 == c && (a + c) % 0x1_0000_0000 == a + c);
    assert(shifted_seconds(h, m, s, a) == t + a);
    assert(shifted_seconds(h, m, s, a + c) == t + a + c);
    let w = (t + a) % day_seconds();
    lemma_shifted_timestamp_shape(base, a);
    let stamp = encode_utf8(shifted_timestamp(base, a)->Ok_0);
    assert(valid_utf8(stamp));
    lemma_stamp_reads_back(base.take(10), w);
    lemma_wrap_twice(t + a, c);
    let hh = w / 3600;
    let mm = (w % 3600) / 60;
    let ss = w % 60;
    assert(shifted_seconds(hh, mm, ss, c) == w + c);
    assert(base.take(10) =~= base.subrange(0, 10));
}

/// The encoding of a generated text, piece by piece.
proof fn lemma_encode_generated(
    stamp: Seq<char>,
    level: Seq<char>,
    token: Seq<char>,
    message: Seq<char>,
    entry: Seq<char>,
)
    ensures
        encode_utf8(generated_text(stamp, level, token, message, entry)) == encode_utf8(stamp) + seq![
            32u8,
        ] + encode_utf8(level) + seq![32u8] + token_marker() + encode_utf8(token) + seq![
            '-' as u8,
        ] + encode_utf8(entry) + seq![32u8] + message_marker() + encode_utf8(message)
            + copy_marker() + encode_utf8(entry) + seq![']' as u8],
{
    reveal_strlit(" token=");
    reveal_strlit(" message=");
    reveal_strlit(" [copy ");
    let token_lit = " token="@;
    let message_lit = " message="@;
    let copy_lit = " [copy "@;
    lemma_encode_ascii(token_lit);
    lemma_encode_ascii(message_lit);
    lemma_encode_ascii(copy_lit);
    lemma_encode_ascii(seq![' ']);
    lemma_encode_ascii(seq!['-']);
    lemma_encode_ascii(seq![']']);
    let e_space = encode_utf8(seq![' ']);
    let e_dash = encode_utf8(seq!['-']);
    let e_close = encode_utf8(seq![']']);
    assert(encode_utf8(token_lit) =~= seq![32u8] + token_marker());
    assert(encode_utf8(message_lit) =~= seq![32u8] + message_marker());
    assert(encode_utf8(copy_lit) =~= copy_marker());
    assert(e_space =~= seq![32u8]);
    assert(e_dash =~= seq!['-' as u8]);
    assert(e_close =~= seq![']' as u8]);
    let p2 = stamp + seq![' '];
    let p3 = p2 + level;
    let p4 = p3 + token_lit;
    let p5 = p4 + token;
    let p6 = p5 + seq!['-'];
    let p7 = p6 + entry;
    let p8 = p7 + message_lit;
    let p9 = p8 + message;
    let p10 = p9 + copy_lit;
    let p11 = p10 + entry;
    lemma_encode_concat(stamp, seq![' ']);
    lemma_encode_concat(p2, level);
    lemma_encode_concat(p3, token_lit);
    lemma_encode_concat(p4, token);
    lemma_encode_concat(p5, seq!['-']);
    lemma_encode_concat(p6, entry);
    lemma_encode_concat(p7, message_lit);
    lemma_encode_concat(p8, message);
    lemma_encode_concat(p9, copy_lit);
    lemma_encode_concat(p10, entry);
    lemma_encode_concat(p11, seq![']']);
    assert(generated_text(stamp, level, token, message, entry) == p11 + seq![']']);
    assert(encode_utf8(p11 + seq![']']) =~= encode_utf8(stamp) + seq![32u8] + encode_utf8(level)
        + seq![32u8] + token_marker() + encode_utf8(token) + seq!['-' as u8] + encode_utf8(entry)
        + seq![32u8] + message_marker() + encode_utf8(message) + copy_marker() + encode_utf8(entry)
        + seq![']' as u8]);
}

/// A generated line is a log line again: its fields split into the shifted
/// timestamp, the template's level, the template's token tagged with
/// `-<entry>`, and the template's message followed by ` [copy <entry>]`.
#[verifier::rlimit(40)]
pub proof fn lemma_generated_line_parses(template: Seq<u8>, sequence: nat)
    requires
        valid_utf8(template),
        generation_defined(template, sequence),
        generated_line(template, sequence) is Ok,
    ensures
        ({
            let (ts, level, token, message) = template_fields(template)->Ok_0;
            let entry = decimal_bytes(sequence + 1);
            template_fields(encode_utf8(generated_line(template, sequence)->Ok_0)) == Ok::<
                (Seq<u8>, Seq<u8>, Seq<u8>, Seq<u8>),
                Seq<char>,
            >(
                (
                    encode_utf8(shifted_timestamp(ts, sequence)->Ok_0),
                    level,
                    token + seq!['-' as u8] + entry,
                    message + copy_marker() + entry + seq![']' as u8],
                ),
            )
        }),
{
    broadcast use vstd::utf8::group_utf8_lib;

    let (ts, level, token, message) = template_fields(template)->Ok_0;
    lemma_fields_valid_utf8(template);
    lemma_fields_cover_line(template);
    lemma_shifted_timestamp_shape(ts, sequence);
    let stamp = shifted_timestamp(ts, sequence)->Ok_0;
    let entry_chars = decimal(sequence + 1);
    let entry = decimal_bytes(sequence + 1);
    lemma_decimal_bytes(sequence + 1);
    lemma_encode_generated(stamp, decode_utf8(level), decode_utf8(token), decode_utf8(message), entry_chars);
    let g = generated_line(template, sequence)->Ok_0;
    let new_token = token + seq!['-' as u8] + entry;
    let new_message = message + copy_marker() + entry + seq![']' as u8];
    assert(encode_utf8(g) =~= assemble_line(encode_utf8(stamp), level, new_token, new_message));
    assert forall|i: int| 0 <= i < new_token.len() implies new_token[i] != 32u8 by {
        if i < token.len() {
            assert(new_token[i] == token[i]);
        } else if i > token.len() {
            assert(new_token[i] == entry[i - token.len() - 1]);
            lemma_decimal_digit_byte(sequence + 1, i - token.len() - 1);
        }
    }
    lemma_fields_roundtrip(encode_utf8(stamp), level, new_token, new_message);
}

/// A generated line passes validation exactly when its template's level is
/// a known one: its timestamp is well shaped and its message is never blank.
#[verifier::rlimit(40)]
pub proof fn lemma_generated_line_validates(template: Seq<u8>, sequence: nat)
    requires
        valid_utf8(template),
        generation_defined(template, sequence),
        generated_line(template, sequence) is Ok,
    ensures
        ({
            let (ts, level, token, message) = template_fields(template)->Ok_0;
            line_check(encode_utf8(generated_line(template, sequence)->Ok_0)) == if known_level(
                level,
            ) {
                Ok::<(), Seq<char>>(())
            } else {
                Err("unsupported log level `"@ + decode_utf8(level) + "`"@)
            }
        }),
{
    broadcast use vstd::utf8::group_utf8_lib;

    let (ts, level, token, message) = template_fields(template)->Ok_0;
    lemma_generated_line_parses(template, sequence);
    lemma_fields_valid_utf8(template);
    lemma_fields_cover_line(template);
    lemma_shifted_timestamp_shape(ts, sequence);
    let entry_chars = decimal(sequence + 1);
    let entry = decimal_bytes(sequence + 1);
    lemma_decimal_bytes(sequence + 1);
    reveal_strlit(" [copy ");
    let copy_lit = " [copy "@;
    lemma_encode_ascii(copy_lit);
    lemma_encode_ascii(seq![']']);
    assert(encode_utf8(copy_lit) =~= copy_marker());
    assert(encode_utf8(seq![']']) =~= seq![']' as u8]);
    let m = decode_utf8(message);
    let tail = m + copy_lit + entry_chars + seq![']'];
    lemma_encode_concat(m, copy_lit);
    lemma_encode_concat(m + copy_lit, entry_chars);
    lemma_encode_concat(m + copy_lit + entry_chars, seq![']']);
    let new_message = message + copy_marker() + entry + seq![']' as u8];
    assert(encode_utf8(tail) =~= new_message);
    assert(decode_utf8(new_message) == tail);
    assert(tail[m.len() + 1 as int] == '[');
    assert(!is_whitespace(tail[m.len() + 1 as int]));
}

/// Builds copy number `sequence + 1` of a template line.
pub fn generate_log_line(template_line: &str, sequence: usize) -> (r: Result<String, String>)
    requires
        generation_defined(template_line.spec_bytes(), sequence as nat),
    ensures
        match r {
            Ok(line) => generated_line(template_line.spec_bytes(), sequence as nat) == Ok::<
                Seq<char>,
                Seq<char>,
            >(line@),
            Err(e) => generated_line(template_line.spec_bytes(), sequence as nat) == Err::<
                Seq<char>,
                Seq<char>,
            >(e@),
        },
{
    let (timestamp, level, token, message) = match parse_template_fields(template_line) {
        Ok(fields) => fields,
        Err(e) => {
            return Err(e);
        },
    };
    let stamp = match format_timestamp(timestamp, sequence) {
        Ok(stamp) => stamp,
        Err(e) => {
            return Err(e);
        },
    };
    proof {
        encode_utf8_decode_utf8(level@);
        encode_utf8_decode_utf8(token@);
        encode_utf8_decode_utf8(message@);
    }
    let entry = sequence + 1;
    let ghost stamp_chars = stamp@;
    let mut r = stamp;
    push_char(&mut r, ' ');
    r.append(level);
    r.append(" token=");
    r.append(token);
    push_char(&mut r, '-');
    push_decimal(&mut r, entry as u64);
    r.append(" message=");
    r.append(message);
    r.append(" [copy ");
    push_decimal(&mut r, entry as u64);
    push_char(&mut r, ']');
    assert(entry as u64 as nat == sequence + 1);
    assert(r@ =~= stamp_chars + seq![' '] + level@ + " token="@ + token@ + seq!['-'] + decimal(
        sequence as nat + 1,
    ) + " message="@ + message@ + " [copy "@ + decimal(sequence as nat + 1) + seq![']']);
    Ok(r)
}

/// Whether `generate_log_line(template_line, sequence)` is defined, that is,
/// whether it would neither overflow nor panic.
pub fn can_generate(template_line: &str, sequence: usize) -> (r: bool)
    ensures
        r == generation_defined(template_line.spec_bytes(), sequence as nat),
{
    let timestamp = match parse_template_fields(template_line) {
        Ok((timestamp, _level, _token, _message)) => timestamp,
        Err(_) => {
            return true;
        },
    };
    if has_timestamp_shape(timestamp) && !(timestamp.is_char_boundary(11)
        && timestamp.is_char_boundary(13)
        && timestamp.is_char_boundary(14) && timestamp.is_char_boundary(16)
        && timestamp.is_char_boundary(17) && timestamp.is_char_boundary(19)) {
        return false;
    }
    match parse_timestamp_components(timestamp) {
        Ok((h, m, s)) => {
            let total: u64 = h as u64 * 3600 + m as u64 * 60 + s as u64 + (sequence as u64
                % 0x1_0000_0000);
            total <= 0xffff_ffff && timestamp.is_char_boundary(10) && sequence < usize::MAX
        },
        Err(_) => true,
    }
}

/// Refuses an empty set of template lines.
pub fn check_templates(templates: &[String]) -> (r: Result<(), String>)
    ensures
        match r {
            Ok(()) => templates@.len() > 0,
            Err(e) => templates@.len() == 0 && e@ == "sample log is empty"@,
        },
{
    if templates.len() == 0 {
        return Err(owned("sample log is empty"));
    }
    Ok(())
}

/// Line number `index` of a generated logfile: copy `index + 1` of the
/// template lines, taken in turn.
pub fn generate_entry(templates: &[String], index: usize) -> (r: Result<String, String>)
    requires
        templates@.len() > 0,
        generation_defined(
            encode_utf8(templates@[index as int % templates@.len() as int]@),
            index as nat,
        ),
    ensures
        match r {
            Ok(line) => generated_line(
                encode_utf8(templates@[index as int % templates@.len() as int]@),
                index as nat,
            ) == Ok::<Seq<char>, Seq<char>>(line@),
            Err(e) => generated_line(
                encode_utf8(templates@[index as int % templates@.len() as int]@),
                index as nat,
            ) == Err::<Seq<char>, Seq<char>>(e@),
        },
{
    let template = &templates[index % templates.len()];
    generate_log_line(template.as_str(), index)
}

} // verus!
