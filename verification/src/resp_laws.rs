//! What the RESP encoders and readers promise together: a reader given
//! what an encoder wrote reads back what was written, whatever follows it
//! on the stream.
use vstd::prelude::*;
use vstd::utf8::*;
use crate::decimal::{all_digits, dec_digits, int_text, is_digit, lemma_dec_digits_shape, lemma_parse_int_text, parse_integer};
use crate::protocol::{CommandView, ResponseView};
use crate::resp::{
    array_header, bulk_at, bulk_bytes, bulk_list, bulks_at, command_bytes, command_parts, crlf,
    crlf_line_at, length_of, line_end, newline_at, request_at, response_at, response_bytes,
    strip_crlf, lemma_bulks_stop,
};
use crate::text::lemma_decode_ascii;

verus! {

/// The first line feed at or after `from` is at `k` when `s[k]` is one and
/// no byte before it from `from` on is.
proof fn lemma_newline_at(s: Seq<u8>, from: int, k: int)
    requires
        0 <= from <= k < s.len(),
        s[k] == 10u8,
        forall|j: int| from <= j < k ==> s[j] != 10u8,
    ensures
        newline_at(s, from) == k,
    decreases k - from,
{
    if from < k {
        lemma_newline_at(s, from + 1, k);
    }
}

/// Does `body` hold no line feed?
pub open spec fn no_line_feed(body: Seq<u8>) -> bool {
    forall|i: int| 0 <= i < body.len() ==> body[i] != 10u8
}

/// A line made of `body` and CRLF, where `body` holds no line feed, ends
/// right after that CRLF.
proof fn lemma_line_end(s: Seq<u8>, p: int, body: Seq<u8>, eof: bool)
    requires
        0 <= p,
        p + body.len() + 2 <= s.len(),
        s.subrange(p, p + body.len() + 2) == body + crlf(),
        no_line_feed(body),
    ensures
        line_end(s, p, eof) == Some(p + body.len() + 2),
        s.subrange(p, p + body.len() + 2) == body + crlf(),
{
    let k = p + body.len() + 1;
    assert(s[k] == (body + crlf())[body.len() as int + 1]);
    assert forall|j: int| p <= j < k implies s[j] != 10u8 by {
        assert(s[j] == (body + crlf())[j - p]);
        if j - p < body.len() {
            assert((body + crlf())[j - p] == body[j - p]);
        }
    }
    lemma_newline_at(s, p, k);
}

/// Reading a CRLF line where `body` and CRLF stand gives `body`.
proof fn lemma_crlf_line_at(s: Seq<u8>, p: int, body: Seq<u8>, eof: bool)
    requires
        0 <= p,
        p + body.len() + 2 <= s.len(),
        s.subrange(p, p + body.len() + 2) == body + crlf(),
        no_line_feed(body),
    ensures
        crlf_line_at(s, p, eof) == Some(Ok::<(Seq<u8>, int), Seq<char>>((body, p + body.len() + 2))),
{
    lemma_line_end(s, p, body, eof);
    let buf = s.subrange(p, p + body.len() + 2);
    assert(buf.subrange(buf.len() - 2, buf.len() as int) =~= crlf());
    assert(buf.subrange(0, buf.len() - 2) =~= body);
}

/// Digits hold no line feed and are ASCII.
proof fn lemma_digits_plain(n: nat)
    ensures
        no_line_feed(dec_digits(n)),
        forall|i: int| 0 <= i < dec_digits(n).len() ==> #[trigger] dec_digits(n)[i] < 128,
        dec_digits(n).len() > 0,
{
    lemma_dec_digits_shape(n);
    assert forall|i: int| 0 <= i < dec_digits(n).len() implies is_digit(#[trigger] dec_digits(n)[i]) by {}
}

/// A header length written in digits reads back as the number.
proof fn lemma_length_of_digits(n: nat)
    requires
        n <= usize::MAX,
    ensures
        length_of(dec_digits(n) + crlf()) == Ok::<nat, Seq<char>>(n),
{
    let d = dec_digits(n);
    lemma_digits_plain(n);
    lemma_dec_digits_shape(n);
    let t = d + crlf();
    assert(t.subrange(0, t.len() - 2) =~= d);
    assert(is_digit(d[d.len() - 1]));
    assert(strip_crlf(d) == d);
    assert(strip_crlf(t) == d);
    lemma_parse_int_text(n as int, 0, usize::MAX as int);
}

/// A line of a marker byte, digits and CRLF, read at `p`.
proof fn lemma_header_line(s: Seq<u8>, p: int, marker: u8, n: nat, eof: bool)
    requires
        0 <= p,
        marker < 128,
        marker != 10u8,
        n <= usize::MAX,
        p + dec_digits(n).len() + 3 <= s.len(),
        s.subrange(p, p + dec_digits(n).len() + 3) == seq![marker] + dec_digits(n) + crlf(),
    ensures
        line_end(s, p, eof) == Some(p + dec_digits(n).len() + 3),
        valid_utf8(s.subrange(p, p + dec_digits(n).len() + 3)),
        s.subrange(p, p + dec_digits(n).len() + 3)[0] == marker,
        length_of(s.subrange(p, p + dec_digits(n).len() + 3).drop_first()) == Ok::<nat, Seq<char>>(n),
{
    let d = dec_digits(n);
    let body = seq![marker] + d;
    lemma_digits_plain(n);
    assert(no_line_feed(body)) by {
        assert forall|i: int| 0 <= i < body.len() implies body[i] != 10u8 by {
            if i > 0 {
                assert(body[i] == d[i - 1]);
            }
        }
    }
    assert(seq![marker] + d + crlf() =~= body + crlf());
    lemma_line_end(s, p, body, eof);
    let line = s.subrange(p, p + d.len() + 3);
    assert forall|i: int| 0 <= i < line.len() implies #[trigger] line[i] < 128 by {
        if 1 <= i < 1 + d.len() {
            assert(line[i] == d[i - 1]);
        }
    }
    lemma_decode_ascii(line);
    assert(line.drop_first() =~= d + crlf());
    lemma_length_of_digits(n);
}

/// Reading a bulk string of a request where one stands gives its bytes.
proof fn lemma_bulk_at(s: Seq<u8>, p: int, v: Seq<u8>, eof: bool)
    requires
        0 <= p,
        v.len() <= usize::MAX,
        p + bulk_bytes(v).len() <= s.len(),
        s.subrange(p, p + bulk_bytes(v).len()) == bulk_bytes(v),
    ensures
        bulk_at(s, p, eof) == Some(Ok::<(Seq<u8>, int), Seq<char>>((v, p + bulk_bytes(v).len()))),
{
    let d = dec_digits(v.len());
    let hl = d.len() + 3;
    let bb = bulk_bytes(v);
    assert(bb =~= (seq![36u8] + d + crlf()) + v + crlf());
    assert(s.subrange(p, p + hl) =~= bb.subrange(0, hl as int));
    assert(bb.subrange(0, hl as int) =~= seq![36u8] + d + crlf());
    lemma_header_line(s, p, 36u8, v.len(), eof);
    let end = p + hl;
    let n = v.len() as int;
    assert(s.subrange(end + n, end + n + 2) =~= bb.subrange(hl + n, hl + n + 2));
    assert(bb.subrange(hl + n, hl + n + 2) =~= crlf());
    assert(s.subrange(end, end + n) =~= bb.subrange(hl as int, hl + n));
    assert(bb.subrange(hl as int, hl + n) =~= v);
}

/// The bulk strings of the first `i` parts are a prefix of those of all.
proof fn lemma_bulk_list_take(parts: Seq<Seq<u8>>, i: int)
    requires
        0 <= i < parts.len(),
    ensures
        bulk_list(parts.take(i + 1)) == bulk_list(parts.take(i)) + bulk_bytes(parts[i]),
{
    assert(parts.take(i + 1).drop_last() =~= parts.take(i));
}

/// `bulk_list(parts.take(i))` followed by the rest of the bulk strings is
/// the whole list.
proof fn lemma_bulk_list_split(parts: Seq<Seq<u8>>, i: int)
    requires
        0 <= i <= parts.len(),
    ensures
        bulk_list(parts.take(i)) + bulk_list(parts.skip(i)) == bulk_list(parts),
    decreases parts.len(),
{
    if i == parts.len() {
        assert(parts.take(i) =~= parts);
        assert(parts.skip(i) =~= Seq::<Seq<u8>>::empty());
        assert(bulk_list(parts) + Seq::<u8>::empty() =~= bulk_list(parts));
    } else {
        let init = parts.drop_last();
        lemma_bulk_list_split(init, i);
        assert(parts.take(i) =~= init.take(i));
        assert(parts.skip(i) =~= init.skip(i).push(parts.last()));
        assert(init.skip(i).push(parts.last()).drop_last() =~= init.skip(i));
    }
}

/// Reading `i` bulk strings where the bulk strings of `parts` stand gives
/// the first `i` parts.
proof fn lemma_bulks_at(s: Seq<u8>, p: int, parts: Seq<Seq<u8>>, i: nat, eof: bool)
    requires
        0 <= p,
        i <= parts.len(),
        forall|k: int| 0 <= k < parts.len() ==> (#[trigger] parts[k]).len() <= usize::MAX,
        p + bulk_list(parts).len() <= s.len(),
        s.subrange(p, p + bulk_list(parts).len()) == bulk_list(parts),
    ensures
        bulks_at(s, p, i, eof) == Some(
            Ok::<(Seq<Seq<u8>>, int), Seq<char>>((parts.take(i as int), p + bulk_list(parts.take(i as int)).len())),
        ),
    decreases i,
{
    if i == 0 {
        assert(parts.take(0) =~= Seq::<Seq<u8>>::empty());
    } else {
        let k = (i - 1) as int;
        lemma_bulks_at(s, p, parts, (i - 1) as nat, eof);
        lemma_bulk_list_take(parts, k);
        lemma_bulk_list_split(parts, i as int);
        let q = p + bulk_list(parts.take(k)).len();
        let bb = bulk_bytes(parts[k]);
        let whole = bulk_list(parts);
        assert(whole =~= bulk_list(parts.take(k)) + bb + bulk_list(parts.skip(i as int)));
        assert(s.subrange(q, q + bb.len()) =~= whole.subrange(q - p, q - p + bb.len()));
        assert(whole.subrange(q - p, q - p + bb.len()) =~= bb);
        lemma_bulk_at(s, q, parts[k], eof);
        assert(parts.take(k).push(parts[k]) =~= parts.take(i as int));
    }
}

/// A command can be sent: its name and every argument fits in memory.
pub open spec fn sendable(c: CommandView) -> bool {
    &&& command_parts(c).len() <= usize::MAX
    &&& forall|k: int| 0 <= k < command_parts(c).len() ==> (#[trigger] command_parts(c)[k]).len() <= usize::MAX
}

/// Reading a request where a command was written gives back the parts of
/// that command and the length of what was written, whatever follows it
/// and whether or not the stream ends there.
pub proof fn law_read_command_after_write(c: CommandView, rest: Seq<u8>, eof: bool)
    requires
        sendable(c),
    ensures
        request_at(command_bytes(c) + rest, eof) == Some(
            Ok::<(Seq<Seq<u8>>, int), Seq<char>>((command_parts(c), command_bytes(c).len() as int)),
        ),
{
    let parts = command_parts(c);
    let n = parts.len();
    let s = command_bytes(c) + rest;
    let h = array_header(n);
    let d = dec_digits(n);
    assert(s.subrange(0, d.len() as int + 3) =~= seq![42u8] + d + crlf());
    lemma_header_line(s, 0, 42u8, n, eof);
    let end = d.len() as int + 3;
    assert(s.subrange(end, end + bulk_list(parts).len()) =~= bulk_list(parts));
    lemma_bulks_at(s, end, parts, n, eof);
    assert(parts.take(n as int) =~= parts);
}


/// Upper-casing leaves text without lower-case ASCII letters unchanged.
proof fn lemma_upper_of_upper(chars: Seq<char>)
    requires
        forall|i: int| 0 <= i < chars.len() ==> !(97 <= (#[trigger] chars[i] as u32) <= 122),
    ensures
        crate::text::ascii_upper_text(chars) == chars,
{
    assert(crate::text::ascii_upper_text(chars) =~= chars);
}

/// A command that its parts can carry: a deletion names at least one key.
pub open spec fn well_formed_command(c: CommandView) -> bool {
    c matches CommandView::Del { keys } ==> keys.len() > 0
}

/// The parts that a command is sent as name it again: the first part,
/// decoded and made upper-case, and the arguments give back the command.
pub proof fn law_parse_command_parts(c: CommandView)
    requires
        well_formed_command(c),
    ensures
        ({
            let parts = command_parts(c);
            &&& valid_utf8(parts[0])
            &&& crate::parser::parse_named(
                crate::text::ascii_upper_text(decode_utf8(parts[0])),
                parts,
            ) == Ok::<CommandView, Seq<char>>(c)
        }),
{
    reveal_strlit("SET");
    reveal_strlit("GET");
    reveal_strlit("DEL");
    reveal_strlit("SAVE");
    assert("SET"@[0] == 'S' && "SET"@.len() == 3);
    assert("GET"@[0] == 'G' && "GET"@.len() == 3);
    assert("DEL"@[0] == 'D' && "DEL"@.len() == 3);
    assert("SAVE"@[0] == 'S' && "SAVE"@.len() == 4);
    let parts = command_parts(c);
    let name: Seq<char> = match c {
        CommandView::SetKey { .. } => "SET"@,
        CommandView::Get { .. } => "GET"@,
        CommandView::Del { .. } => "DEL"@,
        CommandView::Save => "SAVE"@,
    };
    match c {
        CommandView::Del { keys } => {
            assert(parts[0] == crate::resp::del_name());
            assert(parts.drop_first() =~= keys);
        },
        _ => {},
    }
    lemma_decode_ascii(parts[0]);
    assert(parts[0].map_values(|b: u8| b as char) =~= name);
    lemma_upper_of_upper(name);
    assert(decode_utf8(parts[0]) == name);
    assert(crate::text::ascii_upper_text(name) == name);
    assert(crate::parser::parse_named(name, parts) == Ok::<CommandView, Seq<char>>(c));
}


/// Does the text hold no line feed?
pub open spec fn no_newline_char(t: Seq<char>) -> bool {
    forall|i: int| 0 <= i < t.len() ==> (#[trigger] t[i] as u32) != 10
}

/// The UTF-8 bytes of a text without line feeds hold none either: every
/// byte of a longer encoding has its high bit set.
proof fn lemma_encode_no_line_feed(t: Seq<char>)
    requires
        no_newline_char(t),
    ensures
        no_line_feed(encode_utf8(t)),
    decreases t.len(),
{
    if t.len() > 0 {
        let rest = t.drop_first();
        assert(no_newline_char(rest)) by {
            assert forall|i: int| 0 <= i < rest.len() implies (#[trigger] rest[i] as u32) != 10 by {
                assert(rest[i] == t[i + 1]);
            }
        }
        lemma_encode_no_line_feed(rest);
        let c = t[0] as u32;
        char_is_scalar(t[0]);
        assert(c != 10);
        let e = encode_scalar(c);
        assert(no_line_feed(e)) by {
            if has_width_1_encoding(c) {
                assert(leading_byte_width_1(c) != 10u8) by (bit_vector)
                    requires
                        c <= 0x7f,
                        c != 10,
                ;
            } else if has_width_2_encoding(c) {
                assert(leading_byte_width_2(c) != 10u8) by (bit_vector);
                assert(last_continuation_byte(c) != 10u8) by (bit_vector);
            } else if has_width_3_encoding(c) {
                assert(leading_byte_width_3(c) != 10u8) by (bit_vector);
                assert(second_last_continuation_byte(c) != 10u8) by (bit_vector);
                assert(last_continuation_byte(c) != 10u8) by (bit_vector);
            } else {
                assert(leading_byte_width_4(c) != 10u8) by (bit_vector);
                assert(third_last_continuation_byte(c) != 10u8) by (bit_vector);
                assert(second_last_continuation_byte(c) != 10u8) by (bit_vector);
                assert(last_continuation_byte(c) != 10u8) by (bit_vector);
            }
        }
        let all = encode_utf8(t);
        assert(all == e + encode_utf8(rest));
        assert forall|j: int| 0 <= j < all.len() implies all[j] != 10u8 by {
            if j < e.len() {
                assert(all[j] == e[j]);
            } else {
                assert(all[j] == encode_utf8(rest)[j - e.len()]);
            }
        }
    }
}

/// What reading back a written response gives: the response itself, but
/// `Okay`, which is written as the simple string `OK`, comes back as that.
pub open spec fn as_read_back(r: ResponseView) -> ResponseView {
    match r {
        ResponseView::Okay => ResponseView::Simple(seq!['O', 'K']),
        other => other,
    }
}

/// A response that reads back as written: texts without line feeds, an
/// integer that fits `i64`, a bulk string no longer than `isize::MAX`.
pub open spec fn readable_response(r: ResponseView) -> bool {
    match r {
        ResponseView::Simple(s) => no_newline_char(s),
        ResponseView::Error(e) => no_newline_char(e),
        ResponseView::Integer(i) => i64::MIN <= i <= i64::MAX,
        ResponseView::Bulk(v) => v.len() <= isize::MAX,
        _ => true,
    }
}

/// A text line after a one-byte prefix reads back as the text.
proof fn lemma_text_line(s: Seq<u8>, t: Seq<char>, eof: bool)
    requires
        no_newline_char(t),
        s.len() >= encode_utf8(t).len() as int + 3,
        s.subrange(1, encode_utf8(t).len() as int + 3) == encode_utf8(t) + crlf(),
    ensures
        crlf_line_at(s, 1, eof) == Some(
            Ok::<(Seq<u8>, int), Seq<char>>((encode_utf8(t), encode_utf8(t).len() as int + 3)),
        ),
        valid_utf8(encode_utf8(t)),
        decode_utf8(encode_utf8(t)) == t,
{
    lemma_encode_no_line_feed(t);
    lemma_crlf_line_at(s, 1, encode_utf8(t), eof);
    encode_utf8_valid_utf8(t);
    encode_utf8_decode_utf8(t);
}

/// The claim of the law below for one response.
pub open spec fn reads_back(r: ResponseView, rest: Seq<u8>, eof: bool) -> bool {
    response_at(response_bytes(r) + rest, eof) == Some(
        Ok::<(ResponseView, int), Seq<char>>((as_read_back(r), response_bytes(r).len() as int)),
    )
}

proof fn lemma_reads_back_okay(rest: Seq<u8>, eof: bool)
    ensures
        reads_back(ResponseView::Okay, rest, eof),
{
    let s = response_bytes(ResponseView::Okay) + rest;
    let ok = seq![79u8, 75u8];
    assert(s.subrange(1, 5) =~= ok + crlf());
    assert(no_line_feed(ok));
    lemma_crlf_line_at(s, 1, ok, eof);
    lemma_decode_ascii(ok);
    assert(ok.map_values(|b: u8| b as char) =~= seq!['O', 'K']);
}

proof fn lemma_reads_back_text(r: ResponseView, rest: Seq<u8>, eof: bool)
    requires
        r is Simple || r is Error,
        readable_response(r),
    ensures
        reads_back(r, rest, eof),
{
    let s = response_bytes(r) + rest;
    let t = match r {
        ResponseView::Simple(t) => t,
        ResponseView::Error(t) => t,
        _ => Seq::empty(),
    };
    assert(s.subrange(1, encode_utf8(t).len() as int + 3) =~= encode_utf8(t) + crlf());
    lemma_text_line(s, t, eof);
}

proof fn lemma_reads_back_nil(rest: Seq<u8>, eof: bool)
    ensures
        reads_back(ResponseView::Nil, rest, eof),
{
    let s = response_bytes(ResponseView::Nil) + rest;
    let m = seq![45u8, 49u8];
    assert(s.subrange(1, 5) =~= m + crlf());
    assert(no_line_feed(m));
    lemma_crlf_line_at(s, 1, m, eof);
    assert(dec_digits(1) =~= seq![49u8]);
    assert(int_text(-1) =~= m);
    lemma_parse_int_text(-1, isize::MIN as int, isize::MAX as int);
}

proof fn lemma_reads_back_integer(i: int, rest: Seq<u8>, eof: bool)
    requires
        i64::MIN <= i <= i64::MAX,
    ensures
        reads_back(ResponseView::Integer(i), rest, eof),
{
    let s = response_bytes(ResponseView::Integer(i)) + rest;
    let m = int_text(i);
    lemma_digits_plain(if i < 0 { (-i) as nat } else { i as nat });
    assert(no_line_feed(m)) by {
        assert forall|j: int| 0 <= j < m.len() implies m[j] != 10u8 by {
            if i < 0 && j > 0 {
                assert(m[j] == dec_digits((-i) as nat)[j - 1]);
            }
        }
    }
    assert(s.subrange(1, m.len() as int + 3) =~= m + crlf());
    lemma_crlf_line_at(s, 1, m, eof);
    lemma_parse_int_text(i, i64::MIN as int, i64::MAX as int);
}

proof fn lemma_reads_back_bulk(v: Seq<u8>, rest: Seq<u8>, eof: bool)
    requires
        v.len() <= isize::MAX,
    ensures
        reads_back(ResponseView::Bulk(v), rest, eof),
{
    let w = response_bytes(ResponseView::Bulk(v));
    let s = w + rest;
    let d = dec_digits(v.len());
    lemma_digits_plain(v.len());
    assert(w =~= seq![36u8] + d + crlf() + v + crlf());
    assert(s.subrange(1, d.len() as int + 3) =~= d + crlf());
    lemma_crlf_line_at(s, 1, d, eof);
    lemma_parse_int_text(v.len() as int, isize::MIN as int, isize::MAX as int);
    let end = d.len() as int + 3;
    let n = v.len() as int;
    assert(s.subrange(end + n, end + n + 2) =~= crlf());
    assert(s.subrange(end, end + n) =~= v);
}

/// Reading a response where one was written gives it back (`Okay` as the
/// simple string `OK`) with the length of what was written, whatever
/// follows it and whether or not the stream ends there.
pub proof fn law_read_response_after_write(r: ResponseView, rest: Seq<u8>, eof: bool)
    requires
        readable_response(r),
    ensures
        response_at(response_bytes(r) + rest, eof) == Some(
            Ok::<(ResponseView, int), Seq<char>>((as_read_back(r), response_bytes(r).len() as int)),
        ),
{
    match r {
        ResponseView::Okay => lemma_reads_back_okay(rest, eof),
        ResponseView::Simple(_) => lemma_reads_back_text(r, rest, eof),
        ResponseView::Error(_) => lemma_reads_back_text(r, rest, eof),
        ResponseView::Nil => lemma_reads_back_nil(rest, eof),
        ResponseView::Integer(i) => lemma_reads_back_integer(i, rest, eof),
        ResponseView::Bulk(v) => lemma_reads_back_bulk(v, rest, eof),
    }
}

/// Without a line feed from `from` on, there is no line end in `s`.
proof fn lemma_newline_absent(s: Seq<u8>, from: int)
    requires
        0 <= from <= s.len(),
        forall|j: int| from <= j < s.len() ==> s[j] != 10u8,
    ensures
        newline_at(s, from) == s.len(),
    decreases s.len() - from,
{
    if from < s.len() {
        lemma_newline_absent(s, from + 1);
    }
}

/// Where `s` holds only the start of `line + crlf()` from `p` on, short of
/// its line feed, and `line` holds no line feed, the line has not ended yet.
proof fn lemma_line_unfinished(s: Seq<u8>, p: int, line: Seq<u8>)
    requires
        0 <= p <= s.len(),
        s.len() < p + line.len() + 2,
        no_line_feed(line),
        forall|i: int| p <= i < s.len() ==> s[i] == (line + crlf())[i - p],
    ensures
        line_end(s, p, false) is None,
{
    assert forall|j: int| p <= j < s.len() implies s[j] != 10u8 by {
        if j - p < line.len() {
            assert((line + crlf())[j - p] == line[j - p]);
        } else {
            assert((line + crlf())[j - p] == 13u8);
        }
    }
    lemma_newline_absent(s, p);
}

/// A marker byte and digits hold no line feed.
proof fn lemma_marked_digits_plain(marker: u8, n: nat)
    requires
        marker != 10u8,
    ensures
        no_line_feed(seq![marker] + dec_digits(n)),
{
    lemma_digits_plain(n);
    let body = seq![marker] + dec_digits(n);
    assert forall|i: int| 0 <= i < body.len() implies body[i] != 10u8 by {
        if i > 0 {
            assert(body[i] == dec_digits(n)[i - 1]);
        }
    }
}

/// Reading a bulk string of which only the start has arrived, with more
/// bytes to come, asks for more.
proof fn lemma_bulk_at_prefix(s: Seq<u8>, p: int, v: Seq<u8>)
    requires
        0 <= p <= s.len(),
        v.len() <= usize::MAX,
        s.len() < p + bulk_bytes(v).len(),
        forall|i: int| p <= i < s.len() ==> s[i] == bulk_bytes(v)[i - p],
    ensures
        bulk_at(s, p, false) is None,
{
    let d = dec_digits(v.len());
    let head = seq![36u8] + d;
    let hl = d.len() + 3;
    let bb = bulk_bytes(v);
    assert(bb =~= (head + crlf()) + v + crlf());
    lemma_marked_digits_plain(36u8, v.len());
    if s.len() < p + hl {
        assert forall|i: int| p <= i < s.len() implies s[i] == (head + crlf())[i - p] by {
            assert(bb[i - p] == (head + crlf())[i - p]);
        }
        lemma_line_unfinished(s, p, head);
    } else {
        assert(s.subrange(p, p + hl) =~= seq![36u8] + d + crlf()) by {
            assert forall|i: int| 0 <= i < hl implies s.subrange(p, p + hl)[i] == (seq![36u8] + d
                + crlf())[i] by {
                assert(s[p + i] == bb[i]);
            }
        }
        lemma_header_line(s, p, 36u8, v.len(), false);
    }
}

/// Where the bulk strings of all `parts` begin at `base` and `k` falls
/// inside them, `k` falls inside one of them, the one at `j`.
proof fn lemma_find_cut(parts: Seq<Seq<u8>>, base: int, k: int, i: int) -> (j: int)
    requires
        0 <= i < parts.len(),
        base + bulk_list(parts.take(i)).len() <= k < base + bulk_list(parts).len(),
    ensures
        i <= j < parts.len(),
        base + bulk_list(parts.take(j)).len() <= k < base + bulk_list(parts.take(j + 1)).len(),
    decreases parts.len() - i,
{
    lemma_bulk_list_take(parts, i);
    if k < base + bulk_list(parts.take(i + 1)).len() {
        i
    } else {
        if i + 1 == parts.len() {
            assert(parts.take(i + 1) =~= parts);
        }
        lemma_find_cut(parts, base, k, i + 1)
    }
}

/// The bulk strings of the parts from `j` on are that of part `j`, then
/// those of the parts after it.
proof fn lemma_bulk_list_skip(parts: Seq<Seq<u8>>, j: int)
    requires
        0 <= j < parts.len(),
    ensures
        bulk_list(parts.skip(j)) == bulk_bytes(parts[j]) + bulk_list(parts.skip(j + 1)),
{
    let rest = parts.skip(j);
    lemma_bulk_list_split(rest, 1);
    assert(rest.take(1) =~= seq![parts[j]]);
    assert(seq![parts[j]].drop_last() =~= Seq::<Seq<u8>>::empty());
    assert(seq![parts[j]].last() == parts[j]);
    assert(bulk_list(Seq::<Seq<u8>>::empty()) =~= Seq::<u8>::empty());
    assert(Seq::<u8>::empty() + bulk_bytes(parts[j]) =~= bulk_bytes(parts[j]));
    assert(rest.skip(1) =~= parts.skip(j + 1));
}

/// After a complete header at `0..base`, a request whose bulk strings
/// have only partly arrived asks for more.
proof fn lemma_bulks_prefix(s: Seq<u8>, full: Seq<u8>, base: int, parts: Seq<Seq<u8>>)
    requires
        0 <= base <= s.len() < full.len(),
        full.len() == base + bulk_list(parts).len(),
        forall|i: int| 0 <= i < s.len() ==> s[i] == full[i],
        full.subrange(base, full.len() as int) == bulk_list(parts),
        forall|m: int| 0 <= m < parts.len() ==> (#[trigger] parts[m]).len() <= usize::MAX,
    ensures
        bulks_at(s, base, parts.len(), false) is None,
{
    let k = s.len() as int;
    assert(parts.take(0) =~= Seq::<Seq<u8>>::empty());
    assert(parts.len() > 0) by {
        if parts.len() == 0 {
            assert(bulk_list(parts) =~= Seq::<u8>::empty());
        }
    }
    let j = lemma_find_cut(parts, base, k, 0);
    let first = parts.take(j);
    lemma_bulk_list_split(parts, j);
    lemma_bulk_list_take(parts, j);
    lemma_bulk_list_skip(parts, j);
    let done = bulk_list(first);
    let bb = bulk_bytes(parts[j]);
    let body = bulk_list(parts);
    assert(body =~= done + (bb + bulk_list(parts.skip(j + 1))));
    assert forall|m: int| 0 <= m < first.len() implies (#[trigger] first[m]).len() <= usize::MAX by {
        assert(first[m] == parts[m]);
    }
    assert(s.subrange(base, base + done.len()) =~= done) by {
        assert forall|i: int| 0 <= i < done.len() implies s.subrange(base, base + done.len())[i]
            == done[i] by {
            assert(s[base + i] == full[base + i]);
            assert(full[base + i] == body[i]);
        }
    }
    lemma_bulks_at(s, base, first, j as nat, false);
    assert(first.take(j) =~= first);
    let q = base + done.len();
    assert forall|i: int| q <= i < s.len() implies s[i] == bb[i - q] by {
        assert(s[i] == full[i]);
        assert(full[i] == body[i - base]);
    }
    lemma_bulk_at_prefix(s, q, parts[j]);
    assert(bulks_at(s, base, (j + 1) as nat, false) is None);
    lemma_bulks_stop(s, base, (j + 1) as nat, parts.len(), false);
}

/// Reading a request of which only a part has arrived, with more bytes to
/// come, asks for more, however much of it is there: it never answers an
/// error, nor reads a request that is not complete.
pub proof fn law_read_prefix_of_command(c: CommandView, k: int)
    requires
        sendable(c),
        0 <= k < command_bytes(c).len(),
    ensures
        request_at(command_bytes(c).take(k), false) is None,
{
    let full = command_bytes(c);
    let s = full.take(k);
    let parts = command_parts(c);
    let n = parts.len();
    let d = dec_digits(n);
    let head = seq![42u8] + d;
    let hl = d.len() + 3;
    lemma_marked_digits_plain(42u8, n);
    assert(full =~= (head + crlf()) + bulk_list(parts));
    if k < hl {
        assert forall|i: int| 0 <= i < s.len() implies s[i] == (head + crlf())[i] by {
            assert(s[i] == full[i]);
        }
        lemma_line_unfinished(s, 0, head);
    } else {
        assert(s.subrange(0, hl as int) =~= seq![42u8] + d + crlf()) by {
            assert forall|i: int| 0 <= i < hl implies s.subrange(0, hl as int)[i] == (seq![42u8] + d
                + crlf())[i] by {
                assert(s[i] == full[i]);
            }
        }
        lemma_header_line(s, 0, 42u8, n, false);
        assert(full.subrange(hl as int, full.len() as int) =~= bulk_list(parts));
        lemma_bulks_prefix(s, full, hl as int, parts);
    }
}

/// A one-byte marker, then a line of which the line feed has not arrived:
/// reading that line asks for more bytes.
proof fn lemma_marked_line_prefix(w: Seq<u8>, k: int, line: Seq<u8>)
    requires
        1 <= k < w.len(),
        w.len() == line.len() + 3,
        no_line_feed(line),
        w.subrange(1, w.len() as int) == line + crlf(),
    ensures
        crlf_line_at(w.take(k), 1, false) is None,
{
    let s = w.take(k);
    assert forall|i: int| 1 <= i < s.len() implies s[i] == (line + crlf())[i - 1] by {
        assert(s[i] == w[i]);
        assert(w[i] == w.subrange(1, w.len() as int)[i - 1]);
    }
    lemma_line_unfinished(s, 1, line);
}

/// The line that a response other than a bulk string is written with,
/// between its marker byte and its CRLF.
pub open spec fn response_line(r: ResponseView) -> Seq<u8> {
    match r {
        ResponseView::Okay => seq![79u8, 75u8],
        ResponseView::Simple(t) => encode_utf8(t),
        ResponseView::Nil => seq![45u8, 49u8],
        ResponseView::Integer(i) => int_text(i),
        ResponseView::Error(t) => encode_utf8(t),
        ResponseView::Bulk(v) => Seq::empty(),
    }
}

/// A response other than a bulk string is its marker byte, its line, CRLF;
/// the line holds no line feed.
proof fn lemma_response_line(r: ResponseView)
    requires
        readable_response(r),
        !(r is Bulk),
    ensures
        response_bytes(r).len() == response_line(r).len() + 3,
        response_bytes(r).subrange(1, response_bytes(r).len() as int) == response_line(r) + crlf(),
        no_line_feed(response_line(r)),
{
    let w = response_bytes(r);
    let line = response_line(r);
    assert(w =~= seq![w[0]] + (line + crlf()));
    assert(w.subrange(1, w.len() as int) =~= line + crlf());
    match r {
        ResponseView::Simple(t) => lemma_encode_no_line_feed(t),
        ResponseView::Error(t) => lemma_encode_no_line_feed(t),
        ResponseView::Integer(i) => {
            lemma_digits_plain(if i < 0 { (-i) as nat } else { i as nat });
            assert forall|j: int| 0 <= j < line.len() implies line[j] != 10u8 by {
                if i < 0 && j > 0 {
                    assert(line[j] == dec_digits((-i) as nat)[j - 1]);
                }
            }
        },
        _ => {},
    }
}

/// Reading a bulk-string response of which only a part has arrived, with
/// more bytes to come, asks for more.
proof fn lemma_bulk_response_prefix(v: Seq<u8>, k: int)
    requires
        v.len() <= isize::MAX,
        1 <= k < response_bytes(ResponseView::Bulk(v)).len(),
    ensures
        response_at(response_bytes(ResponseView::Bulk(v)).take(k), false) is None,
{
    let w = response_bytes(ResponseView::Bulk(v));
    let s = w.take(k);
    let d = dec_digits(v.len());
    let hl = d.len() + 3;
    lemma_digits_plain(v.len());
    assert(w =~= seq![36u8] + (d + crlf()) + v + crlf());
    assert(s[0] == 36u8);
    if k < hl {
        assert forall|i: int| 1 <= i < s.len() implies s[i] == (d + crlf())[i - 1] by {
            assert(s[i] == w[i]);
        }
        lemma_line_unfinished(s, 1, d);
    } else {
        assert(s.subrange(1, hl as int) =~= d + crlf()) by {
            assert forall|i: int| 0 <= i < d.len() + 2 implies s.subrange(1, hl as int)[i] == (d
                + crlf())[i] by {
                assert(s[1 + i] == w[1 + i]);
            }
        }
        lemma_crlf_line_at(s, 1, d, false);
        lemma_parse_int_text(v.len() as int, isize::MIN as int, isize::MAX as int);
    }
}

/// Reading a response of which only a part has arrived, with more bytes to
/// come, asks for more, however much of it is there: it never answers an
/// error, nor reads a response that is not complete.
pub proof fn law_read_prefix_of_response(r: ResponseView, k: int)
    requires
        readable_response(r),
        0 <= k < response_bytes(r).len(),
    ensures
        response_at(response_bytes(r).take(k), false) is None,
{
    let w = response_bytes(r);
    if k == 0 {
        assert(w.take(0).len() == 0);
    } else if r is Bulk {
        lemma_bulk_response_prefix(r->Bulk_0, k);
    } else {
        lemma_response_line(r);
        lemma_marked_line_prefix(w, k, response_line(r));
        assert(w.take(k)[0] == w[0]);
    }
}

} // verus!
