//! The RESP wire format: how commands and responses are framed as bytes,
//! and how a stream of bytes is read back into them.
use vstd::prelude::*;
use vstd::string::*;
use vstd::utf8::*;
use crate::decimal::{dec_digits, int_text, parse_integer, parse_integer_bytes, push_decimal, push_signed};
use crate::parser::{error_text, generate_error, parts_view};
use crate::protocol::{Command, CommandView, RedisResult, RedisValue, Response, ResponseView, keys_view};
use crate::text::{string_bytes, string_from_utf8};

verus! {

/// Carriage return and line feed, which end every line.
pub open spec fn crlf() -> Seq<u8> {
    seq![13u8, 10u8]
}

/// A bulk string: `$`, the length, CRLF, the bytes, CRLF.
pub open spec fn bulk_bytes(v: Seq<u8>) -> Seq<u8> {
    seq![36u8] + dec_digits(v.len()) + crlf() + v + crlf()
}

/// The header of an array of `n` elements: `*`, the count, CRLF.
pub open spec fn array_header(n: nat) -> Seq<u8> {
    seq![42u8] + dec_digits(n) + crlf()
}

/// The bulk strings of `parts`, one after the other.
pub open spec fn bulk_list(parts: Seq<Seq<u8>>) -> Seq<u8>
    decreases parts.len(),
{
    if parts.len() == 0 {
        Seq::empty()
    } else {
        bulk_list(parts.drop_last()) + bulk_bytes(parts.last())
    }
}

/// The bytes of the command name `SET`.
pub open spec fn set_name() -> Seq<u8> {
    seq![83u8, 69u8, 84u8]
}

/// The bytes of the command name `GET`.
pub open spec fn get_name() -> Seq<u8> {
    seq![71u8, 69u8, 84u8]
}

/// The bytes of the command name `DEL`.
pub open spec fn del_name() -> Seq<u8> {
    seq![68u8, 69u8, 76u8]
}

/// The bytes of the command name `SAVE`.
pub open spec fn save_name() -> Seq<u8> {
    seq![83u8, 65u8, 86u8, 69u8]
}

/// The parts that a command is sent as: its name, then its arguments.
pub open spec fn command_parts(c: CommandView) -> Seq<Seq<u8>> {
    match c {
        CommandView::SetKey { key, value } => seq![set_name(), key, value],
        CommandView::Get { key } => seq![get_name(), key],
        CommandView::Del { keys } => seq![del_name()] + keys,
        CommandView::Save => seq![save_name()],
    }
}

/// The bytes of a command: an array of bulk strings holding its parts.
pub open spec fn command_bytes(c: CommandView) -> Seq<u8> {
    array_header(command_parts(c).len()) + bulk_list(command_parts(c))
}

/// The bytes of a response.
pub open spec fn response_bytes(r: ResponseView) -> Seq<u8> {
    match r {
        ResponseView::Okay => seq![43u8, 79u8, 75u8] + crlf(),
        ResponseView::Simple(s) => seq![43u8] + encode_utf8(s) + crlf(),
        ResponseView::Nil => seq![36u8, 45u8, 49u8] + crlf(),
        ResponseView::Bulk(v) => bulk_bytes(v),
        ResponseView::Integer(i) => seq![58u8] + int_text(i) + crlf(),
        ResponseView::Error(e) => seq![45u8] + encode_utf8(e) + crlf(),
    }
}

/// Adding a part at the end adds its bulk string at the end.
proof fn lemma_bulk_list_push(parts: Seq<Seq<u8>>, part: Seq<u8>)
    ensures
        bulk_list(parts.push(part)) == bulk_list(parts) + bulk_bytes(part),
{
    assert(parts.push(part).drop_last() =~= parts);
}

/// The bulk strings of one, two or three parts.
proof fn lemma_bulk_list_small(a: Seq<u8>, b: Seq<u8>, c: Seq<u8>)
    ensures
        bulk_list(seq![a]) == bulk_bytes(a),
        bulk_list(seq![a, b]) == bulk_bytes(a) + bulk_bytes(b),
        bulk_list(seq![a, b, c]) == bulk_bytes(a) + bulk_bytes(b) + bulk_bytes(c),
{
    let e = Seq::<Seq<u8>>::empty();
    lemma_bulk_list_push(e, a);
    lemma_bulk_list_push(e.push(a), b);
    lemma_bulk_list_push(e.push(a).push(b), c);
    assert(e.push(a) =~= seq![a]);
    assert(e.push(a).push(b) =~= seq![a, b]);
    assert(e.push(a).push(b).push(c) =~= seq![a, b, c]);
    assert(bulk_bytes(a) =~= Seq::<u8>::empty() + bulk_bytes(a));
}

/// Appends carriage return and line feed.
fn push_crlf(out: &mut Vec<u8>)
    ensures
        final(out)@ == old(out)@ + crlf(),
{
    out.push(13u8);
    out.push(10u8);
    assert(final(out)@ =~= old(out)@ + crlf());
}

/// Appends `bytes` to `out`.
fn push_bytes(out: &mut Vec<u8>, bytes: &[u8])
    ensures
        final(out)@ == old(out)@ + bytes@,
{
    let mut tail = vstd::slice::slice_to_vec(bytes);
    out.append(&mut tail);
}

/// The bulk string holding `value`.
fn encode_bulk_string(value: &[u8]) -> (r: Vec<u8>)
    ensures
        r@ == bulk_bytes(value@),
{
    let mut out: Vec<u8> = Vec::new();
    out.push(36u8);
    push_decimal(&mut out, value.len() as u128);
    push_crlf(&mut out);
    push_bytes(&mut out, value);
    push_crlf(&mut out);
    assert(out@ =~= bulk_bytes(value@));
    out
}

/// The header of an array of `len` elements.
fn encode_array_size(len: u128) -> (r: Vec<u8>)
    ensures
        r@ == array_header(len as nat),
{
    let mut out: Vec<u8> = Vec::new();
    out.push(42u8);
    push_decimal(&mut out, len);
    push_crlf(&mut out);
    assert(out@ =~= array_header(len as nat));
    out
}

/// Appends the bulk string holding `value` to `out`.
fn push_bulk(out: &mut Vec<u8>, value: &[u8])
    ensures
        final(out)@ == old(out)@ + bulk_bytes(value@),
{
    let mut b = encode_bulk_string(value);
    out.append(&mut b);
}

/// Writes `command` to `out` as an array of bulk strings.
pub fn write_command(out: &mut Vec<u8>, command: Command)
    ensures
        final(out)@ == old(out)@ + command_bytes(command@),
{
    let ghost parts = command_parts(command@);
    match command {
        Command::SetKey { key, value } => {
            let mut header = encode_array_size(3);
            out.append(&mut header);
            push_bulk(out, vec![83u8, 69u8, 84u8].as_slice());
            push_bulk(out, key.as_slice());
            match value {
                RedisValue::Str(val) => push_bulk(out, val.as_slice()),
            }
            proof {
                lemma_bulk_list_small(set_name(), key@, value@);
            }
            assert(out@ =~= old(out)@ + command_bytes(command@));
        },
        Command::Get { key } => {
            let mut header = encode_array_size(2);
            out.append(&mut header);
            push_bulk(out, vec![71u8, 69u8, 84u8].as_slice());
            push_bulk(out, key.as_slice());
            proof {
                lemma_bulk_list_small(get_name(), key@, key@);
            }
            assert(out@ =~= old(out)@ + command_bytes(command@));
        },
        Command::Del { keys } => {
            let n = keys.len();
            let mut header = encode_array_size(1 + n as u128);
            out.append(&mut header);
            push_bulk(out, vec![68u8, 69u8, 76u8].as_slice());
            let ghost start = out@;
            proof {
                lemma_bulk_list_small(del_name(), del_name(), del_name());
                assert(parts.take(1) =~= seq![del_name()]);
            }
            let mut i: usize = 0;
            while i < n
                invariant
                    0 <= i <= n,
                    n == keys@.len(),
                    parts == seq![del_name()] + keys_view(keys@),
                    out@ == old(out)@ + array_header(parts.len()) + bulk_list(parts.take(i + 1)),
                decreases n - i,
            {
                push_bulk(out, keys[i].as_slice());
                proof {
                    lemma_bulk_list_push(parts.take(i + 1), keys@[i as int]@);
                    assert(parts.take(i + 1).push(keys@[i as int]@) =~= parts.take(i + 2));
                }
                i = i + 1;
            }
            assert(parts.take(n + 1) =~= parts);
        },
        Command::Save => {
            let mut header = encode_array_size(1);
            out.append(&mut header);
            push_bulk(out, vec![83u8, 65u8, 86u8, 69u8].as_slice());
            proof {
                lemma_bulk_list_small(save_name(), save_name(), save_name());
            }
            assert(out@ =~= old(out)@ + command_bytes(command@));
        },
    }
}

/// Writes `response` to `out`.
pub fn write_response(out: &mut Vec<u8>, response: Response)
    ensures
        final(out)@ == old(out)@ + response_bytes(response@),
{
    match response {
        Response::Okay => {
            out.push(43u8);
            out.push(79u8);
            out.push(75u8);
            push_crlf(out);
        },
        Response::Simple(value) => {
            out.push(43u8);
            let b = string_bytes(&value);
            push_bytes(out, b.as_slice());
            push_crlf(out);
        },
        Response::Bulk(value) => {
            push_bulk(out, value.as_slice());
        },
        Response::Nil => {
            out.push(36u8);
            out.push(45u8);
            out.push(49u8);
            push_crlf(out);
        },
        Response::Integer(value) => {
            out.push(58u8);
            push_signed(out, value);
            push_crlf(out);
        },
        Response::Error(error) => {
            out.push(45u8);
            let b = string_bytes(&error);
            push_bytes(out, b.as_slice());
            push_crlf(out);
        },
    }
    assert(final(out)@ =~= old(out)@ + response_bytes(response@));
}


/// The first line feed in `s` at or after `from`, or the length of `s`
/// where there is none.
pub open spec fn newline_at(s: Seq<u8>, from: int) -> int
    decreases s.len() - from,
{
    if from < 0 || from >= s.len() {
        s.len() as int
    } else if s[from] == 10u8 {
        from
    } else {
        newline_at(s, from + 1)
    }
}

/// Where the line that starts at `from` ends (just past its line feed),
/// as a reader that takes a line at a time sees it. Without a line feed the
/// line runs to the end of the stream where the stream has ended
/// (`eof`), and is still to come (`None`) where more bytes may arrive.
pub open spec fn line_end(s: Seq<u8>, from: int, eof: bool) -> Option<int> {
    let nl = newline_at(s, from);
    if nl < s.len() {
        Some(nl + 1)
    } else if eof {
        Some(s.len() as int)
    } else {
        None
    }
}

/// The error a reader reports for a line that is not UTF-8.
pub open spec fn not_utf8_message() -> Seq<char> {
    "stream did not contain valid UTF-8"@
}

/// The error a reader reports when the stream ends before an exact read
/// is filled.
pub open spec fn short_read_message() -> Seq<char> {
    "failed to fill whole buffer"@
}

/// `s` with every carriage return and line feed pair removed from its end.
pub open spec fn strip_crlf(s: Seq<u8>) -> Seq<u8>
    decreases s.len(),
{
    if s.len() >= 2 && s[s.len() - 2] == 13u8 && s[s.len() - 1] == 10u8 {
        strip_crlf(s.subrange(0, s.len() - 2))
    } else {
        s
    }
}

/// A length in a header: the text, without its line ends, read as a
/// `usize`.
pub open spec fn length_of(s: Seq<u8>) -> Result<nat, Seq<char>> {
    match parse_integer(strip_crlf(s), 0, usize::MAX as int) {
        Some(v) => Ok(v as nat),
        None => Err(error_text("invalid length"@)),
    }
}

/// Reading one bulk string of a request at `pos`: the string and the
/// position after it, an error, or `None` where more bytes are needed.
pub open spec fn bulk_at(s: Seq<u8>, pos: int, eof: bool) -> Option<Result<(Seq<u8>, int), Seq<char>>> {
    match line_end(s, pos, eof) {
        None => None,
        Some(end) => {
            let line = s.subrange(pos, end);
            if !valid_utf8(line) {
                Some(Err(error_text(not_utf8_message())))
            } else if line.len() == 0 || line[0] != 36u8 {
                Some(Err(error_text("invalid command"@)))
            } else {
                match length_of(line.drop_first()) {
                    Err(e) => Some(Err(e)),
                    Ok(n) => {
                        if end + n + 2 > s.len() {
                            if eof {
                                Some(Err(short_read_message()))
                            } else {
                                None
                            }
                        } else if s.subrange(end + n, end + n + 2) != crlf() {
                            Some(Err(error_text("invalid bulk terminator"@)))
                        } else {
                            Some(Ok((s.subrange(end, end + n), end + n + 2)))
                        }
                    },
                }
            }
        },
    }
}

/// Reading `count` bulk strings one after the other from `pos`.
pub open spec fn bulks_at(s: Seq<u8>, pos: int, count: nat, eof: bool) -> Option<
    Result<(Seq<Seq<u8>>, int), Seq<char>>,
>
    decreases count,
{
    if count == 0 {
        Some(Ok((Seq::empty(), pos)))
    } else {
        match bulks_at(s, pos, (count - 1) as nat, eof) {
            Some(Ok((parts, p))) => match bulk_at(s, p, eof) {
                Some(Ok((part, q))) => Some(Ok((parts.push(part), q))),
                Some(Err(e)) => Some(Err(e)),
                None => None,
            },
            other => other,
        }
    }
}

/// Reading a request from the start of `s`: an array header, then as many
/// bulk strings as it announces. The result is the parts and the number of
/// bytes they took, an error, or `None` where more bytes are needed.
pub open spec fn request_at(s: Seq<u8>, eof: bool) -> Option<Result<(Seq<Seq<u8>>, int), Seq<char>>> {
    match line_end(s, 0, eof) {
        None => None,
        Some(end) => {
            let line = s.subrange(0, end);
            if !valid_utf8(line) {
                Some(Err(not_utf8_message()))
            } else if line.len() == 0 || line[0] != 42u8 {
                Some(Err(error_text("expected RESP array"@)))
            } else {
                match length_of(line.drop_first()) {
                    Err(e) => Some(Err(e)),
                    Ok(count) => bulks_at(s, end, count, eof),
                }
            }
        },
    }
}

/// A reading of request parts, taken by its views.
pub open spec fn parts_reading(r: Option<RedisResult<(Vec<Vec<u8>>, usize)>>) -> Option<
    Result<(Seq<Seq<u8>>, int), Seq<char>>,
> {
    match r {
        None => None,
        Some(Ok((parts, n))) => Some(Ok((parts_view(parts@), n as int))),
        Some(Err(e)) => Some(Err(e@)),
    }
}

/// A reading of bytes, taken by its views.
pub open spec fn bytes_reading(r: Option<RedisResult<(Vec<u8>, usize)>>) -> Option<
    Result<(Seq<u8>, int), Seq<char>>,
> {
    match r {
        None => None,
        Some(Ok((b, n))) => Some(Ok((b@, n as int))),
        Some(Err(e)) => Some(Err(e@)),
    }
}

/// Finds where the line starting at `from` ends.
fn find_line_end(input: &[u8], from: usize, at_eof: bool) -> (r: Option<usize>)
    requires
        from <= input@.len(),
    ensures
        r matches Some(e) ==> line_end(input@, from as int, at_eof) == Some(e as int) && from <= e
            <= input@.len(),
        r is None ==> line_end(input@, from as int, at_eof) is None,
{
    let len = input.len();
    let mut i = from;
    while i < len
        invariant
            from <= i <= len,
            len == input@.len(),
            newline_at(input@, from as int) == newline_at(input@, i as int),
        decreases len - i,
    {
        if input[i] == 10u8 {
            return Some(i + 1);
        }
        i = i + 1;
    }
    if at_eof {
        Some(len)
    } else {
        None
    }
}

/// Is the slice valid UTF-8?
fn is_utf8(bytes: &[u8]) -> (r: bool)
    ensures
        r == valid_utf8(bytes@),
{
    string_from_utf8(vstd::slice::slice_to_vec(bytes)).is_some()
}

/// Parses a length in a header, ignoring the line ends after it.
fn parse_len(input: &[u8]) -> (r: RedisResult<usize>)
    ensures
        match r {
            Ok(n) => length_of(input@) == Ok::<nat, Seq<char>>(n as nat),
            Err(e) => length_of(input@) == Err::<nat, Seq<char>>(e@),
        },
{
    let mut end = input.len();
    assert(input@.subrange(0, end as int) =~= input@);
    while end >= 2 && input[end - 2] == 13u8 && input[end - 1] == 10u8
        invariant
            end <= input@.len(),
            strip_crlf(input@) == strip_crlf(input@.subrange(0, end as int)),
        decreases end,
    {
        assert(input@.subrange(0, end as int).subrange(0, end - 2) =~= input@.subrange(0, end - 2));
        end = end - 2;
    }
    let body = vstd::slice::slice_subrange(input, 0, end);
    assert(body@ == strip_crlf(input@));
    match parse_integer_bytes(body, 0, usize::MAX as i128) {
        Some(v) => Ok(v as usize),
        None => Err(generate_error(String::from_str("invalid length"))),
    }
}


/// Once a reading of bulk strings stops (for want of bytes, or on an error),
/// reading more of them stops the same way.
pub proof fn lemma_bulks_stop(s: Seq<u8>, pos: int, i: nat, j: nat, eof: bool)
    requires
        i <= j,
        !(bulks_at(s, pos, i, eof) matches Some(Ok(_))),
    ensures
        bulks_at(s, pos, j, eof) == bulks_at(s, pos, i, eof),
    decreases j - i,
{
    if i < j {
        lemma_bulks_stop(s, pos, i, (j - 1) as nat, eof);
    }
}

/// Reads one bulk string of a request, starting at `pos`.
fn read_bulk(input: &[u8], pos: usize, at_eof: bool) -> (r: Option<RedisResult<(Vec<u8>, usize)>>)
    requires
        pos <= input@.len(),
    ensures
        bytes_reading(r) == bulk_at(input@, pos as int, at_eof),
        r matches Some(Ok((_, q))) ==> pos < q <= input@.len(),
{
    let len = input.len();
    let end = match find_line_end(input, pos, at_eof) {
        None => return None,
        Some(e) => e,
    };
    let line = vstd::slice::slice_subrange(input, pos, end);
    if !is_utf8(line) {
        return Some(Err(generate_error(String::from_str("stream did not contain valid UTF-8"))));
    }
    if line.len() == 0 || line[0] != 36u8 {
        return Some(Err(generate_error(String::from_str("invalid command"))));
    }
    let rest = vstd::slice::slice_subrange(line, 1, line.len());
    assert(rest@ =~= line@.drop_first());
    let n = match parse_len(rest) {
        Err(e) => return Some(Err(e)),
        Ok(n) => n,
    };
    if n > len - end || len - end - n < 2 {
        if at_eof {
            return Some(Err(String::from_str("failed to fill whole buffer")));
        } else {
            return None;
        }
    }
    if input[end + n] != 13u8 || input[end + n + 1] != 10u8 {
        assert(input@.subrange(end + n, end + n + 2)[0] == input@[end + n]);
        return Some(Err(generate_error(String::from_str("invalid bulk terminator"))));
    }
    assert(input@.subrange(end + n, end + n + 2) =~= crlf());
    let part = vstd::slice::slice_to_vec(vstd::slice::slice_subrange(input, end, end + n));
    Some(Ok((part, end + n + 2)))
}

/// Reads a request, an array of bulk strings, from the start of `input`.
/// `at_eof` says whether the stream ends after `input`; where it does not,
/// `None` means that more bytes are needed. On success the parts come with
/// the number of bytes that they took.
pub fn read_command(input: &[u8], at_eof: bool) -> (r: Option<RedisResult<(Vec<Vec<u8>>, usize)>>)
    ensures
        parts_reading(r) == request_at(input@, at_eof),
        r matches Some(Ok((_, n))) ==> 0 < n <= input@.len(),
{
    let end = match find_line_end(input, 0, at_eof) {
        None => return None,
        Some(e) => e,
    };
    let line = vstd::slice::slice_subrange(input, 0, end);
    if !is_utf8(line) {
        return Some(Err(String::from_str("stream did not contain valid UTF-8")));
    }
    if line.len() == 0 || line[0] != 42u8 {
        return Some(Err(generate_error(String::from_str("expected RESP array"))));
    }
    let rest = vstd::slice::slice_subrange(line, 1, line.len());
    assert(rest@ =~= line@.drop_first());
    let count = match parse_len(rest) {
        Err(e) => return Some(Err(e)),
        Ok(n) => n,
    };
    let mut parts: Vec<Vec<u8>> = Vec::new();
    let mut pos = end;
    let mut i: usize = 0;
    assert(parts_view(parts@) =~= Seq::<Seq<u8>>::empty());
    while i < count
        invariant
            0 <= i <= count,
            end <= pos <= input@.len(),
            request_at(input@, at_eof) == bulks_at(input@, end as int, count as nat, at_eof),
            bulks_at(input@, end as int, i as nat, at_eof) == Some(
                Ok::<(Seq<Seq<u8>>, int), Seq<char>>((parts_view(parts@), pos as int)),
            ),
        decreases count - i,
    {
        match read_bulk(input, pos, at_eof) {
            None => {
                proof {
                    lemma_bulks_stop(input@, end as int, (i + 1) as nat, count as nat, at_eof);
                }
                return None;
            },
            Some(Err(e)) => {
                proof {
                    lemma_bulks_stop(input@, end as int, (i + 1) as nat, count as nat, at_eof);
                }
                return Some(Err(e));
            },
            Some(Ok((part, q))) => {
                let ghost before = parts@;
                parts.push(part);
                assert(parts@ =~= before.push(part));
                assert(parts_view(parts@) =~= parts_view(before).push(part@));
                pos = q;
                i = i + 1;
            },
        }
    }
    Some(Ok((parts, pos)))
}


/// Reading a line that must end in carriage return and line feed, from
/// `pos`: the line without its end and the position after it.
pub open spec fn crlf_line_at(s: Seq<u8>, pos: int, eof: bool) -> Option<Result<(Seq<u8>, int), Seq<char>>> {
    match line_end(s, pos, eof) {
        None => None,
        Some(end) => {
            let buf = s.subrange(pos, end);
            if buf.len() < 2 || buf.subrange(buf.len() - 2, buf.len() as int) != crlf() {
                Some(Err("invalid CRLF terminator"@))
            } else {
                Some(Ok((buf.subrange(0, buf.len() - 2), end)))
            }
        },
    }
}

/// Reading a response from the start of `s`: the response and the number
/// of bytes it took, an error, or `None` where more bytes are needed.
pub open spec fn response_at(s: Seq<u8>, eof: bool) -> Option<Result<(ResponseView, int), Seq<char>>> {
    if s.len() == 0 {
        if eof {
            Some(Err(short_read_message()))
        } else {
            None
        }
    } else if s[0] == 43u8 {
        match crlf_line_at(s, 1, eof) {
            None => None,
            Some(Err(e)) => Some(Err(e)),
            Some(Ok((b, end))) => if valid_utf8(b) {
                Some(Ok((ResponseView::Simple(decode_utf8(b)), end)))
            } else {
                Some(Err("invalid utf8 simple string"@))
            },
        }
    } else if s[0] == 45u8 {
        match crlf_line_at(s, 1, eof) {
            None => None,
            Some(Err(e)) => Some(Err(e)),
            Some(Ok((b, end))) => if valid_utf8(b) {
                Some(Ok((ResponseView::Error(decode_utf8(b)), end)))
            } else {
                Some(Err("invalid utf8 error"@))
            },
        }
    } else if s[0] == 58u8 {
        match crlf_line_at(s, 1, eof) {
            None => None,
            Some(Err(e)) => Some(Err(e)),
            Some(Ok((b, end))) => match parse_integer(b, i64::MIN as int, i64::MAX as int) {
                Some(v) => Some(Ok((ResponseView::Integer(v), end))),
                None => Some(Err("invalid integer"@)),
            },
        }
    } else if s[0] == 36u8 {
        match crlf_line_at(s, 1, eof) {
            None => None,
            Some(Err(e)) => Some(Err(e)),
            Some(Ok((b, end))) => match parse_integer(b, isize::MIN as int, isize::MAX as int) {
                None => Some(Err("invalid bulk length"@)),
                Some(n) => if n == -1 {
                    Some(Ok((ResponseView::Nil, end)))
                } else if n < 0 {
                    Some(Err("invalid bulk length"@))
                } else if end + n + 2 > s.len() {
                    if eof {
                        Some(Err(short_read_message()))
                    } else {
                        None
                    }
                } else if s.subrange(end + n, end + n + 2) != crlf() {
                    Some(Err("invalid bulk terminator"@))
                } else {
                    Some(Ok((ResponseView::Bulk(s.subrange(end, end + n)), end + n + 2)))
                },
            },
        }
    } else {
        Some(Err("unknown response type"@))
    }
}

/// A reading of a response, taken by its views.
pub open spec fn response_reading(r: Option<RedisResult<(Response, usize)>>) -> Option<
    Result<(ResponseView, int), Seq<char>>,
> {
    match r {
        None => None,
        Some(Ok((resp, n))) => Some(Ok((resp@, n as int))),
        Some(Err(e)) => Some(Err(e@)),
    }
}

/// Text that parses as an integer is ASCII, so it is valid UTF-8: turning
/// the line into a string first would not change which lines are refused.
pub proof fn lemma_integer_text_is_utf8(s: Seq<u8>, min: int, max: int)
    requires
        parse_integer(s, min, max) is Some,
    ensures
        valid_utf8(s),
{
    let body = crate::decimal::digits_part(s, min);
    assert forall|i: int| 0 <= i < s.len() implies #[trigger] s[i] < 128 by {
        if s.len() > 0 && body.len() < s.len() && i > 0 {
            assert(body[i - 1] == s[i]);
        } else if body.len() == s.len() {
            assert(body[i] == s[i]);
        }
    }
    crate::text::lemma_decode_ascii(s);
}

/// Reads a line ending in carriage return and line feed, starting at `pos`,
/// and gives it without that ending.
fn read_crlf_line(input: &[u8], pos: usize, at_eof: bool) -> (r: Option<RedisResult<(Vec<u8>, usize)>>)
    requires
        pos <= input@.len(),
    ensures
        bytes_reading(r) == crlf_line_at(input@, pos as int, at_eof),
        r matches Some(Ok((_, q))) ==> pos < q <= input@.len(),
{
    let end = match find_line_end(input, pos, at_eof) {
        None => return None,
        Some(e) => e,
    };
    let ghost buf = input@.subrange(pos as int, end as int);
    let n = end - pos;
    if n < 2 || input[end - 2] != 13u8 || input[end - 1] != 10u8 {
        proof {
            if n >= 2 {
                assert(buf.subrange(n - 2, n as int)[0] == input@[end - 2]);
                assert(buf.subrange(n - 2, n as int)[1] == input@[end - 1]);
            }
        }
        return Some(Err(String::from_str("invalid CRLF terminator")));
    }
    assert(buf.subrange(n - 2, n as int) =~= crlf());
    let line = vstd::slice::slice_to_vec(vstd::slice::slice_subrange(input, pos, end - 2));
    assert(line@ =~= buf.subrange(0, n - 2));
    Some(Ok((line, end)))
}

/// Reads a response from the start of `input`. `at_eof` says whether the
/// stream ends after `input`; where it does not, `None` means that more
/// bytes are needed. On success the response comes with the number of
/// bytes that it took.
pub fn read_response(input: &[u8], at_eof: bool) -> (r: Option<RedisResult<(Response, usize)>>)
    ensures
        response_reading(r) == response_at(input@, at_eof),
        r matches Some(Ok((_, n))) ==> 0 < n <= input@.len(),
{
    let len = input.len();
    if len == 0 {
        if at_eof {
            return Some(Err(String::from_str("failed to fill whole buffer")));
        } else {
            return None;
        }
    }
    let prefix = input[0];
    if prefix == 43u8 || prefix == 45u8 {
        let (bytes, end) = match read_crlf_line(input, 1, at_eof) {
            None => return None,
            Some(Err(e)) => return Some(Err(e)),
            Some(Ok(x)) => x,
        };
        match string_from_utf8(bytes) {
            Some(text) => if prefix == 43u8 {
                Some(Ok((Response::Simple(text), end)))
            } else {
                Some(Ok((Response::Error(text), end)))
            },
            None => if prefix == 43u8 {
                Some(Err(String::from_str("invalid utf8 simple string")))
            } else {
                Some(Err(String::from_str("invalid utf8 error")))
            },
        }
    } else if prefix == 58u8 {
        let (bytes, end) = match read_crlf_line(input, 1, at_eof) {
            None => return None,
            Some(Err(e)) => return Some(Err(e)),
            Some(Ok(x)) => x,
        };
        match parse_integer_bytes(bytes.as_slice(), i64::MIN as i128, i64::MAX as i128) {
            Some(v) => Some(Ok((Response::Integer(v as i64), end))),
            None => Some(Err(String::from_str("invalid integer"))),
        }
    } else if prefix == 36u8 {
        let (bytes, end) = match read_crlf_line(input, 1, at_eof) {
            None => return None,
            Some(Err(e)) => return Some(Err(e)),
            Some(Ok(x)) => x,
        };
        let n = match parse_integer_bytes(bytes.as_slice(), isize::MIN as i128, isize::MAX as i128) {
            None => return Some(Err(String::from_str("invalid bulk length"))),
            Some(n) => n,
        };
        if n == -1 {
            return Some(Ok((Response::Nil, end)));
        }
        if n < 0 {
            return Some(Err(String::from_str("invalid bulk length")));
        }
        if n > (len - end) as i128 || (len - end) as i128 - n < 2 {
            if at_eof {
                return Some(Err(String::from_str("failed to fill whole buffer")));
            } else {
                return None;
            }
        }
        let n = n as usize;
        if input[end + n] != 13u8 || input[end + n + 1] != 10u8 {
            assert(input@.subrange(end + n, end + n + 2)[0] == input@[end + n]);
            return Some(Err(String::from_str("invalid bulk terminator")));
        }
        assert(input@.subrange(end + n, end + n + 2) =~= crlf());
        let body = vstd::slice::slice_to_vec(vstd::slice::slice_subrange(input, end, end + n));
        Some(Ok((Response::Bulk(body), end + n + 2)))
    } else {
        Some(Err(String::from_str("unknown response type")))
    }
}

} // verus!
