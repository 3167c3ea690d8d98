//! The command line client's own logic: splitting a typed line into the
//! parts of a request, recognising the words that end a session, and the
//! text shown for a response.
use vstd::prelude::*;
use vstd::string::*;
use vstd::utf8::{encode_utf8, encode_utf8_decode_utf8, encode_utf8_valid_utf8};
use crate::decimal::{int_text, push_signed};
use crate::parser::{
    arity_fits, command_args, command_name, law_parse_named_meaning, parse_command, parse_named,
    parts_view,
};
use crate::protocol::{Command, CommandView, Response, ResponseView};
use crate::text::{ascii_upper_text, string_bytes, to_ascii_uppercase};

verus! {

/// The state of the splitter after the first `n` characters of `s`: the
/// tokens so far, where the token being read began (if one is), and
/// whether a quote is open.
pub open spec fn scan(s: Seq<char>, n: nat) -> (Seq<Seq<char>>, Option<int>, bool)
    decreases n,
{
    if n == 0 {
        (Seq::empty(), None, false)
    } else {
        let (tokens, start, quoted) = scan(s, (n - 1) as nat);
        let i = n - 1;
        let c = s[i];
        if c == '"' {
            match start {
                None => (tokens, Some(i), !quoted),
                Some(st) => (tokens.push(s.subrange(st + 1, i)), None, !quoted),
            }
        } else if c == ' ' && !quoted {
            match start {
                Some(st) => (tokens.push(s.subrange(st, i)), None, quoted),
                None => (tokens, None, quoted),
            }
        } else {
            match start {
                None => (tokens, Some(i), quoted),
                Some(_) => (tokens, start, quoted),
            }
        }
    }
}

/// The tokens of `s`: words separated by spaces, where a double quote opens
/// or closes a token and spaces inside quotes belong to it. A token that is
/// still open at the end runs to the end.
pub open spec fn split_tokens(s: Seq<char>) -> Seq<Seq<char>> {
    let (tokens, start, _) = scan(s, s.len());
    match start {
        Some(st) => tokens.push(s.subrange(st, s.len() as int)),
        None => tokens,
    }
}

/// Would closing a token begun at `start` with a quote cut inside a
/// character?
pub open spec fn cuts_inside_char(s: Seq<char>, start: Option<int>) -> bool {
    match start {
        Some(st) => s[st] != '"' && (s[st] as u32) >= 128,
        None => false,
    }
}

/// Can the first `n` characters of `s` be split by byte offsets? A quote
/// that closes a token begun by another character cuts the text one byte
/// after that character's start, which is a character boundary only where
/// that character is ASCII.
pub open spec fn splittable(s: Seq<char>, n: nat) -> bool
    decreases n,
{
    if n == 0 {
        true
    } else {
        let i = n - 1;
        &&& splittable(s, (n - 1) as nat)
        &&& !(s[i] == '"' && cuts_inside_char(s, scan(s, (n - 1) as nat).1))
    }
}

/// A text that can be split up to `n` can be split up to any `m <= n`.
proof fn lemma_splittable_prefix(s: Seq<char>, m: nat, n: nat)
    requires
        m <= n,
        splittable(s, n),
    ensures
        splittable(s, m),
    decreases n - m,
{
    if m < n {
        lemma_splittable_prefix(s, m, (n - 1) as nat);
    }
}

/// The characters of the tokens.
pub open spec fn tokens_view(tokens: Seq<&str>) -> Seq<Seq<char>> {
    tokens.map_values(|t: &str| t@)
}

/// Can `input` be split? (Where it cannot, slicing it at a byte offset
/// inside a character would fail.)
pub fn can_split(input: &str) -> (r: bool)
    ensures
        r == splittable(input@, input@.len()),
{
    let n = input.unicode_len();
    let mut start: Option<usize> = None;
    let mut quoted = false;
    let mut i: usize = 0;
    while i < n
        invariant
            0 <= i <= n,
            n == input@.len(),
            splittable(input@, i as nat),
            scan(input@, i as nat).1 == (match start {
                Some(st) => Some(st as int),
                None => None::<int>,
            }),
            scan(input@, i as nat).2 == quoted,
            start matches Some(st) ==> st < i,
        decreases n - i,
    {
        let c = input.get_char(i);
        if c == '"' {
            match start {
                None => {
                    start = Some(i);
                },
                Some(st) => {
                    let first = input.get_char(st);
                    if first != '"' && (first as u32) >= 128 {
                        proof {
                            assert(!splittable(input@, (i + 1) as nat));
                            if splittable(input@, n as nat) {
                                lemma_splittable_prefix(input@, (i + 1) as nat, n as nat);
                            }
                        }
                        return false;
                    }
                    start = None;
                },
            }
            quoted = !quoted;
        } else if c == ' ' && !quoted {
            start = None;
        } else {
            if start.is_none() {
                start = Some(i);
            }
        }
        i = i + 1;
    }
    true
}

/// Splits a line into tokens: words separated by spaces, where a double
/// quote opens or closes a token and spaces inside quotes belong to it.
/// A token that is still open at the end (no closing quote) runs to the end.
pub fn split<'a>(input: &'a str) -> (tokens: Vec<&'a str>)
    requires
        splittable(input@, input@.len()),
    ensures
        tokens_view(tokens@) == split_tokens(input@),
{
    let n = input.unicode_len();
    let mut tokens: Vec<&'a str> = Vec::new();
    let mut start: Option<usize> = None;
    let mut in_quotes = false;
    let mut i: usize = 0;
    while i < n
        invariant
            0 <= i <= n,
            n == input@.len(),
            splittable(input@, n as nat),
            scan(input@, i as nat).0 == tokens_view(tokens@),
            scan(input@, i as nat).1 == (match start {
                Some(st) => Some(st as int),
                None => None::<int>,
            }),
            scan(input@, i as nat).2 == in_quotes,
            start matches Some(st) ==> st < i,
        decreases n - i,
    {
        let c = input.get_char(i);
        let ghost before = tokens@;
        if c == '"' {
            in_quotes = !in_quotes;
            match start {
                None => {
                    start = Some(i);
                },
                Some(st) => {
                    let t = input.substring_char(st + 1, i);
                    tokens.push(t);
                    assert(tokens_view(tokens@) =~= tokens_view(before).push(t@));
                    start = None;
                },
            }
        } else if c == ' ' && !in_quotes {
            match start {
                Some(st) => {
                    let t = input.substring_char(st, i);
                    tokens.push(t);
                    assert(tokens_view(tokens@) =~= tokens_view(before).push(t@));
                    start = None;
                },
                None => {},
            }
        } else {
            if start.is_none() {
                start = Some(i);
            }
        }
        i = i + 1;
    }
    match start {
        Some(st) => {
            let ghost before = tokens@;
            let t = input.substring_char(st, n);
            tokens.push(t);
            assert(tokens_view(tokens@) =~= tokens_view(before).push(t@));
        },
        None => {},
    }
    tokens
}

/// The bytes shown for a response: a text as it is, a bulk string's bytes,
/// `(nil)` for nil, an integer in decimal, `OK` for success.
pub open spec fn display_bytes(r: ResponseView) -> Seq<u8> {
    match r {
        ResponseView::Okay => seq![79u8, 75u8],
        ResponseView::Simple(s) => encode_utf8(s),
        ResponseView::Nil => seq![40u8, 110u8, 105u8, 108u8, 41u8],
        ResponseView::Bulk(v) => v,
        ResponseView::Integer(i) => int_text(i),
        ResponseView::Error(e) => encode_utf8(e),
    }
}

/// The bytes to show for `response`; shown as text, with any ill-formed
/// UTF-8 replaced.
pub fn display_response(response: &Response) -> (r: Vec<u8>)
    ensures
        r@ == display_bytes(response@),
{
    match response {
        Response::Okay => vec![79u8, 75u8],
        Response::Simple(value) => string_bytes(value),
        Response::Nil => vec![40u8, 110u8, 105u8, 108u8, 41u8],
        Response::Bulk(value) => vstd::slice::slice_to_vec(value.as_slice()),
        Response::Integer(value) => {
            let mut out: Vec<u8> = Vec::new();
            push_signed(&mut out, *value);
            assert(out@ =~= int_text(*value as int));
            out
        },
        Response::Error(error) => string_bytes(error),
    }
}

/// Is the line one of the words that end a session, `exit` or `quit`, in
/// any mix of upper and lower case?
pub open spec fn is_exit_word(line: Seq<char>) -> bool {
    ascii_upper_text(line) == "EXIT"@ || ascii_upper_text(line) == "QUIT"@
}

/// Does the line end the session?
pub fn is_exit_command(line: &str) -> (r: bool)
    ensures
        r == is_exit_word(line@),
{
    let upper = to_ascii_uppercase(line);
    upper.eq(&String::from_str("EXIT")) || upper.eq(&String::from_str("QUIT"))
}

/// Is `t` a word: at least one character, none of them a space?
pub open spec fn is_word(t: Seq<char>) -> bool {
    t.len() > 0 && forall|j: int| 0 <= j < t.len() ==> t[j] != ' '
}

/// Without quotes, the splitter's state after `n` characters holds only
/// words, and the token being read is a run of non-spaces up to `n`.
proof fn lemma_scan_plain(s: Seq<char>, n: nat)
    requires
        n <= s.len(),
        forall|i: int| 0 <= i < s.len() ==> s[i] != '"',
    ensures
        !scan(s, n).2,
        forall|k: int| 0 <= k < scan(s, n).0.len() ==> is_word(#[trigger] scan(s, n).0[k]),
        scan(s, n).1 matches Some(st) ==> 0 <= st < n && forall|j: int|
            st <= j < n ==> s[j] != ' ',
    decreases n,
{
    if n > 0 {
        lemma_scan_plain(s, (n - 1) as nat);
        let (tokens, start, quoted) = scan(s, (n - 1) as nat);
        let i = n - 1;
        if s[i] == ' ' {
            if let Some(st) = start {
                let t = s.subrange(st, i);
                assert(is_word(t)) by {
                    assert forall|j: int| 0 <= j < t.len() implies t[j] != ' ' by {
                        assert(t[j] == s[st + j]);
                    }
                }
                assert forall|k: int| 0 <= k < tokens.push(t).len() implies is_word(
                    #[trigger] tokens.push(t)[k],
                ) by {
                    if k < tokens.len() {
                        assert(tokens.push(t)[k] == tokens[k]);
                    }
                }
            }
        }
    }
}

/// Text without quotes splits into words: every token has at least one
/// character and no spaces.
pub proof fn law_split_plain_text_gives_words(s: Seq<char>)
    requires
        forall|i: int| 0 <= i < s.len() ==> s[i] != '"',
    ensures
        forall|k: int| 0 <= k < split_tokens(s).len() ==> is_word(#[trigger] split_tokens(s)[k]),
{
    lemma_scan_plain(s, s.len());
    let (tokens, start, _) = scan(s, s.len());
    if let Some(st) = start {
        let t = s.subrange(st, s.len() as int);
        assert(is_word(t)) by {
            assert forall|j: int| 0 <= j < t.len() implies t[j] != ' ' by {
                assert(t[j] == s[st + j]);
            }
        }
        assert forall|k: int| 0 <= k < tokens.push(t).len() implies is_word(#[trigger] tokens.push(t)[k]) by {
            if k < tokens.len() {
                assert(tokens.push(t)[k] == tokens[k]);
            }
        }
    }
}

/// Text without quotes can always be split.
pub proof fn law_plain_text_is_splittable(s: Seq<char>, n: nat)
    requires
        n <= s.len(),
        forall|i: int| 0 <= i < s.len() ==> s[i] != '"',
    ensures
        splittable(s, n),
    decreases n,
{
    if n > 0 {
        law_plain_text_is_splittable(s, (n - 1) as nat);
    }
}

/// Is `c` white space in Unicode's sense (the property `White_Space`,
/// which `char::is_whitespace` and `str::trim` go by)?
pub open spec fn is_white_space(c: char) -> bool {
    let u = c as u32;
    ||| 9 <= u <= 13
    ||| u == 32
    ||| u == 0x85
    ||| u == 0xA0
    ||| u == 0x1680
    ||| 0x2000 <= u <= 0x200A
    ||| u == 0x2028
    ||| u == 0x2029
    ||| u == 0x202F
    ||| u == 0x205F
    ||| u == 0x3000
}

/// `s` without the white space it starts with.
pub open spec fn trim_start(s: Seq<char>) -> Seq<char>
    decreases s.len(),
{
    if s.len() > 0 && is_white_space(s[0]) {
        trim_start(s.drop_first())
    } else {
        s
    }
}

/// `s` without the white space it ends with.
pub open spec fn trim_end(s: Seq<char>) -> Seq<char>
    decreases s.len(),
{
    if s.len() > 0 && is_white_space(s.last()) {
        trim_end(s.drop_last())
    } else {
        s
    }
}

/// `s` without white space at either end.
pub open spec fn trimmed(s: Seq<char>) -> Seq<char> {
    trim_end(trim_start(s))
}

/// Is `c` white space?
fn white_space(c: char) -> (r: bool)
    ensures
        r == is_white_space(c),
{
    let u = c as u32;
    (9 <= u && u <= 13) || u == 32 || u == 0x85 || u == 0xA0 || u == 0x1680 || (0x2000 <= u && u
        <= 0x200A) || u == 0x2028 || u == 0x2029 || u == 0x202F || u == 0x205F || u == 0x3000
}

/// The line without white space at either end.
pub fn trim_line(line: &str) -> (r: &str)
    ensures
        r@ == trimmed(line@),
{
    let n = line.unicode_len();
    let mut a: usize = 0;
    assert(line@.subrange(0, n as int) =~= line@);
    while a < n && white_space(line.get_char(a))
        invariant
            a <= n,
            n == line@.len(),
            trim_start(line@) == trim_start(line@.subrange(a as int, n as int)),
        decreases n - a,
    {
        assert(line@.subrange(a as int, n as int).drop_first() =~= line@.subrange(a + 1, n as int));
        a = a + 1;
    }
    assert(trim_start(line@) == line@.subrange(a as int, n as int));
    let mut b: usize = n;
    while b > a && white_space(line.get_char(b - 1))
        invariant
            a <= b <= n,
            n == line@.len(),
            trimmed(line@) == trim_end(line@.subrange(a as int, b as int)),
        decreases b,
    {
        assert(line@.subrange(a as int, b as int).drop_last() =~= line@.subrange(a as int, b - 1));
        b = b - 1;
    }
    line.substring_char(a, b)
}

/// What to do with a line typed at the prompt.
pub enum LineAction {
    /// The line is blank: prompt again.
    Skip,
    /// The line asks to end the session.
    Quit,
    /// The line names no valid command: show this error and prompt again.
    Report(String),
    /// Send this command to the server.
    Send(Command),
}

/// The command that the tokens of a line spell: the first token, made
/// upper-case, names it, and each token stands for its UTF-8 bytes.
pub open spec fn line_command(tokens: Seq<Seq<char>>) -> Result<CommandView, Seq<char>> {
    if tokens.len() == 0 {
        Err("empty command"@)
    } else {
        parse_named(ascii_upper_text(tokens[0]), tokens.map_values(|t: Seq<char>| encode_utf8(t)))
    }
}

/// Decides what to do with a line typed at the prompt: without white space
/// at its ends, a blank line is skipped, `exit` or `quit` ends the session,
/// and anything else is split into tokens that must spell a command.
pub fn line_action(line: &str) -> (r: LineAction)
    requires
        splittable(trimmed(line@), trimmed(line@).len()),
    ensures
        ({
            let t = trimmed(line@);
            if t.len() == 0 {
                r is Skip
            } else if is_exit_word(t) {
                r is Quit
            } else {
                match line_command(split_tokens(t)) {
                    Ok(c) => r matches LineAction::Send(command) && command@ == c,
                    Err(e) => r matches LineAction::Report(message) && message@ == e,
                }
            }
        }),
        ({
            let t = trimmed(line@);
            let ts = split_tokens(t);
            t.len() > 0 && !is_exit_word(t) && ts.len() > 0 ==> {
                &&& (r is Send <==> arity_fits(ascii_upper_text(ts[0]), ts.len()))
                &&& r matches LineAction::Send(command) ==> command_name(command@) == ascii_upper_text(
                    ts[0],
                ) && command_args(command@) == ts.drop_first().map_values(
                    |x: Seq<char>| encode_utf8(x),
                )
            }
        }),
{
    let input = trim_line(line);
    if input.unicode_len() == 0 {
        return LineAction::Skip;
    }
    if is_exit_command(input) {
        return LineAction::Quit;
    }
    let tokens = split(input);
    let ghost ts = split_tokens(input@);
    let mut parts: Vec<Vec<u8>> = Vec::new();
    let mut i: usize = 0;
    while i < tokens.len()
        invariant
            0 <= i <= tokens@.len(),
            tokens_view(tokens@) == ts,
            parts_view(parts@) == ts.take(i as int).map_values(|t: Seq<char>| encode_utf8(t)),
        decreases tokens@.len() - i,
    {
        let bytes = vstd::slice::slice_to_vec(tokens[i].as_bytes());
        let ghost before = parts@;
        parts.push(bytes);
        assert(parts@ =~= before.push(bytes));
        assert(ts[i as int] == tokens@[i as int]@);
        assert(bytes@ == encode_utf8(ts[i as int]));
        assert(parts_view(parts@) =~= parts_view(before).push(bytes@));
        assert(parts_view(parts@) =~= ts.take(i + 1).map_values(|t: Seq<char>| encode_utf8(t)));
        i = i + 1;
    }
    assert(ts.take(tokens@.len() as int) =~= ts);
    proof {
        if ts.len() > 0 {
            encode_utf8_valid_utf8(ts[0]);
            encode_utf8_decode_utf8(ts[0]);
            let bytes = ts.map_values(|x: Seq<char>| encode_utf8(x));
            law_parse_named_meaning(ascii_upper_text(ts[0]), bytes);
            assert(bytes.drop_first() =~= ts.drop_first().map_values(|x: Seq<char>| encode_utf8(x)));
        }
    }
    match parse_command(&parts) {
        Ok(command) => LineAction::Send(command),
        Err(e) => LineAction::Report(e),
    }
}

} // verus!
