//! Turning the parts of a request into a command.
use vstd::prelude::*;
use vstd::string::*;
use crate::protocol::{Command, CommandView, RedisKey, RedisResult, RedisValue, keys_view};
use vstd::utf8::{decode_utf8, valid_utf8};
use crate::text::{ascii_upper_text, join2, join3, lossy_string, lossy_text, to_ascii_uppercase};

verus! {

/// The text of an error reply: `ERR ` and the body.
pub open spec fn error_text(body: Seq<char>) -> Seq<char> {
    "ERR "@ + body
}

/// The error for a command given the wrong number of arguments.
pub open spec fn arity_error_text(command: Seq<char>) -> Seq<char> {
    error_text("wrong number of arguments for "@ + command)
}

/// The command that the parts of a request name, where the first part,
/// read as text and made upper-case, is `name`.
pub open spec fn parse_named(name: Seq<char>, parts: Seq<Seq<u8>>) -> Result<CommandView, Seq<char>> {
    if name == "SET"@ {
        if parts.len() != 3 {
            Err(arity_error_text("SET"@))
        } else {
            Ok(CommandView::SetKey { key: parts[1], value: parts[2] })
        }
    } else if name == "GET"@ {
        if parts.len() != 2 {
            Err(arity_error_text("GET"@))
        } else {
            Ok(CommandView::Get { key: parts[1] })
        }
    } else if name == "DEL"@ {
        if parts.len() < 2 {
            Err(arity_error_text("DEL"@))
        } else {
            Ok(CommandView::Del { keys: parts.drop_first() })
        }
    } else if name == "SAVE"@ {
        if parts.len() != 1 {
            Err(arity_error_text("SAVE"@))
        } else {
            Ok(CommandView::Save)
        }
    } else {
        Err(error_text("unknown command '"@ + name + "'"@))
    }
}

/// The command that the parts of a request describe: the first part names
/// it, whatever the case of its ASCII letters, the others are its arguments.
pub open spec fn parse_parts(parts: Seq<Seq<u8>>) -> Result<CommandView, Seq<char>> {
    if parts.len() == 0 {
        Err("empty command"@)
    } else {
        parse_named(ascii_upper_text(lossy_text(parts[0])), parts)
    }
}

/// A parse result, taken by its views.
pub open spec fn command_result_view(r: RedisResult<Command>) -> Result<CommandView, Seq<char>> {
    match r {
        Ok(c) => Ok(c@),
        Err(e) => Err(e@),
    }
}

/// The byte sequences of a list of parts.
pub open spec fn parts_view(parts: Seq<Vec<u8>>) -> Seq<Seq<u8>> {
    parts.map_values(|p: Vec<u8>| p@)
}

/// Prefixes `body` with `ERR `.
pub fn generate_error(body: String) -> (r: String)
    ensures
        r@ == error_text(body@),
{
    join2("ERR ", body.as_str())
}

/// The error for `command` given the wrong number of arguments.
fn generate_arity_error(command: String) -> (r: String)
    ensures
        r@ == arity_error_text(command@),
{
    generate_error(join2("wrong number of arguments for ", command.as_str()))
}

/// Parses the parts of a request into a command.
pub fn parse_command(parts: &Vec<Vec<u8>>) -> (r: RedisResult<Command>)
    ensures
        command_result_view(r) == parse_parts(parts_view(parts@)),
        parts@.len() > 0 && valid_utf8(parts@[0]@) ==> command_result_view(r) == parse_named(
            ascii_upper_text(decode_utf8(parts@[0]@)),
            parts_view(parts@),
        ),
{
    if parts.len() == 0 {
        return Err(String::from_str("empty command"));
    }
    let text = lossy_string(parts[0].as_slice());
    let name = to_ascii_uppercase(text.as_str());
    parse_named_command(&name, parts)
}

/// Parses the parts of a request into the command called `name` (the
/// first part as text, made upper-case).
pub fn parse_named_command(name: &String, parts: &Vec<Vec<u8>>) -> (r: RedisResult<Command>)
    requires
        parts.len() >= 1,
    ensures
        command_result_view(r) == parse_named(name@, parts_view(parts@)),
{
    let ghost ps = parts_view(parts@);
    let n = parts.len();
    if name.eq(&String::from_str("SET")) {
        if n != 3 {
            return Err(generate_arity_error(String::from_str("SET")));
        }
        let key = vstd::slice::slice_to_vec(parts[1].as_slice());
        let value = vstd::slice::slice_to_vec(parts[2].as_slice());
        Ok(Command::SetKey { key, value: RedisValue::Str(value) })
    } else if name.eq(&String::from_str("GET")) {
        if n != 2 {
            return Err(generate_arity_error(String::from_str("GET")));
        }
        let key = vstd::slice::slice_to_vec(parts[1].as_slice());
        Ok(Command::Get { key })
    } else if name.eq(&String::from_str("DEL")) {
        if n < 2 {
            return Err(generate_arity_error(String::from_str("DEL")));
        }
        let mut keys: Vec<RedisKey> = Vec::new();
        let mut i: usize = 1;
        while i < n
            invariant
                1 <= i <= n,
                n == parts@.len(),
                ps == parts_view(parts@),
                keys_view(keys@) == ps.subrange(1, i as int),
            decreases n - i,
        {
            let key = vstd::slice::slice_to_vec(parts[i].as_slice());
            let ghost before = keys@;
            keys.push(key);
            assert(keys@ =~= before.push(key));
            assert(keys_view(keys@) =~= keys_view(before).push(key@));
            assert(keys_view(keys@) =~= ps.subrange(1, i + 1));
            i = i + 1;
        }
        assert(ps.subrange(1, n as int) =~= ps.drop_first());
        Ok(Command::Del { keys })
    } else if name.eq(&String::from_str("SAVE")) {
        if n != 1 {
            return Err(generate_arity_error(String::from_str("SAVE")));
        }
        Ok(Command::Save)
    } else {
        Err(generate_error(join3("unknown command '", name.as_str(), "'")))
    }
}

/// The name of a command, upper-case.
pub open spec fn command_name(c: CommandView) -> Seq<char> {
    match c {
        CommandView::SetKey { .. } => "SET"@,
        CommandView::Get { .. } => "GET"@,
        CommandView::Del { .. } => "DEL"@,
        CommandView::Save => "SAVE"@,
    }
}

/// The arguments of a command, in order.
pub open spec fn command_args(c: CommandView) -> Seq<Seq<u8>> {
    match c {
        CommandView::SetKey { key, value } => seq![key, value],
        CommandView::Get { key } => seq![key],
        CommandView::Del { keys } => keys,
        CommandView::Save => Seq::empty(),
    }
}

/// Does a request of `count` parts (the name included) give the command
/// called `name` the number of arguments it takes: `SET` two, `GET` one,
/// `DEL` at least one, `SAVE` none?
pub open spec fn arity_fits(name: Seq<char>, count: nat) -> bool {
    ||| name == "SET"@ && count == 3
    ||| name == "GET"@ && count == 2
    ||| name == "DEL"@ && count >= 2
    ||| name == "SAVE"@ && count == 1
}

/// The parts of a request give a command exactly when its name is known
/// and it has the number of arguments that command takes; the command is
/// the one so named, and its arguments are all the other parts, in order.
/// Otherwise the error names the command (wrong number of arguments) or,
/// for an unknown name, the name.
pub proof fn law_parse_named_meaning(name: Seq<char>, parts: Seq<Seq<u8>>)
    requires
        parts.len() >= 1,
    ensures
        parse_named(name, parts) is Ok <==> arity_fits(name, parts.len()),
        parse_named(name, parts) matches Ok(c) ==> command_name(c) == name && command_args(c)
            == parts.drop_first(),
        (name == "SET"@ || name == "GET"@ || name == "DEL"@ || name == "SAVE"@) && !arity_fits(
            name,
            parts.len(),
        ) ==> parse_named(name, parts) == Err::<CommandView, Seq<char>>(arity_error_text(name)),
        !(name == "SET"@ || name == "GET"@ || name == "DEL"@ || name == "SAVE"@) ==> parse_named(
            name,
            parts,
        ) == Err::<CommandView, Seq<char>>(error_text("unknown command '"@ + name + "'"@)),
{
    reveal_strlit("SET");
    reveal_strlit("GET");
    reveal_strlit("DEL");
    reveal_strlit("SAVE");
    assert("SET"@[0] == 'S' && "SET"@.len() == 3);
    assert("GET"@[0] == 'G' && "GET"@.len() == 3);
    assert("DEL"@[0] == 'D' && "DEL"@.len() == 3);
    assert("SAVE"@[0] == 'S' && "SAVE"@.len() == 4);
    if parse_named(name, parts) is Ok {
        if name == "SET"@ {
            assert(seq![parts[1], parts[2]] =~= parts.drop_first());
        } else if name == "GET"@ {
            assert(seq![parts[1]] =~= parts.drop_first());
        } else if name == "SAVE"@ {
            assert(Seq::<Seq<u8>>::empty() =~= parts.drop_first());
        }
    }
}

} // verus!
