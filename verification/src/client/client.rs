//! Turning a line that the user typed into a command frame.
//!
//! A line is `get KEY`, `set KEY VALUE` or `delete KEY`, its words separated
//! by single spaces.  A get or a delete ignores words after the key; a set
//! must have exactly three words.
use vstd::prelude::*;
use vstd::string::*;
use vstd::utf8::encode_utf8;
use crate::client::error::{ClientError, ClientResult};
use crate::protocol::command::{
    lemma_decode_encode, spec_decode, spec_encode, Command, CommandView, Fault,
};
use crate::text::{lemma_split_spaces_len, split_fields, split_spaces, str_eq, views_of};

verus! {

/// The command that a line stands for, if it is one.
pub open spec fn spec_input_command(line: Seq<char>) -> Option<CommandView> {
    let f = split_spaces(line);
    if f.len() < 2 {
        None
    } else if f[0] == "get"@ {
        Some(CommandView::Get { key: f[1] })
    } else if f[0] == "set"@ && f.len() == 3 {
        Some(CommandView::Put { key: f[1], value: encode_utf8(f[2]) })
    } else if f[0] == "delete"@ {
        Some(CommandView::Delete { key: f[1] })
    } else {
        None
    }
}

/// The text of the error for a line that is not a command.
pub open spec fn cli_error_text() -> Seq<char> {
    "命令错误！"@
}

pub struct Client {}

impl Client {
    pub fn new() -> (c: Self) {
        Client {}
    }

    /// The command frame for a line that the user typed.
    pub fn input_decode(&self, cmd_str: &str) -> (r: ClientResult<Vec<u8>>)
        ensures
            match r {
                Ok(frame) => spec_input_command(cmd_str@) matches Some(c) && frame@
                    == spec_encode(c),
                Err(ClientError::CliError(msg)) => spec_input_command(cmd_str@) is None && msg@
                    == cli_error_text(),
                Err(_) => false,
            },
            r is Ok ==> {
                let f = split_spaces(cmd_str@);
                &&& f.len() >= 2
                &&& (f[0] == "get"@ || (f[0] == "set"@ && f.len() == 3) || f[0] == "delete"@)
            },
    {
        proof {
            lemma_only_command_words(cmd_str@);
        }
        let cmd_arr = split_fields(cmd_str);
        proof {
            lemma_split_spaces_len(cmd_str@);
            assert(views_of(cmd_arr@).len() == cmd_arr@.len());
        }
        if cmd_arr.len() < 2 {
            return Err(ClientError::CliError("命令错误！".to_owned()));
        }
        proof {
            assert(views_of(cmd_arr@)[0] == cmd_arr@[0]@);
            assert(views_of(cmd_arr@)[1] == cmd_arr@[1]@);
        }
        let code = cmd_arr[0];
        let cmd = if str_eq(code, "get") {
            Command::Get { key: cmd_arr[1] }
        } else if str_eq(code, "set") && cmd_arr.len() == 3 {
            proof {
                assert(views_of(cmd_arr@)[2] == cmd_arr@[2]@);
            }
            Command::Put { key: cmd_arr[1], value: cmd_arr[2].as_bytes() }
        } else if str_eq(code, "delete") {
            Command::Delete { key: cmd_arr[1] }
        } else {
            return Err(ClientError::CliError("命令错误！".to_owned()));
        };
        let cmd_code = cmd.encode();
        Ok(cmd_code)
    }
}

/// The frame for a line the user typed reads back as the line's command,
/// when the key's and the value's UTF-8 bytes each number fewer than 65536.
pub proof fn lemma_input_frame_reads_back(line: Seq<char>)
    requires
        spec_input_command(line) is Some,
        forall|i: int|
            0 <= i < split_spaces(line).len() ==> encode_utf8(#[trigger] split_spaces(line)[i]).len()
                < 65536,
    ensures
        spec_input_command(line) matches Some(c) && spec_decode(spec_encode(c)) == Ok::<
            (CommandView, nat),
            Fault,
        >((c, spec_encode(c).len())),
{
    let c = spec_input_command(line)->0;
    let f = split_spaces(line);
    assert(encode_utf8(f[1]).len() < 65536);
    if f.len() == 3 {
        assert(encode_utf8(f[2]).len() < 65536);
    }
    lemma_decode_encode(c, Seq::empty());
    assert(spec_encode(c) + Seq::<u8>::empty() =~= spec_encode(c));
}

/// A line stands for a command only when it has at least two words and its
/// first word is exactly `get`, `set` (with exactly three words) or
/// `delete`; the command is of the kind that word names, and its key is the
/// second word.  Any other first word stands for no command.
pub proof fn lemma_only_command_words(line: Seq<char>)
    ensures
        ({
            let f = split_spaces(line);
            &&& spec_input_command(line) is Some <==> f.len() >= 2 && (f[0] == "get"@ || (f[0]
                == "set"@ && f.len() == 3) || f[0] == "delete"@)
            &&& spec_input_command(line) matches Some(c) ==> {
                &&& (c is Get <==> f[0] == "get"@)
                &&& (c is Put <==> f[0] == "set"@)
                &&& (c is Delete <==> f[0] == "delete"@)
                &&& match c {
                    CommandView::Get { key } => key == f[1],
                    CommandView::Put { key, value } => key == f[1] && value == encode_utf8(f[2]),
                    CommandView::Delete { key } => key == f[1],
                }
            }
        }),
{
    reveal_strlit("get");
    reveal_strlit("set");
    reveal_strlit("delete");
    assert("get"@[0] != "set"@[0]);
    assert("get"@ != "delete"@);
    assert("set"@ != "delete"@);
}

} // verus!
