//! The single-file server: it reads one command frame per connection,
//! applies it to a shared table and answers with a line of text.
use vstd::prelude::*;
use vstd::string::*;
use crate::protocol::command::{
    decode_frame, spec_decode, Command as Frame, CommandView, Fault, FrameError,
};
use crate::storage::db::apply_command;
use crate::storage::kv_map::KvMap;

verus! {

/// Why a request could not be served.
#[derive(Debug)]
pub enum Error {
    /// The frame is cut short or names no known command; the text says which.
    ParseError(String),
    /// The key bytes are not UTF-8.
    ParseUtf8Error(core::str::Utf8Error),
    /// The connection failed.
    IOError(std::io::Error),
}

pub type AppResult<T> = Result<T, Error>;

/// A command, borrowing its key and value from the request.
#[derive(Debug)]
pub enum Command<'a> {
    Get { key: &'a str },
    Put { key: &'a str, value: &'a [u8] },
    Delete { key: &'a str },
}

impl<'a> View for Command<'a> {
    type V = CommandView;

    open spec fn view(&self) -> CommandView {
        match self {
            Command::Get { key } => CommandView::Get { key: key@ },
            Command::Put { key, value } => CommandView::Put { key: key@, value: value@ },
            Command::Delete { key } => CommandView::Delete { key: key@ },
        }
    }
}

/// The text of the parse error that `parse_command` reports for a fault.
pub open spec fn parse_fault_text(f: Fault) -> Seq<char> {
    match f {
        Fault::ShortHeader => "解析失败，字节长度不足。"@,
        Fault::ShortKey => "解析失败，字节长度不足以包含键。"@,
        Fault::ShortValueLength => "解析失败，字节长度不足"@,
        Fault::ShortValue => "解析失败，字节长度不足以包含值。"@,
        _ => "解析失败，未知的Command类型。"@,
    }
}

fn parse_fault_message(f: Fault) -> (s: String)
    ensures
        s@ == parse_fault_text(f),
{
    match f {
        Fault::ShortHeader => "解析失败，字节长度不足。".to_owned(),
        Fault::ShortKey => "解析失败，字节长度不足以包含键。".to_owned(),
        Fault::ShortValueLength => "解析失败，字节长度不足".to_owned(),
        Fault::ShortValue => "解析失败，字节长度不足以包含值。".to_owned(),
        _ => "解析失败，未知的Command类型。".to_owned(),
    }
}

/// Reads the command frame at the start of `input`; the frame has the
/// layout that `Command::decode` of the protocol reads, and bytes after it
/// are not looked at.
pub fn parse_command<'a>(input: &'a [u8]) -> (r: AppResult<Command<'a>>)
    ensures
        r matches Ok(c) ==> spec_decode(input@) matches Ok((cv, _)) && c@ == cv,
        r matches Err(Error::ParseUtf8Error(_)) ==> spec_decode(input@) == Err::<
            (CommandView, nat),
            Fault,
        >(Fault::InvalidKey),
        r matches Err(Error::ParseError(msg)) ==> {
            &&& spec_decode(input@) matches Err(f)
            &&& f != Fault::InvalidKey
            &&& msg@ == parse_fault_text(f)
        },
        !(r matches Err(Error::IOError(_))),
{
    match decode_frame(input) {
        Ok((Frame::Get { key }, _)) => Ok(Command::Get { key }),
        Ok((Frame::Put { key, value }, _)) => Ok(Command::Put { key, value }),
        Ok((Frame::Delete { key }, _)) => Ok(Command::Delete { key }),
        Err(FrameError::InvalidKey(e)) => Err(Error::ParseUtf8Error(e)),
        Err(FrameError::Malformed(f)) => Err(Error::ParseError(parse_fault_message(f))),
    }
}

/// The reply line of the single-file server to a command on a table.
pub open spec fn reply_bytes(m: Map<Seq<char>, Seq<u8>>, c: CommandView) -> Seq<u8> {
    match c {
        CommandView::Get { key } => if m.contains_key(key) {
            m[key].push(10u8)
        } else {
            vstd::utf8::encode_utf8("KEY_NOT_EXIST\n"@)
        },
        CommandView::Put { .. } => vstd::utf8::encode_utf8("OK\n"@),
        CommandView::Delete { key } => if m.contains_key(key) {
            vstd::utf8::encode_utf8("DELETED\n"@)
        } else {
            vstd::utf8::encode_utf8("KEY_NOT_EXIST\n"@)
        },
    }
}

/// Applies `cmd` to the table and gives the bytes to answer with: a get
/// answers with the value and a line feed, or says the key is missing; a
/// set answers OK; a delete says whether the key was there.
pub fn handle_command(db: &mut KvMap, cmd: Command) -> (reply: Vec<u8>)
    ensures
        final(db)@ == apply_command(old(db)@, cmd@),
        reply@ == reply_bytes(old(db)@, cmd@),
        cmd@ is Put ==> reply@ == seq![79u8, 75u8, 10u8],
        cmd@ matches CommandView::Get { key } ==> old(db)@.contains_key(key) ==> {
            &&& reply@.len() == old(db)@[key].len() + 1
            &&& reply@.subrange(0, old(db)@[key].len() as int) == old(db)@[key]
            &&& reply@.last() == 10u8
        },
{
    proof {
        lemma_set_reply_is_ok(old(db)@, old(db)@, cmd@);
    }
    match cmd {
        Command::Get { key } => match db.get(key) {
            Some(val) => {
                let mut out = vstd::slice::slice_to_vec(val.as_slice());
                out.push(10u8);
                proof {
                    lemma_get_reply_is_value_line(old(db)@, key@);
                }
                out
            },
            None => vstd::slice::slice_to_vec("KEY_NOT_EXIST\n".as_bytes()),
        },
        Command::Put { key, value } => {
            db.insert(key.to_owned(), vstd::slice::slice_to_vec(value));
            vstd::slice::slice_to_vec("OK\n".as_bytes())
        },
        Command::Delete { key } => {
            if db.remove(key).is_some() {
                vstd::slice::slice_to_vec("DELETED\n".as_bytes())
            } else {
                vstd::slice::slice_to_vec("KEY_NOT_EXIST\n".as_bytes())
            }
        },
    }
}

/// The reply to a set is the three bytes `OK` and a line feed on every
/// table, including one that already holds the key.
pub proof fn lemma_set_reply_is_ok(
    m: Map<Seq<char>, Seq<u8>>,
    other: Map<Seq<char>, Seq<u8>>,
    c: CommandView,
)
    ensures
        c is Put ==> reply_bytes(m, c) == seq![79u8, 75u8, 10u8],
        c is Put ==> reply_bytes(m, c) == reply_bytes(other, c),
{
    reveal_strlit("OK\n");
    let s = "OK\n"@;
    assert(vstd::utf8::is_ascii_chars(s));
    vstd::utf8::is_ascii_chars_encode_utf8(s);
    let e = vstd::utf8::encode_utf8(s);
    assert(e[0] == s[0] as u8);
    assert(e[1] == s[1] as u8);
    assert(e[2] == s[2] as u8);
    assert(e =~= seq![79u8, 75u8, 10u8]);
}

/// The reply to a get of a key the table holds is the whole stored value
/// followed by one line feed.
pub proof fn lemma_get_reply_is_value_line(m: Map<Seq<char>, Seq<u8>>, key: Seq<char>)
    ensures
        m.contains_key(key) ==> {
            let r = reply_bytes(m, CommandView::Get { key });
            &&& r.len() == m[key].len() + 1
            &&& r.subrange(0, m[key].len() as int) == m[key]
            &&& r.last() == 10u8
        },
{
    if m.contains_key(key) {
        let r = reply_bytes(m, CommandView::Get { key });
        assert(r.subrange(0, m[key].len() as int) =~= m[key]);
    }
}

/// After a set of a key, a get of that key answers with the value set and a
/// line feed.
pub proof fn lemma_get_after_set_line(m: Map<Seq<char>, Seq<u8>>, key: Seq<char>, value: Seq<u8>)
    ensures
        reply_bytes(apply_command(m, CommandView::Put { key, value }), CommandView::Get { key })
            == value.push(10u8),
{
}

} // verus!
