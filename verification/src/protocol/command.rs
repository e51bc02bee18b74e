//! Command frames.
//!
//! A frame is one code byte (1 get, 2 set, 3 delete), the key's length in
//! two bytes, most significant first, and the key's UTF-8 bytes; a set frame
//! then carries the value's length in two bytes and the value's bytes.
use vstd::prelude::*;
use vstd::string::*;
use vstd::utf8::*;
use crate::protocol::error::{ProtocolError, ProtocolResult};
use crate::text::{str_from_utf8, lemma_str_of_bytes};

verus! {

broadcast use {vstd::utf8::group_utf8_lib, vstd::seq::group_seq_axioms};

pub const GET_CODE: u8 = 1;
pub const SET_CODE: u8 = 2;
pub const DELETE_CODE: u8 = 3;

/// A command, borrowing its key and value from the caller.
#[derive(Debug)]
pub enum Command<'a> {
    Get { key: &'a str },
    Put { key: &'a str, value: &'a [u8] },
    Delete { key: &'a str },
}

/// What a command stands for: its key as characters, its value as bytes.
pub enum CommandView {
    Get { key: Seq<char> },
    Put { key: Seq<char>, value: Seq<u8> },
    Delete { key: Seq<char> },
}

impl<'a> View for Command<'a> {
    type V = CommandView;

    open spec fn view(&self) -> CommandView {
        match self {
            Command::Get { key } => CommandView::Get { key: key@ },
            Command::Put { key, value } => CommandView::Put { key: key@, value: value@ },
            Command::Delete { key } => CommandView::Delete { key: key@ },
        }
    }
}

/// The two bytes, most significant first, of a length field: lengths of
/// 65536 bytes or more keep only their low sixteen bits.
pub open spec fn length_field(n: nat) -> Seq<u8> {
    seq![((n % 65536) / 256) as u8, (n % 256) as u8]
}

/// The number that a length field's two bytes hold.
pub open spec fn field_value(hi: u8, lo: u8) -> nat {
    (hi as nat) * 256 + (lo as nat)
}

/// A key's part of a frame: its length field and its UTF-8 bytes.
pub open spec fn key_part(key: Seq<char>) -> Seq<u8> {
    length_field(encode_utf8(key).len()) + encode_utf8(key)
}

/// The frame that encodes a command.
pub open spec fn spec_encode(c: CommandView) -> Seq<u8> {
    match c {
        CommandView::Get { key } => seq![GET_CODE] + key_part(key),
        CommandView::Put { key, value } => seq![SET_CODE] + key_part(key) + length_field(
            value.len(),
        ) + value,
        CommandView::Delete { key } => seq![DELETE_CODE] + key_part(key),
    }
}

/// The ways in which reading a frame can fail, in the order they are tested.
#[derive(PartialEq, Eq, Structural, Clone, Copy)]
pub enum Fault {
    /// Fewer than three bytes: no code and key length.
    ShortHeader,
    /// Fewer bytes than the key length asks for.
    ShortKey,
    /// The key bytes are not UTF-8.
    InvalidKey,
    /// A set frame ends before its value length.
    ShortValueLength,
    /// A set frame ends before the end of its value.
    ShortValue,
    /// The code byte is not 1, 2 or 3.
    UnknownCode,
}

/// Reading the frame at the start of `raw`: the command and the number of
/// bytes it takes, or the first fault found.  Bytes after the frame are not
/// looked at.
pub open spec fn spec_decode(raw: Seq<u8>) -> Result<(CommandView, nat), Fault> {
    if raw.len() < 3 {
        Err(Fault::ShortHeader)
    } else {
        let key_len = field_value(raw[1], raw[2]) as int;
        if raw.len() < 3 + key_len {
            Err(Fault::ShortKey)
        } else {
            let key_bytes = raw.subrange(3, 3 + key_len);
            if !valid_utf8(key_bytes) {
                Err(Fault::InvalidKey)
            } else {
                let key = decode_utf8(key_bytes);
                if raw[0] == GET_CODE {
                    Ok((CommandView::Get { key }, (3 + key_len) as nat))
                } else if raw[0] == SET_CODE {
                    if raw.len() < 5 + key_len {
                        Err(Fault::ShortValueLength)
                    } else {
                        let value_len = field_value(raw[3 + key_len], raw[4 + key_len]) as int;
                        if raw.len() < 5 + key_len + value_len {
                            Err(Fault::ShortValue)
                        } else {
                            Ok(
                                (
                                    CommandView::Put {
                                        key,
                                        value: raw.subrange(
                                            5 + key_len,
                                            5 + key_len + value_len,
                                        ),
                                    },
                                    (5 + key_len + value_len) as nat,
                                ),
                            )
                        }
                    }
                } else if raw[0] == DELETE_CODE {
                    Ok((CommandView::Delete { key }, (3 + key_len) as nat))
                } else {
                    Err(Fault::UnknownCode)
                }
            }
        }
    }
}

/// The text of the parse error that `Command::decode` reports for a fault.
pub open spec fn fault_text(f: Fault) -> Seq<char> {
    match f {
        Fault::ShortHeader => "解析失败，字节长度不足。"@,
        Fault::ShortKey => "解析失败，字节长度不足以包含键。"@,
        Fault::ShortValueLength => "解析失败，字节长度不足以包含值长度。"@,
        Fault::ShortValue => "解析失败，字节长度不足以包含值。"@,
        _ => "解析失败，未知的Command类型。"@,
    }
}

/// A frame that could not be read: the fault, and for a key that is not
/// UTF-8 the error that `core::str::from_utf8` gave.
pub enum FrameError {
    Malformed(Fault),
    InvalidKey(core::str::Utf8Error),
}

impl FrameError {
    pub open spec fn fault(&self) -> Fault {
        match self {
            FrameError::Malformed(f) => *f,
            FrameError::InvalidKey(_) => Fault::InvalidKey,
        }
    }
}

/// Reads the two bytes of a length field at `at` and `at + 1`.
fn read_length(raw: &[u8], at: usize) -> (n: usize)
    requires
        at + 1 < raw@.len(),
    ensures
        n == field_value(raw@[at as int], raw@[at + 1]),
        n < 65536,
{
    (raw[at] as usize) * 256 + (raw[at + 1] as usize)
}

/// Reads the frame at the start of `raw`, borrowing the key and value
/// from it.
pub fn decode_frame<'a>(raw: &'a [u8]) -> (r: Result<(Command<'a>, usize), FrameError>)
    ensures
        match r {
            Ok((c, n)) => spec_decode(raw@) == Ok::<(CommandView, nat), Fault>((c@, n as nat)),
            Err(e) => spec_decode(raw@) == Err::<(CommandView, nat), Fault>(e.fault()),
        },
        r matches Err(FrameError::Malformed(f)) ==> f != Fault::InvalidKey,
{
    if raw.len() < 3 {
        return Err(FrameError::Malformed(Fault::ShortHeader));
    }
    let code = raw[0];
    let key_len = read_length(raw, 1);
    if raw.len() < 3 + key_len {
        return Err(FrameError::Malformed(Fault::ShortKey));
    }
    let key_bytes = vstd::slice::slice_subrange(raw, 3, 3 + key_len);
    let key = match str_from_utf8(key_bytes) {
        Ok(k) => k,
        Err(e) => {
            return Err(FrameError::InvalidKey(e));
        },
    };
    proof {
        lemma_str_of_bytes(key, key_bytes@);
    }
    if code == GET_CODE {
        Ok((Command::Get { key }, 3 + key_len))
    } else if code == SET_CODE {
        if raw.len() < 3 + key_len + 2 {
            return Err(FrameError::Malformed(Fault::ShortValueLength));
        }
        let value_len = read_length(raw, 3 + key_len);
        if raw.len() < 3 + key_len + 2 + value_len {
            return Err(FrameError::Malformed(Fault::ShortValue));
        }
        let value = vstd::slice::slice_subrange(raw, 5 + key_len, 5 + key_len + value_len);
        Ok((Command::Put { key, value }, 5 + key_len + value_len))
    } else if code == DELETE_CODE {
        Ok((Command::Delete { key }, 3 + key_len))
    } else {
        Err(FrameError::Malformed(Fault::UnknownCode))
    }
}

/// Appends a length field for `n` to `buf`.
fn push_length(buf: &mut Vec<u8>, n: usize)
    ensures
        final(buf)@ == old(buf)@ + length_field(n as nat),
{
    let m = n % 65536;
    buf.push((m / 256) as u8);
    buf.push((n % 256) as u8);
}

/// Appends a key's length field and bytes to `buf`.
fn push_key(buf: &mut Vec<u8>, key: &str)
    ensures
        final(buf)@ == old(buf)@ + key_part(key@),
{
    let bytes = key.as_bytes();
    push_length(buf, bytes.len());
    buf.extend_from_slice(bytes);
    assert(final(buf)@ =~= old(buf)@ + key_part(key@));
}

impl<'a> Command<'a> {
    /// Encodes the command as a frame.
    pub fn encode(&self) -> (buf: Vec<u8>)
        ensures
            buf@ == spec_encode(self@),
    {
        match self {
            Command::Get { key } => {
                let mut buf = vec![GET_CODE];
                push_key(&mut buf, key);
                buf
            },
            Command::Put { key, value } => {
                let mut buf = vec![SET_CODE];
                push_key(&mut buf, key);
                push_length(&mut buf, value.len());
                buf.extend_from_slice(value);
                assert(buf@ =~= spec_encode(self@));
                buf
            },
            Command::Delete { key } => {
                let mut buf = vec![DELETE_CODE];
                push_key(&mut buf, key);
                buf
            },
        }
    }
}


/// The text of the parse error for a fault (the key fault has none).
fn fault_message(f: Fault) -> (s: String)
    ensures
        s@ == fault_text(f),
{
    match f {
        Fault::ShortHeader => "解析失败，字节长度不足。".to_owned(),
        Fault::ShortKey => "解析失败，字节长度不足以包含键。".to_owned(),
        Fault::ShortValueLength => "解析失败，字节长度不足以包含值长度。".to_owned(),
        Fault::ShortValue => "解析失败，字节长度不足以包含值。".to_owned(),
        _ => "解析失败，未知的Command类型。".to_owned(),
    }
}

impl<'a> Command<'a> {
    /// Reads the frame at the start of `raw_cmd`: the command, borrowing its
    /// key and value from `raw_cmd`, and the frame's length in bytes.  Bytes
    /// after the frame are not looked at.
    pub fn decode(raw_cmd: &'a [u8]) -> (r: ProtocolResult<(Command<'a>, usize)>)
        ensures
            r matches Ok((c, n)) ==> spec_decode(raw_cmd@) == Ok::<(CommandView, nat), Fault>(
                (c@, n as nat),
            ),
            r matches Err(ProtocolError::ParseUtf8Error(_)) ==> spec_decode(raw_cmd@) == Err::<
                (CommandView, nat),
                Fault,
            >(Fault::InvalidKey),
            r matches Err(ProtocolError::ParseError(msg)) ==> {
                &&& spec_decode(raw_cmd@) matches Err(f)
                &&& f != Fault::InvalidKey
                &&& msg@ == fault_text(f)
            },
    {
        let r = decode_frame(raw_cmd);
        match r {
            Ok((c, n)) => Ok((c, n)),
            Err(FrameError::InvalidKey(e)) => Err(ProtocolError::ParseUtf8Error(e)),
            Err(FrameError::Malformed(f)) => Err(ProtocolError::ParseError(fault_message(f))),
        }
    }
}

/// A length field holds the length it was made from, when that length is
/// below 65536.
pub proof fn lemma_length_field_value(n: nat)
    requires
        n < 65536,
    ensures
        length_field(n).len() == 2,
        field_value(length_field(n)[0], length_field(n)[1]) == n,
{
    assert((n % 65536) == n);
    assert(n / 256 < 256) by (nonlinear_arith)
        requires
            n < 65536,
    ;
    assert(n == (n / 256) * 256 + n % 256) by (nonlinear_arith);
}

/// Two bytes are the length field of the number they hold.
pub proof fn lemma_field_value_length(hi: u8, lo: u8)
    ensures
        field_value(hi, lo) < 65536,
        length_field(field_value(hi, lo)) == seq![hi, lo],
{
    let n = field_value(hi, lo);
    assert(n < 65536);
    assert(n / 256 == hi as nat && n % 256 == lo as nat) by (nonlinear_arith)
        requires
            n == (hi as nat) * 256 + (lo as nat),
            hi < 256,
            lo < 256,
    ;
    assert(length_field(n) =~= seq![hi, lo]);
}

/// Encoding and then reading a command gives the command back, with the
/// frame's whole length, whatever bytes follow the frame; this holds when
/// the key's UTF-8 bytes and the value each number fewer than 65536.
pub proof fn lemma_decode_encode(c: CommandView, rest: Seq<u8>)
    requires
        match c {
            CommandView::Get { key } => encode_utf8(key).len() < 65536,
            CommandView::Put { key, value } => encode_utf8(key).len() < 65536 && value.len()
                < 65536,
            CommandView::Delete { key } => encode_utf8(key).len() < 65536,
        },
    ensures
        spec_decode(spec_encode(c) + rest) == Ok::<(CommandView, nat), Fault>(
            (c, spec_encode(c).len()),
        ),
{
    let raw = spec_encode(c) + rest;
    match c {
        CommandView::Get { key } => {
            let kb = encode_utf8(key);
            let kl = kb.len() as int;
            lemma_length_field_value(kb.len());
            assert(raw.subrange(3, 3 + kl) =~= kb);
        },
        CommandView::Put { key, value } => {
            let kb = encode_utf8(key);
            let kl = kb.len() as int;
            lemma_length_field_value(kb.len());
            lemma_length_field_value(value.len());
            assert(raw.subrange(3, 3 + kl) =~= kb);
            assert(raw[3 + kl] == length_field(value.len())[0]);
            assert(raw[4 + kl] == length_field(value.len())[1]);
            assert(raw.subrange(5 + kl, 5 + kl + value.len()) =~= value);
        },
        CommandView::Delete { key } => {
            let kb = encode_utf8(key);
            let kl = kb.len() as int;
            lemma_length_field_value(kb.len());
            assert(raw.subrange(3, 3 + kl) =~= kb);
        },
    }
}

/// A frame that is read is exactly the encoding of the command it gives:
/// each command has one frame, and reading takes no more than that frame.
pub proof fn lemma_encode_decode(raw: Seq<u8>)
    ensures
        spec_decode(raw) matches Ok((c, n)) ==> n <= raw.len() && raw.take(n as int)
            == spec_encode(c),
{
    if let Ok((c, n)) = spec_decode(raw) {
        lemma_field_value_length(raw[1], raw[2]);
        let kl = field_value(raw[1], raw[2]) as int;
        let kb = raw.subrange(3, 3 + kl);
        decode_utf8_encode_utf8(kb);
        match c {
            CommandView::Put { key, value } => {
                lemma_field_value_length(raw[3 + kl], raw[4 + kl]);
                assert(raw.take(n as int) =~= spec_encode(c));
            },
            _ => {
                assert(raw.take(n as int) =~= spec_encode(c));
            },
        }
    }
}

/// A frame that is read is at least three bytes long and lies within the
/// bytes it was read from.
pub proof fn lemma_decode_len(raw: Seq<u8>)
    ensures
        spec_decode(raw) matches Ok((c, n)) ==> 3 <= n <= raw.len(),
{
}

/// Reading a frame looks at no byte after it: bytes appended after a frame
/// that reads change nothing.
pub proof fn lemma_decode_prefix(a: Seq<u8>, b: Seq<u8>)
    ensures
        spec_decode(a) is Ok ==> spec_decode(a + b) == spec_decode(a),
{
    if let Ok((c, n)) = spec_decode(a) {
        let ab = a + b;
        assert(ab[0] == a[0] && ab[1] == a[1] && ab[2] == a[2]);
        let kl = field_value(a[1], a[2]) as int;
        assert(ab.subrange(3, 3 + kl) =~= a.subrange(3, 3 + kl));
        if a[0] == SET_CODE {
            assert(ab[3 + kl] == a[3 + kl] && ab[4 + kl] == a[4 + kl]);
            let vl = field_value(a[3 + kl], a[4 + kl]) as int;
            assert(ab.subrange(5 + kl, 5 + kl + vl) =~= a.subrange(5 + kl, 5 + kl + vl));
        }
    }
}

} // verus!
