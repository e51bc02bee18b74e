//! Replies: a line of text for each outcome, or the value's bytes and a
//! line feed.
use vstd::prelude::*;
use vstd::string::*;
use vstd::utf8::*;
use crate::text::{
    has_prefix, has_prefix_chars, is_white_space, lemma_encode_newline, lemma_encode_utf8_concat,
    lemma_str_of_bytes, str_eq, str_from_utf8, trim_end, trim_end_chars,
};

verus! {

broadcast use {vstd::utf8::group_utf8_lib, vstd::seq::group_seq_axioms};

/// What an error reply starts with.
pub const ERROR_PREFIX: &'static str = "ERROR: ";

/// The outcome of a command, as the server reports it.
pub enum Response {
    Okay,
    KeyNotExist,
    Deleted,
    Value(Vec<u8>),
    Error(String),
}

/// What a reply stands for: a value as bytes, an error's text as characters.
pub enum ResponseView {
    Okay,
    KeyNotExist,
    Deleted,
    Value(Seq<u8>),
    Error(Seq<char>),
}

impl View for Response {
    type V = ResponseView;

    open spec fn view(&self) -> ResponseView {
        match self {
            Response::Okay => ResponseView::Okay,
            Response::KeyNotExist => ResponseView::KeyNotExist,
            Response::Deleted => ResponseView::Deleted,
            Response::Value(v) => ResponseView::Value(v@),
            Response::Error(msg) => ResponseView::Error(msg@),
        }
    }
}

/// The bytes of a reply.
pub open spec fn spec_response_encode(r: ResponseView) -> Seq<u8> {
    match r {
        ResponseView::Okay => encode_utf8("Ok\n"@),
        ResponseView::KeyNotExist => encode_utf8("KEY_NOT_EXIST\n"@),
        ResponseView::Deleted => encode_utf8("DELETED\n"@),
        ResponseView::Value(v) => v.push(10u8),
        ResponseView::Error(msg) => encode_utf8(ERROR_PREFIX@ + msg + "\n"@),
    }
}

/// Reading a reply: nothing for no bytes or bytes that are not UTF-8;
/// otherwise the text without trailing White_Space names the outcome, an
/// error when it begins with the error prefix, and any other text is a value.
pub open spec fn spec_response_decode(input: Seq<u8>) -> Option<ResponseView> {
    if input.len() == 0 || !valid_utf8(input) {
        None
    } else {
        let t = trim_end_chars(decode_utf8(input));
        if t == "Ok"@ {
            Some(ResponseView::Okay)
        } else if t == "KEY_NOT_EXIST"@ {
            Some(ResponseView::KeyNotExist)
        } else if t == "DELETED"@ {
            Some(ResponseView::Deleted)
        } else if has_prefix_chars(t, ERROR_PREFIX@) {
            Some(ResponseView::Error(t.subrange(ERROR_PREFIX@.len() as int, t.len() as int)))
        } else {
            Some(ResponseView::Value(encode_utf8(t)))
        }
    }
}

/// Appends the bytes of a string to `buf`.
fn push_str(buf: &mut Vec<u8>, s: &str)
    ensures
        final(buf)@ == old(buf)@ + encode_utf8(s@),
{
    buf.extend_from_slice(s.as_bytes());
    assert(final(buf)@ =~= old(buf)@ + encode_utf8(s@));
}

impl Response {
    /// The reply's bytes.
    pub fn encode(&self) -> (buf: Vec<u8>)
        ensures
            buf@ == spec_response_encode(self@),
    {
        match self {
            Response::Okay => vstd::slice::slice_to_vec("Ok\n".as_bytes()),
            Response::KeyNotExist => vstd::slice::slice_to_vec("KEY_NOT_EXIST\n".as_bytes()),
            Response::Deleted => vstd::slice::slice_to_vec("DELETED\n".as_bytes()),
            Response::Value(val) => {
                let mut value = vstd::slice::slice_to_vec(val.as_slice());
                value.push(10u8);
                value
            },
            Response::Error(msg) => {
                let mut buf: Vec<u8> = Vec::new();
                push_str(&mut buf, ERROR_PREFIX);
                push_str(&mut buf, msg.as_str());
                push_str(&mut buf, "\n");
                proof {
                    lemma_encode_utf8_concat(ERROR_PREFIX@, msg@);
                    lemma_encode_utf8_concat(ERROR_PREFIX@ + msg@, "\n"@);
                    assert(buf@ =~= encode_utf8(ERROR_PREFIX@ + msg@ + "\n"@));
                }
                buf
            },
        }
    }

    /// Reads a reply from `input`.
    pub fn decode(input: &[u8]) -> (r: Option<Self>)
        ensures
            match r {
                Some(x) => spec_response_decode(input@) == Some(x@),
                None => spec_response_decode(input@) is None,
            },
    {
        if input.len() == 0 {
            return None;
        }
        let s = match str_from_utf8(input) {
            Ok(s) => s,
            Err(_) => {
                return None;
            },
        };
        proof {
            lemma_str_of_bytes(s, input@);
        }
        let t = trim_end(s);
        if str_eq(t, "Ok") {
            Some(Response::Okay)
        } else if str_eq(t, "KEY_NOT_EXIST") {
            Some(Response::KeyNotExist)
        } else if str_eq(t, "DELETED") {
            Some(Response::Deleted)
        } else if has_prefix(t, ERROR_PREFIX) {
            let start = ERROR_PREFIX.unicode_len();
            let end = t.unicode_len();
            Some(Response::Error(t.substring_char(start, end).to_owned()))
        } else {
            Some(Response::Value(vstd::slice::slice_to_vec(t.as_bytes())))
        }
    }
}

/// A reply that reads back as itself: a value must be UTF-8 text that does
/// not end in White_Space, is none of the outcome words and does not begin
/// with the error prefix; an error's text must not be empty nor end in
/// White_Space.
pub open spec fn reply_readable(r: ResponseView) -> bool {
    match r {
        ResponseView::Value(v) => valid_utf8(v) && {
            let t = decode_utf8(v);
            &&& (t.len() == 0 || !is_white_space(t.last()))
            &&& t != "Ok"@
            &&& t != "KEY_NOT_EXIST"@
            &&& t != "DELETED"@
            &&& !has_prefix_chars(t, ERROR_PREFIX@)
        },
        ResponseView::Error(msg) => msg.len() > 0 && !is_white_space(msg.last()),
        _ => true,
    }
}

/// Reading the bytes of a reply gives the reply back, for every reply that
/// `reply_readable` admits.
pub proof fn lemma_response_roundtrip(r: ResponseView)
    requires
        reply_readable(r),
    ensures
        spec_response_decode(spec_response_encode(r)) == Some(r),
{
    reveal_strlit("Ok\n");
    reveal_strlit("Ok");
    reveal_strlit("KEY_NOT_EXIST\n");
    reveal_strlit("KEY_NOT_EXIST");
    reveal_strlit("DELETED\n");
    reveal_strlit("DELETED");
    reveal_strlit("ERROR: ");
    reveal_strlit("\n");
    reveal_with_fuel(trim_end_chars, 3);
    let bytes = spec_response_encode(r);
    match r {
        ResponseView::Okay => {
            let t = "Ok\n"@;
            assert(t.drop_last() =~= "Ok"@);
            assert(trim_end_chars(t) == "Ok"@);
            assert(bytes.len() > 0);
        },
        ResponseView::KeyNotExist => {
            let t = "KEY_NOT_EXIST\n"@;
            assert(t.drop_last() =~= "KEY_NOT_EXIST"@);
            assert(trim_end_chars(t) == "KEY_NOT_EXIST"@);
            assert("KEY_NOT_EXIST"@ != "Ok"@);
            assert(bytes.len() > 0);
        },
        ResponseView::Deleted => {
            let t = "DELETED\n"@;
            assert(t.drop_last() =~= "DELETED"@);
            assert(trim_end_chars(t) == "DELETED"@);
            assert("DELETED"@ != "Ok"@);
            assert("DELETED"@ != "KEY_NOT_EXIST"@);
            assert(bytes.len() > 0);
        },
        ResponseView::Value(v) => {
            let t = decode_utf8(v);
            decode_utf8_encode_utf8(v);
            lemma_encode_newline();
            lemma_encode_utf8_concat(t, seq!['\n']);
            assert(bytes =~= encode_utf8(t + seq!['\n']));
            encode_utf8_decode_utf8(t + seq!['\n']);
            assert((t + seq!['\n']).drop_last() =~= t);
            assert(is_white_space('\n'));
            assert(trim_end_chars(t + seq!['\n']) == trim_end_chars(t));
            assert(trim_end_chars(t) == t);
        },
        ResponseView::Error(msg) => {
            let p = ERROR_PREFIX@;
            let t = p + msg + "\n"@;
            assert(t.drop_last() =~= p + msg);
            assert((p + msg).last() == msg.last());
            assert(trim_end_chars(t) == p + msg);
            assert(bytes.len() > 0) by {
                assert(t.len() > 0);
                assert(decode_utf8(encode_utf8(t)) == t);
            }
            let u = p + msg;
            assert(u[0] == 'E');
            assert(u != "Ok"@);
            assert(u != "KEY_NOT_EXIST"@) by {
                assert("KEY_NOT_EXIST"@[0] == 'K');
            }
            assert(u != "DELETED"@) by {
                assert(u.len() > 7);
            }
            assert(u.subrange(0, p.len() as int) =~= p);
            assert(u.subrange(p.len() as int, u.len() as int) =~= msg);
        },
    }
}

} // verus!
