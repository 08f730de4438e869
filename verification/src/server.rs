//! The server's decision core: assembling a client request from protocol
//! items one at a time, and turning an engine outcome into the reply item.
//!
//! The socket loop that feeds items in and writes the reply out is not here:
//! it belongs to the program around the library.

use crate::codec::bytes_to_string;
use crate::protocol::Proto;
use vstd::prelude::*;
use vstd::slice::slice_to_vec;
use vstd::utf8::{decode_utf8, encode_utf8, is_ascii_chars, is_ascii_chars_encode_utf8, valid_utf8};

verus! {

/// One complete client request.
pub enum Request {
    Put(String, String),
    Get(String),
    Rm(String),
}

/// Where request assembly stands between items.
pub enum ReqState {
    Unknown,
    Get,
    Rm,
    Set0,
    Set1(String),
}

/// Why an item was refused during request assembly.
#[derive(Debug)]
pub enum ReqError {
    /// The item's kind does not fit at this point of a request.
    UnexpectedItem,
    /// The header names no known command.
    UnknownCommand,
    /// A bulk argument is not valid UTF-8.
    BadBulk,
}

/// The bytes of the `SET` header.
pub open spec fn set_header() -> Seq<u8> {
    seq![83u8, 69u8, 84u8]
}

/// The bytes of the `GET` header.
pub open spec fn get_header() -> Seq<u8> {
    seq![71u8, 69u8, 84u8]
}

/// The bytes of the `RM` header.
pub open spec fn rm_header() -> Seq<u8> {
    seq![82u8, 77u8]
}

/// The command headers spell `SET`, `GET` and `RM` in ASCII.
pub proof fn lemma_header_bytes()
    ensures
        encode_utf8("SET"@) == set_header(),
        encode_utf8("GET"@) == get_header(),
        encode_utf8("RM"@) == rm_header(),
{
    reveal_strlit("SET");
    reveal_strlit("GET");
    reveal_strlit("RM");
    assert("SET"@ =~= seq!['S', 'E', 'T']);
    assert("GET"@ =~= seq!['G', 'E', 'T']);
    assert("RM"@ =~= seq!['R', 'M']);
    assert(is_ascii_chars("SET"@));
    assert(is_ascii_chars("GET"@));
    assert(is_ascii_chars("RM"@));
    is_ascii_chars_encode_utf8("SET"@);
    is_ascii_chars_encode_utf8("GET"@);
    is_ascii_chars_encode_utf8("RM"@);
    assert(encode_utf8("SET"@) =~= set_header());
    assert(encode_utf8("GET"@) =~= get_header());
    assert(encode_utf8("RM"@) =~= rm_header());
}

/// True exactly when the string's UTF-8 is these three bytes.
fn bytes_match3(s: &str, b0: u8, b1: u8, b2: u8) -> (r: bool)
    ensures
        r == (encode_utf8(s@) == seq![b0, b1, b2]),
{
    let b = s.as_bytes();
    if b.len() != 3 {
        proof {
            assert(encode_utf8(s@).len() != 3);
        }
        return false;
    }
    let r = b[0] == b0 && b[1] == b1 && b[2] == b2;
    proof {
        if r {
            assert(encode_utf8(s@) =~= seq![b0, b1, b2]);
        } else {
            if encode_utf8(s@) == seq![b0, b1, b2] {
                assert(b@[0] == b0 && b@[1] == b1 && b@[2] == b2);
            }
        }
    }
    r
}

/// True exactly when the string's UTF-8 is these two bytes.
fn bytes_match2(s: &str, b0: u8, b1: u8) -> (r: bool)
    ensures
        r == (encode_utf8(s@) == seq![b0, b1]),
{
    let b = s.as_bytes();
    if b.len() != 2 {
        proof {
            assert(encode_utf8(s@).len() != 2);
        }
        return false;
    }
    let r = b[0] == b0 && b[1] == b1;
    proof {
        if r {
            assert(encode_utf8(s@) =~= seq![b0, b1]);
        } else {
            if encode_utf8(s@) == seq![b0, b1] {
                assert(b@[0] == b0 && b@[1] == b1);
            }
        }
    }
    r
}

/// Feed one protocol item into the request assembly: the next state, and
/// the finished request once its last argument has arrived.
pub fn req_step(st: ReqState, item: Proto) -> (r: Result<(ReqState, Option<Request>), ReqError>)
    ensures
        match st {
            ReqState::Unknown => match item {
                Proto::Str(h) => {
                    &&& (h@ == "SET"@ ==> (r matches Ok(t) && t.0 is Set0 && t.1 is None))
                    &&& (h@ == "GET"@ ==> (r matches Ok(t) && t.0 is Get && t.1 is None))
                    &&& (h@ == "RM"@ ==> (r matches Ok(t) && t.0 is Rm && t.1 is None))
                    &&& (!(h@ == "SET"@ || h@ == "GET"@ || h@ == "RM"@) ==> (r matches Err(e)
                        && e is UnknownCommand))
                },
                _ => r matches Err(e) && e is UnexpectedItem,
            },
            ReqState::Get => match item {
                Proto::Bulk(v) => {
                    &&& (valid_utf8(v@) ==> (r matches Ok(t) && t.0 is Unknown && (
                    t.1 matches Some(req) && req matches Request::Get(k) && k@ == decode_utf8(
                        v@,
                    ))))
                    &&& (!valid_utf8(v@) ==> (r matches Err(e) && e is BadBulk))
                },
                _ => r matches Err(e) && e is UnexpectedItem,
            },
            ReqState::Rm => match item {
                Proto::Bulk(v) => {
                    &&& (valid_utf8(v@) ==> (r matches Ok(t) && t.0 is Unknown && (
                    t.1 matches Some(req) && req matches Request::Rm(k) && k@ == decode_utf8(
                        v@,
                    ))))
                    &&& (!valid_utf8(v@) ==> (r matches Err(e) && e is BadBulk))
                },
                _ => r matches Err(e) && e is UnexpectedItem,
            },
            ReqState::Set0 => match item {
                Proto::Bulk(v) => {
                    &&& (valid_utf8(v@) ==> (r matches Ok(t) && (t.0 matches ReqState::Set1(k)
                        && k@ == decode_utf8(v@)) && t.1 is None))
                    &&& (!valid_utf8(v@) ==> (r matches Err(e) && e is BadBulk))
                },
                _ => r matches Err(e) && e is UnexpectedItem,
            },
            ReqState::Set1(key) => match item {
                Proto::Bulk(v) => {
                    &&& (valid_utf8(v@) ==> (r matches Ok(t) && t.0 is Unknown && (
                    t.1 matches Some(req) && req matches Request::Put(k2, val) && k2 == key
                        && val@ == decode_utf8(v@))))
                    &&& (!valid_utf8(v@) ==> (r matches Err(e) && e is BadBulk))
                },
                _ => r matches Err(e) && e is UnexpectedItem,
            },
        },
{
    proof {
        lemma_header_bytes();
        broadcast use vstd::utf8::encode_utf8_decode_utf8;

    }
    match st {
        ReqState::Unknown => match item {
            Proto::Str(h) => {
                if bytes_match3(h.as_str(), 83, 69, 84) {
                    proof {
                        assert(encode_utf8(h@) == encode_utf8("SET"@));
                        assert(decode_utf8(encode_utf8(h@)) == decode_utf8(encode_utf8("SET"@)));
                        assert(h@ == "SET"@);
                    }
                    Ok((ReqState::Set0, None))
                } else if bytes_match3(h.as_str(), 71, 69, 84) {
                    proof {
                        assert(encode_utf8(h@) == encode_utf8("GET"@));
                        assert(decode_utf8(encode_utf8(h@)) == decode_utf8(encode_utf8("GET"@)));
                        assert(h@ == "GET"@);
                    }
                    Ok((ReqState::Get, None))
                } else if bytes_match2(h.as_str(), 82, 77) {
                    proof {
                        assert(encode_utf8(h@) == encode_utf8("RM"@));
                        assert(decode_utf8(encode_utf8(h@)) == decode_utf8(encode_utf8("RM"@)));
                        assert(h@ == "RM"@);
                    }
                    Ok((ReqState::Rm, None))
                } else {
                    Err(ReqError::UnknownCommand)
                }
            },
            _ => Err(ReqError::UnexpectedItem),
        },
        ReqState::Get => match item {
            Proto::Bulk(v) => match bytes_to_string(v.as_slice()) {
                Some(k) => Ok((ReqState::Unknown, Some(Request::Get(k)))),
                None => Err(ReqError::BadBulk),
            },
            _ => Err(ReqError::UnexpectedItem),
        },
        ReqState::Rm => match item {
            Proto::Bulk(v) => match bytes_to_string(v.as_slice()) {
                Some(k) => Ok((ReqState::Unknown, Some(Request::Rm(k)))),
                None => Err(ReqError::BadBulk),
            },
            _ => Err(ReqError::UnexpectedItem),
        },
        ReqState::Set0 => match item {
            Proto::Bulk(v) => match bytes_to_string(v.as_slice()) {
                Some(k) => Ok((ReqState::Set1(k), None)),
                None => Err(ReqError::BadBulk),
            },
            _ => Err(ReqError::UnexpectedItem),
        },
        ReqState::Set1(key) => match item {
            Proto::Bulk(v) => match bytes_to_string(v.as_slice()) {
                Some(val) => Ok((ReqState::Unknown, Some(Request::Put(key, val)))),
                None => Err(ReqError::BadBulk),
            },
            _ => Err(ReqError::UnexpectedItem),
        },
    }
}

/// What the engine answered: a set/remove outcome or a get outcome, with
/// failures already rendered to text.
pub enum Reply {
    SR(Result<(), String>),
    G(Result<Option<String>, String>),
}

/// The protocol item one engine outcome is answered with.
pub fn reply_item(rep: Reply) -> (r: Proto)
    ensures
        match rep {
            Reply::SR(res) => match res {
                Ok(_) => r matches Proto::Str(s) && s@.len() == 0,
                Err(e) => r matches Proto::Fail(m) && m == e,
            },
            Reply::G(res) => match res {
                Ok(opt) => match opt {
                    Some(v) => r matches Proto::Bulk(b) && b@ == encode_utf8(v@),
                    None => r is Null,
                },
                Err(e) => r matches Proto::Fail(m) && m == e,
            },
        },
{
    match rep {
        Reply::SR(res) => match res {
            Ok(_) => Proto::Str(String::new()),
            Err(e) => Proto::Fail(e),
        },
        Reply::G(res) => match res {
            Ok(opt) => match opt {
                Some(v) => Proto::Bulk(slice_to_vec(v.as_str().as_bytes())),
                None => Proto::Null,
            },
            Err(e) => Proto::Fail(e),
        },
    }
}

} // verus!
