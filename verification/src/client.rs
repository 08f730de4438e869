//! The client's side of the wire protocol: framing the three request kinds
//! and reading the three reply kinds.
//!
//! The socket that carries the bytes is not here: it belongs to the program
//! around the library.

use crate::codec::bytes_to_string;
use crate::protocol::Proto;
use vstd::prelude::*;
use vstd::slice::slice_to_vec;
use vstd::utf8::{decode_utf8, encode_utf8, valid_utf8};

verus! {

/// The request items for `set`: the header and the two arguments.
pub fn set_request(key: String, val: String) -> (r: Proto)
    ensures
        r matches Proto::List(items) && items@.len() == 3 && (items@[0] matches Proto::Str(h) && h@
            == "SET"@) && (items@[1] matches Proto::Bulk(k) && k@ == encode_utf8(key@)) && (
        items@[2] matches Proto::Bulk(v) && v@ == encode_utf8(val@)),
{
    let mut items: Vec<Proto> = Vec::new();
    items.push(Proto::Str("SET".to_owned()));
    items.push(Proto::Bulk(slice_to_vec(key.as_str().as_bytes())));
    items.push(Proto::Bulk(slice_to_vec(val.as_str().as_bytes())));
    Proto::List(items)
}

/// The request items for `get`.
pub fn get_request(key: String) -> (r: Proto)
    ensures
        r matches Proto::List(items) && items@.len() == 2 && (items@[0] matches Proto::Str(h) && h@
            == "GET"@) && (items@[1] matches Proto::Bulk(k) && k@ == encode_utf8(key@)),
{
    let mut items: Vec<Proto> = Vec::new();
    items.push(Proto::Str("GET".to_owned()));
    items.push(Proto::Bulk(slice_to_vec(key.as_str().as_bytes())));
    Proto::List(items)
}

/// The request items for `rm`.
pub fn rm_request(key: String) -> (r: Proto)
    ensures
        r matches Proto::List(items) && items@.len() == 2 && (items@[0] matches Proto::Str(h) && h@
            == "RM"@) && (items@[1] matches Proto::Bulk(k) && k@ == encode_utf8(key@)),
{
    let mut items: Vec<Proto> = Vec::new();
    items.push(Proto::Str("RM".to_owned()));
    items.push(Proto::Bulk(slice_to_vec(key.as_str().as_bytes())));
    Proto::List(items)
}

/// Read a `set` reply: any simple string is success; anything else comes
/// back to the caller as the failure.
pub fn read_set_reply(p: Proto) -> (r: Result<(), Proto>)
    ensures
        match r {
            Ok(_) => p is Str,
            Err(q) => q == p && !(p is Str),
        },
{
    match p {
        Proto::Str(_) => Ok(()),
        other => Err(other),
    }
}

/// Read a `get` reply: a UTF-8 bulk is the value, null means the key is not
/// held; anything else comes back as the failure.
pub fn read_get_reply(p: Proto) -> (r: Result<Option<String>, Proto>)
    ensures
        match r {
            Ok(opt) => match opt {
                Some(s) => p matches Proto::Bulk(v) && valid_utf8(v@) && s@ == decode_utf8(v@),
                None => p is Null,
            },
            Err(q) => q == p && !(p is Null) && !(p matches Proto::Bulk(v) && valid_utf8(v@)),
        },
{
    match p {
        Proto::Bulk(v) => match bytes_to_string(v.as_slice()) {
            Some(s) => Ok(Some(s)),
            None => Err(Proto::Bulk(v)),
        },
        Proto::Null => Ok(None),
        other => Err(other),
    }
}

/// Read an `rm` reply: a simple string is success, null says the key was
/// not held; anything else comes back as the failure.
pub fn read_rm_reply(p: Proto) -> (r: Result<bool, Proto>)
    ensures
        match r {
            Ok(b) => (b <==> p is Str) && (b || p is Null),
            Err(q) => q == p && !(p is Str) && !(p is Null),
        },
{
    match p {
        Proto::Str(_) => Ok(true),
        Proto::Null => Ok(false),
        other => Err(other),
    }
}

} // verus!
