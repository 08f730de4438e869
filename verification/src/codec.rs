//! Serialization of the two command record kinds, `Set` and `Rm`, to and from
//! bytes.
//!
//! A record is self-delimiting: a tag byte, then each string as an 8-byte
//! little-endian length followed by that many bytes of UTF-8.  Records may be
//! concatenated freely and decoded back one at a time without any outer
//! framing, which is what the segment files and their streaming load path
//! need.  The encoding is a stable on-disk contract.

use vstd::bytes::{spec_u64_from_le_bytes, spec_u64_to_le_bytes, u64_from_le_bytes, u64_to_le_bytes};
use vstd::prelude::*;
use vstd::slice::slice_subrange;
use vstd::utf8::{decode_utf8, encode_utf8, valid_utf8};

verus! {

/// Tag byte that starts every `Set` record.
pub const TAG_SET: u8 = 83;

/// Tag byte that starts every `Rm` record.
pub const TAG_RM: u8 = 82;

/// One mutation of the store: either bind a key to a value, or erase a key.
#[derive(Debug)]
pub enum Command {
    Put(String, String),
    Rm(String),
}

/// The mathematical content of a [`Command`]: its strings as character
/// sequences.
pub enum CommandModel {
    Put(Seq<char>, Seq<char>),
    Rm(Seq<char>),
}

impl View for Command {
    type V = CommandModel;

    open spec fn view(&self) -> CommandModel {
        match self {
            Command::Put(k, v) => CommandModel::Put(k@, v@),
            Command::Rm(k) => CommandModel::Rm(k@),
        }
    }
}

/// The bytes of a `Set` record whose key and value encode to the given byte
/// sequences.
pub open spec fn spec_set_record(kb: Seq<u8>, vb: Seq<u8>) -> Seq<u8> {
    seq![TAG_SET] + spec_u64_to_le_bytes(kb.len() as u64) + kb + spec_u64_to_le_bytes(
        vb.len() as u64,
    ) + vb
}

/// The bytes of an `Rm` record whose key encodes to the given byte sequence.
pub open spec fn spec_rm_record(kb: Seq<u8>) -> Seq<u8> {
    seq![TAG_RM] + spec_u64_to_le_bytes(kb.len() as u64) + kb
}

/// The exact bytes a command serializes to.
pub open spec fn spec_encode(c: CommandModel) -> Seq<u8> {
    match c {
        CommandModel::Put(k, v) => spec_set_record(encode_utf8(k), encode_utf8(v)),
        CommandModel::Rm(k) => spec_rm_record(encode_utf8(k)),
    }
}

/// True when the bytes of `b` starting at `pos` begin with the encoding of
/// command `c`.
pub open spec fn record_at(b: Seq<u8>, pos: int, c: CommandModel) -> bool {
    &&& 0 <= pos
    &&& pos + spec_encode(c).len() <= b.len()
    &&& b.subrange(pos, pos + spec_encode(c).len()) == spec_encode(c)
}

/// The tag byte of a command's record.
pub open spec fn model_tag(c: CommandModel) -> u8 {
    match c {
        CommandModel::Put(_, _) => TAG_SET,
        CommandModel::Rm(_) => TAG_RM,
    }
}

/// The key characters of a command.
pub open spec fn model_key(c: CommandModel) -> Seq<char> {
    match c {
        CommandModel::Put(k, _) => k,
        CommandModel::Rm(k) => k,
    }
}

/// The UTF-8 bytes of a command's key.
pub open spec fn model_kb(c: CommandModel) -> Seq<u8> {
    encode_utf8(model_key(c))
}

/// The UTF-8 bytes of a command's value; empty for `Rm`.
pub open spec fn model_vb(c: CommandModel) -> Seq<u8> {
    match c {
        CommandModel::Put(_, v) => encode_utf8(v),
        CommandModel::Rm(_) => Seq::empty(),
    }
}

/// How the fields of a record lie inside a buffer that holds it: where the
/// tag, the length prefixes and the string bytes sit, and how long the whole
/// record is.
pub proof fn lemma_record_shape(b: Seq<u8>, pos: int, c: CommandModel)
    requires
        record_at(b, pos, c),
        b.len() < 0x1_0000_0000_0000_0000,
    ensures
        model_kb(c).len() < 0x1_0000_0000_0000_0000,
        model_vb(c).len() < 0x1_0000_0000_0000_0000,
        b[pos] == model_tag(c),
        pos + 9 + model_kb(c).len() <= b.len(),
        b.subrange(pos + 1, pos + 9) == spec_u64_to_le_bytes(model_kb(c).len() as u64),
        b.subrange(pos + 9, pos + 9 + model_kb(c).len()) == model_kb(c),
        c is Rm ==> spec_encode(c).len() == 9 + model_kb(c).len(),
        c is Put ==> {
            let kl = model_kb(c).len();
            &&& spec_encode(c).len() == 17 + kl + model_vb(c).len()
            &&& pos + 17 + kl + model_vb(c).len() <= b.len()
            &&& b.subrange(pos + 9 + kl, pos + 17 + kl) == spec_u64_to_le_bytes(
                model_vb(c).len() as u64,
            )
            &&& b.subrange(pos + 17 + kl, pos + 17 + kl + model_vb(c).len()) == model_vb(c)
        },
{
    vstd::bytes::lemma_auto_spec_u64_to_from_le_bytes();
    let enc = spec_encode(c);
    let kb = model_kb(c);
    let kl = kb.len();
    assert(enc.len() <= b.len() - pos);
    match c {
        CommandModel::Put(_, _) => {
            let vb = model_vb(c);
            assert(enc =~= seq![TAG_SET] + spec_u64_to_le_bytes(kl as u64) + kb
                + spec_u64_to_le_bytes(vb.len() as u64) + vb);
            assert(enc.len() == 17 + kl + vb.len());
            assert(b.subrange(pos, pos + enc.len()) == enc);
            assert(b[pos] == enc[0]);
            assert(b.subrange(pos + 1, pos + 9) =~= enc.subrange(1, 9));
            assert(enc.subrange(1, 9) =~= spec_u64_to_le_bytes(kl as u64));
            assert(b.subrange(pos + 9, pos + 9 + kl as int) =~= enc.subrange(9, 9 + kl as int));
            assert(enc.subrange(9, 9 + kl as int) =~= kb);
            assert(b.subrange(pos + 9 + kl, pos + 17 + kl) =~= enc.subrange(
                9 + kl as int,
                17 + kl as int,
            ));
            assert(enc.subrange(9 + kl as int, 17 + kl as int) =~= spec_u64_to_le_bytes(
                vb.len() as u64,
            ));
            assert(b.subrange(pos + 17 + kl, pos + 17 + kl + vb.len()) =~= enc.subrange(
                17 + kl as int,
                enc.len() as int,
            ));
            assert(enc.subrange(17 + kl as int, enc.len() as int) =~= vb);
        },
        CommandModel::Rm(_) => {
            assert(enc =~= seq![TAG_RM] + spec_u64_to_le_bytes(kl as u64) + kb);
            assert(enc.len() == 9 + kl);
            assert(b.subrange(pos, pos + enc.len()) == enc);
            assert(b[pos] == enc[0]);
            assert(b.subrange(pos + 1, pos + 9) =~= enc.subrange(1, 9));
            assert(enc.subrange(1, 9) =~= spec_u64_to_le_bytes(kl as u64));
            assert(b.subrange(pos + 9, pos + 9 + kl as int) =~= enc.subrange(9, enc.len() as int));
            assert(enc.subrange(9, enc.len() as int) =~= kb);
        },
    }
}

/// At one position of one buffer, at most one command's record can start:
/// the framing is unambiguous.
pub proof fn lemma_record_unique(b: Seq<u8>, pos: int, c1: CommandModel, c2: CommandModel)
    requires
        record_at(b, pos, c1),
        record_at(b, pos, c2),
        b.len() < 0x1_0000_0000_0000_0000,
    ensures
        c1 == c2,
{
    vstd::bytes::lemma_auto_spec_u64_to_from_le_bytes();
    broadcast use vstd::utf8::encode_utf8_decode_utf8;

    lemma_record_shape(b, pos, c1);
    lemma_record_shape(b, pos, c2);
    assert(model_tag(c1) == model_tag(c2));
    let l1 = model_kb(c1).len() as u64;
    let l2 = model_kb(c2).len() as u64;
    assert(spec_u64_from_le_bytes(spec_u64_to_le_bytes(l1)) == spec_u64_from_le_bytes(
        spec_u64_to_le_bytes(l2),
    ));
    assert(l1 == l2);
    assert(model_kb(c1) == model_kb(c2));
    assert(decode_utf8(model_kb(c1)) == decode_utf8(model_kb(c2)));
    assert(model_key(c1) == model_key(c2));
    match (c1, c2) {
        (CommandModel::Put(_, v1), CommandModel::Put(_, v2)) => {
            let m1 = model_vb(c1).len() as u64;
            let m2 = model_vb(c2).len() as u64;
            assert(spec_u64_from_le_bytes(spec_u64_to_le_bytes(m1)) == spec_u64_from_le_bytes(
                spec_u64_to_le_bytes(m2),
            ));
            assert(m1 == m2);
            assert(model_vb(c1) == model_vb(c2));
            assert(decode_utf8(encode_utf8(v1)) == decode_utf8(encode_utf8(v2)));
        },
        _ => {},
    }
}

/// The concatenation of the encodings of a sequence of commands.
pub open spec fn concat_enc(cs: Seq<CommandModel>) -> Seq<u8>
    decreases cs.len(),
{
    if cs.len() == 0 {
        Seq::empty()
    } else {
        spec_encode(cs[0]) + concat_enc(cs.drop_first())
    }
}

/// True when the buffer consists of exactly these records, one after the
/// other, with nothing left over.
pub open spec fn parses_to(b: Seq<u8>, cs: Seq<CommandModel>) -> bool {
    concat_enc(cs) == b
}

/// Appending a command to a stream appends its encoding to the bytes.
pub proof fn lemma_concat_enc_push(cs: Seq<CommandModel>, c: CommandModel)
    ensures
        concat_enc(cs.push(c)) == concat_enc(cs) + spec_encode(c),
    decreases cs.len(),
{
    if cs.len() == 0 {
        assert(cs.push(c)[0] == c);
        assert(cs.push(c).drop_first() =~= Seq::<CommandModel>::empty());
        assert(concat_enc(cs.push(c).drop_first()) == Seq::<u8>::empty());
        assert(concat_enc(cs.push(c)) == spec_encode(c) + concat_enc(cs.push(c).drop_first()));
        assert(concat_enc(cs.push(c)) =~= spec_encode(c));
        assert(concat_enc(cs) + spec_encode(c) =~= spec_encode(c));
    } else {
        assert(cs.push(c).drop_first() =~= cs.drop_first().push(c));
        lemma_concat_enc_push(cs.drop_first(), c);
        assert(cs.push(c)[0] == cs[0]);
        assert(concat_enc(cs.push(c)) =~= concat_enc(cs) + spec_encode(c));
    }
}

/// A record lies at a position of a suffix exactly when it lies at the
/// shifted position of the whole buffer.
pub proof fn lemma_record_at_shift(b: Seq<u8>, k: int, pos: int, c: CommandModel)
    requires
        0 <= k <= b.len(),
        0 <= pos,
    ensures
        record_at(b.skip(k), pos, c) ==> record_at(b, k + pos, c),
{
    let n = spec_encode(c).len();
    if record_at(b.skip(k), pos, c) {
        assert(b.subrange(k + pos, k + pos + n) =~= b.skip(k).subrange(pos, pos + n));
    }
}

/// Inside a buffer tiled by whole records, every byte position that is a
/// record boundary of some partial parse has a record starting at it.
pub proof fn lemma_stream_boundary(b: Seq<u8>, cs: Seq<CommandModel>, rs: Seq<CommandModel>, pos: int)
    requires
        parses_to(b, cs),
        concat_enc(rs) == b.subrange(0, pos),
        0 <= pos < b.len(),
        b.len() < 0x1_0000_0000_0000_0000,
    ensures
        exists|c: CommandModel| record_at(b, pos, c),
    decreases rs.len(),
{
    if rs.len() == 0 {
        assert(b.subrange(0, pos) =~= Seq::<u8>::empty() ==> pos == 0);
        assert(pos == 0);
        assert(cs.len() > 0);
        let c0 = cs[0];
        let n0 = spec_encode(c0).len();
        assert(concat_enc(cs) == spec_encode(c0) + concat_enc(cs.drop_first()));
        assert(n0 <= b.len());
        assert(b.subrange(0, n0 as int) =~= spec_encode(c0));
        assert(record_at(b, 0, c0));
    } else {
        assert(cs.len() > 0);
        let c0 = cs[0];
        let r0 = rs[0];
        let n0 = spec_encode(c0).len();
        let m0 = spec_encode(r0).len();
        assert(concat_enc(cs) == spec_encode(c0) + concat_enc(cs.drop_first()));
        assert(concat_enc(rs) == spec_encode(r0) + concat_enc(rs.drop_first()));
        assert(m0 <= pos);
        assert(b.subrange(0, n0 as int) =~= spec_encode(c0));
        assert(record_at(b, 0, c0));
        assert(b.subrange(0, m0 as int) =~= b.subrange(0, pos).subrange(0, m0 as int));
        assert(b.subrange(0, m0 as int) =~= spec_encode(r0));
        assert(record_at(b, 0, r0));
        lemma_record_unique(b, 0, c0, r0);
        assert(c0 == r0);
        assert(m0 == n0);
        let b2 = b.skip(n0 as int);
        let cstail = concat_enc(cs.drop_first());
        assert(spec_encode(c0) + cstail == b);
        assert(cstail.len() == b.len() - n0);
        assert forall|i: int| 0 <= i < b.len() - n0 implies cstail[i] == b[n0 + i] by {
            assert((spec_encode(c0) + cstail)[n0 + i] == cstail[i]);
        }
        assert(cstail =~= b2);
        let tail = concat_enc(rs.drop_first());
        assert(spec_encode(r0) + tail == b.subrange(0, pos));
        assert(tail.len() == pos - n0);
        assert forall|i: int| 0 <= i < pos - n0 implies tail[i] == b[n0 + i] by {
            assert((spec_encode(r0) + tail)[n0 + i] == tail[i]);
            assert(b.subrange(0, pos)[n0 + i] == b[n0 + i]);
        }
        assert(tail =~= b2.subrange(0, pos - n0));
        lemma_stream_boundary(b2, cs.drop_first(), rs.drop_first(), pos - n0);
        let cw = choose|c: CommandModel| #[trigger] record_at(b2, pos - n0, c);
        lemma_record_at_shift(b, n0 as int, pos - n0, cw);
        assert(record_at(b, pos, cw));
    }
}

/// The byte views of decoded entries: the command of each.
pub open spec fn views_of(s: Seq<(usize, usize, Command)>) -> Seq<CommandModel> {
    s.map_values(|t: (usize, usize, Command)| t.2@)
}

/// Decode a whole buffer as a stream of records.
///
/// Returns every record with its start offset and byte length, in order, or
/// `None` when the buffer is not a whole number of records — a partial or
/// malformed trailing record means the data is corrupt.
pub fn decode_all(buf: &Vec<u8>) -> (r: Option<Vec<(usize, usize, Command)>>)
    ensures
        match r {
            Some(v) => {
                &&& parses_to(buf@, views_of(v@))
                &&& forall|i: int|
                    0 <= i < v@.len() ==> {
                        &&& record_at(buf@, v@[i].0 as int, v@[i].2@)
                        &&& v@[i].1 == spec_encode(v@[i].2@).len()
                    }
                &&& v@.len() > 0 ==> v@[0].0 == 0
                &&& forall|i: int|
                    0 <= i < v@.len() - 1 ==> v@[i + 1].0 == v@[i].0 + v@[i].1
                &&& v@.len() > 0 ==> v@[v@.len() - 1].0 + v@[v@.len() - 1].1 == buf@.len()
                &&& v@.len() == 0 ==> buf@.len() == 0
            },
            None => forall|cs: Seq<CommandModel>| !parses_to(buf@, cs),
        },
{
    let mut out: Vec<(usize, usize, Command)> = Vec::new();
    let mut pos: usize = 0;
    let ghost mut rs: Seq<CommandModel> = Seq::empty();
    while pos < buf.len()
        invariant
            pos <= buf@.len(),
            rs == views_of(out@),
            concat_enc(rs) == buf@.subrange(0, pos as int),
            forall|i: int|
                0 <= i < out@.len() ==> {
                    &&& record_at(buf@, out@[i].0 as int, out@[i].2@)
                    &&& out@[i].1 == spec_encode(out@[i].2@).len()
                },
            out@.len() > 0 ==> out@[0].0 == 0,
            forall|i: int| 0 <= i < out@.len() - 1 ==> out@[i + 1].0 == out@[i].0 + out@[i].1,
            out@.len() > 0 ==> out@[out@.len() - 1].0 + out@[out@.len() - 1].1 == pos,
            out@.len() == 0 ==> pos == 0,
        decreases buf@.len() - pos,
    {
        match Command::from_reader(buf.as_slice(), pos) {
            Some((c, n)) => {
                proof {
                    lemma_record_shape(buf@, pos as int, c@);
                    lemma_concat_enc_push(rs, c@);
                    assert(buf@.subrange(0, pos + n) =~= buf@.subrange(0, pos as int)
                        + buf@.subrange(pos as int, pos + n));
                }
                out.push((pos, n, c));
                proof {
                    rs = rs.push(c@);
                    assert(views_of(out@) =~= rs);
                }
                pos = pos + n;
            },
            None => {
                proof {
                    assert forall|cs: Seq<CommandModel>| !parses_to(buf@, cs) by {
                        if parses_to(buf@, cs) {
                            lemma_stream_boundary(buf@, cs, rs, pos as int);
                        }
                    }
                }
                return None;
            },
        }
    }
    proof {
        assert(buf@.subrange(0, buf@.len() as int) =~= buf@);
    }
    Some(out)
}

/// Relies on `core::str::from_utf8` and `str::to_owned`: conversion succeeds
/// exactly on valid UTF-8 input, and returns the characters that the bytes
/// encode.
#[verifier::external_body]
pub(crate) fn bytes_to_string(v: &[u8]) -> (r: Option<String>)
    ensures
        r is Some <==> valid_utf8(v@),
        r is Some ==> r.unwrap()@ == decode_utf8(v@),
{
    match core::str::from_utf8(v) {
        Ok(s) => Some(s.to_owned()),
        Err(_) => None,
    }
}

impl Command {
    /// Decode exactly one record that starts at `pos` in `buf`.
    ///
    /// Returns the command and the count of bytes its record occupies, or
    /// `None` when no whole record starts there — whether the bytes are
    /// malformed or merely truncated.  The contract is exact in both
    /// directions: a command comes back precisely when its record lies at
    /// `pos`.
    #[verifier::rlimit(50)]
    pub fn from_reader(buf: &[u8], pos: usize) -> (r: Option<(Command, usize)>)
        requires
            pos <= buf@.len(),
        ensures
            match r {
                Some((c, n)) => {
                    &&& n == spec_encode(c@).len()
                    &&& record_at(buf@, pos as int, c@)
                },
                None => forall|c: CommandModel| !record_at(buf@, pos as int, c),
            },
    {
        proof {
            vstd::bytes::lemma_auto_spec_u64_to_from_le_bytes();
            broadcast use vstd::utf8::encode_utf8_valid_utf8;
            broadcast use vstd::utf8::encode_utf8_decode_utf8;
            broadcast use vstd::utf8::decode_utf8_encode_utf8;

        }
        let len = buf.len();
        if len - pos < 9 {
            proof {
                assert forall|c: CommandModel| !record_at(buf@, pos as int, c) by {
                    if record_at(buf@, pos as int, c) {
                        lemma_record_shape(buf@, pos as int, c);
                    }
                }
            }
            return None;
        }
        let tag = buf[pos];
        if tag != TAG_SET && tag != TAG_RM {
            proof {
                assert forall|c: CommandModel| !record_at(buf@, pos as int, c) by {
                    if record_at(buf@, pos as int, c) {
                        lemma_record_shape(buf@, pos as int, c);
                    }
                }
            }
            return None;
        }
        let klen_bytes = slice_subrange(buf, pos + 1, pos + 9);
        let klen = u64_from_le_bytes(klen_bytes);
        let avail_k = len - (pos + 9);
        if klen > avail_k as u64 {
            proof {
                assert forall|c: CommandModel| !record_at(buf@, pos as int, c) by {
                    if record_at(buf@, pos as int, c) {
                        lemma_record_shape(buf@, pos as int, c);
                        assert(model_kb(c).len() as u64 == klen);
                    }
                }
            }
            return None;
        }
        let klen_us = klen as usize;
        let kb = slice_subrange(buf, pos + 9, pos + 9 + klen_us);
        let key = match bytes_to_string(kb) {
            Some(s) => s,
            None => {
                proof {
                    assert forall|c: CommandModel| !record_at(buf@, pos as int, c) by {
                        if record_at(buf@, pos as int, c) {
                            lemma_record_shape(buf@, pos as int, c);
                            assert(model_kb(c).len() as u64 == klen);
                            assert(model_kb(c) == kb@);
                        }
                    }
                }
                return None;
            },
        };
        if tag == TAG_RM {
            let c = Command::Rm(key);
            proof {
                assert(encode_utf8(key@) == kb@);
                assert(spec_encode(c@) =~= buf@.subrange(pos as int, pos + 9 + klen_us));
                assert(buf@.subrange(pos as int, pos + spec_encode(c@).len()) =~= spec_encode(
                    c@,
                ));
            }
            return Some((c, 9 + klen_us));
        }
        let pos2 = pos + 9 + klen_us;
        if len - pos2 < 8 {
            proof {
                assert forall|c: CommandModel| !record_at(buf@, pos as int, c) by {
                    if record_at(buf@, pos as int, c) {
                        lemma_record_shape(buf@, pos as int, c);
                        assert(model_kb(c).len() as u64 == klen);
                    }
                }
            }
            return None;
        }
        let vlen_bytes = slice_subrange(buf, pos2, pos2 + 8);
        let vlen = u64_from_le_bytes(vlen_bytes);
        let avail_v = len - (pos2 + 8);
        if vlen > avail_v as u64 {
            proof {
                assert forall|c: CommandModel| !record_at(buf@, pos as int, c) by {
                    if record_at(buf@, pos as int, c) {
                        lemma_record_shape(buf@, pos as int, c);
                        assert(model_kb(c).len() as u64 == klen);
                        assert(model_vb(c).len() as u64 == vlen);
                    }
                }
            }
            return None;
        }
        let vlen_us = vlen as usize;
        let vb = slice_subrange(buf, pos2 + 8, pos2 + 8 + vlen_us);
        let val = match bytes_to_string(vb) {
            Some(s) => s,
            None => {
                proof {
                    assert forall|c: CommandModel| !record_at(buf@, pos as int, c) by {
                        if record_at(buf@, pos as int, c) {
                            lemma_record_shape(buf@, pos as int, c);
                            assert(model_kb(c).len() as u64 == klen);
                            assert(model_vb(c).len() as u64 == vlen);
                            assert(model_vb(c) == vb@);
                        }
                    }
                }
                return None;
            },
        };
        let c = Command::Put(key, val);
        proof {
            assert(encode_utf8(key@) == kb@);
            assert(encode_utf8(val@) == vb@);
            assert(spec_encode(c@) =~= buf@.subrange(pos as int, pos2 + 8 + vlen_us));
            assert(buf@.subrange(pos as int, pos + spec_encode(c@).len()) =~= spec_encode(c@));
        }
        Some((c, 17 + klen_us + vlen_us))
    }

    /// Serialize one command to its on-disk bytes.
    pub fn ser(&self) -> (r: Vec<u8>)
        ensures
            r@ == spec_encode(self@),
    {
        match self {
            Command::Put(k, v) => {
                let kb = k.as_str().as_bytes();
                let vb = v.as_str().as_bytes();
                let mut out: Vec<u8> = Vec::new();
                out.push(TAG_SET);
                let klen = u64_to_le_bytes(kb.len() as u64);
                out.extend_from_slice(klen.as_slice());
                out.extend_from_slice(kb);
                let vlen = u64_to_le_bytes(vb.len() as u64);
                out.extend_from_slice(vlen.as_slice());
                out.extend_from_slice(vb);
                proof {
                    assert(out@ =~= spec_encode(self@));
                }
                out
            },
            Command::Rm(k) => {
                let kb = k.as_str().as_bytes();
                let mut out: Vec<u8> = Vec::new();
                out.push(TAG_RM);
                let klen = u64_to_le_bytes(kb.len() as u64);
                out.extend_from_slice(klen.as_slice());
                out.extend_from_slice(kb);
                proof {
                    assert(out@ =~= spec_encode(self@));
                }
                out
            },
        }
    }
}

} // verus!
