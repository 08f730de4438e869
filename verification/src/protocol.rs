//! The wire protocol: five item kinds framed by CRLF.
//!
//! - Simple string: `+<utf8>\r\n` — the content may not contain CR or LF.
//! - Error:         `-<utf8>\r\n` — same restriction.
//! - Bulk:          `$<decimal length>\r\n<bytes>\r\n`.
//! - Null:          `$-1\r\n`.
//! - Sequence:      the items one after the other, with no outer header.
//!
//! [`Proto::ser`] produces exactly this encoding; the decoders accept
//! exactly it (lengths in canonical decimal), one item at a time, and never
//! produce a sequence — a reader assembles those itself.

use crate::codec::bytes_to_string;
use crate::file::{
    canonical_digits, dec_digits, dec_value, lemma_dec_digits, lemma_dec_value_prefix_le,
    lemma_dec_value_step, lemma_digits_roundtrip, u64_to_dec,
};
use vstd::prelude::*;
use vstd::slice::slice_subrange;
use vstd::utf8::{decode_utf8, encode_utf8, valid_utf8};

verus! {

broadcast use vstd::std_specs::vec::axiom_vec_index_decreases, vstd::std_specs::vec::axiom_vec_decreases_to_view, vstd::seq::axiom_seq_index_decreases, vstd::seq::axiom_seq_subrange_decreases;

/// One protocol item.
#[derive(Debug)]
pub enum Proto {
    /// A run of items sent back to back.
    List(Vec<Proto>),
    /// Simple string; must not contain CR or LF.
    Str(String),
    /// Error string; must not contain CR or LF.
    Fail(String),
    /// Length-prefixed byte string.
    Bulk(Vec<u8>),
    /// The null reply.
    Null,
}

/// The CRLF terminator.
pub open spec fn crlf() -> Seq<u8> {
    seq![13u8, 10u8]
}

/// True when no byte is a CR or LF.
pub open spec fn no_crlf(b: Seq<u8>) -> bool {
    forall|i: int| 0 <= i < b.len() ==> #[trigger] b[i] != 13 && b[i] != 10
}

/// The exact bytes one item encodes to.
pub open spec fn proto_enc(p: Proto) -> Seq<u8>
    decreases p,
{
    match p {
        Proto::List(v) => items_enc(v@),
        Proto::Str(s) => seq![43u8] + encode_utf8(s@) + crlf(),
        Proto::Fail(e) => seq![45u8] + encode_utf8(e@) + crlf(),
        Proto::Bulk(b) => seq![36u8] + dec_digits(b@.len()) + crlf() + b@ + crlf(),
        Proto::Null => seq![36u8, 45u8, 49u8] + crlf(),
    }
}

/// The bytes of a run of items, one after the other.
pub open spec fn items_enc(items: Seq<Proto>) -> Seq<u8>
    decreases items,
{
    if items.len() == 0 {
        Seq::empty()
    } else {
        proto_enc(items[0]) + items_enc(items.drop_first())
    }
}

/// Serializing one more item appends its bytes.
pub proof fn lemma_items_enc_push(items: Seq<Proto>, p: Proto)
    ensures
        items_enc(items.push(p)) == items_enc(items) + proto_enc(p),
    decreases items,
{
    if items.len() == 0 {
        assert(items.push(p)[0] == p);
        assert(items.push(p).drop_first() =~= Seq::<Proto>::empty());
        assert(items_enc(items.push(p)) == proto_enc(p) + items_enc(Seq::<Proto>::empty()));
        assert(items_enc(items.push(p)) =~= items_enc(items) + proto_enc(p));
    } else {
        assert(items.push(p)[0] == items[0]);
        assert(items.push(p).drop_first() =~= items.drop_first().push(p));
        lemma_items_enc_push(items.drop_first(), p);
        assert(items_enc(items.push(p)) == proto_enc(items[0]) + items_enc(
            items.drop_first().push(p),
        ));
        assert(items_enc(items.push(p)) =~= items_enc(items) + proto_enc(p));
    }
}

/// A well-formed single item: the string kinds carry no CR or LF, and it is
/// not itself a sequence.
pub open spec fn flat_wf(p: Proto) -> bool {
    match p {
        Proto::List(_) => false,
        Proto::Str(s) => no_crlf(encode_utf8(s@)),
        Proto::Fail(e) => no_crlf(encode_utf8(e@)),
        Proto::Bulk(_) => true,
        Proto::Null => true,
    }
}

/// True when the encoding of well-formed single item `p` lies at `pos`.
pub open spec fn item_at(b: Seq<u8>, pos: int, p: Proto) -> bool {
    &&& flat_wf(p)
    &&& 0 <= pos
    &&& pos + proto_enc(p).len() <= b.len()
    &&& b.subrange(pos, pos + proto_enc(p).len()) == proto_enc(p)
}

impl Proto {
    /// Serialize this item — for a sequence, its items back to back — to
    /// wire bytes.
    pub fn ser(&self) -> (r: Vec<u8>)
        ensures
            r@ == proto_enc(*self),
        decreases *self,
    {
        match self {
            Proto::Str(s) => {
                let mut out: Vec<u8> = Vec::new();
                out.push(43);
                out.extend_from_slice(s.as_str().as_bytes());
                out.push(13);
                out.push(10);
                proof {
                    assert(out@ =~= proto_enc(*self));
                }
                out
            },
            Proto::Fail(e) => {
                let mut out: Vec<u8> = Vec::new();
                out.push(45);
                out.extend_from_slice(e.as_str().as_bytes());
                out.push(13);
                out.push(10);
                proof {
                    assert(out@ =~= proto_enc(*self));
                }
                out
            },
            Proto::Bulk(b) => {
                let mut out: Vec<u8> = Vec::new();
                out.push(36);
                let digits = u64_to_dec(b.len() as u64);
                out.extend_from_slice(digits.as_slice());
                out.push(13);
                out.push(10);
                out.extend_from_slice(b.as_slice());
                out.push(13);
                out.push(10);
                proof {
                    assert(out@ =~= proto_enc(*self));
                }
                out
            },
            Proto::Null => {
                let mut out: Vec<u8> = Vec::new();
                out.push(36);
                out.push(45);
                out.push(49);
                out.push(13);
                out.push(10);
                proof {
                    assert(out@ =~= proto_enc(*self));
                }
                out
            },
            Proto::List(v) => {
                proof {
                    assert(decreases_to!(*self => v@));
                }
                ser_items(v.as_slice())
            },
        }
    }
}

/// Serialize a run of items, one after the other.
fn ser_items(items: &[Proto]) -> (r: Vec<u8>)
    ensures
        r@ == items_enc(items@),
    decreases items@,
{
    let n = items.len();
    let mut out: Vec<u8> = Vec::new();
    let mut i: usize = 0;
    while i < n
        invariant
            n == items@.len(),
            0 <= i <= n,
            out@ == items_enc(items@.take(i as int)),
        decreases n - i,
    {
        let part = vstd::slice::slice_index_get(items, i).ser();
        out.extend_from_slice(part.as_slice());
        proof {
            assert(items@.take(i + 1).drop_last() =~= items@.take(i as int));
            assert(items@.take(i + 1) =~= items@.take(i as int).push(items@[i as int]));
            lemma_items_enc_push(items@.take(i as int), items@[i as int]);
        }
        i = i + 1;
    }
    proof {
        assert(items@.take(n as int) =~= items@);
    }
    out
}

/// How the pieces of a well-formed item lie inside a buffer holding its
/// encoding: tag, content, separators, and total length.
pub proof fn lemma_item_shape(b: Seq<u8>, pos: int, p: Proto)
    requires
        item_at(b, pos, p),
    ensures
        match p {
            Proto::Str(s) => {
                let c = encode_utf8(s@);
                &&& b[pos] == 43
                &&& proto_enc(p).len() == c.len() + 3
                &&& b.subrange(pos + 1, pos + 1 + c.len()) == c
                &&& b[pos + 1 + c.len()] == 13
                &&& b[pos + 2 + c.len()] == 10
                &&& no_crlf(c)
            },
            Proto::Fail(e) => {
                let c = encode_utf8(e@);
                &&& b[pos] == 45
                &&& proto_enc(p).len() == c.len() + 3
                &&& b.subrange(pos + 1, pos + 1 + c.len()) == c
                &&& b[pos + 1 + c.len()] == 13
                &&& b[pos + 2 + c.len()] == 10
                &&& no_crlf(c)
            },
            Proto::Bulk(d) => {
                let dg = dec_digits(d@.len());
                &&& b[pos] == 36
                &&& proto_enc(p).len() == 5 + dg.len() + d@.len()
                &&& b.subrange(pos + 1, pos + 1 + dg.len()) == dg
                &&& canonical_digits(dg)
                &&& dec_value(dg) == d@.len()
                &&& b[pos + 1 + dg.len()] == 13
                &&& b[pos + 2 + dg.len()] == 10
                &&& b.subrange(pos + 3 + dg.len(), pos + 3 + dg.len() + d@.len()) == d@
                &&& b[pos + 3 + dg.len() + d@.len()] == 13
                &&& b[pos + 4 + dg.len() + d@.len()] == 10
            },
            Proto::Null => {
                &&& proto_enc(p).len() == 5
                &&& b[pos] == 36
                &&& b[pos + 1] == 45
                &&& b[pos + 2] == 49
                &&& b[pos + 3] == 13
                &&& b[pos + 4] == 10
            },
            Proto::List(_) => false,
        },
{
    let enc = proto_enc(p);
    assert(b.subrange(pos, pos + enc.len()) == enc);
    match p {
        Proto::Str(s) => {
            let c = encode_utf8(s@);
            assert(enc =~= seq![43u8] + c + crlf());
            assert(b[pos] == enc[0]);
            assert(b.subrange(pos + 1, pos + 1 + c.len()) =~= enc.subrange(1, 1 + c.len() as int));
            assert(enc.subrange(1, 1 + c.len() as int) =~= c);
            assert(b[pos + 1 + c.len()] == enc[1 + c.len() as int]);
            assert(b[pos + 2 + c.len()] == enc[2 + c.len() as int]);
        },
        Proto::Fail(e) => {
            let c = encode_utf8(e@);
            assert(enc =~= seq![45u8] + c + crlf());
            assert(b[pos] == enc[0]);
            assert(b.subrange(pos + 1, pos + 1 + c.len()) =~= enc.subrange(1, 1 + c.len() as int));
            assert(enc.subrange(1, 1 + c.len() as int) =~= c);
            assert(b[pos + 1 + c.len()] == enc[1 + c.len() as int]);
            assert(b[pos + 2 + c.len()] == enc[2 + c.len() as int]);
        },
        Proto::Bulk(d) => {
            let dg = dec_digits(d@.len());
            lemma_dec_digits(d@.len());
            assert(canonical_digits(dg)) by {
                if d@.len() >= 10 {
                } else {
                }
            }
            assert(enc =~= seq![36u8] + dg + crlf() + d@ + crlf());
            assert(enc.len() == 5 + dg.len() + d@.len());
            assert(b[pos] == enc[0]);
            assert(b.subrange(pos + 1, pos + 1 + dg.len()) =~= enc.subrange(1, 1 + dg.len() as int));
            assert(enc.subrange(1, 1 + dg.len() as int) =~= dg);
            assert(b[pos + 1 + dg.len()] == enc[1 + dg.len() as int]);
            assert(b[pos + 2 + dg.len()] == enc[2 + dg.len() as int]);
            assert(b.subrange(pos + 3 + dg.len(), pos + 3 + dg.len() + d@.len()) =~= enc.subrange(
                3 + dg.len() as int,
                3 + dg.len() + d@.len() as int,
            ));
            assert(enc.subrange(3 + dg.len() as int, 3 + dg.len() + d@.len() as int) =~= d@);
            assert(b[pos + 3 + dg.len() + d@.len()] == enc[3 + dg.len() + d@.len() as int]);
            assert(b[pos + 4 + dg.len() + d@.len()] == enc[4 + dg.len() + d@.len() as int]);
        },
        Proto::Null => {
            assert(enc =~= seq![36u8, 45u8, 49u8] + crlf());
            assert(b[pos] == enc[0]);
            assert(b[pos + 1] == enc[1]);
            assert(b[pos + 2] == enc[2]);
            assert(b[pos + 3] == enc[3]);
            assert(b[pos + 4] == enc[4]);
        },
        Proto::List(_) => {},
    }
}

/// Where a bulk item's length digits end: a digit scan that stops at the
/// first non-digit stops exactly at the CR after the canonical length.
proof fn lemma_bulk_digits_pinned(b: Seq<u8>, pos: int, j: int, p: Proto)
    requires
        item_at(b, pos, p),
        p is Bulk,
        pos + 1 <= j <= b.len(),
        forall|k: int| pos + 1 <= k < j ==> 48 <= #[trigger] b[k] <= 57,
        j < b.len() ==> !(48 <= b[j] <= 57),
    ensures
        j < b.len(),
        pos + 1 + dec_digits(p->Bulk_0@.len()).len() == j,
        b.subrange(pos + 1, j) == dec_digits(p->Bulk_0@.len()),
        dec_value(b.subrange(pos + 1, j)) == p->Bulk_0@.len(),
        canonical_digits(b.subrange(pos + 1, j)),
        b[j] == 13,
{
    lemma_item_shape(b, pos, p);
    let d = p->Bulk_0;
    let dg = dec_digits(d@.len());
    lemma_dec_digits(d@.len());
    assert(pos + 1 + dg.len() >= j) by {
        if pos + 1 + dg.len() < j {
            assert(b[pos + 1 + dg.len()] == 13);
            assert(48 <= b[pos + 1 + dg.len()] <= 57);
        }
    }
    assert(pos + 1 + dg.len() < b.len());
    assert(pos + 1 + dg.len() <= j) by {
        if pos + 1 + dg.len() > j {
            assert(j < b.len());
            assert(dg[j - (pos + 1)] == b[j]);
            assert(48 <= dg[j - (pos + 1)] <= 57);
        }
    }
    assert(pos + 1 + dg.len() == j);
    assert(b.subrange(pos + 1, j) =~= dg);
    assert(canonical_digits(dg)) by {
        if d@.len() >= 10 {
            assert(dg.len() >= 2) by {
                lemma_dec_digits(d@.len() / 10);
            }
        }
    }
}

/// What one attempt to decode an item from a buffer can come to.
pub enum ParseOutcome {
    /// A whole item and the count of bytes its encoding occupies.
    Item(Proto, usize),
    /// No whole item yet; more bytes may complete one.
    Incomplete,
    /// The bytes at the position are not an item.
    Bad(ProtoError),
}

/// Decoding failures.
#[derive(Debug)]
pub enum ProtoError {
    /// The first byte names no item kind.
    InvalidPrefix(u8),
    /// A bare LF, a missing LF after CR, or a malformed string body.
    UnexpectedLF,
    /// A malformed bulk length or a bulk not closed by CRLF.
    InvalidBulk(Vec<u8>),
    /// The buffer ended inside an item.
    Truncated,
}

/// Decode one item starting at `pos`.
///
/// Exactly when the encoding of a well-formed item lies at `pos`, that item
/// and its length come back; otherwise the outcome says whether more bytes
/// could still complete an item.  A first byte that names no item kind is
/// reported as exactly that byte's `InvalidPrefix`.
pub fn parse_item(buf: &[u8], pos: usize) -> (r: ParseOutcome)
    requires
        pos <= buf@.len(),
    ensures
        match r {
            ParseOutcome::Item(p, n) => item_at(buf@, pos as int, p) && n == proto_enc(p).len(),
            ParseOutcome::Incomplete => forall|p: Proto| !item_at(buf@, pos as int, p),
            ParseOutcome::Bad(_) => forall|p: Proto| !item_at(buf@, pos as int, p),
        },
        (pos < buf@.len() && !(buf@[pos as int] == 43 || buf@[pos as int] == 45 || buf@[pos as int]
            == 36)) ==> (r matches ParseOutcome::Bad(e) && e == ProtoError::InvalidPrefix(
            buf@[pos as int],
        )),
{
    let len = buf.len();
    if pos >= len {
        proof {
            assert forall|p: Proto| !item_at(buf@, pos as int, p) by {
                if item_at(buf@, pos as int, p) {
                    lemma_item_shape(buf@, pos as int, p);
                }
            }
        }
        return ParseOutcome::Incomplete;
    }
    let tag = buf[pos];
    if tag == 43 || tag == 45 {
        return parse_text(buf, pos, tag);
    }
    if tag != 36 {
        proof {
            assert forall|p: Proto| !item_at(buf@, pos as int, p) by {
                if item_at(buf@, pos as int, p) {
                    lemma_item_shape(buf@, pos as int, p);
                }
            }
        }
        return ParseOutcome::Bad(ProtoError::InvalidPrefix(tag));
    }
    parse_bulk(buf, pos)
}

/// Decode a simple-string or error item whose tag byte has been seen.
fn parse_text(buf: &[u8], pos: usize, tag: u8) -> (r: ParseOutcome)
    requires
        pos < buf@.len(),
        buf@[pos as int] == tag,
        tag == 43 || tag == 45,
    ensures
        match r {
            ParseOutcome::Item(p, n) => item_at(buf@, pos as int, p) && n == proto_enc(p).len(),
            ParseOutcome::Incomplete => forall|p: Proto| !item_at(buf@, pos as int, p),
            ParseOutcome::Bad(_) => forall|p: Proto| !item_at(buf@, pos as int, p),
        },
{
    let len = buf.len();
    let mut j = pos + 1;
    while j < len && buf[j] != 13 && buf[j] != 10
        invariant
            pos + 1 <= j <= len,
            len == buf@.len(),
            forall|k: int| pos + 1 <= k < j ==> #[trigger] buf@[k] != 13 && buf@[k] != 10,
        decreases len - j,
    {
        j = j + 1;
    }
    if j >= len || buf[j] == 10 || j + 1 >= len || buf[j + 1] != 10 {
        let incomplete = j >= len || (buf[j] == 13 && j + 1 >= len);
        proof {
            assert forall|p: Proto| !item_at(buf@, pos as int, p) by {
                if item_at(buf@, pos as int, p) {
                    lemma_text_content_pinned(buf@, pos as int, j as int, p);
                }
            }
        }
        if incomplete {
            return ParseOutcome::Incomplete;
        }
        return ParseOutcome::Bad(ProtoError::UnexpectedLF);
    }
    let content = slice_subrange(buf, pos + 1, j);
    match bytes_to_string(content) {
        Some(text) => {
            proof {
                broadcast use vstd::utf8::decode_utf8_encode_utf8;

                assert(encode_utf8(text@) == content@);
                let p0 = if tag == 43 {
                    Proto::Str(text)
                } else {
                    Proto::Fail(text)
                };
                assert(proto_enc(p0).len() == (j - pos) + 2);
                assert(buf@.subrange(pos as int, pos + (j - pos) + 2) =~= proto_enc(p0));
            }
            if tag == 43 {
                return ParseOutcome::Item(Proto::Str(text), j - pos + 2);
            }
            ParseOutcome::Item(Proto::Fail(text), j - pos + 2)
        },
        None => {
            proof {
                broadcast use vstd::utf8::encode_utf8_valid_utf8;

                assert forall|p: Proto| !item_at(buf@, pos as int, p) by {
                    if item_at(buf@, pos as int, p) {
                        lemma_text_content_pinned(buf@, pos as int, j as int, p);
                        match p {
                            Proto::Str(s) => {
                                assert(content@ =~= encode_utf8(s@));
                            },
                            Proto::Fail(e) => {
                                assert(content@ =~= encode_utf8(e@));
                            },
                            _ => {},
                        }
                    }
                }
            }
            ParseOutcome::Bad(ProtoError::UnexpectedLF)
        },
    }
}

/// Where a text item's content ends: a scan that stops at the first CR or
/// LF stops exactly at the CR that closes the content.
proof fn lemma_text_content_pinned(b: Seq<u8>, pos: int, j: int, p: Proto)
    requires
        item_at(b, pos, p),
        b[pos] == 43 || b[pos] == 45,
        pos + 1 <= j <= b.len(),
        forall|k: int| pos + 1 <= k < j ==> #[trigger] b[k] != 13 && b[k] != 10,
        j < b.len() ==> (b[j] == 13 || b[j] == 10),
    ensures
        p is Str || p is Fail,
        pos + 1 + text_content(p).len() == j,
        j + 1 < b.len(),
        b[j] == 13,
        b[j + 1] == 10,
        b.subrange(pos + 1, j) == text_content(p),
{
    lemma_item_shape(b, pos, p);
    match p {
        Proto::Str(s) => {
            let c = encode_utf8(s@);
            assert(pos + 1 + c.len() >= j) by {
                if pos + 1 + c.len() < j {
                    assert(b[pos + 1 + c.len()] == 13);
                }
            }
            assert(pos + 1 + c.len() <= j) by {
                if pos + 1 + c.len() > j && j < b.len() {
                    assert(c[j - (pos + 1)] == b[j]);
                }
            }
            assert(pos + 1 + c.len() == j || j >= b.len());
            if j >= b.len() {
                assert(pos + 1 + c.len() < b.len());
                assert(false);
            }
            assert(b.subrange(pos + 1, j) =~= c);
        },
        Proto::Fail(e) => {
            let c = encode_utf8(e@);
            assert(pos + 1 + c.len() >= j) by {
                if pos + 1 + c.len() < j {
                    assert(b[pos + 1 + c.len()] == 13);
                }
            }
            assert(pos + 1 + c.len() <= j) by {
                if pos + 1 + c.len() > j && j < b.len() {
                    assert(c[j - (pos + 1)] == b[j]);
                }
            }
            assert(pos + 1 + c.len() == j || j >= b.len());
            if j >= b.len() {
                assert(pos + 1 + c.len() < b.len());
                assert(false);
            }
            assert(b.subrange(pos + 1, j) =~= c);
        },
        _ => {},
    }
}

/// The UTF-8 content bytes of a text item; empty for the other kinds.
pub open spec fn text_content(p: Proto) -> Seq<u8> {
    match p {
        Proto::Str(s) => encode_utf8(s@),
        Proto::Fail(e) => encode_utf8(e@),
        _ => Seq::empty(),
    }
}

/// Decode a bulk or null item whose `$` tag has been seen.
#[verifier::rlimit(100)]
fn parse_bulk(buf: &[u8], pos: usize) -> (r: ParseOutcome)
    requires
        pos < buf@.len(),
        buf@[pos as int] == 36,
    ensures
        match r {
            ParseOutcome::Item(p, n) => item_at(buf@, pos as int, p) && n == proto_enc(p).len(),
            ParseOutcome::Incomplete => forall|p: Proto| !item_at(buf@, pos as int, p),
            ParseOutcome::Bad(_) => forall|p: Proto| !item_at(buf@, pos as int, p),
        },
{
    let len = buf.len();
    if pos + 1 >= len {
        proof {
            assert forall|p: Proto| !item_at(buf@, pos as int, p) by {
                if item_at(buf@, pos as int, p) {
                    lemma_item_shape(buf@, pos as int, p);
                    match p {
                        Proto::Bulk(d) => {
                            lemma_dec_digits(d@.len());
                        },
                        _ => {},
                    }
                }
            }
        }
        return ParseOutcome::Incomplete;
    }
    if buf[pos + 1] == 45 {
        if len - pos < 5 {
            proof {
                assert forall|p: Proto| !item_at(buf@, pos as int, p) by {
                    if item_at(buf@, pos as int, p) {
                        lemma_item_shape(buf@, pos as int, p);
                        match p {
                            Proto::Bulk(d) => {
                                lemma_dec_digits(d@.len());
                                assert(dec_digits(d@.len())[0] == buf@[pos + 1]);
                            },
                            _ => {},
                        }
                    }
                }
            }
            return ParseOutcome::Incomplete;
        }
        if buf[pos + 2] == 49 && buf[pos + 3] == 13 && buf[pos + 4] == 10 {
            proof {
                assert(proto_enc(Proto::Null) =~= seq![36u8, 45u8, 49u8, 13u8, 10u8]);
                assert(buf@.subrange(pos as int, pos + 5) =~= proto_enc(Proto::Null));
            }
            return ParseOutcome::Item(Proto::Null, 5);
        }
        proof {
            assert forall|p: Proto| !item_at(buf@, pos as int, p) by {
                if item_at(buf@, pos as int, p) {
                    lemma_item_shape(buf@, pos as int, p);
                    match p {
                        Proto::Bulk(d) => {
                            lemma_dec_digits(d@.len());
                            assert(dec_digits(d@.len())[0] == buf@[pos + 1]);
                        },
                        _ => {},
                    }
                }
            }
        }
        return ParseOutcome::Bad(ProtoError::UnexpectedLF);
    }
    let mut j = pos + 1;
    while j < len && buf[j] >= 48 && buf[j] <= 57
        invariant
            pos + 1 <= j <= len,
            len == buf@.len(),
            forall|k: int| pos + 1 <= k < j ==> 48 <= #[trigger] buf@[k] <= 57,
        decreases len - j,
    {
        j = j + 1;
    }
    if j >= len {
        proof {
            assert forall|p: Proto| !item_at(buf@, pos as int, p) by {
                if item_at(buf@, pos as int, p) {
                    lemma_item_shape(buf@, pos as int, p);
                    match p {
                        Proto::Bulk(_) => {
                            lemma_bulk_digits_pinned(buf@, pos as int, j as int, p);
                        },
                        _ => {},
                    }
                }
            }
        }
        return ParseOutcome::Incomplete;
    }
    if j == pos + 1 || (buf[pos + 1] == 48 && j > pos + 2) || buf[j] != 13 {
        proof {
            assert forall|p: Proto| !item_at(buf@, pos as int, p) by {
                if item_at(buf@, pos as int, p) {
                    lemma_item_shape(buf@, pos as int, p);
                    match p {
                        Proto::Bulk(d) => {
                            lemma_bulk_digits_pinned(buf@, pos as int, j as int, p);
                            let dg = dec_digits(d@.len());
                            assert(dg.len() == j - (pos + 1));
                            assert(dg[0] == buf@[pos + 1]);
                        },
                        _ => {},
                    }
                }
            }
        }
        return ParseOutcome::Bad(ProtoError::InvalidBulk(Vec::new()));
    }
    if j + 1 >= len {
        proof {
            assert forall|p: Proto| !item_at(buf@, pos as int, p) by {
                if item_at(buf@, pos as int, p) {
                    lemma_item_shape(buf@, pos as int, p);
                    match p {
                        Proto::Bulk(_) => {
                            lemma_bulk_digits_pinned(buf@, pos as int, j as int, p);
                        },
                        _ => {},
                    }
                }
            }
        }
        return ParseOutcome::Incomplete;
    }
    if buf[j + 1] != 10 {
        proof {
            assert forall|p: Proto| !item_at(buf@, pos as int, p) by {
                if item_at(buf@, pos as int, p) {
                    lemma_item_shape(buf@, pos as int, p);
                    match p {
                        Proto::Bulk(_) => {
                            lemma_bulk_digits_pinned(buf@, pos as int, j as int, p);
                        },
                        _ => {},
                    }
                }
            }
        }
        return ParseOutcome::Bad(ProtoError::InvalidBulk(Vec::new()));
    }
    let ghost digits = buf@.subrange(pos + 1, j as int);
    let mut acc: u64 = 0;
    let mut i: usize = pos + 1;
    while i < j
        invariant
            pos + 1 <= i <= j <= len,
            len == buf@.len(),
            pos < len,
            buf@[pos as int] == 36,
            digits == buf@.subrange(pos + 1, j as int),
            forall|k: int| pos + 1 <= k < j ==> 48 <= #[trigger] buf@[k] <= 57,
            j < len && !(48 <= buf@[j as int] <= 57),
            acc == dec_value(digits.take(i - (pos + 1))),
        decreases j - i,
    {
        let d = (buf[i] - 48) as u64;
        let next = match acc.checked_mul(10) {
            Some(x) => x.checked_add(d),
            None => None,
        };
        match next {
            Some(x) => {
                proof {
                    assert(digits[i - (pos + 1)] == buf@[i as int]);
                    lemma_dec_value_step(digits, i - (pos + 1));
                    assert(digits.take(i - (pos + 1) + 1).take(i - (pos + 1)) =~= digits.take(
                        i - (pos + 1),
                    ));
                }
                acc = x;
            },
            None => {
                proof {
                    assert forall|p: Proto| !item_at(buf@, pos as int, p) by {
                        if item_at(buf@, pos as int, p) {
                            lemma_item_shape(buf@, pos as int, p);
                            match p {
                                Proto::Bulk(d2) => {
                                    lemma_bulk_digits_pinned(buf@, pos as int, j as int, p);
                                    assert(digits =~= dec_digits(d2@.len()));
                                    assert(digits[i - (pos + 1)] == buf@[i as int]);
                                    lemma_dec_value_step(digits, i - (pos + 1));
                                    lemma_dec_value_prefix_le(digits, i - (pos + 1) + 1);
                                    assert(dec_value(digits) == d2@.len());
                                    assert(d2@.len() <= buf@.len());
                                },
                                _ => {},
                            }
                        }
                    }
                }
                return ParseOutcome::Bad(ProtoError::InvalidBulk(Vec::new()));
            },
        }
        i = i + 1;
    }
    proof {
        assert(digits.take(j - (pos + 1)) =~= digits);
    }
    let remaining = len - (j + 2);
    if acc > remaining as u64 {
        proof {
            assert forall|p: Proto| !item_at(buf@, pos as int, p) by {
                if item_at(buf@, pos as int, p) {
                    lemma_item_shape(buf@, pos as int, p);
                    match p {
                        Proto::Bulk(d2) => {
                            lemma_bulk_digits_pinned(buf@, pos as int, j as int, p);
                            assert(digits =~= dec_digits(d2@.len()));
                            assert(dec_value(digits) == d2@.len());
                        },
                        _ => {},
                    }
                }
            }
        }
        return ParseOutcome::Incomplete;
    }
    let vlen = acc as usize;
    if remaining - vlen < 2 {
        proof {
            assert forall|p: Proto| !item_at(buf@, pos as int, p) by {
                if item_at(buf@, pos as int, p) {
                    lemma_item_shape(buf@, pos as int, p);
                    match p {
                        Proto::Bulk(d2) => {
                            lemma_bulk_digits_pinned(buf@, pos as int, j as int, p);
                            assert(digits =~= dec_digits(d2@.len()));
                            assert(dec_value(digits) == d2@.len());
                        },
                        _ => {},
                    }
                }
            }
        }
        return ParseOutcome::Incomplete;
    }
    if buf[j + 2 + vlen] != 13 || buf[j + 2 + vlen + 1] != 10 {
        proof {
            assert forall|p: Proto| !item_at(buf@, pos as int, p) by {
                if item_at(buf@, pos as int, p) {
                    lemma_item_shape(buf@, pos as int, p);
                    match p {
                        Proto::Bulk(d2) => {
                            lemma_bulk_digits_pinned(buf@, pos as int, j as int, p);
                            assert(digits =~= dec_digits(d2@.len()));
                            assert(dec_value(digits) == d2@.len());
                            assert(dec_digits(d2@.len()).len() == j - (pos + 1));
                        },
                        _ => {},
                    }
                }
            }
        }
        return ParseOutcome::Bad(ProtoError::InvalidBulk(Vec::new()));
    }
    let content = slice_subrange(buf, j + 2, j + 2 + vlen);
    let data = vstd::slice::slice_to_vec(content);
    let n = j + 2 + vlen + 2 - pos;
    proof {
        let p0 = Proto::Bulk(data);
        assert(data@ == buf@.subrange(j + 2, j + 2 + vlen as int));
        assert(data@.len() == vlen);
        lemma_digits_roundtrip(digits);
        assert(dec_digits(data@.len()) == digits);
        lemma_dec_digits(data@.len());
        assert(proto_enc(p0).len() == 5 + digits.len() + vlen);
        assert(proto_enc(p0) =~= seq![36u8] + digits + crlf() + data@ + crlf());
        assert(buf@.subrange(pos as int, pos + n) =~= proto_enc(p0));
    }
    ParseOutcome::Item(Proto::Bulk(data), n)
}

/// The incremental decoder's state between feeds of bytes.
pub enum ProtoCodec {
    Unknown,
    Str(usize),
    Fail(usize),
    BulkOrNull(usize),
    Bulk(usize),
}

impl ProtoCodec {
    /// A decoder at the start of an item.
    pub fn new() -> (r: Self)
        ensures
            r is Unknown,
    {
        ProtoCodec::Unknown
    }

    /// The decoder state that one tag byte selects.
    pub fn dispatch(&self, x: u8) -> (r: Result<Self, ProtoError>)
        ensures
            x == 43 ==> r == Ok::<ProtoCodec, ProtoError>(ProtoCodec::Str(0)),
            x == 45 ==> r == Ok::<ProtoCodec, ProtoError>(ProtoCodec::Fail(0)),
            x == 36 ==> r == Ok::<ProtoCodec, ProtoError>(ProtoCodec::BulkOrNull(0)),
            !(x == 43 || x == 45 || x == 36) ==> r == Err::<ProtoCodec, ProtoError>(
                ProtoError::InvalidPrefix(x),
            ),
    {
        if x == 43 {
            Ok(ProtoCodec::Str(0))
        } else if x == 45 {
            Ok(ProtoCodec::Fail(0))
        } else if x == 36 {
            Ok(ProtoCodec::BulkOrNull(0))
        } else {
            Err(ProtoError::InvalidPrefix(x))
        }
    }

    /// Decode one item from the front of the buffer: the item and the byte
    /// count it occupies, `None` when more bytes are needed, an error when
    /// the front is not an item at all.
    pub fn decode(&mut self, buf: &[u8]) -> (r: Result<(usize, Option<Proto>), ProtoError>)
        ensures
            *final(self) is Unknown,
            match r {
                Ok(t) => match t.1 {
                    Some(p) => item_at(buf@, 0, p) && t.0 == proto_enc(p).len(),
                    None => t.0 == 0 && (forall|p: Proto| !item_at(buf@, 0, p)),
                },
                Err(_) => forall|p: Proto| !item_at(buf@, 0, p),
            },
    {
        *self = ProtoCodec::Unknown;
        match parse_item(buf, 0) {
            ParseOutcome::Item(p, n) => Ok((n, Some(p))),
            ParseOutcome::Incomplete => Ok((0, None)),
            ParseOutcome::Bad(e) => Err(e),
        }
    }
}

impl Proto {
    /// Decode one whole item starting at `pos`; a buffer that ends inside
    /// an item is an error here, since no more bytes are coming.  A first
    /// byte that names no item kind comes back as its `InvalidPrefix`.
    pub fn from_bufread(buf: &[u8], pos: usize) -> (r: Result<(Proto, usize), ProtoError>)
        requires
            pos <= buf@.len(),
        ensures
            match r {
                Ok(t) => item_at(buf@, pos as int, t.0) && t.1 == proto_enc(t.0).len(),
                Err(_) => forall|p: Proto| !item_at(buf@, pos as int, p),
            },
            (pos < buf@.len() && !(buf@[pos as int] == 43 || buf@[pos as int] == 45
                || buf@[pos as int] == 36)) ==> (r matches Err(e) && e
                == ProtoError::InvalidPrefix(buf@[pos as int])),
    {
        match parse_item(buf, pos) {
            ParseOutcome::Item(p, n) => Ok((p, n)),
            ParseOutcome::Incomplete => Err(ProtoError::Truncated),
            ParseOutcome::Bad(e) => Err(e),
        }
    }
}

} // verus!
