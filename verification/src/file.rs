//! Segment file naming: `<id>.data` for segments, `<id>.data.temp` for the
//! compactor's merge file, and the record locator type.
//!
//! Ids are written in canonical decimal (no leading zeros), so each live
//! segment has exactly one name and a directory listing can be parsed back
//! unambiguously.

use vstd::prelude::*;

verus! {

/// Where one record lives: a segment file id and a byte offset inside it.
#[derive(Debug, Clone, Copy, PartialEq, Eq, Structural)]
pub struct Location {
    pub id: u64,
    pub offset: u64,
}

/// A record locator together with the record's byte length.
#[derive(Debug, Clone, Copy, PartialEq, Eq, Structural)]
pub struct CmdInfo {
    pub loc: Location,
    pub len: usize,
}

impl CmdInfo {
    /// Bundle a file id, an offset and a length into a locator.
    pub fn new(id: u64, offset: u64, len: usize) -> (r: CmdInfo)
        ensures
            r == (CmdInfo { loc: Location { id, offset }, len }),
    {
        CmdInfo { loc: Location { id, offset }, len }
    }
}

/// The canonical decimal digits of `n`, as ASCII bytes.
pub open spec fn dec_digits(n: nat) -> Seq<u8>
    decreases n,
{
    if n < 10 {
        seq![(n + 48) as u8]
    } else {
        dec_digits(n / 10).push((n % 10 + 48) as u8)
    }
}

/// The numeric value of a sequence of ASCII digits.
pub open spec fn dec_value(s: Seq<u8>) -> nat
    decreases s.len(),
{
    if s.len() == 0 {
        0
    } else {
        (dec_value(s.drop_last()) * 10 + if s.last() >= 48 {
            (s.last() - 48) as nat
        } else {
            0
        }) as nat
    }
}

/// The suffix `.data`.
pub open spec fn data_suffix() -> Seq<u8> {
    seq![46u8, 100u8, 97u8, 116u8, 97u8]
}

/// The suffix `.data.temp`.
pub open spec fn temp_suffix() -> Seq<u8> {
    seq![46u8, 100u8, 97u8, 116u8, 97u8, 46u8, 116u8, 101u8, 109u8, 112u8]
}

/// The file name of segment `id`: its decimal digits followed by `.data`.
pub open spec fn data_name(id: nat) -> Seq<u8> {
    dec_digits(id) + data_suffix()
}

/// The file name of merge temp `id`: its decimal digits followed by
/// `.data.temp`.
pub open spec fn temp_name(id: nat) -> Seq<u8> {
    dec_digits(id) + temp_suffix()
}

/// Every byte of a canonical decimal is an ASCII digit, the first is not a
/// zero unless the number is zero, and the digits read back to the number.
pub proof fn lemma_dec_digits(n: nat)
    ensures
        dec_digits(n).len() >= 1,
        forall|i: int| 0 <= i < dec_digits(n).len() ==> 48 <= #[trigger] dec_digits(n)[i] <= 57,
        n >= 10 ==> dec_digits(n)[0] != 48,
        n < 10 ==> dec_digits(n)[0] == n + 48,
        dec_value(dec_digits(n)) == n,
    decreases n,
{
    if n < 10 {
        let s = dec_digits(n);
        assert(s =~= seq![(n + 48) as u8]);
        assert(s.drop_last() =~= Seq::<u8>::empty());
        assert(dec_value(s.drop_last()) == 0);
        assert(s.last() == (n + 48) as u8);
        assert(dec_value(s) == (0 * 10 + ((n + 48) as u8 - 48) as nat) as nat);
        assert(dec_value(s) == n);
    } else {
        lemma_dec_digits(n / 10);
        let prev = dec_digits(n / 10);
        let whole = dec_digits(n);
        assert(whole == prev.push((n % 10 + 48) as u8));
        assert(whole.drop_last() =~= prev);
        assert(whole.last() == (n % 10 + 48) as u8);
        assert(dec_value(whole) == dec_value(prev) * 10 + n % 10);
        assert(dec_value(whole) == (n / 10) * 10 + n % 10);
        assert((n / 10) * 10 + n % 10 == n) by {
            vstd::arithmetic::div_mod::lemma_fundamental_div_mod(n as int, 10);
        }
        assert(whole[0] == prev[0]);
        if n / 10 >= 10 {
        } else {
            assert(n / 10 >= 1) by {
                vstd::arithmetic::div_mod::lemma_div_non_zero(n as int, 10);
            }
        }
    }
}

/// Two different numbers never share their canonical digits.
pub proof fn lemma_dec_digits_injective(a: nat, b: nat)
    requires
        dec_digits(a) == dec_digits(b),
    ensures
        a == b,
{
    lemma_dec_digits(a);
    lemma_dec_digits(b);
    assert(dec_value(dec_digits(a)) == dec_value(dec_digits(b)));
}

/// True when every byte of `s` is an ASCII digit.
pub open spec fn all_digits(s: Seq<u8>) -> bool {
    forall|i: int| 0 <= i < s.len() ==> 48 <= #[trigger] s[i] <= 57
}

/// True when `s` is the canonical decimal spelling of some number: at least
/// one digit, and no leading zero unless the number is zero itself.
pub open spec fn canonical_digits(s: Seq<u8>) -> bool {
    &&& s.len() >= 1
    &&& all_digits(s)
    &&& s.len() > 1 ==> s[0] != 48
}

/// Canonical digits read back to a number that spells to the same digits.
pub proof fn lemma_digits_roundtrip(s: Seq<u8>)
    requires
        canonical_digits(s),
    ensures
        dec_digits(dec_value(s)) == s,
        s.len() >= 2 ==> dec_value(s) >= 10,
    decreases s.len(),
{
    if s.len() == 1 {
        let d = s[0];
        assert(s.last() == d && 48 <= d <= 57);
        assert(s.drop_last() =~= Seq::<u8>::empty());
        assert(dec_value(s.drop_last()) == 0);
        assert(dec_value(s) == (d - 48) as nat);
        assert(dec_digits((d - 48) as nat) =~= s);
    } else {
        let b = s.drop_last();
        assert(b[0] == s[0]);
        assert(all_digits(b)) by {
            assert(forall|i: int| 0 <= i < b.len() ==> b[i] == s[i]);
        }
        lemma_digits_roundtrip(b);
        let d = s.last();
        let v = dec_value(s);
        let vb = dec_value(b);
        assert(d == s[s.len() - 1] && 48 <= d <= 57);
        assert(v == vb * 10 + (d - 48) as nat);
        if b.len() == 1 {
            assert(b.last() == b[0] && 48 <= b[0] <= 57);
            assert(b.drop_last() =~= Seq::<u8>::empty());
            assert(dec_value(b.drop_last()) == 0);
            assert(vb == (b[0] - 48) as nat);
            assert(b[0] == s[0] && s[0] != 48);
            assert(vb >= 1);
        } else {
            assert(vb >= 10);
        }
        assert(v >= 10) by {
            vstd::arithmetic::mul::lemma_mul_inequality(1, vb as int, 10);
        }
        assert(v / 10 == vb && v % 10 == (d - 48) as nat) by {
            vstd::arithmetic::div_mod::lemma_fundamental_div_mod_converse(
                v as int,
                10,
                vb as int,
                (d - 48) as int,
            );
        }
        assert(dec_digits(v) == dec_digits(vb).push((v % 10 + 48) as u8));
        assert((v % 10 + 48) as u8 == d);
        assert(dec_digits(v) =~= s) by {
            assert(b.push(d) =~= s);
        }
    }
}

/// Reading one more digit multiplies the value by ten and adds it.
pub proof fn lemma_dec_value_step(s: Seq<u8>, i: int)
    requires
        0 <= i < s.len(),
        s[i] >= 48,
    ensures
        dec_value(s.take(i + 1)) == dec_value(s.take(i)) * 10 + (s[i] - 48) as nat,
{
    assert(s.take(i + 1).drop_last() =~= s.take(i));
    assert(s.take(i + 1).last() == s[i]);
}

/// The value of a prefix of a digit string never exceeds the whole.
pub proof fn lemma_dec_value_prefix_le(s: Seq<u8>, i: int)
    requires
        0 <= i <= s.len(),
        all_digits(s),
    ensures
        dec_value(s.take(i)) <= dec_value(s),
    decreases s.len() - i,
{
    if i == s.len() {
        assert(s.take(i) =~= s);
    } else {
        lemma_dec_value_step(s, i);
        let a = dec_value(s.take(i));
        assert(a <= a * 10) by (nonlinear_arith)
            requires
                a >= 0,
        ;
        lemma_dec_value_prefix_le(s, i + 1);
    }
}

/// How a segment file name splits into its digits and its suffix.
pub proof fn lemma_data_name_parts(name: Seq<u8>, id: nat)
    requires
        name == data_name(id),
    ensures
        name.len() == dec_digits(id).len() + 5,
        name.len() >= 6,
        name.subrange(0, name.len() - 5) == dec_digits(id),
        canonical_digits(name.subrange(0, name.len() - 5)),
        dec_value(name.subrange(0, name.len() - 5)) == id,
        name[name.len() - 5] == 46,
        name[name.len() - 4] == 100,
        name[name.len() - 3] == 97,
        name[name.len() - 2] == 116,
        name[name.len() - 1] == 97,
{
    lemma_dec_digits(id);
    let d = dec_digits(id);
    assert(name.len() == d.len() + 5);
    assert(name.subrange(0, name.len() - 5) =~= d);
    if id >= 10 {
        assert(d.len() >= 2) by {
            lemma_dec_digits(id / 10);
        }
    }
    if d.len() > 1 {
        assert(id >= 10) by {
            if id < 10 {
                assert(d =~= seq![(id + 48) as u8]);
            }
        }
    }
    assert(name[name.len() - 5] == data_suffix()[0]);
    assert(name[name.len() - 4] == data_suffix()[1]);
    assert(name[name.len() - 3] == data_suffix()[2]);
    assert(name[name.len() - 2] == data_suffix()[3]);
    assert(name[name.len() - 1] == data_suffix()[4]);
}

/// Parse a directory entry's name as a segment file name.
///
/// Returns the segment id exactly when the name is `<id>.data` with the id
/// in canonical decimal; anything else — another suffix, a leading zero, a
/// non-digit, or an id too large for `u64` — is rejected.
pub fn parse_data_name(name: &[u8]) -> (r: Option<u64>)
    ensures
        match r {
            Some(id) => name@ == data_name(id as nat),
            None => forall|id: u64| name@ != data_name(id as nat),
        },
{
    let len = name.len();
    if len < 6 {
        proof {
            assert forall|id: u64| name@ != data_name(id as nat) by {
                if name@ == data_name(id as nat) {
                    lemma_data_name_parts(name@, id as nat);
                }
            }
        }
        return None;
    }
    let dlen = len - 5;
    if name[dlen] != 46 || name[dlen + 1] != 100 || name[dlen + 2] != 97 || name[dlen + 3] != 116
        || name[dlen + 4] != 97 {
        proof {
            assert forall|id: u64| name@ != data_name(id as nat) by {
                if name@ == data_name(id as nat) {
                    lemma_data_name_parts(name@, id as nat);
                }
            }
        }
        return None;
    }
    if dlen > 1 && name[0] == 48 {
        proof {
            assert forall|id: u64| name@ != data_name(id as nat) by {
                if name@ == data_name(id as nat) {
                    lemma_data_name_parts(name@, id as nat);
                }
            }
        }
        return None;
    }
    let ghost digits = name@.subrange(0, dlen as int);
    let mut acc: u64 = 0;
    let mut i: usize = 0;
    while i < dlen
        invariant
            0 <= i <= dlen,
            dlen == name@.len() - 5,
            name@.len() >= 6,
            digits == name@.subrange(0, dlen as int),
            acc == dec_value(digits.take(i as int)),
            all_digits(digits.take(i as int)),
        decreases dlen - i,
    {
        let b = name[i];
        if b < 48 || b > 57 {
            proof {
                assert forall|id: u64| name@ != data_name(id as nat) by {
                    if name@ == data_name(id as nat) {
                        lemma_data_name_parts(name@, id as nat);
                        assert(digits[i as int] == b);
                    }
                }
            }
            return None;
        }
        let d = (b - 48) as u64;
        let next = match acc.checked_mul(10) {
            Some(x) => x.checked_add(d),
            None => None,
        };
        match next {
            Some(x) => {
                proof {
                    assert(digits[i as int] == b);
                    lemma_dec_value_step(digits, i as int);
                    assert(digits.take(i + 1).take(i as int) =~= digits.take(i as int));
                }
                acc = x;
            },
            None => {
                proof {
                    assert forall|id: u64| name@ != data_name(id as nat) by {
                        if name@ == data_name(id as nat) {
                            lemma_data_name_parts(name@, id as nat);
                            assert(digits[i as int] == b);
                            lemma_dec_value_step(digits, i as int);
                            lemma_dec_value_prefix_le(digits, i + 1);
                            assert(dec_value(digits.take(i + 1)) <= id);
                        }
                    }
                }
                return None;
            },
        }
        i = i + 1;
    }
    proof {
        assert(digits.take(dlen as int) =~= digits);
        assert(canonical_digits(digits));
        lemma_digits_roundtrip(digits);
        assert(dec_digits(acc as nat) == digits);
        assert(name@ =~= digits + data_suffix());
        assert(name@ == data_name(acc as nat));
    }
    Some(acc)
}

/// The decimal digits of `n`, as a byte vector.
pub fn u64_to_dec(n: u64) -> (r: Vec<u8>)
    ensures
        r@ == dec_digits(n as nat),
    decreases n,
{
    if n < 10 {
        let mut v: Vec<u8> = Vec::new();
        v.push((n + 48) as u8);
        proof {
            assert(v@ =~= dec_digits(n as nat));
        }
        v
    } else {
        let mut v = u64_to_dec(n / 10);
        v.push((n % 10 + 48) as u8);
        v
    }
}

/// The name of segment file `id`, as bytes: `<id>.data`.
pub fn data(id: u64) -> (r: Vec<u8>)
    ensures
        r@ == data_name(id as nat),
{
    let mut v = u64_to_dec(id);
    v.push(46);
    v.push(100);
    v.push(97);
    v.push(116);
    v.push(97);
    proof {
        assert(v@ =~= data_name(id as nat));
    }
    v
}

/// The name of merge temp file `id`, as bytes: `<id>.data.temp`.
pub fn temp(id: u64) -> (r: Vec<u8>)
    ensures
        r@ == temp_name(id as nat),
{
    let mut v = u64_to_dec(id);
    v.push(46);
    v.push(100);
    v.push(97);
    v.push(116);
    v.push(97);
    v.push(46);
    v.push(116);
    v.push(101);
    v.push(109);
    v.push(112);
    proof {
        assert(v@ =~= temp_name(id as nat));
    }
    v
}

} // verus!
