//! A strict bencode decoder for tracker replies.
//!
//! The decoder accepts exactly the canonical encodings: a tree comes
//! back precisely when one's encoding starts the buffer, and it
//! re-encodes, byte for byte, to what it was read from (see
//! [`decode_buf`]). Leading zeros and negative zero are refused; bytes
//! after the value are ignored.

use vstd::prelude::*;
use crate::errors::Error;

verus! {

/// A parsed bencode tree. Dictionaries keep their pairs in the order
/// the input gave them.
#[derive(Debug)]
pub enum BEncode {
    Int(i64),
    Str(Vec<u8>),
    List(Vec<BEncode>),
    Dict(Vec<(Vec<u8>, BEncode)>),
}

/// The canonical decimal digits of `n`, most significant first.
pub open spec fn dec_digits(n: nat) -> Seq<u8>
    decreases n,
{
    if n < 10 {
        seq![(48 + n) as u8]
    } else {
        dec_digits(n / 10) + seq![(48 + n % 10) as u8]
    }
}

/// The canonical bencode digits of a signed integer.
pub open spec fn int_bytes(i: int) -> Seq<u8> {
    if i < 0 {
        seq![45u8] + dec_digits((-i) as nat)
    } else {
        dec_digits(i as nat)
    }
}

/// The unique bencode encoding of a tree.
pub open spec fn enc(v: BEncode) -> Seq<u8>
    decreases v,
{
    match v {
        BEncode::Int(i) => seq![105u8] + int_bytes(i as int) + seq![101u8],
        BEncode::Str(s) => dec_digits(s@.len()) + seq![58u8] + s@,
        BEncode::List(l) => seq![108u8] + enc_items(l@) + seq![101u8],
        BEncode::Dict(d) => seq![100u8] + enc_pairs(d@) + seq![101u8],
    }
}

/// The concatenated encodings of a list's items.
pub open spec fn enc_items(s: Seq<BEncode>) -> Seq<u8>
    decreases s,
{
    if s.len() == 0 {
        Seq::empty()
    } else {
        enc(s[0]) + enc_items(s.drop_first())
    }
}

/// The concatenated encodings of a dictionary's key/value pairs.
pub open spec fn enc_pairs(s: Seq<(Vec<u8>, BEncode)>) -> Seq<u8>
    decreases s,
{
    if s.len() == 0 {
        Seq::empty()
    } else {
        dec_digits(s[0].0@.len()) + seq![58u8] + s[0].0@ + enc(s[0].1) + enc_pairs(s.drop_first())
    }
}

/// The first value bound to `key`, if the dictionary has one.
pub open spec fn spec_dict_get(pairs: Seq<(Vec<u8>, BEncode)>, key: Seq<u8>) -> Option<BEncode>
    decreases pairs.len(),
{
    if pairs.len() == 0 {
        None
    } else if pairs[0].0@ == key {
        Some(pairs[0].1)
    } else {
        spec_dict_get(pairs.drop_first(), key)
    }
}

/// Every byte of a canonical decimal is an ASCII digit.
proof fn lemma_dec_digits_are_digits(n: nat)
    ensures
        forall|i: int|
            0 <= i < dec_digits(n).len() ==> 48 <= #[trigger] dec_digits(n)[i] <= 57,
    decreases n,
{
    if n >= 10 {
        lemma_dec_digits_are_digits(n / 10);
        assert(dec_digits(n) == dec_digits(n / 10) + seq![(48 + n % 10) as u8]);
        assert forall|i: int| 0 <= i < dec_digits(n).len() implies 48 <= #[trigger] dec_digits(
            n,
        )[i] <= 57 by {
            if i < dec_digits(n / 10).len() {
                assert(dec_digits(n)[i] == dec_digits(n / 10)[i]);
            } else {
                assert(dec_digits(n)[i] == (48 + n % 10) as u8);
            }
        }
    } else {
        assert(dec_digits(n) == seq![(48 + n) as u8]);
        assert(dec_digits(n)[0] == (48 + n) as u8);
    }
}

/// A canonical decimal never starts with a zero unless it is zero.
proof fn lemma_dec_digits_leading(n: nat)
    ensures
        n > 0 ==> dec_digits(n)[0] != 48,
        dec_digits(n).len() > 0,
    decreases n,
{
    if n >= 10 {
        lemma_dec_digits_leading(n / 10);
    }
}

/// Equal digit strings denote equal numbers.
proof fn lemma_dec_digits_inj(a: nat, b: nat)
    requires
        dec_digits(a) == dec_digits(b),
    ensures
        a == b,
    decreases a,
{
    lemma_dec_digits_leading(a);
    lemma_dec_digits_leading(b);
    if a < 10 && b < 10 {
        assert(dec_digits(a)[0] == dec_digits(b)[0]);
    } else if a >= 10 && b >= 10 {
        assert(dec_digits(a).drop_last() =~= dec_digits(a / 10));
        assert(dec_digits(b).drop_last() =~= dec_digits(b / 10));
        lemma_dec_digits_inj(a / 10, b / 10);
        assert(dec_digits(a) == dec_digits(a / 10) + seq![(48 + a % 10) as u8]);
        assert(dec_digits(b) == dec_digits(b / 10) + seq![(48 + b % 10) as u8]);
        assert(dec_digits(a).last() == (48 + a % 10) as u8);
        assert(dec_digits(b).last() == (48 + b % 10) as u8);
        assert((48 + a % 10) as u8 == (48 + b % 10) as u8);
        assert(a % 10 == b % 10);
        vstd::arithmetic::div_mod::lemma_fundamental_div_mod(a as int, 10);
        vstd::arithmetic::div_mod::lemma_fundamental_div_mod(b as int, 10);
    } else if a < 10 {
        lemma_dec_digits_leading(b / 10);
        assert(dec_digits(b).len() >= 2);
        assert(dec_digits(a).len() == 1);
    } else {
        lemma_dec_digits_leading(a / 10);
        assert(dec_digits(a).len() >= 2);
        assert(dec_digits(b).len() == 1);
    }
}

/// A canonical decimal that is a prefix of another denotes no larger
/// a number.
proof fn lemma_dec_digits_prefix_le(a: nat, b: nat)
    requires
        dec_digits(a).is_prefix_of(dec_digits(b)),
    ensures
        a <= b,
    decreases b,
{
    if dec_digits(a).len() == dec_digits(b).len() {
        assert(dec_digits(a) =~= dec_digits(b));
        lemma_dec_digits_inj(a, b);
    } else {
        assert(dec_digits(a).len() < dec_digits(b).len());
        assert(b >= 10);
        assert(dec_digits(b).drop_last() =~= dec_digits(b / 10));
        assert(dec_digits(a).is_prefix_of(dec_digits(b / 10)));
        lemma_dec_digits_prefix_le(a, b / 10);
    }
}

proof fn lemma_dec_digits_snoc(n: nat, d: nat)
    requires
        d < 10,
        n >= 1,
    ensures
        dec_digits(n * 10 + d) == dec_digits(n) + seq![(48 + d) as u8],
{
    let m = n * 10 + d;
    vstd::arithmetic::div_mod::lemma_fundamental_div_mod_converse(m as int, 10, n as int, d as int);
    assert(m / 10 == n && m % 10 == d);
    assert(m >= 10);
}

/// A whole string item (`<len>:<bytes>`) sits at `pos`.
spec fn str_at(data: Seq<u8>, pos: int, s: Seq<u8>, end: int) -> bool {
    &&& pos < end <= data.len()
    &&& s.len() <= u64::MAX
    &&& data.subrange(pos, end) == dec_digits(s.len()) + seq![58u8] + s
}

/// A whole encoded value sits at `pos`.
spec fn value_at(data: Seq<u8>, pos: int, v: BEncode, end: int) -> bool {
    &&& 0 <= pos < end <= data.len()
    &&& data.subrange(pos, end) == enc(v)
}

/// The tail of a list (`<items>e`) sits at `pos`.
spec fn items_at(data: Seq<u8>, pos: int, items: Seq<BEncode>, end: int) -> bool {
    &&& 0 <= pos < end <= data.len()
    &&& data.subrange(pos, end) == enc_items(items) + seq![101u8]
}

/// The tail of a dictionary (`<pairs>e`) sits at `pos`.
spec fn pairs_at(data: Seq<u8>, pos: int, pairs: Seq<(Vec<u8>, BEncode)>, end: int) -> bool {
    &&& 0 <= pos < end <= data.len()
    &&& data.subrange(pos, end) == enc_pairs(pairs) + seq![101u8]
}

/// Every encoding is non-empty, and its first byte names the variant.
proof fn lemma_enc_head(v: BEncode)
    ensures
        enc(v).len() > 0,
        (v matches BEncode::Int(_) ==> enc(v)[0] == 105),
        (v matches BEncode::Str(s) ==> (48 <= enc(v)[0] <= 57)),
        (v matches BEncode::List(_) ==> enc(v)[0] == 108),
        (v matches BEncode::Dict(_) ==> enc(v)[0] == 100),
{
    match v {
        BEncode::Int(i) => {
            assert(enc(v)[0] == 105);
        },
        BEncode::Str(s) => {
            lemma_dec_digits_are_digits(s@.len());
            lemma_dec_digits_leading(s@.len());
            assert(enc(v)[0] == dec_digits(s@.len())[0]);
        },
        BEncode::List(l) => {
            assert(enc(v)[0] == 108);
        },
        BEncode::Dict(d) => {
            assert(enc(v)[0] == 100);
        },
    }
}

/// An encoded value whose first byte is `i` is an integer, laid out as
/// `i`, an optional sign, canonical digits, `e`.
proof fn lemma_int_at(data: Seq<u8>, pos: int, v: BEncode, end: int)
    requires
        value_at(data, pos, v, end),
        data[pos] == 105,
    ensures
        v matches BEncode::Int(ii) && {
            &&& end - pos >= 3
            &&& data[end - 1] == 101
            &&& ((ii as int) < 0 ==> (data[pos + 1] == 45 && digits_at(
                data,
                pos + 2,
                (-(ii as int)) as u64,
                end - 1,
            ) && 1 <= -(ii as int) <= 9223372036854775808))
            &&& ((ii as int) >= 0 ==> (!(data[pos + 1] == 45) && digits_at(
                data,
                pos + 1,
                ii as u64,
                end - 1,
            ) && ii <= 9223372036854775807))
        },
{
    assert(data[pos] == data.subrange(pos, end)[0]);
    lemma_enc_head(v);
    let ii = v->Int_0;
    assert(v matches BEncode::Int(i) && i == ii);
    let iv = ii as int;
    let ib = int_bytes(iv);
    assert(enc(v) == seq![105u8] + ib + seq![101u8]);
    if iv < 0 {
        lemma_dec_digits_leading((-iv) as nat);
    } else {
        lemma_dec_digits_leading(iv as nat);
    }
    assert(ib.len() >= 1);
    assert(data.subrange(pos, end).len() == end - pos);
    assert(end - pos == 2 + ib.len());
    assert(data[end - 1] == data.subrange(pos, end)[end - 1 - pos]);
    assert(data.subrange(pos, end)[end - 1 - pos] == 101);
    assert(data[pos + 1] == data.subrange(pos, end)[1]);
    assert(data.subrange(pos, end)[1] == ib[0]);
    if iv < 0 {
        let dd = dec_digits((-iv) as nat);
        assert(ib == seq![45u8] + dd);
        assert(ib[0] == 45);
        assert(data.subrange(pos + 2, end - 1) =~= dd) by {
            assert forall|k: int| 0 <= k < dd.len() implies data.subrange(pos + 2, end - 1)[k]
                == dd[k] by {
                assert(data.subrange(pos + 2, end - 1)[k] == data[pos + 2 + k]);
                assert(data[pos + 2 + k] == data.subrange(pos, end)[2 + k]);
                assert(data.subrange(pos, end)[2 + k] == ib[1 + k]);
                assert(ib[1 + k] == dd[k]);
            }
        }
        assert(((-iv) as u64) as nat == (-iv) as nat);
        assert(!(48 <= data[end - 1] <= 57));
        assert(digits_at(data, pos + 2, (-iv) as u64, end - 1));
    } else {
        let dd = dec_digits(iv as nat);
        assert(ib == dd);
        lemma_dec_digits_are_digits(iv as nat);
        assert(48 <= ib[0] <= 57);
        assert(data[pos + 1] != 45);
        assert(data.subrange(pos + 1, end - 1) =~= dd) by {
            assert forall|k: int| 0 <= k < dd.len() implies data.subrange(pos + 1, end - 1)[k]
                == dd[k] by {
                assert(data.subrange(pos + 1, end - 1)[k] == data[pos + 1 + k]);
                assert(data[pos + 1 + k] == data.subrange(pos, end)[1 + k]);
                assert(data.subrange(pos, end)[1 + k] == ib[k]);
            }
        }
        assert((ii as u64) as nat == iv as nat);
        assert(digits_at(data, pos + 1, ii as u64, end - 1));
    }
}

/// An encoded value whose first byte is a digit is a byte string.
proof fn lemma_str_at(data: Seq<u8>, pos: int, v: BEncode, end: int)
    requires
        value_at(data, pos, v, end),
        48 <= data[pos] <= 57,
        data.len() <= usize::MAX,
    ensures
        v matches BEncode::Str(s) && str_at(data, pos, s@, end),
{
    assert(data[pos] == data.subrange(pos, end)[0]);
    lemma_enc_head(v);
    let s = v->Str_0;
    assert(v matches BEncode::Str(q) && q == s);
    assert(s@.len() <= data.len());
    assert(str_at(data, pos, s@, end));
}

/// An encoded value whose first byte is `l` is a list, its items
/// followed by `e` one byte in.
proof fn lemma_list_at(data: Seq<u8>, pos: int, v: BEncode, end: int)
    requires
        value_at(data, pos, v, end),
        data[pos] == 108,
    ensures
        v matches BEncode::List(l) && items_at(data, pos + 1, l@, end),
{
    assert(data[pos] == data.subrange(pos, end)[0]);
    lemma_enc_head(v);
    let l = v->List_0;
    assert(v matches BEncode::List(q) && q == l);
    assert(enc(v) == seq![108u8] + (enc_items(l@) + seq![101u8]));
    assert(data.subrange(pos + 1, end) =~= enc_items(l@) + seq![101u8]) by {
        assert forall|k: int| 0 <= k < end - pos - 1 implies data.subrange(pos + 1, end)[k] == (
        enc_items(l@) + seq![101u8])[k] by {
            assert(data.subrange(pos + 1, end)[k] == data.subrange(pos, end)[k + 1]);
        }
    }
}

/// An encoded value whose first byte is `d` is a dictionary, its pairs
/// followed by `e` one byte in.
proof fn lemma_dict_at(data: Seq<u8>, pos: int, v: BEncode, end: int)
    requires
        value_at(data, pos, v, end),
        data[pos] == 100,
    ensures
        v matches BEncode::Dict(d) && pairs_at(data, pos + 1, d@, end),
{
    assert(data[pos] == data.subrange(pos, end)[0]);
    lemma_enc_head(v);
    let d = v->Dict_0;
    assert(v matches BEncode::Dict(q) && q == d);
    assert(enc(v) == seq![100u8] + (enc_pairs(d@) + seq![101u8]));
    assert(data.subrange(pos + 1, end) =~= enc_pairs(d@) + seq![101u8]) by {
        assert forall|k: int| 0 <= k < end - pos - 1 implies data.subrange(pos + 1, end)[k] == (
        enc_pairs(d@) + seq![101u8])[k] by {
            assert(data.subrange(pos + 1, end)[k] == data.subrange(pos, end)[k + 1]);
        }
    }
}

/// How a non-empty list tail splits: its first item's encoding, then
/// the rest of the tail.
proof fn lemma_items_split(data: Seq<u8>, pos: int, items: Seq<BEncode>, end: int)
    requires
        items_at(data, pos, items, end),
    ensures
        items.len() == 0 ==> (data[pos] == 101 && end == pos + 1),
        items.len() > 0 ==> {
            let mid = pos + enc(items[0]).len();
            &&& data[pos] != 101
            &&& value_at(data, pos, items[0], mid)
            &&& items_at(data, mid, items.drop_first(), end)
        },
{
    if items.len() == 0 {
        assert(data.subrange(pos, end) == seq![101u8]);
        assert(data[pos] == data.subrange(pos, end)[0]);
    } else {
        let it0 = items[0];
        let rest = items.drop_first();
        lemma_enc_head(it0);
        assert(enc_items(items) == enc(it0) + enc_items(rest));
        let whole = enc(it0) + (enc_items(rest) + seq![101u8]);
        assert(data.subrange(pos, end) =~= whole);
        let mid = pos + enc(it0).len();
        assert(data.subrange(pos, end).len() == end - pos);
        assert(end - pos == enc(it0).len() + enc_items(rest).len() + 1);
        assert(data[pos] == data.subrange(pos, end)[0]);
        assert(data.subrange(pos, end)[0] == enc(it0)[0]);
        assert(data[pos] != 101);
        assert(data.subrange(pos, mid) =~= enc(it0)) by {
            assert forall|k: int| 0 <= k < enc(it0).len() implies data.subrange(pos, mid)[k]
                == enc(it0)[k] by {
                assert(data.subrange(pos, mid)[k] == data[pos + k]);
                assert(data[pos + k] == data.subrange(pos, end)[k]);
                assert(data.subrange(pos, end)[k] == whole[k]);
                assert(whole[k] == enc(it0)[k]);
            }
        }
        assert(data.subrange(mid, end) =~= enc_items(rest) + seq![101u8]) by {
            assert forall|k: int| 0 <= k < end - mid implies data.subrange(mid, end)[k] == (
            enc_items(rest) + seq![101u8])[k] by {
                assert(data.subrange(mid, end)[k] == data[mid + k]);
                assert(data[mid + k] == data.subrange(pos, end)[mid - pos + k]);
                assert(data.subrange(pos, end)[mid - pos + k] == whole[mid - pos + k]);
                assert(whole[mid - pos + k] == (enc_items(rest) + seq![101u8])[k]);
            }
        }
    }
}

/// How a non-empty dictionary tail splits: a key string, its value's
/// encoding, then the rest of the tail.
proof fn lemma_pairs_split(data: Seq<u8>, pos: int, pairs: Seq<(Vec<u8>, BEncode)>, end: int)
    requires
        pairs_at(data, pos, pairs, end),
        data.len() <= usize::MAX,
    ensures
        pairs.len() == 0 ==> (data[pos] == 101 && end == pos + 1),
        pairs.len() > 0 ==> {
            let kend = pos + dec_digits(pairs[0].0@.len()).len() + 1 + pairs[0].0@.len();
            let vend = kend + enc(pairs[0].1).len();
            &&& data[pos] != 101
            &&& str_at(data, pos, pairs[0].0@, kend)
            &&& value_at(data, kend, pairs[0].1, vend)
            &&& pairs_at(data, vend, pairs.drop_first(), end)
        },
{
    if pairs.len() == 0 {
        assert(data.subrange(pos, end) == seq![101u8]);
        assert(data[pos] == data.subrange(pos, end)[0]);
    } else {
        let key = pairs[0].0@;
        let val = pairs[0].1;
        let rest = pairs.drop_first();
        let ks = dec_digits(key.len()) + seq![58u8] + key;
        lemma_dec_digits_leading(key.len());
        lemma_dec_digits_are_digits(key.len());
        lemma_enc_head(val);
        assert(enc_pairs(pairs) == dec_digits(key.len()) + seq![58u8] + key + enc(val)
            + enc_pairs(rest));
        let kend = pos + ks.len();
        let vend = kend + enc(val).len();
        let whole = ks + enc(val) + (enc_pairs(rest) + seq![101u8]);
        assert(data.subrange(pos, end) =~= whole);
        assert(data.subrange(pos, end).len() == end - pos);
        assert(end - pos == whole.len());
        assert(data[pos] == data.subrange(pos, end)[0]);
        assert(data.subrange(pos, end)[0] == whole[0]);
        assert(whole[0] == ks[0]);
        assert(ks[0] == dec_digits(key.len())[0]);
        assert(data[pos] != 101);
        assert(key.len() <= data.len());
        assert(data.subrange(pos, kend) =~= ks) by {
            assert forall|k: int| 0 <= k < ks.len() implies data.subrange(pos, kend)[k]
                == ks[k] by {
                assert(data.subrange(pos, kend)[k] == data[pos + k]);
                assert(data[pos + k] == data.subrange(pos, end)[k]);
                assert(data.subrange(pos, end)[k] == whole[k]);
                assert(whole[k] == ks[k]);
            }
        }
        assert(str_at(data, pos, key, kend));
        assert(data.subrange(kend, vend) =~= enc(val)) by {
            assert forall|k: int| 0 <= k < enc(val).len() implies data.subrange(kend, vend)[k]
                == enc(val)[k] by {
                assert(data.subrange(kend, vend)[k] == data[kend + k]);
                assert(data[kend + k] == data.subrange(pos, end)[kend - pos + k]);
                assert(data.subrange(pos, end)[kend - pos + k] == whole[kend - pos + k]);
                assert(whole[kend - pos + k] == enc(val)[k]);
            }
        }
        assert(data.subrange(vend, end) =~= enc_pairs(rest) + seq![101u8]) by {
            assert forall|k: int| 0 <= k < end - vend implies data.subrange(vend, end)[k] == (
            enc_pairs(rest) + seq![101u8])[k] by {
                assert(data.subrange(vend, end)[k] == data[vend + k]);
                assert(data[vend + k] == data.subrange(pos, end)[vend - pos + k]);
                assert(data.subrange(pos, end)[vend - pos + k] == whole[vend - pos + k]);
                assert(whole[vend - pos + k] == (enc_pairs(rest) + seq![101u8])[k]);
            }
        }
    }
}

/// How a string item splits: its canonical length digits, the colon,
/// and the body.
proof fn lemma_str_split(data: Seq<u8>, pos: int, s: Seq<u8>, end: int)
    requires
        str_at(data, pos, s, end),
        0 <= pos,
    ensures
        ({
            let dlen = dec_digits(s.len()).len();
            &&& digits_at(data, pos, s.len() as u64, pos + dlen)
            &&& data[pos + dlen] == 58
            &&& end == pos + dlen + 1 + s.len()
            &&& data.subrange(pos + dlen + 1, end) == s
        }),
{
    let dd = dec_digits(s.len());
    let dlen = dd.len() as int;
    lemma_dec_digits_leading(s.len());
    let whole = dd + seq![58u8] + s;
    assert(data.subrange(pos, end) =~= whole);
    assert(data.subrange(pos, end).len() == end - pos);
    assert(end == pos + dlen + 1 + s.len());
    assert(data[pos + dlen] == data.subrange(pos, end)[dlen]);
    assert(data.subrange(pos, end)[dlen] == whole[dlen]);
    assert(whole[dlen] == 58);
    assert(data.subrange(pos, pos + dlen) =~= dd) by {
        assert forall|k: int| 0 <= k < dlen implies data.subrange(pos, pos + dlen)[k]
            == dd[k] by {
            assert(data.subrange(pos, pos + dlen)[k] == data[pos + k]);
            assert(data[pos + k] == data.subrange(pos, end)[k]);
            assert(data.subrange(pos, end)[k] == whole[k]);
            assert(whole[k] == dd[k]);
        }
    }
    assert((s.len() as u64) as nat == s.len());
    assert(digits_at(data, pos, s.len() as u64, pos + dlen));
    assert(data.subrange(pos + dlen + 1, end) =~= s) by {
        assert forall|k: int| 0 <= k < s.len() implies data.subrange(pos + dlen + 1, end)[k]
            == s[k] by {
            assert(data.subrange(pos + dlen + 1, end)[k] == data[pos + dlen + 1 + k]);
            assert(data[pos + dlen + 1 + k] == data.subrange(pos, end)[dlen + 1 + k]);
            assert(data.subrange(pos, end)[dlen + 1 + k] == whole[dlen + 1 + k]);
            assert(whole[dlen + 1 + k] == s[k]);
        }
    }
}

fn bytes_eq(a: &[u8], b: &[u8]) -> (r: bool)
    ensures
        r == (a@ == b@),
{
    if a.len() != b.len() {
        assert(a@.len() != b@.len());
        return false;
    }
    let mut i: usize = 0;
    while i < a.len()
        invariant
            i <= a@.len(),
            a@.len() == b@.len(),
            forall|j: int| 0 <= j < i ==> a@[j] == b@[j],
        decreases a@.len() - i,
    {
        if a[i] != b[i] {
            return false;
        }
        i = i + 1;
    }
    proof {
        assert(a@ =~= b@);
    }
    true
}

/// Look a key up in a decoded dictionary; the first matching pair wins.
pub fn dict_get<'a>(pairs: &'a Vec<(Vec<u8>, BEncode)>, key: &[u8]) -> (r: Option<&'a BEncode>)
    ensures
        (r matches Some(v) ==> spec_dict_get(pairs@, key@) == Some(*v)),
        (r is None ==> spec_dict_get(pairs@, key@) is None),
{
    let mut i: usize = 0;
    proof {
        assert(pairs@.skip(0) =~= pairs@);
    }
    while i < pairs.len()
        invariant
            i <= pairs@.len(),
            spec_dict_get(pairs@, key@) == spec_dict_get(pairs@.skip(i as int), key@),
        decreases pairs@.len() - i,
    {
        proof {
            assert(pairs@.skip(i as int)[0] == pairs@[i as int]);
        }
        if bytes_eq(pairs[i].0.as_slice(), key) {
            return Some(&pairs[i].1);
        }
        proof {
            assert(pairs@.skip(i as int).drop_first() =~= pairs@.skip(i + 1));
        }
        i = i + 1;
    }
    proof {
        assert(pairs@.skip(pairs@.len() as int).len() == 0);
    }
    None
}

/// A canonical decimal for `m` sits at `pos`, with nothing that could
/// extend the digit run right after it.
spec fn digits_at(data: Seq<u8>, pos: int, m: u64, end: int) -> bool {
    &&& pos < end <= data.len()
    &&& data.subrange(pos, end) == dec_digits(m as nat)
    &&& (end == data.len() || !(48 <= data[end] <= 57))
}

fn parse_digits(data: &[u8], pos: usize) -> (r: Option<(u64, usize)>)
    requires
        pos <= data@.len(),
    ensures
        (r matches Some(p) ==> (pos < p.1 <= data@.len() && data@.subrange(
            pos as int,
            p.1 as int,
        ) == dec_digits(p.0 as nat))),
        forall|m: u64, end: int|
            #[trigger] digits_at(data@, pos as int, m, end) ==> (r matches Some(p) && p.0 == m
                && p.1 == end),
{
    if pos >= data.len() {
        proof {
            assert forall|m: u64, end: int| !digits_at(data@, pos as int, m, end) by {}
        }
        return None;
    }
    let b0 = data[pos];
    if b0 < 48 || b0 > 57 {
        proof {
            assert forall|m: u64, end: int|
                #[trigger] digits_at(data@, pos as int, m, end) implies false by {
                lemma_dec_digits_are_digits(m as nat);
                lemma_dec_digits_leading(m as nat);
                assert(data@[pos as int] == dec_digits(m as nat)[0]);
            }
        }
        return None;
    }
    if b0 == 48 {
        // a longer run starting with zero would not be canonical
        assert(data@.subrange(pos as int, pos + 1 as int) =~= dec_digits(0));
        proof {
            assert forall|m: u64, end: int|
                #[trigger] digits_at(data@, pos as int, m, end) implies m == 0 && end == pos
                + 1 by {
                lemma_dec_digits_leading(m as nat);
                assert(data@[pos as int] == dec_digits(m as nat)[0]);
                assert(m == 0);
                assert(dec_digits(0).len() == 1);
            }
        }
        return Some((0, pos + 1));
    }
    let mut n: u64 = (b0 - 48) as u64;
    let mut cur: usize = pos + 1;
    assert(data@.subrange(pos as int, cur as int) =~= dec_digits(n as nat));
    while cur < data.len() && 48 <= data[cur as usize] && data[cur as usize] <= 57
        invariant
            pos < cur <= data@.len(),
            1 <= n,
            data@.subrange(pos as int, cur as int) == dec_digits(n as nat),
        decreases data@.len() - cur,
    {
        let d = data[cur] - 48;
        proof {
            lemma_dec_digits_snoc(n as nat, d as nat);
            assert(data@.subrange(pos as int, cur + 1 as int) =~= data@.subrange(
                pos as int,
                cur as int,
            ) + seq![data@[cur as int]]);
        }
        if n > (u64::MAX - d as u64) / 10 {
            proof {
                // a number whose digits continue here would exceed u64
                lemma_dec_digits_are_digits(n as nat);
                assert forall|m: u64, end: int|
                    #[trigger] digits_at(data@, pos as int, m, end) implies false by {
                    assert forall|i: int| pos <= i < cur implies 48 <= #[trigger] data@[i]
                        <= 57 by {
                        assert(data@[i] == dec_digits(n as nat)[i - pos]);
                    }
                    lemma_digit_run_within(data@, pos as int, m, end, cur as int);
                    assert(data@.subrange(pos as int, cur + 1 as int) =~= data@.subrange(
                        pos as int,
                        end,
                    ).subrange(0, cur + 1 - pos));
                    assert(dec_digits((n as nat) * 10 + (d as nat)).is_prefix_of(
                        dec_digits(m as nat),
                    ));
                    lemma_dec_digits_prefix_le((n as nat) * 10 + (d as nat), m as nat);
                    assert((n as nat) * 10 + (d as nat) > u64::MAX) by {
                        vstd::arithmetic::div_mod::lemma_fundamental_div_mod(
                            (u64::MAX - d as u64) as int,
                            10,
                        );
                    }
                }
            }
            return None;
        }
        n = n * 10 + d as u64;
        cur = cur + 1;
    }
    proof {
        lemma_dec_digits_are_digits(n as nat);
        assert forall|m: u64, end: int|
            #[trigger] digits_at(data@, pos as int, m, end) implies m == n && end
            == cur as int by {
            assert forall|i: int| pos <= i < cur implies 48 <= #[trigger] data@[i] <= 57 by {
                assert(data@[i] == dec_digits(n as nat)[i - pos]);
            }
            lemma_digit_run_end(data@, pos as int, m, end, cur as int);
            assert(data@.subrange(pos as int, end) == data@.subrange(pos as int, cur as int));
            lemma_dec_digits_inj(m as nat, n as nat);
        }
    }
    Some((n, cur))
}

/// While the parser still sees a digit at `cur`, any canonical number
/// at `pos` extends past `cur`: the bytes through `cur` are a strict
/// prefix of its digits.
proof fn lemma_digit_run_within(data: Seq<u8>, pos: int, m: u64, end: int, cur: int)
    requires
        digits_at(data, pos, m, end),
        0 <= pos < cur < data.len(),
        48 <= data[cur] <= 57,
        forall|i: int| pos <= i < cur ==> 48 <= #[trigger] data[i] <= 57,
    ensures
        cur < end,
{
    if end <= cur {
        assert(end < data.len());
        assert(48 <= data[end] <= 57);
        assert(false);
    }
}

/// When the digit run stops at `cur`, a canonical number at `pos` ends
/// exactly there.
proof fn lemma_digit_run_end(data: Seq<u8>, pos: int, m: u64, end: int, cur: int)
    requires
        digits_at(data, pos, m, end),
        0 <= pos < cur <= data.len(),
        cur == data.len() || !(48 <= data[cur] <= 57),
        forall|i: int| pos <= i < cur ==> 48 <= #[trigger] data[i] <= 57,
    ensures
        end == cur,
{
    lemma_dec_digits_are_digits(m as nat);
    if end < cur {
        assert(48 <= data[end] <= 57);
    }
    if end > cur {
        assert(cur < data.len());
        assert(data.subrange(pos, end) == dec_digits(m as nat));
        assert(data.subrange(pos, end).len() == end - pos);
        assert(dec_digits(m as nat).len() == end - pos);
        assert(48 <= dec_digits(m as nat)[cur - pos] <= 57);
        assert(data.subrange(pos, end)[cur - pos] == data[cur]);
        assert(48 <= data[cur] <= 57);
    }
}

fn parse_str(data: &[u8], pos: usize) -> (r: Option<(Vec<u8>, usize)>)
    requires
        pos <= data@.len(),
    ensures
        (r matches Some(p) ==> (pos < p.1 <= data@.len() && data@.subrange(
            pos as int,
            p.1 as int,
        ) == dec_digits(p.0@.len()) + seq![58u8] + p.0@)),
        forall|s: Seq<u8>, end: int|
            #[trigger] str_at(data@, pos as int, s, end) ==> (r matches Some(p) && p.1 == end),
{
    match parse_digits(data, pos) {
        None => {
            proof {
                assert forall|s: Seq<u8>, end: int|
                    #[trigger] str_at(data@, pos as int, s, end) implies false by {
                    lemma_str_split(data@, pos as int, s, end);
                }
            }
            None
        },
        Some((n, p1)) => {
            if p1 >= data.len() || data[p1] != 58 {
                proof {
                    assert forall|s: Seq<u8>, end: int|
                        #[trigger] str_at(data@, pos as int, s, end) implies false by {
                        lemma_str_split(data@, pos as int, s, end);
                    }
                }
                return None;
            }
            let body = p1 + 1;
            if n > (data.len() - body) as u64 {
                proof {
                    assert forall|s: Seq<u8>, end: int|
                        #[trigger] str_at(data@, pos as int, s, end) implies false by {
                        lemma_str_split(data@, pos as int, s, end);
                    }
                }
                return None;
            }
            let len = n as usize;
            let s = vstd::slice::slice_to_vec(vstd::slice::slice_subrange(data, body, body + len));
            proof {
                assert(s@ == data@.subrange(body as int, body + len as int));
                assert(data@.subrange(pos as int, body + len as int) =~= dec_digits(s@.len())
                    + seq![58u8] + s@);
                assert forall|t: Seq<u8>, end: int|
                    #[trigger] str_at(data@, pos as int, t, end) implies body + len == end by {
                    lemma_str_split(data@, pos as int, t, end);
                }
            }
            Some((s, body + len))
        },
    }
}

fn parse_value(data: &[u8], pos: usize) -> (r: Option<(BEncode, usize)>)
    requires
        pos <= data@.len(),
    ensures
        (r matches Some(p) ==> (pos < p.1 <= data@.len() && data@.subrange(
            pos as int,
            p.1 as int,
        ) == enc(p.0))),
        forall|v: BEncode, end: int|
            #[trigger] value_at(data@, pos as int, v, end) ==> (r matches Some(p) && p.1 == end),
    decreases data@.len() - pos, 0nat,
{
    if pos >= data.len() {
        return None;
    }
    let b = data[pos];
    if b == 105 {
        // integer
        let mut cur: usize = pos + 1;
        let mut neg = false;
        if cur < data.len() && data[cur] == 45 {
            neg = true;
            cur = cur + 1;
        }
        proof {
            assert forall|v: BEncode, end: int|
                #[trigger] value_at(data@, pos as int, v, end) implies ((v->Int_0 as int) < 0
                ==> (neg && cur == pos + 2 && digits_at(data@, cur as int, (-(v->Int_0 as int)) as u64, end - 1)
                    && 1 <= -(v->Int_0 as int) <= 9223372036854775808))
                && ((v->Int_0 as int) >= 0 ==> (!neg && cur == pos + 1 && digits_at(
                data@,
                cur as int,
                v->Int_0 as u64,
                end - 1,
            ) && v->Int_0 <= 9223372036854775807)) && data@[end - 1] == 101 && end - 1
                < data@.len() by {
                assert(data@[pos as int] == data@.subrange(pos as int, end)[0]);
                lemma_int_at(data@, pos as int, v, end);
            }
        }
        match parse_digits(data, cur) {
            None => None,
            Some((n, p1)) => {
                if p1 >= data.len() || data[p1] != 101 {
                    return None;
                }
                if neg {
                    if n == 0 || n > 9223372036854775808u64 {
                        return None;
                    }
                    let i: i64 = if n == 9223372036854775808u64 {
                        i64::MIN
                    } else {
                        -(n as i64)
                    };
                    proof {
                        assert(-(i as int) == n as int);
                        assert(data@.subrange(pos as int, p1 + 1 as int) =~= seq![105u8]
                            + (seq![45u8] + dec_digits(n as nat)) + seq![101u8]);
                    }
                    Some((BEncode::Int(i), p1 + 1))
                } else {
                    if n > 9223372036854775807u64 {
                        return None;
                    }
                    let i: i64 = n as i64;
                    proof {
                        assert(data@.subrange(pos as int, p1 + 1 as int) =~= seq![105u8]
                            + dec_digits(n as nat) + seq![101u8]);
                    }
                    Some((BEncode::Int(i), p1 + 1))
                }
            },
        }
    } else if 48 <= b && b <= 57 {
        // byte string
        proof {
            assert(data@.len() <= usize::MAX);
            assert forall|v: BEncode, end: int|
                #[trigger] value_at(data@, pos as int, v, end) implies str_at(
                data@,
                pos as int,
                v->Str_0@,
                end,
            ) by {
                assert(data@[pos as int] == data@.subrange(pos as int, end)[0]);
                lemma_str_at(data@, pos as int, v, end);
            }
        }
        match parse_str(data, pos) {
            None => None,
            Some((s, end)) => Some((BEncode::Str(s), end)),
        }
    } else if b == 108 {
        // list
        proof {
            assert forall|v: BEncode, end: int|
                #[trigger] value_at(data@, pos as int, v, end) implies items_at(
                data@,
                pos + 1 as int,
                v->List_0@,
                end,
            ) by {
                assert(data@[pos as int] == data@.subrange(pos as int, end)[0]);
                lemma_list_at(data@, pos as int, v, end);
            }
        }
        match parse_items(data, pos + 1) {
            None => None,
            Some((items, end)) => {
                proof {
                    assert(data@.subrange(pos as int, end as int) =~= seq![108u8] + (enc_items(
                        items@,
                    ) + seq![101u8]));
                }
                Some((BEncode::List(items), end))
            },
        }
    } else if b == 100 {
        // dictionary
        proof {
            assert forall|v: BEncode, end: int|
                #[trigger] value_at(data@, pos as int, v, end) implies pairs_at(
                data@,
                pos + 1 as int,
                v->Dict_0@,
                end,
            ) by {
                assert(data@[pos as int] == data@.subrange(pos as int, end)[0]);
                lemma_dict_at(data@, pos as int, v, end);
            }
        }
        match parse_pairs(data, pos + 1) {
            None => None,
            Some((pairs, end)) => {
                proof {
                    assert(data@.subrange(pos as int, end as int) =~= seq![100u8] + (enc_pairs(
                        pairs@,
                    ) + seq![101u8]));
                }
                Some((BEncode::Dict(pairs), end))
            },
        }
    } else {
        proof {
            assert forall|v: BEncode, end: int|
                #[trigger] value_at(data@, pos as int, v, end) implies false by {
                assert(data@[pos as int] == data@.subrange(pos as int, end)[0]);
                lemma_enc_head(v);
            }
        }
        None
    }
}

fn parse_items(data: &[u8], pos: usize) -> (r: Option<(Vec<BEncode>, usize)>)
    requires
        pos <= data@.len(),
    ensures
        (r matches Some(p) ==> (pos < p.1 <= data@.len() && data@.subrange(
            pos as int,
            p.1 as int,
        ) == enc_items(p.0@) + seq![101u8])),
        forall|items: Seq<BEncode>, end: int|
            #[trigger] items_at(data@, pos as int, items, end) ==> (r matches Some(p) && p.1
                == end),
    decreases data@.len() - pos, 1nat,
{
    if pos >= data.len() {
        return None;
    }
    if data[pos] == 101 {
        let items: Vec<BEncode> = Vec::new();
        assert(data@.subrange(pos as int, pos + 1 as int) =~= enc_items(items@) + seq![101u8]);
        proof {
            assert forall|its: Seq<BEncode>, end: int|
                #[trigger] items_at(data@, pos as int, its, end) implies end == pos + 1 by {
                lemma_items_split(data@, pos as int, its, end);
            }
        }
        return Some((items, pos + 1));
    }
    proof {
        assert forall|its: Seq<BEncode>, end: int|
            #[trigger] items_at(data@, pos as int, its, end) implies its.len() > 0 && value_at(
            data@,
            pos as int,
            its[0],
            pos + enc(its[0]).len(),
        ) && items_at(data@, pos + enc(its[0]).len(), its.drop_first(), end) by {
            lemma_items_split(data@, pos as int, its, end);
        }
    }
    match parse_value(data, pos) {
        None => None,
        Some((v, np)) => {
            match parse_items(data, np) {
                None => None,
                Some((mut rest, end)) => {
                    let ghost old_rest = rest@;
                    rest.insert(0, v);
                    proof {
                        assert(rest@.drop_first() =~= old_rest);
                        assert(enc_items(rest@) == enc(v) + enc_items(old_rest));
                        assert(data@.subrange(pos as int, end as int) =~= enc(v) + (enc_items(
                            old_rest,
                        ) + seq![101u8]));
                        assert(data@.subrange(pos as int, end as int) =~= enc_items(rest@)
                            + seq![101u8]);
                    }
                    Some((rest, end))
                },
            }
        },
    }
}

fn parse_pairs(data: &[u8], pos: usize) -> (r: Option<(Vec<(Vec<u8>, BEncode)>, usize)>)
    requires
        pos <= data@.len(),
    ensures
        (r matches Some(p) ==> (pos < p.1 <= data@.len() && data@.subrange(
            pos as int,
            p.1 as int,
        ) == enc_pairs(p.0@) + seq![101u8])),
        forall|pairs: Seq<(Vec<u8>, BEncode)>, end: int|
            #[trigger] pairs_at(data@, pos as int, pairs, end) ==> (r matches Some(p) && p.1
                == end),
    decreases data@.len() - pos, 1nat,
{
    if pos >= data.len() {
        return None;
    }
    if data[pos] == 101 {
        let pairs: Vec<(Vec<u8>, BEncode)> = Vec::new();
        assert(data@.subrange(pos as int, pos + 1 as int) =~= enc_pairs(pairs@) + seq![101u8]);
        proof {
            assert forall|ps: Seq<(Vec<u8>, BEncode)>, end: int|
                #[trigger] pairs_at(data@, pos as int, ps, end) implies end == pos + 1 by {
                lemma_pairs_split(data@, pos as int, ps, end);
            }
        }
        return Some((pairs, pos + 1));
    }
    proof {
        assert(data@.len() <= usize::MAX);
        assert forall|ps: Seq<(Vec<u8>, BEncode)>, end: int|
            #[trigger] pairs_at(data@, pos as int, ps, end) implies ps.len() > 0 && str_at(
            data@,
            pos as int,
            ps[0].0@,
            pos + dec_digits(ps[0].0@.len()).len() + 1 + ps[0].0@.len(),
        ) && value_at(
            data@,
            pos + dec_digits(ps[0].0@.len()).len() + 1 + ps[0].0@.len(),
            ps[0].1,
            pos + dec_digits(ps[0].0@.len()).len() + 1 + ps[0].0@.len() + enc(ps[0].1).len(),
        ) && pairs_at(
            data@,
            pos + dec_digits(ps[0].0@.len()).len() + 1 + ps[0].0@.len() + enc(ps[0].1).len(),
            ps.drop_first(),
            end,
        ) by {
            lemma_pairs_split(data@, pos as int, ps, end);
        }
    }
    match parse_str(data, pos) {
        None => None,
        Some((k, p1)) => {
            match parse_value(data, p1) {
                None => None,
                Some((v, p2)) => {
                    match parse_pairs(data, p2) {
                        None => None,
                        Some((mut rest, end)) => {
                            let ghost old_rest = rest@;
                            let ghost gk = k@;
                            rest.insert(0, (k, v));
                            proof {
                                assert(rest@.drop_first() =~= old_rest);
                                assert(rest@[0].0@ == gk);
                                assert(enc_pairs(rest@) == dec_digits(gk.len()) + seq![58u8] + gk
                                    + enc(v) + enc_pairs(old_rest));
                                assert(data@.subrange(pos as int, end as int) =~= (dec_digits(
                                    gk.len(),
                                ) + seq![58u8] + gk) + enc(v) + (enc_pairs(old_rest)
                                    + seq![101u8]));
                                assert(data@.subrange(pos as int, end as int) =~= enc_pairs(rest@)
                                    + seq![101u8]);
                            }
                            Some((rest, end))
                        },
                    }
                },
            }
        },
    }
}

/// Decode the bencode value a buffer starts with.
///
/// The contract pins both directions: a tree comes back exactly when
/// some tree's canonical encoding is, byte for byte, a prefix of the
/// buffer, and the returned tree is such a tree. Bytes after the value
/// are tolerated (a tracker may pad its reply); anything else is an
/// `InvalidResponse` error.
pub fn decode_buf(data: &[u8]) -> (r: Result<BEncode, Error>)
    ensures
        (r matches Ok(v) ==> enc(v).is_prefix_of(data@)),
        (r matches Err(e) ==> e matches Error::InvalidResponse(_)),
        (exists|v: BEncode| (#[trigger] enc(v)).is_prefix_of(data@)) ==> r is Ok,
{
    match parse_value(data, 0) {
        Some((v, end)) => {
            proof {
                assert(enc(v) =~= data@.subrange(0, end as int));
                assert(enc(v).is_prefix_of(data@));
            }
            Ok(v)
        },
        None => {
            proof {
                if exists|v: BEncode| (#[trigger] enc(v)).is_prefix_of(data@) {
                    let v = choose|v: BEncode| (#[trigger] enc(v)).is_prefix_of(data@);
                    lemma_enc_head(v);
                    assert(data@.subrange(0, enc(v).len() as int) == enc(v));
                    assert(value_at(data@, 0, v, enc(v).len() as int));
                    assert(false);
                }
            }
            Err(Error::InvalidResponse("Invalid BEncoded response!"))
        },
    }
}

} // verus!
