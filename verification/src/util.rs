//! Small helpers shared across the subsystem.

use vstd::prelude::*;
use vstd::string::StringExecFns;
use vstd::utf8::{valid_utf8, decode_utf8};

verus! {

/// Relies on str::from_utf8 (and str::to_owned): it succeeds exactly
/// when the bytes are valid UTF-8, and then returns their decoding.
#[verifier::external_body]
pub fn bytes_to_utf8(b: &[u8]) -> (r: Option<String>)
    ensures
        (r matches Some(s) ==> (valid_utf8(b@) && s@ == decode_utf8(b@))),
        (r is None ==> !valid_utf8(b@)),
{
    match std::str::from_utf8(b) {
        Ok(s) => Some(s.to_owned()),
        Err(_) => None,
    }
}

/// Relies on std::io::Error (an opaque error payload for callers that
/// speak io::Result).
#[verifier::external_type_specification]
#[verifier::external_body]
pub struct ExIoError(std::io::Error);

/// Relies on std::io::Error::new to wrap a plain message as an
/// `Other`-kind I/O error.
#[verifier::external_body]
pub fn io_err_val(reason: &'static str) -> std::io::Error {
    std::io::Error::new(std::io::ErrorKind::Other, reason)
}

/// A failed io::Result with the given reason.
pub fn io_err<T>(reason: &'static str) -> (r: std::io::Result<T>)
    ensures
        r is Err,
{
    Err(io_err_val(reason))
}

/// The one or two upper-case hex characters of a nibble.
pub open spec fn hex_char_seq(n: u8) -> Seq<char>
    recommends
        n < 16,
{
    if n == 0 {
        "0"@
    } else if n == 1 {
        "1"@
    } else if n == 2 {
        "2"@
    } else if n == 3 {
        "3"@
    } else if n == 4 {
        "4"@
    } else if n == 5 {
        "5"@
    } else if n == 6 {
        "6"@
    } else if n == 7 {
        "7"@
    } else if n == 8 {
        "8"@
    } else if n == 9 {
        "9"@
    } else if n == 10 {
        "A"@
    } else if n == 11 {
        "B"@
    } else if n == 12 {
        "C"@
    } else if n == 13 {
        "D"@
    } else if n == 14 {
        "E"@
    } else {
        "F"@
    }
}

/// Upper-case hex of a byte sequence, two characters per byte.
pub open spec fn hex_chars(s: Seq<u8>) -> Seq<char>
    decreases s.len(),
{
    if s.len() == 0 {
        Seq::empty()
    } else {
        hex_char_seq(s[0] / 16) + hex_char_seq(s[0] % 16) + hex_chars(s.drop_first())
    }
}

pub(crate) fn append_hex_char(s: &mut String, n: u8)
    requires
        n < 16,
    ensures
        final(s)@ == old(s)@ + hex_char_seq(n),
{
    if n == 0 {
        s.append("0");
    } else if n == 1 {
        s.append("1");
    } else if n == 2 {
        s.append("2");
    } else if n == 3 {
        s.append("3");
    } else if n == 4 {
        s.append("4");
    } else if n == 5 {
        s.append("5");
    } else if n == 6 {
        s.append("6");
    } else if n == 7 {
        s.append("7");
    } else if n == 8 {
        s.append("8");
    } else if n == 9 {
        s.append("9");
    } else if n == 10 {
        s.append("A");
    } else if n == 11 {
        s.append("B");
    } else if n == 12 {
        s.append("C");
    } else if n == 13 {
        s.append("D");
    } else if n == 14 {
        s.append("E");
    } else {
        s.append("F");
    }
}

proof fn lemma_hex_snoc(s: Seq<u8>)
    requires
        s.len() > 0,
    ensures
        hex_chars(s) == hex_chars(s.drop_last()) + hex_char_seq(s.last() / 16) + hex_char_seq(
            s.last() % 16,
        ),
    decreases s.len(),
{
    if s.len() == 1 {
        assert(s.drop_first() =~= Seq::<u8>::empty());
        assert(s.drop_last() =~= Seq::<u8>::empty());
        assert(hex_chars(s) =~= hex_chars(s.drop_last()) + hex_char_seq(s.last() / 16)
            + hex_char_seq(s.last() % 16));
    } else {
        lemma_hex_snoc(s.drop_first());
        assert(s.drop_first().drop_last() =~= s.drop_last().drop_first());
        assert(s.drop_last()[0] == s[0]);
        assert(hex_chars(s) =~= hex_chars(s.drop_last()) + hex_char_seq(s.last() / 16)
            + hex_char_seq(s.last() % 16));
    }
}

/// The display name of a torrent: its info-hash as 40 upper-case hex
/// characters.
pub fn torrent_name(hash: &[u8; 20]) -> (r: String)
    ensures
        r@ == hex_chars(hash@),
{
    let mut name = String::new();
    let mut i: usize = 0;
    assert(name@ =~= hex_chars(hash@.subrange(0, 0)));
    while i < 20
        invariant
            i <= 20,
            hash@.len() == 20,
            name@ == hex_chars(hash@.subrange(0, i as int)),
        decreases 20 - i,
    {
        let b = hash[i];
        append_hex_char(&mut name, b / 16);
        append_hex_char(&mut name, b % 16);
        proof {
            let post = hash@.subrange(0, i + 1 as int);
            lemma_hex_snoc(post);
            assert(post.drop_last() =~= hash@.subrange(0, i as int));
        }
        i = i + 1;
    }
    assert(hash@.subrange(0, 20) =~= hash@);
    name
}

} // verus!
