//! UTF-16 text: decoding what a file system stores, encoding what it is asked.

use crate::bytes::{le, u16_le};
use crate::text::{chars_of, code_of};
use vstd::prelude::*;

verus! {

/// The character that stands for text that does not decode.
pub const REPLACEMENT: char = '\u{FFFD}';

pub open spec fn is_high_surrogate(u: u16) -> bool {
    0xD800 <= u <= 0xDBFF
}

pub open spec fn is_low_surrogate(u: u16) -> bool {
    0xDC00 <= u <= 0xDFFF
}

/// The text that UTF-16 code units spell. A high surrogate and the low surrogate
/// behind it are one character; a surrogate without its partner is `REPLACEMENT`.
pub open spec fn decode(u: Seq<u16>) -> Seq<char>
    decreases u.len(),
{
    if u.len() == 0 {
        Seq::empty()
    } else if !is_high_surrogate(u[0]) && !is_low_surrogate(u[0]) {
        seq![u[0] as char] + decode(u.skip(1))
    } else if is_high_surrogate(u[0]) && u.len() >= 2 && is_low_surrogate(u[1]) {
        seq![pair_char(u[0], u[1])] + decode(u.skip(2))
    } else {
        seq![REPLACEMENT] + decode(u.skip(1))
    }
}

/// The character that a surrogate pair spells.
pub open spec fn pair_char(hi: u16, lo: u16) -> char {
    (0x10000 + (hi - 0xD800) * 0x400 + (lo - 0xDC00)) as char
}

/// The code units of one character.
pub open spec fn encode_char(c: char) -> Seq<u16> {
    if (c as int) < 0x10000 {
        seq![c as u16]
    } else {
        seq![
            (0xD800 + (c as int - 0x10000) / 0x400) as u16,
            (0xDC00 + (c as int - 0x10000) % 0x400) as u16,
        ]
    }
}

/// The code units of a text.
pub open spec fn encode(s: Seq<char>) -> Seq<u16>
    decreases s.len(),
{
    if s.len() == 0 {
        Seq::empty()
    } else {
        encode_char(s[0]) + encode(s.skip(1))
    }
}

/// Decodes UTF-16 without ever failing.
pub fn decode_lossy(units: &Vec<u16>) -> (out: String)
    ensures
        out@ == decode(units@),
{
    let mut out = String::new();
    let mut i: usize = 0;
    let n: usize = units.len();
    proof {
        assert(units@.skip(0) =~= units@);
        assert(out@ + decode(units@) =~= decode(units@));
    }
    while i < n
        invariant
            i <= n == units.len(),
            out@ + decode(units@.skip(i as int)) == decode(units@),
        decreases n - i,
    {
        let ghost rest = units@.skip(i as int);
        let ghost before = out@;
        let u: u16 = units[i];
        assert(rest[0] == u);
        assert(rest.skip(1) =~= units@.skip(i + 1));
        if u < 0xD800 || u > 0xDFFF {
            let c = match char::from_u32(u as u32) {
                Some(c) => c,
                None => REPLACEMENT,
            };
            out.push(c);
            i += 1;
            assert(before + (seq![c] + decode(units@.skip(i as int))) =~= out@ + decode(units@.skip(i as int)));
        } else if u <= 0xDBFF && i + 1 < n && units[i + 1] >= 0xDC00 && units[i + 1] <= 0xDFFF {
            let lo: u16 = units[i + 1];
            assert(rest[1] == lo);
            assert(rest.skip(2) =~= units@.skip(i + 2));
            let code: u32 = 0x10000 + (u as u32 - 0xD800) * 0x400 + (lo as u32 - 0xDC00);
            let c = match char::from_u32(code) {
                Some(c) => c,
                None => REPLACEMENT,
            };
            out.push(c);
            i += 2;
            assert(before + (seq![c] + decode(units@.skip(i as int))) =~= out@ + decode(units@.skip(i as int)));
        } else {
            out.push(REPLACEMENT);
            i += 1;
            assert(before + (seq![REPLACEMENT] + decode(units@.skip(i as int))) =~= out@ + decode(
                units@.skip(i as int),
            ));
        }
    }
    assert(units@.skip(n as int) =~= Seq::empty());
    assert(out@ + decode(Seq::<u16>::empty()) =~= out@);
    out
}

/// The 16-bit units of `b`, least significant byte first; a last odd byte is left out.
pub open spec fn units_le(b: Seq<u8>) -> Seq<u16> {
    Seq::new((b.len() / 2) as nat, |i: int| le(b, 2 * i, 2) as u16)
}

/// Decodes UTF-16LE bytes; a trailing odd byte is ignored.
pub fn utf16le_to_string(bytes: &[u8]) -> (out: String)
    ensures
        out@ == decode(units_le(bytes@)),
{
    let mut units: Vec<u16> = Vec::new();
    let n: usize = bytes.len() / 2;
    let mut i: usize = 0;
    while i < n
        invariant
            i <= n == bytes.len() / 2,
            units@ == units_le(bytes@).take(i as int),
        decreases n - i,
    {
        let u: u16 = u16_le(bytes, 2 * i);
        units.push(u);
        i += 1;
        assert(units@ =~= units_le(bytes@).take(i as int));
    }
    assert(units_le(bytes@).take(n as int) =~= units_le(bytes@));
    decode_lossy(&units)
}

/// The units in front of the first zero, or all of them.
pub open spec fn until_nul(u: Seq<u16>) -> Seq<u16>
    decreases u.len(),
{
    if u.len() == 0 || u[0] == 0 {
        Seq::empty()
    } else {
        seq![u[0]] + until_nul(u.skip(1))
    }
}

/// Decodes a wide-character buffer up to its first NUL.
pub fn wstr_to_string(w: &[u16]) -> (out: String)
    ensures
        out@ == decode(until_nul(w@)),
{
    let mut units: Vec<u16> = Vec::new();
    let mut i: usize = 0;
    let n: usize = w.len();
    proof {
        assert(w@.skip(0) =~= w@);
        assert(units@ + until_nul(w@) =~= until_nul(w@));
    }
    while i < n && w[i] != 0
        invariant
            i <= n == w.len(),
            units@ + until_nul(w@.skip(i as int)) == until_nul(w@),
        decreases n - i,
    {
        let ghost before = units@;
        units.push(w[i]);
        i += 1;
        assert(w@.skip(i - 1).skip(1) =~= w@.skip(i as int));
        assert(before + (seq![w@[i - 1]] + until_nul(w@.skip(i as int))) =~= units@ + until_nul(
            w@.skip(i as int),
        ));
    }
    assert(units@ + until_nul(w@.skip(i as int)) =~= units@);
    decode_lossy(&units)
}

/// Encodes a text as wide characters with a terminating NUL.
pub fn wide(s: &str) -> (out: Vec<u16>)
    ensures
        out@ == encode(s@).push(0),
{
    let cs = chars_of(s);
    let mut out: Vec<u16> = Vec::new();
    let mut i: usize = 0;
    proof {
        assert(cs@.skip(0) =~= s@);
        assert(out@ + encode(s@) =~= encode(s@));
    }
    while i < cs.len()
        invariant
            i <= cs.len(),
            out@ + encode(cs@.skip(i as int)) == encode(s@),
        decreases cs.len() - i,
    {
        let c: u32 = code_of(cs[i]);
        let ghost before = out@;
        if c < 0x10000 {
            out.push(c as u16);
        } else {
            out.push((0xD800 + (c - 0x10000) / 0x400) as u16);
            out.push((0xDC00 + (c - 0x10000) % 0x400) as u16);
        }
        i += 1;
        assert(cs@.skip(i - 1).skip(1) =~= cs@.skip(i as int));
        assert(out@ =~= before + encode_char(cs@[i - 1]));
        assert(before + (encode_char(cs@[i - 1]) + encode(cs@.skip(i as int))) =~= out@ + encode(
            cs@.skip(i as int),
        ));
    }
    assert(out@ + encode(cs@.skip(i as int)) =~= out@);
    out.push(0);
    out
}

/// The first `n` texts, each with a NUL behind it.
pub open spec fn encoded_list(v: Seq<String>, n: int) -> Seq<u16>
    decreases n,
{
    if n <= 0 {
        Seq::empty()
    } else {
        encoded_list(v, n - 1) + encode(v[n - 1]@).push(0)
    }
}

/// Encodes a list of paths: a NUL behind each, and one more behind the last.
pub fn wide_list(paths: &Vec<String>) -> (out: Vec<u16>)
    ensures
        out@ == encoded_list(paths@, paths.len() as int).push(0),
{
    let mut out: Vec<u16> = Vec::new();
    let mut i: usize = 0;
    while i < paths.len()
        invariant
            i <= paths.len(),
            out@ == encoded_list(paths@, i as int),
        decreases paths.len() - i,
    {
        let mut one = wide(paths[i].as_str());
        let ghost before = out@;
        out.append(&mut one);
        i += 1;
        assert(out@ =~= before + encode(paths@[i - 1]@).push(0));
    }
    out.push(0);
    out
}

/// Decoding gives back every text that was encoded.
pub proof fn law_decode_inverts_encode(s: Seq<char>)
    ensures
        decode(encode(s)) == s,
    decreases s.len(),
{
    if s.len() > 0 {
        let rest = encode(s.skip(1));
        law_decode_inverts_encode(s.skip(1));
        lemma_decode_char(s[0], rest);
        assert(seq![s[0]] + s.skip(1) =~= s);
    }
}

/// The units of a character, in front of any others, decode to that character.
proof fn lemma_decode_char(c: char, rest: Seq<u16>)
    ensures
        decode(encode_char(c) + rest) == seq![c] + decode(rest),
{
    let u = encode_char(c) + rest;
    if (c as int) < 0x10000 {
        assert(u[0] as int == c as int);
        assert(u.skip(1) =~= rest);
    } else {
        let k = c as int - 0x10000;
        assert(0 <= k < 0x100000);
        assert(u[0] as int == 0xD800 + k / 0x400);
        assert(u[1] as int == 0xDC00 + k % 0x400);
        assert(k == (k / 0x400) * 0x400 + k % 0x400);
        assert(pair_char(u[0], u[1]) == c);
        assert(u.skip(2) =~= rest);
    }
}

/// A text without NUL comes back unchanged from its wide-character form: decoding
/// up to the terminating NUL undoes `wide`.
pub proof fn law_wide_round_trip(s: Seq<char>)
    requires
        forall|i: int| 0 <= i < s.len() ==> s[i] != '\0',
    ensures
        decode(until_nul(encode(s).push(0))) == s,
{
    lemma_until_nul_of_encoding(s);
    law_decode_inverts_encode(s);
}

proof fn lemma_until_nul_of_encoding(s: Seq<char>)
    requires
        forall|i: int| 0 <= i < s.len() ==> s[i] != '\0',
    ensures
        until_nul(encode(s).push(0)) == encode(s),
    decreases s.len(),
{
    let u = encode(s).push(0);
    if s.len() == 0 {
        assert(u[0] == 0);
    } else {
        let rest = encode(s.skip(1));
        assert(forall|i: int| 0 <= i < s.skip(1).len() ==> s.skip(1)[i] == s[i + 1]);
        lemma_until_nul_of_encoding(s.skip(1));
        let c = s[0];
        lemma_encoded_units(c);
        if (c as int) < 0x10000 {
            assert(u.skip(1) =~= rest.push(0));
            assert(seq![u[0]] + rest =~= encode(s));
        } else {
            assert(u.skip(1).skip(1) =~= rest.push(0));
            assert(u.skip(1)[0] == u[1]);
            assert(until_nul(u.skip(1)) == seq![u[1]] + rest);
            assert(seq![u[0]] + (seq![u[1]] + rest) =~= encode(s));
        }
    }
}

proof fn lemma_encoded_units(c: char)
    requires
        c != '\0',
    ensures
        forall|i: int| 0 <= i < encode_char(c).len() ==> encode_char(c)[i] != 0,
{
    if (c as int) >= 0x10000 {
        let k = c as int - 0x10000;
        assert(0 <= k < 0x100000);
    }
}

} // verus!
