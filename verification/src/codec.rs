//! The snapshot codec: one byte string holding every feed record and
//! every link-preview entry.
//!
//! The layout is a sequence of little-endian 64-bit words (characters,
//! counters and tags each occupy one word; strings and lists are length
//! prefixed).  The decoder is specified as a total function on byte
//! sequences, the encoder as its one-sided inverse: decoding an encoding
//! yields exactly the records that were written.

use vstd::prelude::*;
use vstd::string::StrSliceExecFns;
use vstd::utf8::char_is_scalar;
use vstd::utf8::char_u32_cast;
use vstd::utf8::is_scalar;

use crate::types::Feed;
use crate::types::FeedV;
use crate::types::LinkPreview;
use crate::types::LpEntry;
use crate::types::LpV;
use crate::types::StoreError;
use crate::types::feeds_view;
use crate::types::lps_view;

verus! {

// ----- one little-endian 64-bit word -----

/// The eight bytes of `x`, least significant first.
pub open spec fn enc_u64(x: u64) -> Seq<u8> {
    seq![
        (x & 0xff) as u8,
        ((x >> 8) & 0xff) as u8,
        ((x >> 16) & 0xff) as u8,
        ((x >> 24) & 0xff) as u8,
        ((x >> 32) & 0xff) as u8,
        ((x >> 40) & 0xff) as u8,
        ((x >> 48) & 0xff) as u8,
        ((x >> 56) & 0xff) as u8,
    ]
}

/// The word whose eight bytes stand at `pos`.
pub open spec fn u64_at(b: Seq<u8>, pos: int) -> u64 {
    (b[pos] as u64) | ((b[pos + 1] as u64) << 8) | ((b[pos + 2] as u64) << 16) | ((b[pos
        + 3] as u64) << 24) | ((b[pos + 4] as u64) << 32) | ((b[pos + 5] as u64) << 40) | ((b[pos
        + 6] as u64) << 48) | ((b[pos + 7] as u64) << 56)
}

/// Reads one word, or nothing when fewer than eight bytes remain.
pub open spec fn dec_u64(b: Seq<u8>, pos: int) -> Option<(u64, int)> {
    if 0 <= pos && pos + 8 <= b.len() {
        Some((u64_at(b, pos), pos + 8))
    } else {
        None
    }
}

/// Decoding inverts encoding for one word.
pub proof fn lemma_dec_enc_u64(b: Seq<u8>, pos: int, x: u64)
    requires
        0 <= pos,
        pos + 8 <= b.len(),
        b.subrange(pos, pos + 8) == enc_u64(x),
    ensures
        dec_u64(b, pos) == Some((x, pos + 8)),
{
    let e = enc_u64(x);
    assert(b.subrange(pos, pos + 8)[0] == b[pos]);
    assert(b.subrange(pos, pos + 8)[1] == b[pos + 1]);
    assert(b.subrange(pos, pos + 8)[2] == b[pos + 2]);
    assert(b.subrange(pos, pos + 8)[3] == b[pos + 3]);
    assert(b.subrange(pos, pos + 8)[4] == b[pos + 4]);
    assert(b.subrange(pos, pos + 8)[5] == b[pos + 5]);
    assert(b.subrange(pos, pos + 8)[6] == b[pos + 6]);
    assert(b.subrange(pos, pos + 8)[7] == b[pos + 7]);
    let b0 = b[pos];
    let b1 = b[pos + 1];
    let b2 = b[pos + 2];
    let b3 = b[pos + 3];
    let b4 = b[pos + 4];
    let b5 = b[pos + 5];
    let b6 = b[pos + 6];
    let b7 = b[pos + 7];
    assert((b0 as u64) | ((b1 as u64) << 8) | ((b2 as u64) << 16) | ((b3 as u64) << 24) | ((
    b4 as u64) << 32) | ((b5 as u64) << 40) | ((b6 as u64) << 48) | ((b7 as u64) << 56) == x)
        by (bit_vector)
        requires
            b0 == (x & 0xff) as u8,
            b1 == ((x >> 8) & 0xff) as u8,
            b2 == ((x >> 16) & 0xff) as u8,
            b3 == ((x >> 24) & 0xff) as u8,
            b4 == ((x >> 32) & 0xff) as u8,
            b5 == ((x >> 40) & 0xff) as u8,
            b6 == ((x >> 48) & 0xff) as u8,
            b7 == ((x >> 56) & 0xff) as u8,
    ;
    assert(u64_at(b, pos) == x);
}

/// Appends the eight bytes of `x`.
pub fn write_u64(out: &mut Vec<u8>, x: u64)
    ensures
        final(out)@ == old(out)@ + enc_u64(x),
{
    let ghost pre = out@;
    proof {
        assert(x & 0xff < 256 && (x >> 8) & 0xff < 256 && (x >> 16) & 0xff < 256 && (x >> 24)
            & 0xff < 256 && (x >> 32) & 0xff < 256 && (x >> 40) & 0xff < 256 && (x >> 48) & 0xff
            < 256 && (x >> 56) & 0xff < 256) by (bit_vector);
    }
    out.push((x & 0xff) as u8);
    out.push(((x >> 8) & 0xff) as u8);
    out.push(((x >> 16) & 0xff) as u8);
    out.push(((x >> 24) & 0xff) as u8);
    out.push(((x >> 32) & 0xff) as u8);
    out.push(((x >> 40) & 0xff) as u8);
    out.push(((x >> 48) & 0xff) as u8);
    out.push(((x >> 56) & 0xff) as u8);
    proof {
        assert(out@ =~= pre + enc_u64(x));
    }
}

/// Reads the eight bytes at the cursor as one word.
pub fn read_u64(b: &Vec<u8>, pos: &mut usize) -> (r: Option<u64>)
    ensures
        (match r {
            Some(x) => dec_u64(b@, *old(pos) as int) == Some((x, *final(pos) as int)),
            None => dec_u64(b@, *old(pos) as int) is None && *final(pos) == *old(pos),
        }),
{
    let p = *pos;
    if b.len() < 8 || p > b.len() - 8 {
        return None;
    }
    let x = (b[p] as u64) | ((b[p + 1] as u64) << 8) | ((b[p + 2] as u64) << 16) | ((b[p
        + 3] as u64) << 24) | ((b[p + 4] as u64) << 32) | ((b[p + 5] as u64) << 40) | ((b[p
        + 6] as u64) << 48) | ((b[p + 7] as u64) << 56);
    *pos = p + 8;
    Some(x)
}

// ----- characters and strings -----

/// One character, when the word is a Unicode scalar value.
pub open spec fn dec_char(b: Seq<u8>, pos: int) -> Option<(char, int)> {
    match dec_u64(b, pos) {
        None => None,
        Some((v, p2)) => {
            if v <= 0x10FFFF && is_scalar(v as u32) {
                Some(((v as u32) as char, p2))
            } else {
                None
            }
        },
    }
}

/// One word per character, in order.
pub open spec fn enc_chars(s: Seq<char>) -> Seq<u8>
    decreases s.len(),
{
    if s.len() == 0 {
        Seq::empty()
    } else {
        enc_u64((s[0] as u32) as u64) + enc_chars(s.drop_first())
    }
}

/// Reads `n` characters.
pub open spec fn dec_chars(b: Seq<u8>, pos: int, n: nat) -> Option<(Seq<char>, int)>
    decreases n,
{
    if n == 0 {
        Some((Seq::empty(), pos))
    } else {
        match dec_char(b, pos) {
            None => None,
            Some((c, p2)) => {
                match dec_chars(b, p2, (n - 1) as nat) {
                    None => None,
                    Some((rest, p3)) => Some((seq![c] + rest, p3)),
                }
            },
        }
    }
}

/// A string: its character count, then its characters.
pub open spec fn enc_str(s: Seq<char>) -> Seq<u8> {
    enc_u64(s.len() as u64) + enc_chars(s)
}

/// Reads a length-prefixed string.
pub open spec fn dec_str(b: Seq<u8>, pos: int) -> Option<(Seq<char>, int)> {
    match dec_u64(b, pos) {
        None => None,
        Some((n, p2)) => dec_chars(b, p2, n as nat),
    }
}

/// The back half of a concatenation read from a byte sequence.
pub proof fn lemma_subrange_split(b: Seq<u8>, pos: int, e1: Seq<u8>, e2: Seq<u8>)
    requires
        0 <= pos,
        pos + e1.len() + e2.len() <= b.len(),
        b.subrange(pos, pos + e1.len() + e2.len()) == e1 + e2,
    ensures
        b.subrange(pos, pos + e1.len() as int) == e1,
        b.subrange(pos + e1.len() as int, pos + e1.len() + e2.len()) == e2,
{
    assert(b.subrange(pos, pos + e1.len() as int) =~= e1);
    assert forall|k: int|
        0 <= k < e2.len() implies b.subrange(
            pos + e1.len() as int,
            pos + e1.len() + e2.len(),
        )[k] == e2[k] by {
        let big = b.subrange(pos, pos + e1.len() + e2.len());
        assert(big[e1.len() + k] == (e1 + e2)[e1.len() + k]);
        assert(big[e1.len() + k] == b[pos + e1.len() + k]);
        assert((e1 + e2)[e1.len() + k] == e2[k]);
        assert(b.subrange(pos + e1.len() as int, pos + e1.len() + e2.len())[k] == b[pos + e1.len()
            + k]);
    }
    assert(b.subrange(pos + e1.len() as int, pos + e1.len() + e2.len()) =~= e2);
}

/// Decoding inverts encoding for a character block.
pub proof fn lemma_dec_enc_chars(b: Seq<u8>, pos: int, s: Seq<char>)
    requires
        0 <= pos,
        pos + enc_chars(s).len() <= b.len(),
        b.subrange(pos, pos + enc_chars(s).len()) == enc_chars(s),
    ensures
        dec_chars(b, pos, s.len()) == Some((s, pos + enc_chars(s).len())),
    decreases s.len(),
{
    if s.len() > 0 {
        let c = s[0];
        let v = (c as u32) as u64;
        let e1 = enc_u64(v);
        let e2 = enc_chars(s.drop_first());
        assert(enc_chars(s) == e1 + e2);
        lemma_subrange_split(b, pos, e1, e2);
        lemma_dec_enc_u64(b, pos, v);
        char_is_scalar(c);
        assert(v <= 0x10FFFF);
        assert(v as u32 == c as u32);
        char_u32_cast(c, c as u32);
        lemma_dec_enc_chars(b, pos + 8, s.drop_first());
        assert(seq![c] + s.drop_first() =~= s);
    }
}

/// Decoding inverts encoding for a string.
pub proof fn lemma_dec_enc_str(b: Seq<u8>, pos: int, s: Seq<char>)
    requires
        0 <= pos,
        s.len() <= u64::MAX,
        pos + enc_str(s).len() <= b.len(),
        b.subrange(pos, pos + enc_str(s).len()) == enc_str(s),
    ensures
        dec_str(b, pos) == Some((s, pos + enc_str(s).len())),
{
    let e1 = enc_u64(s.len() as u64);
    let e2 = enc_chars(s);
    lemma_subrange_split(b, pos, e1, e2);
    lemma_dec_enc_u64(b, pos, s.len() as u64);
    lemma_dec_enc_chars(b, pos + 8, s);
}

/// Relies on char::from_u32: yields a character exactly for Unicode
/// scalar values, and then the one with that code point.
#[verifier::external_body]
fn char_from_u32(v: u32) -> (r: Option<char>)
    ensures
        r is Some <==> is_scalar(v),
        (match r {
            Some(c) => c == v as char,
            None => true,
        }),
{
    char::from_u32(v)
}

/// Relies on String::push: appends exactly the given character.
#[verifier::external_body]
fn push_char(s: &mut String, c: char)
    ensures
        final(s)@ == old(s)@.push(c),
{
    s.push(c);
}

/// Reads one character at the cursor.
fn read_char(b: &Vec<u8>, pos: &mut usize) -> (r: Option<char>)
    ensures
        (match r {
            Some(c) => dec_char(b@, *old(pos) as int) == Some((c, *final(pos) as int)),
            None => dec_char(b@, *old(pos) as int) is None,
        }),
{
    let v = match read_u64(b, pos) {
        Some(v) => v,
        None => {
            return None;
        },
    };
    if v > 0x10FFFF {
        return None;
    }
    char_from_u32(v as u32)
}

/// Appends one string.
pub fn write_str(out: &mut Vec<u8>, s: &str)
    ensures
        final(out)@ == old(out)@ + enc_str(s@),
{
    let ghost pre = out@;
    let n = s.unicode_len();
    write_u64(out, n as u64);
    let mut k: usize = 0;
    proof {
        assert(s@.take(0) =~= Seq::<char>::empty());
    }
    while k < n
        invariant
            n == s@.len(),
            k <= n,
            out@ == pre + enc_u64(n as u64) + enc_chars(s@.take(k as int)),
        decreases n - k,
    {
        let c = s.get_char(k);
        let ghost done = s@.take(k as int);
        write_u64(out, (c as u32) as u64);
        proof {
            lemma_enc_chars_push(done, c);
            assert(s@.take(k + 1) =~= done.push(c));
            assert(out@ =~= pre + enc_u64(n as u64) + enc_chars(s@.take(k + 1)));
        }
        k = k + 1;
    }
    proof {
        assert(s@.take(n as int) =~= s@);
        assert(out@ =~= pre + enc_str(s@));
    }
}

/// A character appended to a block encodes after it.
pub proof fn lemma_enc_chars_push(s: Seq<char>, c: char)
    ensures
        enc_chars(s.push(c)) == enc_chars(s) + enc_u64((c as u32) as u64),
    decreases s.len(),
{
    let t = s.push(c);
    if s.len() == 0 {
        assert(t[0] == c);
        assert(t.drop_first() =~= Seq::<char>::empty());
        assert(enc_chars(t) == enc_u64((t[0] as u32) as u64) + enc_chars(t.drop_first()));
        assert(enc_chars(t) =~= enc_chars(s) + enc_u64((c as u32) as u64));
    } else {
        assert(t[0] == s[0]);
        assert(t.drop_first() =~= s.drop_first().push(c));
        lemma_enc_chars_push(s.drop_first(), c);
        assert(enc_chars(t) == enc_u64((t[0] as u32) as u64) + enc_chars(t.drop_first()));
        assert(enc_chars(s) == enc_u64((s[0] as u32) as u64) + enc_chars(s.drop_first()));
        assert(enc_chars(t) =~= enc_chars(s) + enc_u64((c as u32) as u64));
    }
}

/// Reads one length-prefixed string.
fn read_string(b: &Vec<u8>, pos: &mut usize) -> (r: Option<String>)
    ensures
        (match r {
            Some(s) => dec_str(b@, *old(pos) as int) == Some((s@, *final(pos) as int)),
            None => dec_str(b@, *old(pos) as int) is None,
        }),
{
    let ghost p0 = *pos as int;
    let n = match read_u64(b, pos) {
        Some(n) => n,
        None => {
            return None;
        },
    };
    let ghost p1 = *pos as int;
    let mut s = String::new();
    let mut k: u64 = 0;
    proof {
        if let Some((rest, e)) = dec_chars(b@, p1, n as nat) {
            assert(Seq::<char>::empty() + rest =~= rest);
        }
    }
    while k < n
        invariant
            k <= n,
            p0 == *old(pos) as int,
            dec_u64(b@, p0) == Some((n, p1)),
            dec_str(b@, p0) == dec_chars(b@, p1, n as nat),
            dec_chars(b@, p1, n as nat) == (match dec_chars(b@, *pos as int, (n - k) as nat) {
                None => None::<(Seq<char>, int)>,
                Some((rest, e)) => Some((s@ + rest, e)),
            }),
        decreases n - k,
    {
        let ghost pcur = *pos as int;
        let ghost sold = s@;
        let c = match read_char(b, pos) {
            Some(c) => c,
            None => {
                proof {
                    assert(dec_chars(b@, pcur, (n - k) as nat) is None);
                    assert(dec_chars(b@, p1, n as nat) is None);
                    assert(dec_str(b@, p0) is None);
                    assert(p0 == *old(pos) as int);
                }
                return None;
            },
        };
        push_char(&mut s, c);
        proof {
            let ghost pnext = *pos as int;
            let ghost nk1 = (n - k - 1) as nat;
            if let Some((rest, e)) = dec_chars(b@, pnext, nk1) {
                assert(dec_chars(b@, pcur, (n - k) as nat) == Some((seq![c] + rest, e)));
                assert(sold + (seq![c] + rest) =~= s@ + rest);
            } else {
                assert(dec_chars(b@, pcur, (n - k) as nat) is None);
            }
        }
        k = k + 1;
    }
    proof {
        assert(s@ + Seq::<char>::empty() =~= s@);
    }
    Some(s)
}

// ----- lists of words -----

/// The concatenated words of `v`, in order.
pub open spec fn enc_u64s(v: Seq<u64>) -> Seq<u8>
    decreases v.len(),
{
    if v.len() == 0 {
        Seq::empty()
    } else {
        enc_u64(v[0]) + enc_u64s(v.drop_first())
    }
}

/// Reads `n` words.
pub open spec fn dec_u64s(b: Seq<u8>, pos: int, n: nat) -> Option<(Seq<u64>, int)>
    decreases n,
{
    if n == 0 {
        Some((Seq::empty(), pos))
    } else {
        match dec_u64(b, pos) {
            None => None,
            Some((v, p2)) => {
                match dec_u64s(b, p2, (n - 1) as nat) {
                    None => None,
                    Some((rest, p3)) => Some((seq![v] + rest, p3)),
                }
            },
        }
    }
}

/// Subscriber identifiers ride as words through their bit pattern.
pub open spec fn enc_i64s(v: Seq<i64>) -> Seq<u8>
    decreases v.len(),
{
    if v.len() == 0 {
        Seq::empty()
    } else {
        enc_u64(v[0] as u64) + enc_i64s(v.drop_first())
    }
}

/// Reads `n` subscriber identifiers.
pub open spec fn dec_i64s(b: Seq<u8>, pos: int, n: nat) -> Option<(Seq<i64>, int)>
    decreases n,
{
    if n == 0 {
        Some((Seq::empty(), pos))
    } else {
        match dec_u64(b, pos) {
            None => None,
            Some((v, p2)) => {
                match dec_i64s(b, p2, (n - 1) as nat) {
                    None => None,
                    Some((rest, p3)) => Some((seq![v as i64] + rest, p3)),
                }
            },
        }
    }
}

/// A word appended to a list encodes after it.
pub proof fn lemma_enc_u64s_push(s: Seq<u64>, x: u64)
    ensures
        enc_u64s(s.push(x)) == enc_u64s(s) + enc_u64(x),
    decreases s.len(),
{
    let t = s.push(x);
    if s.len() == 0 {
        assert(t[0] == x);
        assert(t.drop_first() =~= Seq::<u64>::empty());
        assert(enc_u64s(t) == enc_u64(t[0]) + enc_u64s(t.drop_first()));
        assert(enc_u64s(t) =~= enc_u64s(s) + enc_u64(x));
    } else {
        assert(t[0] == s[0]);
        assert(t.drop_first() =~= s.drop_first().push(x));
        lemma_enc_u64s_push(s.drop_first(), x);
        assert(enc_u64s(t) == enc_u64(t[0]) + enc_u64s(t.drop_first()));
        assert(enc_u64s(s) == enc_u64(s[0]) + enc_u64s(s.drop_first()));
        assert(enc_u64s(t) =~= enc_u64s(s) + enc_u64(x));
    }
}

/// An identifier appended to a list encodes after it.
pub proof fn lemma_enc_i64s_push(s: Seq<i64>, x: i64)
    ensures
        enc_i64s(s.push(x)) == enc_i64s(s) + enc_u64(x as u64),
    decreases s.len(),
{
    let t = s.push(x);
    if s.len() == 0 {
        assert(t[0] == x);
        assert(t.drop_first() =~= Seq::<i64>::empty());
        assert(enc_i64s(t) == enc_u64(t[0] as u64) + enc_i64s(t.drop_first()));
        assert(enc_i64s(t) =~= enc_i64s(s) + enc_u64(x as u64));
    } else {
        assert(t[0] == s[0]);
        assert(t.drop_first() =~= s.drop_first().push(x));
        lemma_enc_i64s_push(s.drop_first(), x);
        assert(enc_i64s(t) == enc_u64(t[0] as u64) + enc_i64s(t.drop_first()));
        assert(enc_i64s(s) == enc_u64(s[0] as u64) + enc_i64s(s.drop_first()));
        assert(enc_i64s(t) =~= enc_i64s(s) + enc_u64(x as u64));
    }
}

/// Decoding inverts encoding for a word list.
pub proof fn lemma_dec_enc_u64s(b: Seq<u8>, pos: int, v: Seq<u64>)
    requires
        0 <= pos,
        pos + enc_u64s(v).len() <= b.len(),
        b.subrange(pos, pos + enc_u64s(v).len()) == enc_u64s(v),
    ensures
        dec_u64s(b, pos, v.len()) == Some((v, pos + enc_u64s(v).len())),
    decreases v.len(),
{
    if v.len() > 0 {
        let e1 = enc_u64(v[0]);
        let e2 = enc_u64s(v.drop_first());
        assert(enc_u64s(v) == e1 + e2);
        lemma_subrange_split(b, pos, e1, e2);
        lemma_dec_enc_u64(b, pos, v[0]);
        lemma_dec_enc_u64s(b, pos + 8, v.drop_first());
        assert(seq![v[0]] + v.drop_first() =~= v);
    }
}

/// Decoding inverts encoding for an identifier list.
pub proof fn lemma_dec_enc_i64s(b: Seq<u8>, pos: int, v: Seq<i64>)
    requires
        0 <= pos,
        pos + enc_i64s(v).len() <= b.len(),
        b.subrange(pos, pos + enc_i64s(v).len()) == enc_i64s(v),
    ensures
        dec_i64s(b, pos, v.len()) == Some((v, pos + enc_i64s(v).len())),
    decreases v.len(),
{
    if v.len() > 0 {
        let e1 = enc_u64(v[0] as u64);
        let e2 = enc_i64s(v.drop_first());
        assert(enc_i64s(v) == e1 + e2);
        lemma_subrange_split(b, pos, e1, e2);
        lemma_dec_enc_u64(b, pos, v[0] as u64);
        let x = v[0];
        assert((x as u64) as i64 == x) by (bit_vector);
        lemma_dec_enc_i64s(b, pos + 8, v.drop_first());
        assert(seq![v[0]] + v.drop_first() =~= v);
    }
}

/// Appends every word of `v`.
pub fn write_u64s(out: &mut Vec<u8>, v: &Vec<u64>)
    ensures
        final(out)@ == old(out)@ + enc_u64s(v@),
{
    let ghost pre = out@;
    let mut k: usize = 0;
    proof {
        assert(v@.take(0) =~= Seq::<u64>::empty());
        assert(pre + enc_u64s(v@.take(0)) =~= pre);
    }
    while k < v.len()
        invariant
            k <= v@.len(),
            out@ == pre + enc_u64s(v@.take(k as int)),
        decreases v@.len() - k,
    {
        let ghost done = v@.take(k as int);
        write_u64(out, v[k]);
        proof {
            lemma_enc_u64s_push(done, v@[k as int]);
            assert(v@.take(k + 1) =~= done.push(v@[k as int]));
            assert(out@ =~= pre + enc_u64s(v@.take(k + 1)));
        }
        k = k + 1;
    }
    proof {
        assert(v@.take(v@.len() as int) =~= v@);
    }
}

/// Appends every identifier of `v`.
pub fn write_i64s(out: &mut Vec<u8>, v: &Vec<i64>)
    ensures
        final(out)@ == old(out)@ + enc_i64s(v@),
{
    let ghost pre = out@;
    let mut k: usize = 0;
    proof {
        assert(v@.take(0) =~= Seq::<i64>::empty());
        assert(pre + enc_i64s(v@.take(0)) =~= pre);
    }
    while k < v.len()
        invariant
            k <= v@.len(),
            out@ == pre + enc_i64s(v@.take(k as int)),
        decreases v@.len() - k,
    {
        let ghost done = v@.take(k as int);
        let x = v[k];
        write_u64(out, #[verifier::truncate] (x as u64));
        proof {
            lemma_enc_i64s_push(done, v@[k as int]);
            assert(v@.take(k + 1) =~= done.push(v@[k as int]));
            assert(out@ =~= pre + enc_i64s(v@.take(k + 1)));
        }
        k = k + 1;
    }
    proof {
        assert(v@.take(v@.len() as int) =~= v@);
    }
}

/// Reads `n` words into a vector.
fn read_u64s(b: &Vec<u8>, pos: &mut usize, n: u64) -> (r: Option<Vec<u64>>)
    ensures
        (match r {
            Some(v) => dec_u64s(b@, *old(pos) as int, n as nat) == Some((v@, *final(pos) as int)),
            None => dec_u64s(b@, *old(pos) as int, n as nat) is None,
        }),
{
    let ghost p1 = *pos as int;
    let mut acc: Vec<u64> = Vec::new();
    let mut k: u64 = 0;
    proof {
        if let Some((rest, e)) = dec_u64s(b@, p1, n as nat) {
            assert(Seq::<u64>::empty() + rest =~= rest);
        }
    }
    while k < n
        invariant
            k <= n,
            p1 == *old(pos) as int,
            dec_u64s(b@, p1, n as nat) == (match dec_u64s(b@, *pos as int, (n - k) as nat) {
                None => None::<(Seq<u64>, int)>,
                Some((rest, e)) => Some((acc@ + rest, e)),
            }),
        decreases n - k,
    {
        let ghost pcur = *pos as int;
        let ghost aold = acc@;
        let x = match read_u64(b, pos) {
            Some(x) => x,
            None => {
                proof {
                    assert(dec_u64s(b@, pcur, (n - k) as nat) is None);
                }
                return None;
            },
        };
        acc.push(x);
        proof {
            let ghost pnext = *pos as int;
            if let Some((rest, e)) = dec_u64s(b@, pnext, (n - k - 1) as nat) {
                assert(dec_u64s(b@, pcur, (n - k) as nat) == Some((seq![x] + rest, e)));
                assert(aold + (seq![x] + rest) =~= acc@ + rest);
            } else {
                assert(dec_u64s(b@, pcur, (n - k) as nat) is None);
            }
        }
        k = k + 1;
    }
    proof {
        assert(acc@ + Seq::<u64>::empty() =~= acc@);
    }
    Some(acc)
}

/// Reads `n` subscriber identifiers into a vector.
fn read_i64s(b: &Vec<u8>, pos: &mut usize, n: u64) -> (r: Option<Vec<i64>>)
    ensures
        (match r {
            Some(v) => dec_i64s(b@, *old(pos) as int, n as nat) == Some((v@, *final(pos) as int)),
            None => dec_i64s(b@, *old(pos) as int, n as nat) is None,
        }),
{
    let ghost p1 = *pos as int;
    let mut acc: Vec<i64> = Vec::new();
    let mut k: u64 = 0;
    proof {
        if let Some((rest, e)) = dec_i64s(b@, p1, n as nat) {
            assert(Seq::<i64>::empty() + rest =~= rest);
        }
    }
    while k < n
        invariant
            k <= n,
            p1 == *old(pos) as int,
            dec_i64s(b@, p1, n as nat) == (match dec_i64s(b@, *pos as int, (n - k) as nat) {
                None => None::<(Seq<i64>, int)>,
                Some((rest, e)) => Some((acc@ + rest, e)),
            }),
        decreases n - k,
    {
        let ghost pcur = *pos as int;
        let ghost aold = acc@;
        let x = match read_u64(b, pos) {
            Some(x) => x,
            None => {
                proof {
                    assert(dec_i64s(b@, pcur, (n - k) as nat) is None);
                }
                return None;
            },
        };
        let y = #[verifier::truncate] (x as i64);
        acc.push(y);
        proof {
            let ghost pnext = *pos as int;
            if let Some((rest, e)) = dec_i64s(b@, pnext, (n - k - 1) as nat) {
                assert(dec_i64s(b@, pcur, (n - k) as nat) == Some((seq![x as i64] + rest, e)));
                assert(aold + (seq![x as i64] + rest) =~= acc@ + rest);
            } else {
                assert(dec_i64s(b@, pcur, (n - k) as nat) is None);
            }
        }
        k = k + 1;
    }
    proof {
        assert(acc@ + Seq::<i64>::empty() =~= acc@);
    }
    Some(acc)
}

// ----- feed records -----

/// One feed record: link, title, error counter, then its subscriber and
/// hash lists, each length prefixed.
pub open spec fn enc_feed(f: FeedV) -> Seq<u8> {
    enc_str(f.link) + (enc_str(f.title) + (enc_u64(f.error_count as u64) + (enc_u64(
        f.subscribers.len() as u64,
    ) + (enc_i64s(f.subscribers) + (enc_u64(f.hash_list.len() as u64) + enc_u64s(f.hash_list))))))
}

/// Reads one feed record.
pub open spec fn dec_feed(b: Seq<u8>, pos: int) -> Option<(FeedV, int)> {
    match dec_str(b, pos) {
        None => None,
        Some((link, p1)) => match dec_str(b, p1) {
            None => None,
            Some((title, p2)) => match dec_u64(b, p2) {
                None => None,
                Some((ec, p3)) => if ec > u32::MAX as u64 {
                    None
                } else {
                    match dec_u64(b, p3) {
                        None => None,
                        Some((ns, p4)) => match dec_i64s(b, p4, ns as nat) {
                            None => None,
                            Some((subs, p5)) => match dec_u64(b, p5) {
                                None => None,
                                Some((nh, p6)) => match dec_u64s(b, p6, nh as nat) {
                                    None => None,
                                    Some((hs, p7)) => Some(
                                        (
                                            FeedV {
                                                link: link,
                                                title: title,
                                                error_count: ec as u32,
                                                subscribers: subs,
                                                hash_list: hs,
                                            },
                                            p7,
                                        ),
                                    ),
                                },
                            },
                        },
                    }
                },
            },
        },
    }
}

/// The record's lengths fit the length-prefix words.
pub open spec fn feed_fits(f: FeedV) -> bool {
    &&& f.link.len() <= u64::MAX
    &&& f.title.len() <= u64::MAX
    &&& f.subscribers.len() <= u64::MAX
    &&& f.hash_list.len() <= u64::MAX
}

/// Decoding inverts encoding for one feed record.
pub proof fn lemma_dec_enc_feed(b: Seq<u8>, pos: int, f: FeedV)
    requires
        0 <= pos,
        feed_fits(f),
        pos + enc_feed(f).len() <= b.len(),
        b.subrange(pos, pos + enc_feed(f).len()) == enc_feed(f),
    ensures
        dec_feed(b, pos) == Some((f, pos + enc_feed(f).len())),
{
    let e1 = enc_str(f.link);
    let r1 = enc_str(f.title) + (enc_u64(f.error_count as u64) + (enc_u64(
        f.subscribers.len() as u64,
    ) + (enc_i64s(f.subscribers) + (enc_u64(f.hash_list.len() as u64) + enc_u64s(f.hash_list)))));
    lemma_subrange_split(b, pos, e1, r1);
    lemma_dec_enc_str(b, pos, f.link);
    let p1 = pos + e1.len();
    let e2 = enc_str(f.title);
    let r2 = enc_u64(f.error_count as u64) + (enc_u64(f.subscribers.len() as u64) + (enc_i64s(
        f.subscribers,
    ) + (enc_u64(f.hash_list.len() as u64) + enc_u64s(f.hash_list))));
    lemma_subrange_split(b, p1, e2, r2);
    lemma_dec_enc_str(b, p1, f.title);
    let p2 = p1 + e2.len();
    let e3 = enc_u64(f.error_count as u64);
    let r3 = enc_u64(f.subscribers.len() as u64) + (enc_i64s(f.subscribers) + (enc_u64(
        f.hash_list.len() as u64,
    ) + enc_u64s(f.hash_list)));
    lemma_subrange_split(b, p2, e3, r3);
    lemma_dec_enc_u64(b, p2, f.error_count as u64);
    let p3 = p2 + 8;
    let e4 = enc_u64(f.subscribers.len() as u64);
    let r4 = enc_i64s(f.subscribers) + (enc_u64(f.hash_list.len() as u64) + enc_u64s(f.hash_list));
    lemma_subrange_split(b, p3, e4, r4);
    lemma_dec_enc_u64(b, p3, f.subscribers.len() as u64);
    let p4 = p3 + 8;
    let e5 = enc_i64s(f.subscribers);
    let r5 = enc_u64(f.hash_list.len() as u64) + enc_u64s(f.hash_list);
    lemma_subrange_split(b, p4, e5, r5);
    lemma_dec_enc_i64s(b, p4, f.subscribers);
    let p5 = p4 + e5.len();
    let e6 = enc_u64(f.hash_list.len() as u64);
    let r6 = enc_u64s(f.hash_list);
    lemma_subrange_split(b, p5, e6, r6);
    lemma_dec_enc_u64(b, p5, f.hash_list.len() as u64);
    let p6 = p5 + 8;
    lemma_dec_enc_u64s(b, p6, f.hash_list);
    assert(dec_feed(b, pos) == Some((f, p6 + enc_u64s(f.hash_list).len()))) by {
        assert((FeedV {
            link: f.link,
            title: f.title,
            error_count: (f.error_count as u64) as u32,
            subscribers: f.subscribers,
            hash_list: f.hash_list,
        }) == f);
    }
}

/// Appends one feed record.
pub fn write_feed(out: &mut Vec<u8>, f: &Feed)
    ensures
        final(out)@ == old(out)@ + enc_feed(f@),
{
    let ghost pre = out@;
    write_str(out, f.link.as_str());
    write_str(out, f.title.as_str());
    write_u64(out, f.error_count as u64);
    write_u64(out, f.subscribers.len() as u64);
    write_i64s(out, &f.subscribers);
    write_u64(out, f.hash_list.len() as u64);
    write_u64s(out, &f.hash_list);
    proof {
        assert(out@ =~= pre + enc_feed(f@));
    }
}

/// Reads one feed record.
fn read_feed(b: &Vec<u8>, pos: &mut usize) -> (r: Option<Feed>)
    ensures
        (match r {
            Some(f) => dec_feed(b@, *old(pos) as int) == Some((f@, *final(pos) as int)),
            None => dec_feed(b@, *old(pos) as int) is None,
        }),
{
    let link = match read_string(b, pos) {
        Some(s) => s,
        None => {
            return None;
        },
    };
    let title = match read_string(b, pos) {
        Some(s) => s,
        None => {
            return None;
        },
    };
    let ec = match read_u64(b, pos) {
        Some(x) => x,
        None => {
            return None;
        },
    };
    if ec > u32::MAX as u64 {
        return None;
    }
    let ns = match read_u64(b, pos) {
        Some(x) => x,
        None => {
            return None;
        },
    };
    let subs = match read_i64s(b, pos, ns) {
        Some(v) => v,
        None => {
            return None;
        },
    };
    let nh = match read_u64(b, pos) {
        Some(x) => x,
        None => {
            return None;
        },
    };
    let hs = match read_u64s(b, pos, nh) {
        Some(v) => v,
        None => {
            return None;
        },
    };
    Some(
        Feed {
            link: link,
            title: title,
            error_count: ec as u32,
            subscribers: subs,
            hash_list: hs,
        },
    )
}

/// The concatenated feed records, in order.
pub open spec fn enc_feeds(fs: Seq<FeedV>) -> Seq<u8>
    decreases fs.len(),
{
    if fs.len() == 0 {
        Seq::empty()
    } else {
        enc_feed(fs[0]) + enc_feeds(fs.drop_first())
    }
}

/// Reads `n` feed records.
pub open spec fn dec_feeds(b: Seq<u8>, pos: int, n: nat) -> Option<(Seq<FeedV>, int)>
    decreases n,
{
    if n == 0 {
        Some((Seq::empty(), pos))
    } else {
        match dec_feed(b, pos) {
            None => None,
            Some((f, p2)) => {
                match dec_feeds(b, p2, (n - 1) as nat) {
                    None => None,
                    Some((rest, p3)) => Some((seq![f] + rest, p3)),
                }
            },
        }
    }
}

/// A record appended to a list encodes after it.
pub proof fn lemma_enc_feeds_push(s: Seq<FeedV>, f: FeedV)
    ensures
        enc_feeds(s.push(f)) == enc_feeds(s) + enc_feed(f),
    decreases s.len(),
{
    let t = s.push(f);
    if s.len() == 0 {
        assert(t[0] == f);
        assert(t.drop_first() =~= Seq::<FeedV>::empty());
        assert(enc_feeds(t) == enc_feed(t[0]) + enc_feeds(t.drop_first()));
        assert(enc_feeds(t) =~= enc_feeds(s) + enc_feed(f));
    } else {
        assert(t[0] == s[0]);
        assert(t.drop_first() =~= s.drop_first().push(f));
        lemma_enc_feeds_push(s.drop_first(), f);
        assert(enc_feeds(t) == enc_feed(t[0]) + enc_feeds(t.drop_first()));
        assert(enc_feeds(s) == enc_feed(s[0]) + enc_feeds(s.drop_first()));
        assert(enc_feeds(t) =~= enc_feeds(s) + enc_feed(f));
    }
}

/// Decoding inverts encoding for a feed list.
pub proof fn lemma_dec_enc_feeds(b: Seq<u8>, pos: int, fs: Seq<FeedV>)
    requires
        0 <= pos,
        forall|i: int| 0 <= i < fs.len() ==> feed_fits(#[trigger] fs[i]),
        pos + enc_feeds(fs).len() <= b.len(),
        b.subrange(pos, pos + enc_feeds(fs).len()) == enc_feeds(fs),
    ensures
        dec_feeds(b, pos, fs.len()) == Some((fs, pos + enc_feeds(fs).len())),
    decreases fs.len(),
{
    if fs.len() > 0 {
        let e1 = enc_feed(fs[0]);
        let e2 = enc_feeds(fs.drop_first());
        assert(enc_feeds(fs) == e1 + e2);
        lemma_subrange_split(b, pos, e1, e2);
        lemma_dec_enc_feed(b, pos, fs[0]);
        assert(forall|i: int|
            0 <= i < fs.drop_first().len() ==> feed_fits(#[trigger] fs.drop_first()[i]));
        lemma_dec_enc_feeds(b, pos + e1.len(), fs.drop_first());
        assert(seq![fs[0]] + fs.drop_first() =~= fs);
    }
}

// ----- link-preview entries -----

/// A link-preview setting: a tag word, and for instant view the render
/// hash after it.
pub open spec fn enc_lpv(lp: LinkPreview) -> Seq<u8> {
    match lp {
        LinkPreview::Off => enc_u64(0),
        LinkPreview::On => enc_u64(1),
        LinkPreview::InstantView(h) => enc_u64(2) + enc_u64(h),
    }
}

/// Reads one link-preview setting.
pub open spec fn dec_lpv(b: Seq<u8>, pos: int) -> Option<(LinkPreview, int)> {
    match dec_u64(b, pos) {
        None => None,
        Some((t, p2)) => {
            if t == 0 {
                Some((LinkPreview::Off, p2))
            } else if t == 1 {
                Some((LinkPreview::On, p2))
            } else if t == 2 {
                match dec_u64(b, p2) {
                    None => None,
                    Some((h, p3)) => Some((LinkPreview::InstantView(h), p3)),
                }
            } else {
                None
            }
        },
    }
}

/// Decoding inverts encoding for a link-preview setting.
pub proof fn lemma_dec_enc_lpv(b: Seq<u8>, pos: int, lp: LinkPreview)
    requires
        0 <= pos,
        pos + enc_lpv(lp).len() <= b.len(),
        b.subrange(pos, pos + enc_lpv(lp).len()) == enc_lpv(lp),
    ensures
        dec_lpv(b, pos) == Some((lp, pos + enc_lpv(lp).len())),
{
    match lp {
        LinkPreview::Off => {
            lemma_dec_enc_u64(b, pos, 0);
        },
        LinkPreview::On => {
            lemma_dec_enc_u64(b, pos, 1);
        },
        LinkPreview::InstantView(h) => {
            lemma_subrange_split(b, pos, enc_u64(2), enc_u64(h));
            lemma_dec_enc_u64(b, pos, 2);
            lemma_dec_enc_u64(b, pos + 8, h);
        },
    }
}

/// One matrix entry: subscriber, feed, then the setting.
pub open spec fn enc_lp(e: LpV) -> Seq<u8> {
    enc_u64(e.sub as u64) + (enc_u64(e.feed) + enc_lpv(e.lp))
}

/// Reads one matrix entry.
pub open spec fn dec_lp(b: Seq<u8>, pos: int) -> Option<(LpV, int)> {
    match dec_u64(b, pos) {
        None => None,
        Some((sv, p1)) => match dec_u64(b, p1) {
            None => None,
            Some((fid, p2)) => match dec_lpv(b, p2) {
                None => None,
                Some((lp, p3)) => Some((LpV { sub: sv as i64, feed: fid, lp: lp }, p3)),
            },
        },
    }
}

/// Decoding inverts encoding for one matrix entry.
pub proof fn lemma_dec_enc_lp(b: Seq<u8>, pos: int, e: LpV)
    requires
        0 <= pos,
        pos + enc_lp(e).len() <= b.len(),
        b.subrange(pos, pos + enc_lp(e).len()) == enc_lp(e),
    ensures
        dec_lp(b, pos) == Some((e, pos + enc_lp(e).len())),
{
    let e1 = enc_u64(e.sub as u64);
    let r1 = enc_u64(e.feed) + enc_lpv(e.lp);
    lemma_subrange_split(b, pos, e1, r1);
    lemma_dec_enc_u64(b, pos, e.sub as u64);
    let x = e.sub;
    assert((x as u64) as i64 == x) by (bit_vector);
    let p1 = pos + 8;
    lemma_subrange_split(b, p1, enc_u64(e.feed), enc_lpv(e.lp));
    lemma_dec_enc_u64(b, p1, e.feed);
    lemma_dec_enc_lpv(b, p1 + 8, e.lp);
    assert((LpV { sub: (e.sub as u64) as i64, feed: e.feed, lp: e.lp }) == e);
}

/// The concatenated matrix entries, in order.
pub open spec fn enc_lps(ls: Seq<LpV>) -> Seq<u8>
    decreases ls.len(),
{
    if ls.len() == 0 {
        Seq::empty()
    } else {
        enc_lp(ls[0]) + enc_lps(ls.drop_first())
    }
}

/// Reads `n` matrix entries.
pub open spec fn dec_lps(b: Seq<u8>, pos: int, n: nat) -> Option<(Seq<LpV>, int)>
    decreases n,
{
    if n == 0 {
        Some((Seq::empty(), pos))
    } else {
        match dec_lp(b, pos) {
            None => None,
            Some((e, p2)) => {
                match dec_lps(b, p2, (n - 1) as nat) {
                    None => None,
                    Some((rest, p3)) => Some((seq![e] + rest, p3)),
                }
            },
        }
    }
}

/// An entry appended to a list encodes after it.
pub proof fn lemma_enc_lps_push(s: Seq<LpV>, e: LpV)
    ensures
        enc_lps(s.push(e)) == enc_lps(s) + enc_lp(e),
    decreases s.len(),
{
    let t = s.push(e);
    if s.len() == 0 {
        assert(t[0] == e);
        assert(t.drop_first() =~= Seq::<LpV>::empty());
        assert(enc_lps(t) == enc_lp(t[0]) + enc_lps(t.drop_first()));
        assert(enc_lps(t) =~= enc_lps(s) + enc_lp(e));
    } else {
        assert(t[0] == s[0]);
        assert(t.drop_first() =~= s.drop_first().push(e));
        lemma_enc_lps_push(s.drop_first(), e);
        assert(enc_lps(t) == enc_lp(t[0]) + enc_lps(t.drop_first()));
        assert(enc_lps(s) == enc_lp(s[0]) + enc_lps(s.drop_first()));
        assert(enc_lps(t) =~= enc_lps(s) + enc_lp(e));
    }
}

/// Decoding inverts encoding for an entry list.
pub proof fn lemma_dec_enc_lps(b: Seq<u8>, pos: int, ls: Seq<LpV>)
    requires
        0 <= pos,
        pos + enc_lps(ls).len() <= b.len(),
        b.subrange(pos, pos + enc_lps(ls).len()) == enc_lps(ls),
    ensures
        dec_lps(b, pos, ls.len()) == Some((ls, pos + enc_lps(ls).len())),
    decreases ls.len(),
{
    if ls.len() > 0 {
        let e1 = enc_lp(ls[0]);
        let e2 = enc_lps(ls.drop_first());
        assert(enc_lps(ls) == e1 + e2);
        lemma_subrange_split(b, pos, e1, e2);
        lemma_dec_enc_lp(b, pos, ls[0]);
        lemma_dec_enc_lps(b, pos + e1.len(), ls.drop_first());
        assert(seq![ls[0]] + ls.drop_first() =~= ls);
    }
}

/// Appends one matrix entry.
pub fn write_lp(out: &mut Vec<u8>, e: &LpEntry)
    ensures
        final(out)@ == old(out)@ + enc_lp(e@),
{
    let ghost pre = out@;
    let sv = e.sub;
    write_u64(out, #[verifier::truncate] (sv as u64));
    write_u64(out, e.feed);
    match e.lp {
        LinkPreview::Off => {
            write_u64(out, 0);
        },
        LinkPreview::On => {
            write_u64(out, 1);
        },
        LinkPreview::InstantView(h) => {
            write_u64(out, 2);
            write_u64(out, h);
        },
    }
    proof {
        assert(out@ =~= pre + enc_lp(e@));
    }
}

/// Reads one matrix entry.
fn read_lp(b: &Vec<u8>, pos: &mut usize) -> (r: Option<LpEntry>)
    ensures
        (match r {
            Some(e) => dec_lp(b@, *old(pos) as int) == Some((e@, *final(pos) as int)),
            None => dec_lp(b@, *old(pos) as int) is None,
        }),
{
    let sv = match read_u64(b, pos) {
        Some(x) => x,
        None => {
            return None;
        },
    };
    let fid = match read_u64(b, pos) {
        Some(x) => x,
        None => {
            return None;
        },
    };
    let tag = match read_u64(b, pos) {
        Some(x) => x,
        None => {
            return None;
        },
    };
    let lp = if tag == 0 {
        LinkPreview::Off
    } else if tag == 1 {
        LinkPreview::On
    } else if tag == 2 {
        let h = match read_u64(b, pos) {
            Some(x) => x,
            None => {
                return None;
            },
        };
        LinkPreview::InstantView(h)
    } else {
        return None;
    };
    Some(LpEntry { sub: #[verifier::truncate] (sv as i64), feed: fid, lp: lp })
}

// ----- the whole snapshot -----

/// The snapshot: the feed records, then the matrix entries, each list
/// length prefixed.
pub open spec fn enc_snapshot(fs: Seq<FeedV>, ls: Seq<LpV>) -> Seq<u8> {
    enc_u64(fs.len() as u64) + (enc_feeds(fs) + (enc_u64(ls.len() as u64) + enc_lps(ls)))
}

/// Reads a whole snapshot; every byte must be consumed.
pub open spec fn dec_snapshot(b: Seq<u8>) -> Option<(Seq<FeedV>, Seq<LpV>)> {
    match dec_u64(b, 0) {
        None => None,
        Some((nf, p1)) => match dec_feeds(b, p1, nf as nat) {
            None => None,
            Some((fs, p2)) => match dec_u64(b, p2) {
                None => None,
                Some((nl, p3)) => match dec_lps(b, p3, nl as nat) {
                    None => None,
                    Some((ls, p4)) => if p4 == b.len() {
                        Some((fs, ls))
                    } else {
                        None
                    },
                },
            },
        },
    }
}

/// The snapshot's list lengths fit their length-prefix words.
pub open spec fn snapshot_fits(fs: Seq<FeedV>, ls: Seq<LpV>) -> bool {
    &&& fs.len() <= u64::MAX
    &&& ls.len() <= u64::MAX
    &&& (forall|i: int| 0 <= i < fs.len() ==> feed_fits(#[trigger] fs[i]))
}

/// Decoding a snapshot's encoding yields exactly the records written.
#[verifier::spinoff_prover]
#[verifier::rlimit(100)]
pub proof fn lemma_dec_enc_snapshot(fs: Seq<FeedV>, ls: Seq<LpV>)
    requires
        snapshot_fits(fs, ls),
    ensures
        dec_snapshot(enc_snapshot(fs, ls)) == Some((fs, ls)),
{
    let b = enc_snapshot(fs, ls);
    let e1 = enc_u64(fs.len() as u64);
    let e2 = enc_feeds(fs);
    let e3 = enc_u64(ls.len() as u64);
    let e4 = enc_lps(ls);
    let p2: int = 8 + e2.len() as int;
    let p4: int = p2 + 8 + e4.len() as int;
    assert(b == e1 + (e2 + (e3 + e4)));
    assert(b.len() == p4);
    assert(dec_u64(b, 0) == Some((fs.len() as u64, 8int))) by {
        assert(b.subrange(0, b.len() as int) =~= b);
        lemma_subrange_split(b, 0, e1, e2 + (e3 + e4));
        lemma_dec_enc_u64(b, 0, fs.len() as u64);
    }
    assert(dec_feeds(b, 8, fs.len()) == Some((fs, p2))) by {
        assert(b.subrange(0, b.len() as int) =~= b);
        lemma_subrange_split(b, 0, e1, e2 + (e3 + e4));
        lemma_subrange_split(b, 8, e2, e3 + e4);
        lemma_dec_enc_feeds(b, 8, fs);
    }
    assert(dec_u64(b, p2) == Some((ls.len() as u64, p2 + 8))) by {
        assert(b.subrange(0, b.len() as int) =~= b);
        lemma_subrange_split(b, 0, e1, e2 + (e3 + e4));
        lemma_subrange_split(b, 8, e2, e3 + e4);
        lemma_subrange_split(b, p2, e3, e4);
        lemma_dec_enc_u64(b, p2, ls.len() as u64);
    }
    assert(dec_lps(b, p2 + 8, ls.len()) == Some((ls, p4))) by {
        assert(b.subrange(0, b.len() as int) =~= b);
        lemma_subrange_split(b, 0, e1, e2 + (e3 + e4));
        lemma_subrange_split(b, 8, e2, e3 + e4);
        lemma_subrange_split(b, p2, e3, e4);
        lemma_dec_enc_lps(b, p2 + 8, ls);
    }
    assert((fs.len() as u64) as nat == fs.len());
    assert((ls.len() as u64) as nat == ls.len());
}

/// Serialises the full registry state into one snapshot byte string.
pub fn encode_snapshot(feeds: &Vec<Feed>, lps: &Vec<LpEntry>) -> (r: Vec<u8>)
    ensures
        r@ == enc_snapshot(feeds_view(feeds@), lps_view(lps@)),
{
    let mut out: Vec<u8> = Vec::new();
    write_u64(&mut out, feeds.len() as u64);
    let ghost pre1 = out@;
    let mut k: usize = 0;
    proof {
        assert(feeds_view(feeds@).take(0) =~= Seq::<FeedV>::empty());
        assert(pre1 + enc_feeds(feeds_view(feeds@).take(0)) =~= pre1);
    }
    while k < feeds.len()
        invariant
            k <= feeds@.len(),
            out@ == pre1 + enc_feeds(feeds_view(feeds@).take(k as int)),
        decreases feeds@.len() - k,
    {
        let ghost done = feeds_view(feeds@).take(k as int);
        write_feed(&mut out, &feeds[k]);
        proof {
            lemma_enc_feeds_push(done, feeds@[k as int]@);
            assert(feeds_view(feeds@).take(k + 1) =~= done.push(feeds@[k as int]@));
            assert(out@ =~= pre1 + enc_feeds(feeds_view(feeds@).take(k + 1)));
        }
        k = k + 1;
    }
    proof {
        assert(feeds_view(feeds@).take(feeds@.len() as int) =~= feeds_view(feeds@));
    }
    write_u64(&mut out, lps.len() as u64);
    let ghost pre2 = out@;
    let mut k2: usize = 0;
    proof {
        assert(lps_view(lps@).take(0) =~= Seq::<LpV>::empty());
        assert(pre2 + enc_lps(lps_view(lps@).take(0)) =~= pre2);
    }
    while k2 < lps.len()
        invariant
            k2 <= lps@.len(),
            out@ == pre2 + enc_lps(lps_view(lps@).take(k2 as int)),
        decreases lps@.len() - k2,
    {
        let ghost done = lps_view(lps@).take(k2 as int);
        write_lp(&mut out, &lps[k2]);
        proof {
            lemma_enc_lps_push(done, lps@[k2 as int]@);
            assert(lps_view(lps@).take(k2 + 1) =~= done.push(lps@[k2 as int]@));
            assert(out@ =~= pre2 + enc_lps(lps_view(lps@).take(k2 + 1)));
        }
        k2 = k2 + 1;
    }
    proof {
        assert(lps_view(lps@).take(lps@.len() as int) =~= lps_view(lps@));
        assert(out@ =~= enc_snapshot(feeds_view(feeds@), lps_view(lps@)));
    }
    out
}

/// Reads `n` feed records into a vector.
fn read_feeds(b: &Vec<u8>, pos: &mut usize, n: u64) -> (r: Option<Vec<Feed>>)
    ensures
        (match r {
            Some(v) => dec_feeds(b@, *old(pos) as int, n as nat) == Some(
                (feeds_view(v@), *final(pos) as int),
            ),
            None => dec_feeds(b@, *old(pos) as int, n as nat) is None,
        }),
{
    let ghost p1 = *pos as int;
    let mut acc: Vec<Feed> = Vec::new();
    let mut k: u64 = 0;
    proof {
        if let Some((rest, e)) = dec_feeds(b@, p1, n as nat) {
            assert(feeds_view(acc@) =~= Seq::<FeedV>::empty());
            assert(Seq::<FeedV>::empty() + rest =~= rest);
        }
    }
    while k < n
        invariant
            k <= n,
            p1 == *old(pos) as int,
            dec_feeds(b@, p1, n as nat) == (match dec_feeds(b@, *pos as int, (n - k) as nat) {
                None => None::<(Seq<FeedV>, int)>,
                Some((rest, e)) => Some((feeds_view(acc@) + rest, e)),
            }),
        decreases n - k,
    {
        let ghost pcur = *pos as int;
        let ghost aold = feeds_view(acc@);
        let f = match read_feed(b, pos) {
            Some(f) => f,
            None => {
                proof {
                    assert(dec_feeds(b@, pcur, (n - k) as nat) is None);
                }
                return None;
            },
        };
        let ghost fv = f@;
        acc.push(f);
        proof {
            assert(feeds_view(acc@) =~= aold.push(fv));
            let ghost pnext = *pos as int;
            if let Some((rest, e)) = dec_feeds(b@, pnext, (n - k - 1) as nat) {
                assert(dec_feeds(b@, pcur, (n - k) as nat) == Some((seq![fv] + rest, e)));
                assert(aold + (seq![fv] + rest) =~= feeds_view(acc@) + rest);
            } else {
                assert(dec_feeds(b@, pcur, (n - k) as nat) is None);
            }
        }
        k = k + 1;
    }
    proof {
        assert(feeds_view(acc@) + Seq::<FeedV>::empty() =~= feeds_view(acc@));
    }
    Some(acc)
}

/// Reads `n` matrix entries into a vector.
fn read_lps(b: &Vec<u8>, pos: &mut usize, n: u64) -> (r: Option<Vec<LpEntry>>)
    ensures
        (match r {
            Some(v) => dec_lps(b@, *old(pos) as int, n as nat) == Some(
                (lps_view(v@), *final(pos) as int),
            ),
            None => dec_lps(b@, *old(pos) as int, n as nat) is None,
        }),
{
    let ghost p1 = *pos as int;
    let mut acc: Vec<LpEntry> = Vec::new();
    let mut k: u64 = 0;
    proof {
        if let Some((rest, e)) = dec_lps(b@, p1, n as nat) {
            assert(lps_view(acc@) =~= Seq::<LpV>::empty());
            assert(Seq::<LpV>::empty() + rest =~= rest);
        }
    }
    while k < n
        invariant
            k <= n,
            p1 == *old(pos) as int,
            dec_lps(b@, p1, n as nat) == (match dec_lps(b@, *pos as int, (n - k) as nat) {
                None => None::<(Seq<LpV>, int)>,
                Some((rest, e)) => Some((lps_view(acc@) + rest, e)),
            }),
        decreases n - k,
    {
        let ghost pcur = *pos as int;
        let ghost aold = lps_view(acc@);
        let e = match read_lp(b, pos) {
            Some(e) => e,
            None => {
                proof {
                    assert(dec_lps(b@, pcur, (n - k) as nat) is None);
                }
                return None;
            },
        };
        let ghost ev = e@;
        acc.push(e);
        proof {
            assert(lps_view(acc@) =~= aold.push(ev));
            let ghost pnext = *pos as int;
            if let Some((rest, re)) = dec_lps(b@, pnext, (n - k - 1) as nat) {
                assert(dec_lps(b@, pcur, (n - k) as nat) == Some((seq![ev] + rest, re)));
                assert(aold + (seq![ev] + rest) =~= lps_view(acc@) + rest);
            } else {
                assert(dec_lps(b@, pcur, (n - k) as nat) is None);
            }
        }
        k = k + 1;
    }
    proof {
        assert(lps_view(acc@) + Seq::<LpV>::empty() =~= lps_view(acc@));
    }
    Some(acc)
}

/// Parses a snapshot byte string back into its records; a byte string
/// that is not exactly the decoder's language is a format error.
pub fn parse_snapshot(b: &Vec<u8>) -> (r: Result<(Vec<Feed>, Vec<LpEntry>), StoreError>)
    ensures
        (match r {
            Ok((fs, ls)) => dec_snapshot(b@) == Some((feeds_view(fs@), lps_view(ls@))),
            Err(e) => e == StoreError::DatabaseFormat && dec_snapshot(b@) is None,
        }),
{
    let mut pos: usize = 0;
    let nf = match read_u64(b, &mut pos) {
        Some(x) => x,
        None => {
            return Err(StoreError::DatabaseFormat);
        },
    };
    let fs = match read_feeds(b, &mut pos, nf) {
        Some(v) => v,
        None => {
            return Err(StoreError::DatabaseFormat);
        },
    };
    let nl = match read_u64(b, &mut pos) {
        Some(x) => x,
        None => {
            return Err(StoreError::DatabaseFormat);
        },
    };
    let ls = match read_lps(b, &mut pos, nl) {
        Some(v) => v,
        None => {
            return Err(StoreError::DatabaseFormat);
        },
    };
    if pos != b.len() {
        return Err(StoreError::DatabaseFormat);
    }
    Ok((fs, ls))
}

} // verus!
