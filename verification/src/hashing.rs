//! Stable 64-bit identity hashing for feeds and feed items.
//!
//! Feed identifiers are derived from the feed's canonical link, item
//! identifiers from the item's stable id when it has one, otherwise from
//! the concatenation of its title and link.  The hash is a deterministic
//! function of the character sequence alone, so identifiers are stable
//! across process restarts for one store's lifetime.

use vstd::prelude::*;
use vstd::string::StrSliceExecFns;

use crate::types::Item;
use crate::types::ItemV;

verus! {

/// Offset basis of the 64-bit FNV-1a hash.
pub const FNV_OFFSET: u64 = 0xcbf29ce484222325;

/// Prime of the 64-bit FNV-1a hash.
pub const FNV_PRIME: u64 = 0x100000001b3;

/// One FNV-1a step: fold one character's scalar value into the state.
pub open spec fn mix(h: u64, c: u64) -> u64 {
    (((h ^ c) * FNV_PRIME) % 0x10000000000000000) as u64
}

/// The hash state after folding every character of `s` into `h`, left to right.
pub open spec fn hash_seq(h: u64, s: Seq<char>) -> u64
    decreases s.len(),
{
    if s.len() == 0 {
        h
    } else {
        hash_seq(mix(h, s[0] as u64), s.drop_first())
    }
}

/// The 64-bit identity hash of a character sequence.
pub open spec fn hash_of(s: Seq<char>) -> u64 {
    hash_seq(FNV_OFFSET, s)
}

/// The identity hash of a feed item: the hash of its stable id when it has
/// one, otherwise the hash of its title and link concatenated (absent parts
/// count as empty).
pub open spec fn item_hash_of(it: ItemV) -> u64 {
    match it.id {
        Some(id) => hash_of(id),
        None => hash_of(opt_text(it.title) + opt_text(it.link)),
    }
}

/// The character sequence of an optional text, empty when absent.
pub open spec fn opt_text(t: Option<Seq<char>>) -> Seq<char> {
    match t {
        Some(s) => s,
        None => Seq::empty(),
    }
}

/// Folding a concatenation equals folding both parts in order.
pub proof fn lemma_hash_seq_concat(h: u64, a: Seq<char>, b: Seq<char>)
    ensures
        hash_seq(h, a + b) == hash_seq(hash_seq(h, a), b),
    decreases a.len(),
{
    if a.len() == 0 {
        assert(a + b =~= b);
    } else {
        assert((a + b).drop_first() =~= a.drop_first() + b);
        lemma_hash_seq_concat(mix(h, a[0] as u64), a.drop_first(), b);
    }
}

/// Folds every character of `s` into the running state `h`.
pub fn hash_more(h: u64, s: &str) -> (r: u64)
    ensures
        r == hash_seq(h, s@),
{
    let n = s.unicode_len();
    let mut acc = h;
    let mut i: usize = 0;
    proof {
        assert(s@.skip(0) =~= s@);
    }
    while i < n
        invariant
            n == s@.len(),
            i <= n,
            hash_seq(h, s@) == hash_seq(acc, s@.skip(i as int)),
        decreases n - i,
    {
        let c = s.get_char(i);
        proof {
            assert(s@.skip(i as int).drop_first() =~= s@.skip(i + 1));
            assert(s@.skip(i as int)[0] == s@[i as int]);
        }
        let x = acc ^ (c as u64);
        proof {
            assert((x as int) * (FNV_PRIME as int) <= (u64::MAX as int) * (FNV_PRIME as int))
                by (nonlinear_arith)
                requires
                    0 <= x as int <= u64::MAX as int,
            ;
        }
        let wide: u128 = (x as u128) * (FNV_PRIME as u128);
        let folded: u64 = (wide % 0x10000000000000000u128) as u64;
        proof {
            assert(folded == mix(acc, c as u64));
        }
        acc = folded;
        i = i + 1;
    }
    proof {
        assert(s@.skip(n as int) =~= Seq::<char>::empty());
    }
    acc
}

/// The 64-bit identity hash of a string.
pub fn hash_str(s: &str) -> (r: u64)
    ensures
        r == hash_of(s@),
{
    hash_more(FNV_OFFSET, s)
}

/// The identity hashes of a sequence of items, in order.
pub open spec fn items_hashes(items: Seq<ItemV>) -> Seq<u64> {
    items.map_values(|it: ItemV| item_hash_of(it))
}

/// Computes the identity hash of one feed item.
pub fn item_hash(it: &Item) -> (r: u64)
    ensures
        r == item_hash_of(it@),
{
    match &it.id {
        Some(id) => hash_str(id.as_str()),
        None => {
            let h = match &it.title {
                Some(t) => hash_more(FNV_OFFSET, t.as_str()),
                None => FNV_OFFSET,
            };
            let h2 = match &it.link {
                Some(l) => hash_more(h, l.as_str()),
                None => h,
            };
            proof {
                lemma_hash_seq_concat(FNV_OFFSET, opt_text(it@.title), opt_text(it@.link));
            }
            h2
        },
    }
}

} // verus!
