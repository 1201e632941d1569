//! The subscription store: feed registry, subscriber index and
//! link-preview matrix, with every mutation keeping the three in step.
//!
//! The registry is the authority: a feed record exists exactly while its
//! subscriber set is non-empty, and the subscriber index mirrors the
//! per-feed subscriber sets.  Mutating operations that the store promises
//! to persist count one triggered snapshot write on `save_count`; the
//! caller performs the actual write with the bytes from [`Database::save`].

use vstd::prelude::*;

use crate::assoc::assoc_at;
use crate::assoc::assoc_distinct;
use crate::assoc::assoc_has;
use crate::assoc::lemma_assoc_at_index;
use crate::assoc::lemma_assoc_push;
use crate::assoc::lemma_assoc_remove;
use crate::assoc::lemma_assoc_update;
use crate::assoc::lemma_contains_push;
use crate::assoc::lemma_contains_remove;
use crate::hashing::hash_of;
use crate::hashing::hash_str;
use crate::hashing::item_hash;
use crate::hashing::items_hashes;
use crate::hashing::item_hash_of;
use crate::types::Feed;
use crate::types::FeedV;
use crate::types::Item;
use crate::types::ItemV;
use crate::types::LinkPreview;
use crate::types::LpEntry;
use crate::types::LpV;
use crate::types::Rss;
use crate::types::RssV;
use crate::types::StoreError;
use crate::types::SubscriptionResult;
use crate::types::copy_vec_u64;
use crate::types::items_view;

verus! {

/// One subscriber's entry in the subscriber index: the feeds it follows.
#[derive(Debug)]
pub struct SubEntry {
    pub id: i64,
    pub feeds: Vec<u64>,
}

/// The key of a feed record: the identity hash of its canonical link.
pub open spec fn feed_key() -> spec_fn(Feed) -> u64 {
    |f: Feed| hash_of(f.link@)
}

/// The key of a subscriber-index entry.
pub open spec fn sub_key() -> spec_fn(SubEntry) -> i64 {
    |e: SubEntry| e.id
}

/// The key of a link-preview entry.
pub open spec fn lp_key() -> spec_fn(LpEntry) -> (i64, u64) {
    |e: LpEntry| (e.sub, e.feed)
}

/// No two elements of `s` are equal.
pub open spec fn distinct_seq<A>(s: Seq<A>) -> bool {
    forall|i: int, j: int| 0 <= i < j < s.len() ==> s[i] != s[j]
}

/// The next value of the persistence-write counter.
pub open spec fn bump(c: u64) -> u64 {
    if c == u64::MAX {
        0
    } else {
        (c + 1) as u64
    }
}

/// The subscription store.
#[derive(Debug)]
pub struct Database {
    /// The path of the backing snapshot file, kept for the caller.
    pub path: String,
    /// The feed registry, keyed by the hash of each record's link.
    pub feeds: Vec<Feed>,
    /// The subscriber index, keyed by subscriber identifier.
    pub subs: Vec<SubEntry>,
    /// The link-preview matrix, keyed by (subscriber, feed) pairs.
    pub lps: Vec<LpEntry>,
    /// How many snapshot writes the mutating operations have triggered.
    pub save_count: u64,
}

impl Database {
    /// A feed with this identifier exists in the registry.
    pub open spec fn has_feed(self, id: u64) -> bool {
        assoc_has(self.feeds@, feed_key(), id)
    }

    /// The feed record with this identifier.
    pub open spec fn feed_at(self, id: u64) -> FeedV {
        assoc_at(self.feeds@, feed_key(), id)@
    }

    /// This subscriber follows at least one feed.
    pub open spec fn has_sub(self, s: i64) -> bool {
        assoc_has(self.subs@, sub_key(), s)
    }

    /// The feed identifiers this subscriber follows.
    pub open spec fn sub_feeds(self, s: i64) -> Seq<u64> {
        assoc_at(self.subs@, sub_key(), s).feeds@
    }

    /// The pair (subscriber, feed) has a link-preview entry.
    pub open spec fn has_lp(self, s: i64, f: u64) -> bool {
        assoc_has(self.lps@, lp_key(), (s, f))
    }

    /// The link-preview setting of the pair (subscriber, feed).
    pub open spec fn lp_at(self, s: i64, f: u64) -> LinkPreview {
        assoc_at(self.lps@, lp_key(), (s, f)).lp
    }

    /// The feed `f` exists and lists `s` among its subscribers.
    pub open spec fn feed_has_sub(self, f: u64, s: i64) -> bool {
        self.has_feed(f) && self.feed_at(f).subscribers.contains(s)
    }

    /// The subscriber `s` is indexed and its feed set contains `f`.
    pub open spec fn sub_has_feed(self, s: i64, f: u64) -> bool {
        self.has_sub(s) && self.sub_feeds(s).contains(f)
    }

    /// Bidirectional consistency: a subscriber stands in a feed's
    /// subscriber set exactly when the feed stands in the subscriber's
    /// feed set.
    pub open spec fn consistent(self) -> bool {
        forall|s: i64, f: u64|
            #![trigger self.feed_has_sub(f, s)]
            #![trigger self.sub_has_feed(s, f)]
            self.feed_has_sub(f, s) <==> self.sub_has_feed(s, f)
    }

    /// Well-formedness: every index is duplicate-free, a feed record
    /// exists exactly while its subscriber set is non-empty, a subscriber
    /// is indexed exactly while its feed set is non-empty, and the two
    /// directions of the relation agree.
    pub open spec fn wf(self) -> bool {
        &&& assoc_distinct(self.feeds@, feed_key())
        &&& assoc_distinct(self.subs@, sub_key())
        &&& assoc_distinct(self.lps@, lp_key())
        &&& forall|x: u64|
            #[trigger] self.has_feed(x) ==> distinct_seq(self.feed_at(x).subscribers)
                && self.feed_at(x).subscribers.len() > 0
        &&& forall|y: i64|
            #[trigger] self.has_sub(y) ==> distinct_seq(self.sub_feeds(y)) && self.sub_feeds(
                y,
            ).len() > 0
        &&& self.consistent()
    }
}

/// Every feed other than `id` reads the same in `pre` and `post`.
pub open spec fn feeds_unchanged_except(pre: Database, post: Database, id: u64) -> bool {
    forall|x: u64|
        x != id ==> ((#[trigger] post.has_feed(x) <==> pre.has_feed(x)) && (pre.has_feed(x)
            ==> post.feed_at(x) == pre.feed_at(x)))
}

/// Every subscriber-index entry other than `s` reads the same in `pre` and `post`.
pub open spec fn subs_unchanged_except(pre: Database, post: Database, s: i64) -> bool {
    forall|y: i64|
        y != s ==> ((#[trigger] post.has_sub(y) <==> pre.has_sub(y)) && (pre.has_sub(y)
            ==> post.sub_feeds(y) == pre.sub_feeds(y)))
}

/// Every link-preview entry other than (`s`, `f`) reads the same in `pre` and `post`.
pub open spec fn lps_unchanged_except(pre: Database, post: Database, s: i64, f: u64) -> bool {
    forall|y: i64, x: u64|
        !(y == s && x == f) ==> ((#[trigger] post.has_lp(y, x) <==> pre.has_lp(y, x)) && (
        pre.has_lp(y, x) ==> post.lp_at(y, x) == pre.lp_at(y, x)))
}

/// A duplicate-free sequence stays duplicate-free when a fresh element
/// is pushed.
pub proof fn lemma_distinct_push<A>(s: Seq<A>, x: A)
    requires
        distinct_seq(s),
        !s.contains(x),
    ensures
        distinct_seq(s.push(x)),
{
    assert forall|a: int, b: int| 0 <= a < b < s.push(x).len() implies s.push(x)[a] != s.push(
        x,
    )[b] by {
        if b == s.len() {
            if s.push(x)[a] == x {
                assert(s[a] == x);
                assert(s.contains(x));
            }
        }
    }
}

/// A duplicate-free sequence stays duplicate-free when a position is
/// removed.
pub proof fn lemma_distinct_remove<A>(s: Seq<A>, i: int)
    requires
        distinct_seq(s),
        0 <= i < s.len(),
    ensures
        distinct_seq(s.remove(i)),
{
    let t = s.remove(i);
    assert forall|a: int, b: int| 0 <= a < b < t.len() implies t[a] != t[b] by {
        let a2: int = if a < i {
            a
        } else {
            a + 1
        };
        let b2: int = if b < i {
            b
        } else {
            b + 1
        };
        assert(t[a] == s[a2]);
        assert(t[b] == s[b2]);
    }
}

/// `v` holds `x`.
pub fn vec_contains_u64(v: &Vec<u64>, x: u64) -> (r: bool)
    ensures
        r == v@.contains(x),
{
    let mut i: usize = 0;
    while i < v.len()
        invariant
            i <= v@.len(),
            forall|j: int| 0 <= j < i ==> v@[j] != x,
        decreases v@.len() - i,
    {
        if v[i] == x {
            proof {
                assert(v@[i as int] == x);
            }
            return true;
        }
        i = i + 1;
    }
    proof {
        if v@.contains(x) {
            let j = choose|j: int| 0 <= j < v@.len() && v@[j] == x;
            assert(v@[j] == x);
        }
    }
    false
}

/// `v` holds `x`.
pub fn vec_contains_i64(v: &Vec<i64>, x: i64) -> (r: bool)
    ensures
        r == v@.contains(x),
{
    let mut i: usize = 0;
    while i < v.len()
        invariant
            i <= v@.len(),
            forall|j: int| 0 <= j < i ==> v@[j] != x,
        decreases v@.len() - i,
    {
        if v[i] == x {
            proof {
                assert(v@[i as int] == x);
            }
            return true;
        }
        i = i + 1;
    }
    proof {
        if v@.contains(x) {
            let j = choose|j: int| 0 <= j < v@.len() && v@[j] == x;
            assert(v@[j] == x);
        }
    }
    false
}

/// A sequence holding two different values has at least two positions.
pub proof fn lemma_two_contains<A>(s: Seq<A>, a: A, b: A)
    requires
        s.contains(a),
        s.contains(b),
        a != b,
    ensures
        s.len() >= 2,
{
    let i = choose|i: int| 0 <= i < s.len() && s[i] == a;
    let j = choose|j: int| 0 <= j < s.len() && s[j] == b;
    assert(i != j);
}

/// The position of `x` in `v`, if any.
pub fn vec_find_u64(v: &Vec<u64>, x: u64) -> (r: Option<usize>)
    ensures
        (match r {
            Some(i) => i < v@.len() && v@[i as int] == x,
            None => !v@.contains(x),
        }),
{
    let mut i: usize = 0;
    while i < v.len()
        invariant
            i <= v@.len(),
            forall|j: int| 0 <= j < i ==> v@[j] != x,
        decreases v@.len() - i,
    {
        if v[i] == x {
            return Some(i);
        }
        i = i + 1;
    }
    proof {
        if v@.contains(x) {
            let j = choose|j: int| 0 <= j < v@.len() && v@[j] == x;
            assert(v@[j] == x);
        }
    }
    None
}

/// The position of `x` in `v`, if any.
pub fn vec_find_i64(v: &Vec<i64>, x: i64) -> (r: Option<usize>)
    ensures
        (match r {
            Some(i) => i < v@.len() && v@[i as int] == x,
            None => !v@.contains(x),
        }),
{
    let mut i: usize = 0;
    while i < v.len()
        invariant
            i <= v@.len(),
            forall|j: int| 0 <= j < i ==> v@[j] != x,
        decreases v@.len() - i,
    {
        if v[i] == x {
            return Some(i);
        }
        i = i + 1;
    }
    proof {
        if v@.contains(x) {
            let j = choose|j: int| 0 <= j < v@.len() && v@[j] == x;
            assert(v@[j] == x);
        }
    }
    None
}

/// The full effect of a successful unsubscribe call: the membership and
/// its link-preview entry are gone, and records left without members are
/// dropped.  `fv` is the returned copy of the feed, as it stood right
/// before any removal of the record, with the leaving subscriber already
/// taken out of its subscriber list.
pub open spec fn unsubscribe_ok(
    pre: Database,
    post: Database,
    s: i64,
    link: Seq<char>,
    fv: FeedV,
) -> bool {
    let id = hash_of(link);
    &&& pre.sub_has_feed(s, id)
    &&& fv.link == pre.feed_at(id).link
    &&& fv.title == pre.feed_at(id).title
    &&& fv.error_count == pre.feed_at(id).error_count
    &&& fv.hash_list == pre.feed_at(id).hash_list
    &&& (forall|t: i64|
        fv.subscribers.contains(t) <==> (pre.feed_at(id).subscribers.contains(t) && t != s))
    &&& (post.has_feed(id) <==> pre.feed_at(id).subscribers.len() > 1)
    &&& (post.has_feed(id) ==> post.feed_at(id) == fv)
    &&& feeds_unchanged_except(pre, post, id)
    &&& (post.has_sub(s) <==> pre.sub_feeds(s).len() > 1)
    &&& (post.has_sub(s) ==> (forall|x: u64|
        post.sub_feeds(s).contains(x) <==> (pre.sub_feeds(s).contains(x) && x != id)))
    &&& subs_unchanged_except(pre, post, s)
    &&& !post.has_lp(s, id)
    &&& lps_unchanged_except(pre, post, s, id)
    &&& post.save_count == bump(pre.save_count)
    &&& post.path == pre.path
}

/// A non-empty sequence holds its first element and whatever its tail holds.
pub proof fn lemma_contains_first<A>(s: Seq<A>, x: A)
    requires
        s.len() > 0,
    ensures
        s.contains(x) <==> (s[0] == x || s.drop_first().contains(x)),
{
    if s.contains(x) {
        let i = choose|i: int| 0 <= i < s.len() && s[i] == x;
        if i > 0 {
            assert(s.drop_first()[i - 1] == x);
        }
    }
    if s.drop_first().contains(x) {
        let i = choose|i: int| 0 <= i < s.drop_first().len() && s.drop_first()[i] == x;
        assert(s[i + 1] == x);
    }
}

/// A duplicate-free sequence has a second value exactly when it has more
/// than one position.
pub proof fn lemma_distinct_other<A>(s: Seq<A>, a: A)
    requires
        distinct_seq(s),
        s.contains(a),
    ensures
        (s.len() > 1) <==> (exists|b: A| s.contains(b) && b != a),
{
    if s.len() > 1 {
        let p = choose|p: int| 0 <= p < s.len() && s[p] == a;
        let q: int = if p == 0 {
            1
        } else {
            0
        };
        assert(s[q] != s[p]);
        assert(s.contains(s[q]) && s[q] != a);
    }
    if exists|b: A| s.contains(b) && b != a {
        let b = choose|b: A| s.contains(b) && b != a;
        lemma_two_contains(s, a, b);
    }
}

/// The persistence-write counter after `k` more triggered writes.
pub open spec fn bump_n(c: u64, k: nat) -> u64
    decreases k,
{
    if k == 0 {
        c
    } else {
        bump(bump_n(c, (k - 1) as nat))
    }
}

/// In `post`, the feed `x` of `pre` has lost the subscriber `s`: it kept
/// its other fields and members, and survives exactly when it had some
/// other subscriber.
pub open spec fn feed_shrunk(pre: Database, post: Database, s: i64, x: u64) -> bool {
    &&& pre.has_feed(x)
    &&& (post.has_feed(x) <==> (exists|t: i64|
        pre.feed_at(x).subscribers.contains(t) && t != s))
    &&& (post.has_feed(x) ==> {
        &&& post.feed_at(x).link == pre.feed_at(x).link
        &&& post.feed_at(x).title == pre.feed_at(x).title
        &&& post.feed_at(x).error_count == pre.feed_at(x).error_count
        &&& post.feed_at(x).hash_list == pre.feed_at(x).hash_list
        &&& (forall|t: i64|
            post.feed_at(x).subscribers.contains(t) <==> (pre.feed_at(x).subscribers.contains(t)
                && t != s))
    })
}

/// The link-preview entry (`y`, `x`) reads the same in `pre` and `post`.
pub open spec fn lp_same_at(pre: Database, post: Database, y: i64, x: u64) -> bool {
    &&& (post.has_lp(y, x) <==> pre.has_lp(y, x))
    &&& (pre.has_lp(y, x) ==> post.lp_at(y, x) == pre.lp_at(y, x))
}

/// The full effect of deleting a subscriber: every membership it held is
/// unsubscribed, one by one.
pub open spec fn delete_subscriber_post(pre: Database, post: Database, s: i64) -> bool {
    &&& !post.has_sub(s)
    &&& subs_unchanged_except(pre, post, s)
    &&& (forall|x: u64| pre.has_feed(x) ==> feed_shrunk(pre, post, s, x))
    &&& (forall|x: u64| !pre.has_feed(x) ==> !(#[trigger] post.has_feed(x)))
    &&& (forall|x: u64| pre.sub_has_feed(s, x) ==> !(#[trigger] post.has_lp(s, x)))
    &&& (forall|y: i64, x: u64|
        !(y == s && pre.sub_has_feed(s, x)) ==> lp_same_at(pre, post, y, x))
    &&& post.save_count == bump_n(
        pre.save_count,
        (if pre.has_sub(s) {
            pre.sub_feeds(s).len()
        } else {
            0
        }),
    )
    &&& post.path == pre.path
}

/// In `post`, the feed `x` of `pre` lists `to` in place of `from`, all
/// else equal.
pub open spec fn feed_reassigned(
    pre: Database,
    post: Database,
    from: i64,
    to: i64,
    x: u64,
) -> bool {
    &&& post.has_feed(x)
    &&& post.feed_at(x).link == pre.feed_at(x).link
    &&& post.feed_at(x).title == pre.feed_at(x).title
    &&& post.feed_at(x).error_count == pre.feed_at(x).error_count
    &&& post.feed_at(x).hash_list == pre.feed_at(x).hash_list
    &&& !post.feed_at(x).subscribers.contains(from)
    &&& post.feed_at(x).subscribers.contains(to)
    &&& (forall|t: i64|
        t != from && t != to ==> (post.feed_at(x).subscribers.contains(t)
            <==> pre.feed_at(x).subscribers.contains(t)))
}

/// In `post`, the link-preview entry of (`from`, `x`) has migrated to
/// (`to`, `x`); when `from` had one it wins over `to`'s old value.
pub open spec fn lp_moved(pre: Database, post: Database, from: i64, to: i64, x: u64) -> bool {
    &&& !post.has_lp(from, x)
    &&& (pre.has_lp(from, x) ==> post.has_lp(to, x) && post.lp_at(to, x) == pre.lp_at(from, x))
    &&& (!pre.has_lp(from, x) ==> lp_same_at(pre, post, to, x))
}

/// The full effect of reassigning the subscriber `from` to the identity
/// `to`: every membership and link-preview setting of `from` now belongs
/// to `to`, merged into whatever `to` already had.  A raw relabeling:
/// nothing is persisted.
pub open spec fn reassign_post(pre: Database, post: Database, from: i64, to: i64) -> bool {
    &&& !post.has_sub(from)
    &&& post.has_sub(to)
    &&& (forall|x: u64|
        #[trigger] post.sub_has_feed(to, x) <==> (pre.sub_has_feed(from, x) || pre.sub_has_feed(
            to,
            x,
        )))
    &&& (forall|y: i64|
        y != from && y != to ==> ((#[trigger] post.has_sub(y) <==> pre.has_sub(y)) && (
        pre.has_sub(y) ==> post.sub_feeds(y) == pre.sub_feeds(y))))
    &&& (forall|x: u64| #[trigger] post.has_feed(x) <==> pre.has_feed(x))
    &&& (forall|x: u64|
        #[trigger] pre.sub_has_feed(from, x) ==> feed_reassigned(pre, post, from, to, x))
    &&& (forall|x: u64|
        pre.has_feed(x) && !pre.sub_has_feed(from, x) ==> #[trigger] post.feed_at(x)
            == pre.feed_at(x))
    &&& (forall|x: u64| #[trigger] pre.sub_has_feed(from, x) ==> lp_moved(pre, post, from, to, x))
    &&& (forall|y: i64, x: u64|
        !((y == from || y == to) && pre.sub_has_feed(from, x)) ==> lp_same_at(pre, post, y, x))
    &&& post.save_count == pre.save_count
    &&& post.path == pre.path
}

/// The inputs on which subscribe is rejected with `AlreadySubscribed`:
/// the membership already exists and the stored link-preview setting
/// equals the requested one.
pub open spec fn subscribe_rejects(pre: Database, s: i64, link: Seq<char>, lp: LinkPreview) -> bool {
    let id = hash_of(link);
    pre.sub_has_feed(s, id) && pre.has_lp(s, id) && pre.lp_at(s, id) == lp
}

/// The full effect of a successful subscribe call.
pub open spec fn subscribe_ok(
    pre: Database,
    post: Database,
    s: i64,
    link: Seq<char>,
    rss: RssV,
    lp: LinkPreview,
    res: SubscriptionResult,
) -> bool {
    let id = hash_of(link);
    &&& !subscribe_rejects(pre, s, link, lp)
    &&& post.has_feed(id)
    &&& (if pre.has_feed(id) {
        post.feed_at(id) == (FeedV {
            subscribers: (if pre.feed_at(id).subscribers.contains(s) {
                pre.feed_at(id).subscribers
            } else {
                pre.feed_at(id).subscribers.push(s)
            }),
            ..pre.feed_at(id)
        })
    } else {
        post.feed_at(id) == (FeedV {
            link: link,
            title: rss.title,
            error_count: 0u32,
            subscribers: seq![s],
            hash_list: items_hashes(rss.items),
        })
    })
    &&& feeds_unchanged_except(pre, post, id)
    &&& post.has_sub(s)
    &&& post.sub_feeds(s) == (if !pre.has_sub(s) {
        seq![id]
    } else if pre.sub_feeds(s).contains(id) {
        pre.sub_feeds(s)
    } else {
        pre.sub_feeds(s).push(id)
    })
    &&& subs_unchanged_except(pre, post, s)
    &&& post.has_lp(s, id)
    &&& post.lp_at(s, id) == lp
    &&& lps_unchanged_except(pre, post, s, id)
    &&& (res == SubscriptionResult::NewlySubscribed <==> !pre.has_lp(s, id))
    &&& post.save_count == bump(pre.save_count)
    &&& post.path == pre.path
}

/// The items of a fetch whose identity hash appears nowhere in the
/// stored history, in their original relative order.
pub open spec fn new_items(items: Seq<ItemV>, hist: Seq<u64>) -> Seq<ItemV>
    decreases items.len(),
{
    if items.len() == 0 {
        Seq::empty()
    } else {
        let rest = new_items(items.drop_last(), hist);
        if !hist.contains(item_hash_of(items.last())) {
            rest.push(items.last())
        } else {
            rest
        }
    }
}

/// The history after a fetch that found new items: the hashes of all
/// items just fetched, in fetched order, then as many entries of the old
/// history, in its order, as keep the total within twice the number of
/// fetched items.
pub open spec fn rebuilt_history(items: Seq<ItemV>, hist: Seq<u64>) -> Seq<u64> {
    crate::hashing::items_hashes(items) + hist.take(
        if hist.len() <= items.len() {
            hist.len() as int
        } else {
            items.len() as int
        },
    )
}

/// The error counter after one more failure, saturating at the top.
pub open spec fn sat_inc(c: u32) -> u32 {
    if c == u32::MAX {
        c
    } else {
        (c + 1) as u32
    }
}

/// Well-formedness survives a change that touches no feed's subscriber
/// list, no feed's membership, and neither of the other two indices.
pub proof fn lemma_wf_feed_fields_only(pre: Database, post: Database)
    requires
        pre.wf(),
        post.subs == pre.subs,
        post.lps == pre.lps,
        assoc_distinct(post.feeds@, feed_key()),
        forall|x: u64| #[trigger] post.has_feed(x) <==> pre.has_feed(x),
        forall|x: u64|
            pre.has_feed(x) ==> (#[trigger] post.feed_at(x)).subscribers == pre.feed_at(
                x,
            ).subscribers,
    ensures
        post.wf(),
{
    assert forall|x: u64| #[trigger] post.has_feed(x) implies distinct_seq(
        post.feed_at(x).subscribers,
    ) && post.feed_at(x).subscribers.len() > 0 by {
        assert(pre.has_feed(x));
        assert(post.feed_at(x).subscribers == pre.feed_at(x).subscribers);
    }
    assert forall|y: i64| #[trigger] post.has_sub(y) implies distinct_seq(post.sub_feeds(y))
        && post.sub_feeds(y).len() > 0 by {
        assert(pre.has_sub(y));
        assert(post.sub_feeds(y) == pre.sub_feeds(y));
    }
    assert forall|s: i64, f: u64| #[trigger] post.feed_has_sub(f, s) implies post.sub_has_feed(
        s,
        f,
    ) by {
        assert(pre.feed_has_sub(f, s));
    }
    assert forall|s: i64, f: u64| #[trigger] post.sub_has_feed(s, f) implies post.feed_has_sub(
        f,
        s,
    ) by {
        assert(pre.sub_has_feed(s, f));
        assert(pre.feed_has_sub(f, s));
    }
}

impl Database {
    /// Creates an empty store that will persist to `path`.  The empty
    /// snapshot counts as one triggered persistence write.
    pub fn create(path: &str) -> (r: Database)
        ensures
            r.wf(),
            r.feeds@.len() == 0,
            r.subs@.len() == 0,
            r.lps@.len() == 0,
            r.path@ == path@,
            r.save_count == 1,
    {
        Database {
            path: path.to_owned(),
            feeds: Vec::new(),
            subs: Vec::new(),
            lps: Vec::new(),
            save_count: 1,
        }
    }

    /// The index of the feed record with identifier `id`, if any.
    fn find_feed(&self, id: u64) -> (r: Option<usize>)
        ensures
            (match r {
                Some(i) => i < self.feeds@.len() && hash_of(self.feeds@[i as int].link@) == id,
                None => !self.has_feed(id),
            }),
    {
        let mut i: usize = 0;
        while i < self.feeds.len()
            invariant
                i <= self.feeds@.len(),
                forall|j: int| 0 <= j < i ==> hash_of((#[trigger] self.feeds@[j]).link@) != id,
            decreases self.feeds@.len() - i,
        {
            if hash_str(self.feeds[i].link.as_str()) == id {
                return Some(i);
            }
            i = i + 1;
        }
        proof {
            if self.has_feed(id) {
                let j = choose|j: int|
                    0 <= j < self.feeds@.len() && #[trigger] feed_key()(self.feeds@[j]) == id;
                assert(hash_of(self.feeds@[j].link@) == id);
            }
        }
        None
    }

    /// The index of the subscriber-index entry for `s`, if any.
    fn find_sub(&self, s: i64) -> (r: Option<usize>)
        ensures
            (match r {
                Some(i) => i < self.subs@.len() && self.subs@[i as int].id == s,
                None => !self.has_sub(s),
            }),
    {
        let mut i: usize = 0;
        while i < self.subs.len()
            invariant
                i <= self.subs@.len(),
                forall|j: int| 0 <= j < i ==> (#[trigger] self.subs@[j]).id != s,
            decreases self.subs@.len() - i,
        {
            if self.subs[i].id == s {
                return Some(i);
            }
            i = i + 1;
        }
        proof {
            if self.has_sub(s) {
                let j = choose|j: int|
                    0 <= j < self.subs@.len() && #[trigger] sub_key()(self.subs@[j]) == s;
                assert(self.subs@[j].id == s);
            }
        }
        None
    }

    /// The index of the link-preview entry for (`s`, `f`), if any.
    fn find_lp(&self, s: i64, f: u64) -> (r: Option<usize>)
        ensures
            (match r {
                Some(i) => i < self.lps@.len() && self.lps@[i as int].sub == s && self.lps@[
                    i as int
                ].feed == f,
                None => !self.has_lp(s, f),
            }),
    {
        let mut i: usize = 0;
        while i < self.lps.len()
            invariant
                i <= self.lps@.len(),
                forall|j: int|
                    0 <= j < i ==> !((#[trigger] self.lps@[j]).sub == s && self.lps@[j].feed == f),
            decreases self.lps@.len() - i,
        {
            if self.lps[i].sub == s && self.lps[i].feed == f {
                return Some(i);
            }
            i = i + 1;
        }
        proof {
            if self.has_lp(s, f) {
                let j = choose|j: int|
                    0 <= j < self.lps@.len() && #[trigger] lp_key()(self.lps@[j]) == (s, f);
                assert(self.lps@[j].sub == s && self.lps@[j].feed == f);
            }
        }
        None
    }

    /// A copy of every feed record, in the registry's storage order.
    pub fn get_all_feeds(&self) -> (r: Vec<Feed>)
        ensures
            r@.len() == self.feeds@.len(),
            forall|i: int| 0 <= i < r@.len() ==> (#[trigger] r@[i])@ == self.feeds@[i]@,
    {
        let mut r: Vec<Feed> = Vec::new();
        let mut i: usize = 0;
        while i < self.feeds.len()
            invariant
                i <= self.feeds@.len(),
                r@.len() == i,
                forall|j: int| 0 <= j < i ==> (#[trigger] r@[j])@ == self.feeds@[j]@,
            decreases self.feeds@.len() - i,
        {
            r.push(self.feeds[i].clone());
            i = i + 1;
        }
        r
    }

    /// Every subscriber currently following at least one feed.
    pub fn get_all_subscribers(&self) -> (r: Vec<i64>)
        ensures
            r@.len() == self.subs@.len(),
            forall|i: int| 0 <= i < r@.len() ==> r@[i] == (#[trigger] self.subs@[i]).id,
    {
        let mut r: Vec<i64> = Vec::new();
        let mut i: usize = 0;
        while i < self.subs.len()
            invariant
                i <= self.subs@.len(),
                r@.len() == i,
                forall|j: int| 0 <= j < i ==> r@[j] == (#[trigger] self.subs@[j]).id,
            decreases self.subs@.len() - i,
        {
            r.push(self.subs[i].id);
            i = i + 1;
        }
        r
    }

    /// Copies of the feeds a subscriber follows, or nothing when the
    /// subscriber is unknown (a known subscriber never has an empty list).
    pub fn get_subscribed_feeds(&self, subscriber: i64) -> (r: Option<Vec<Feed>>)
        requires
            self.wf(),
        ensures
            (match r {
                Some(v) => self.has_sub(subscriber) && v@.len() == self.sub_feeds(
                    subscriber,
                ).len() && (forall|i: int|
                    0 <= i < v@.len() ==> (#[trigger] v@[i])@ == self.feed_at(
                        self.sub_feeds(subscriber)[i],
                    )),
                None => !self.has_sub(subscriber),
            }),
    {
        let si = match self.find_sub(subscriber) {
            Some(si) => si,
            None => {
                return None;
            },
        };
        proof {
            lemma_assoc_at_index(self.subs@, sub_key(), si as int);
        }
        let ids = &self.subs[si].feeds;
        let mut v: Vec<Feed> = Vec::new();
        let mut i: usize = 0;
        while i < ids.len()
            invariant
                self.wf(),
                si < self.subs@.len(),
                self.subs@[si as int].id == subscriber,
                ids == &self.subs@[si as int].feeds,
                self.has_sub(subscriber),
                ids@ == self.sub_feeds(subscriber),
                i <= ids@.len(),
                v@.len() == i,
                forall|j: int|
                    0 <= j < i ==> (#[trigger] v@[j])@ == self.feed_at(
                        self.sub_feeds(subscriber)[j],
                    ),
            decreases ids@.len() - i,
        {
            let id = ids[i];
            proof {
                assert(self.sub_feeds(subscriber).contains(id));
                assert(self.sub_has_feed(subscriber, id));
                assert(self.feed_has_sub(id, subscriber));
            }
            let fi = match self.find_feed(id) {
                Some(fi) => fi,
                None => {
                    proof {
                        assert(false);
                    }
                    return None;
                },
            };
            proof {
                lemma_assoc_at_index(self.feeds@, feed_key(), fi as int);
            }
            v.push(self.feeds[fi].clone());
            i = i + 1;
        }
        Some(v)
    }

    /// Adds one consecutive failure to a feed's error counter and returns
    /// the new value; on an unknown feed, changes nothing and returns the
    /// default count.  Transient poll failures are not persisted.
    pub fn inc_error_count(&mut self, rss_link: &str) -> (r: u32)
        requires
            old(self).wf(),
        ensures
            final(self).wf(),
            final(self).path == old(self).path,
            final(self).subs == old(self).subs,
            final(self).lps == old(self).lps,
            final(self).save_count == old(self).save_count,
            ({
                let id = hash_of(rss_link@);
                if old(self).has_feed(id) {
                    &&& r == sat_inc(old(self).feed_at(id).error_count)
                    &&& (forall|x: u64| final(self).has_feed(x) <==> old(self).has_feed(x))
                    &&& final(self).feed_at(id) == (FeedV {
                        error_count: r,
                        ..old(self).feed_at(id)
                    })
                    &&& feeds_unchanged_except(*old(self), *final(self), id)
                } else {
                    &&& *final(self) == *old(self)
                    &&& r == 0
                }
            }),
    {
        let id = hash_str(rss_link);
        let fi = match self.find_feed(id) {
            Some(fi) => fi,
            None => {
                return 0;
            },
        };
        proof {
            lemma_assoc_at_index(self.feeds@, feed_key(), fi as int);
        }
        let ghost pre = *self;
        let e = &mut self.feeds[fi];
        let c = if e.error_count == u32::MAX {
            e.error_count
        } else {
            e.error_count + 1
        };
        e.error_count = c;
        proof {
            lemma_assoc_update(pre.feeds@, feed_key(), fi as int, self.feeds@[fi as int]);
            assert(self.feed_at(id) =~= (FeedV { error_count: c, ..pre.feed_at(id) }));
            lemma_wf_feed_fields_only(pre, *self);
        }
        c
    }

    /// Clears a feed's error counter; changes nothing on an unknown feed.
    /// Not persisted.
    pub fn reset_error_count(&mut self, rss_link: &str)
        requires
            old(self).wf(),
        ensures
            final(self).wf(),
            final(self).path == old(self).path,
            final(self).subs == old(self).subs,
            final(self).lps == old(self).lps,
            final(self).save_count == old(self).save_count,
            ({
                let id = hash_of(rss_link@);
                if old(self).has_feed(id) {
                    &&& (forall|x: u64| final(self).has_feed(x) <==> old(self).has_feed(x))
                    &&& final(self).feed_at(id) == (FeedV {
                        error_count: 0u32,
                        ..old(self).feed_at(id)
                    })
                    &&& feeds_unchanged_except(*old(self), *final(self), id)
                } else {
                    *final(self) == *old(self)
                }
            }),
    {
        let id = hash_str(rss_link);
        let fi = match self.find_feed(id) {
            Some(fi) => fi,
            None => {
                return ;
            },
        };
        proof {
            lemma_assoc_at_index(self.feeds@, feed_key(), fi as int);
        }
        let ghost pre = *self;
        let e = &mut self.feeds[fi];
        e.error_count = 0;
        proof {
            lemma_assoc_update(pre.feeds@, feed_key(), fi as int, self.feeds@[fi as int]);
            assert(self.feed_at(id) =~= (FeedV { error_count: 0u32, ..pre.feed_at(id) }));
            lemma_wf_feed_fields_only(pre, *self);
        }
    }

    /// Overwrites a feed's title; changes nothing on an unknown feed.
    /// Not persisted.
    pub fn update_title(&mut self, rss_link: &str, new_title: &str)
        requires
            old(self).wf(),
        ensures
            final(self).wf(),
            final(self).path == old(self).path,
            final(self).subs == old(self).subs,
            final(self).lps == old(self).lps,
            final(self).save_count == old(self).save_count,
            ({
                let id = hash_of(rss_link@);
                if old(self).has_feed(id) {
                    &&& (forall|x: u64| final(self).has_feed(x) <==> old(self).has_feed(x))
                    &&& final(self).feed_at(id) == (FeedV {
                        title: new_title@,
                        ..old(self).feed_at(id)
                    })
                    &&& feeds_unchanged_except(*old(self), *final(self), id)
                } else {
                    *final(self) == *old(self)
                }
            }),
    {
        let id = hash_str(rss_link);
        let fi = match self.find_feed(id) {
            Some(fi) => fi,
            None => {
                return ;
            },
        };
        proof {
            lemma_assoc_at_index(self.feeds@, feed_key(), fi as int);
        }
        let ghost pre = *self;
        let e = &mut self.feeds[fi];
        e.title = new_title.to_owned();
        proof {
            lemma_assoc_update(pre.feeds@, feed_key(), fi as int, self.feeds@[fi as int]);
            assert(self.feed_at(id) =~= (FeedV { title: new_title@, ..pre.feed_at(id) }));
            lemma_wf_feed_fields_only(pre, *self);
        }
    }

    /// Subscribes `subscriber` to the feed behind `rss_link`.
    ///
    /// Creates the feed record on first subscription, seeding its
    /// item-hash history from the fetched items so that items already
    /// present are not announced as new on the first poll; stores the
    /// requested link-preview setting.  Fails with `AlreadySubscribed`,
    /// changing nothing, exactly when the membership exists and the
    /// stored link-preview setting equals the requested one.  Triggers a
    /// persistence write on success.
    pub fn subscribe(
        &mut self,
        subscriber: i64,
        rss_link: &str,
        rss: &Rss,
        link_preview: LinkPreview,
    ) -> (r: Result<SubscriptionResult, StoreError>)
        requires
            old(self).wf(),
        ensures
            final(self).wf(),
            (match r {
                Ok(res) => subscribe_ok(
                    *old(self),
                    *final(self),
                    subscriber,
                    rss_link@,
                    rss@,
                    link_preview,
                    res,
                ),
                Err(e) => e == StoreError::AlreadySubscribed && subscribe_rejects(
                    *old(self),
                    subscriber,
                    rss_link@,
                    link_preview,
                ) && *final(self) == *old(self),
            }),
    {
        let id = hash_str(rss_link);
        let ghost pre = *self;
        let sidx = self.find_sub(subscriber);
        let already = match sidx {
            Some(si) => {
                proof {
                    lemma_assoc_at_index(self.subs@, sub_key(), si as int);
                }
                vec_contains_u64(&self.subs[si].feeds, id)
            },
            None => false,
        };
        proof {
            assert(already == pre.sub_has_feed(subscriber, id));
        }
        if already {
            match self.find_lp(subscriber, id) {
                Some(li) => {
                    proof {
                        lemma_assoc_at_index(self.lps@, lp_key(), li as int);
                    }
                    if self.lps[li].lp == link_preview {
                        return Err(StoreError::AlreadySubscribed);
                    }
                },
                None => {},
            }
        }
        proof {
            assert(!subscribe_rejects(pre, subscriber, rss_link@, link_preview));
        }
        // First leg: the subscriber index gains the membership.
        if !already {
            match sidx {
                Some(si) => {
                    proof {
                        lemma_assoc_at_index(pre.subs@, sub_key(), si as int);
                    }
                    let e = &mut self.subs[si];
                    e.feeds.push(id);
                    proof {
                        lemma_assoc_update(pre.subs@, sub_key(), si as int, self.subs@[si as int]);
                        assert(pre.has_sub(subscriber));
                        assert(distinct_seq(pre.sub_feeds(subscriber)));
                        lemma_distinct_push(pre.sub_feeds(subscriber), id);
                    }
                },
                None => {
                    let mut fv: Vec<u64> = Vec::new();
                    fv.push(id);
                    proof {
                        assert(fv@ =~= seq![id]);
                    }
                    self.subs.push(SubEntry { id: subscriber, feeds: fv });
                    proof {
                        lemma_assoc_push(pre.subs@, sub_key(), self.subs@[pre.subs@.len() as int]);
                    }
                },
            }
        }
        proof {
            assert(seq![id][0] == id);
            assert(self.feeds == pre.feeds && self.lps == pre.lps && self.path == pre.path
                && self.save_count == pre.save_count);
            assert(assoc_distinct(self.subs@, sub_key()));
            assert(self.has_sub(subscriber));
            assert(self.sub_feeds(subscriber) == (if !pre.has_sub(subscriber) {
                seq![id]
            } else if pre.sub_feeds(subscriber).contains(id) {
                pre.sub_feeds(subscriber)
            } else {
                pre.sub_feeds(subscriber).push(id)
            }));
            assert(distinct_seq(self.sub_feeds(subscriber)));
            assert(self.sub_feeds(subscriber).len() > 0);
            assert(subs_unchanged_except(pre, *self, subscriber));
            lemma_contains_push(pre.sub_feeds(subscriber), id, id);
            assert(self.sub_feeds(subscriber).contains(id));
        }
        // Second leg: the feed registry gains the record or the member.
        let ghost s1 = *self;
        let fidx = self.find_feed(id);
        proof {
            assert(pre.feed_has_sub(id, subscriber) <==> pre.sub_has_feed(subscriber, id));
        }
        match fidx {
            Some(fi) => {
                proof {
                    lemma_assoc_at_index(s1.feeds@, feed_key(), fi as int);
                }
                if !already {
                    let e = &mut self.feeds[fi];
                    e.subscribers.push(subscriber);
                    proof {
                        lemma_assoc_update(s1.feeds@, feed_key(), fi as int, self.feeds@[fi as int]);
                        assert(pre.has_feed(id));
                        assert(distinct_seq(pre.feed_at(id).subscribers));
                        lemma_distinct_push(pre.feed_at(id).subscribers, subscriber);
                    }
                }
            },
            None => {
                let mut hl: Vec<u64> = Vec::new();
                let mut i: usize = 0;
                while i < rss.items.len()
                    invariant
                        i <= rss.items@.len(),
                        hl@.len() == i,
                        forall|j: int|
                            0 <= j < i ==> hl@[j] == crate::hashing::item_hash_of(
                                (#[trigger] rss.items@[j])@,
                            ),
                    decreases rss.items@.len() - i,
                {
                    let h = item_hash(&rss.items[i]);
                    hl.push(h);
                    i = i + 1;
                }
                let mut sv: Vec<i64> = Vec::new();
                sv.push(subscriber);
                proof {
                    assert(sv@ =~= seq![subscriber]);
                    assert(hl@ =~= items_hashes(rss@.items));
                }
                let nf = Feed {
                    link: rss_link.to_owned(),
                    title: rss.title.clone(),
                    error_count: 0,
                    subscribers: sv,
                    hash_list: hl,
                };
                self.feeds.push(nf);
                proof {
                    lemma_assoc_push(s1.feeds@, feed_key(), self.feeds@[s1.feeds@.len() as int]);
                    assert(self.feed_at(id) =~= (FeedV {
                        link: rss_link@,
                        title: rss@.title,
                        error_count: 0u32,
                        subscribers: seq![subscriber],
                        hash_list: items_hashes(rss@.items),
                    }));
                }
            },
        }
        proof {
            assert(seq![subscriber][0] == subscriber);
            assert(self.subs == s1.subs && self.lps == pre.lps && self.path == pre.path
                && self.save_count == pre.save_count);
            assert(assoc_distinct(self.feeds@, feed_key()));
            assert(self.has_feed(id));
            if pre.has_feed(id) {
                assert(self.feed_at(id) =~= (FeedV {
                    subscribers: (if pre.feed_at(id).subscribers.contains(subscriber) {
                        pre.feed_at(id).subscribers
                    } else {
                        pre.feed_at(id).subscribers.push(subscriber)
                    }),
                    ..pre.feed_at(id)
                }));
            }
            assert(feeds_unchanged_except(pre, *self, id));
            assert(distinct_seq(self.feed_at(id).subscribers));
            assert(self.feed_at(id).subscribers.len() > 0);
            lemma_contains_push(pre.feed_at(id).subscribers, subscriber, subscriber);
            assert(self.feed_at(id).subscribers.contains(subscriber));
        }
        // Third leg: the link-preview matrix takes the requested value.
        let ghost s2 = *self;
        let had = match self.find_lp(subscriber, id) {
            Some(li) => {
                proof {
                    lemma_assoc_at_index(s2.lps@, lp_key(), li as int);
                }
                let e = &mut self.lps[li];
                e.lp = link_preview;
                proof {
                    lemma_assoc_update(s2.lps@, lp_key(), li as int, self.lps@[li as int]);
                }
                true
            },
            None => {
                self.lps.push(LpEntry { sub: subscriber, feed: id, lp: link_preview });
                proof {
                    lemma_assoc_push(s2.lps@, lp_key(), self.lps@[s2.lps@.len() as int]);
                }
                false
            },
        };
        self.save_count = if self.save_count == u64::MAX {
            0
        } else {
            self.save_count + 1
        };
        let res = if had {
            SubscriptionResult::LinkPreviewUpdated
        } else {
            SubscriptionResult::NewlySubscribed
        };
        proof {
            let post = *self;
            assert(had == pre.has_lp(subscriber, id));
            assert(post.has_lp(subscriber, id) && post.lp_at(subscriber, id) == link_preview);
            assert(lps_unchanged_except(pre, post, subscriber, id));
            // Bidirectional consistency of the final state.
            assert forall|t: i64, f: u64| #[trigger] post.feed_has_sub(f, t) implies
                post.sub_has_feed(t, f) by {
                lemma_contains_push(pre.feed_at(id).subscribers, subscriber, t);
                if pre.has_sub(subscriber) {
                    lemma_contains_push(pre.sub_feeds(subscriber), id, f);
                }
                if f == id && t == subscriber {
                    assert(post.sub_has_feed(t, f));
                } else if f == id {
                    if pre.has_feed(id) {
                        assert(pre.feed_at(id).subscribers.contains(t));
                        assert(pre.feed_has_sub(id, t));
                        assert(pre.sub_has_feed(t, id));
                        assert(post.sub_has_feed(t, f));
                    } else {
                        assert(post.feed_at(id).subscribers == seq![subscriber]);
                        assert(t == subscriber);
                    }
                } else {
                    assert(pre.feed_has_sub(f, t));
                    assert(pre.sub_has_feed(t, f));
                    if t == subscriber {
                        assert(post.sub_feeds(subscriber).contains(f));
                    }
                    assert(post.sub_has_feed(t, f));
                }
            }
            assert forall|t: i64, f: u64| #[trigger] post.sub_has_feed(t, f) implies
                post.feed_has_sub(f, t) by {
                lemma_contains_push(pre.feed_at(id).subscribers, subscriber, t);
                if pre.has_sub(subscriber) {
                    lemma_contains_push(pre.sub_feeds(subscriber), id, f);
                }
                if t == subscriber {
                    if f == id {
                        assert(post.feed_has_sub(f, t));
                    } else {
                        assert(pre.sub_has_feed(subscriber, f));
                        assert(pre.feed_has_sub(f, subscriber));
                        assert(post.feed_has_sub(f, t));
                    }
                } else {
                    assert(pre.sub_has_feed(t, f));
                    assert(pre.feed_has_sub(f, t));
                    if f == id {
                        assert(post.feed_at(id).subscribers.contains(t));
                    }
                    assert(post.feed_has_sub(f, t));
                }
            }
            // Remaining well-formedness conjuncts.
            assert forall|x: u64| #[trigger] post.has_feed(x) implies distinct_seq(
                post.feed_at(x).subscribers,
            ) && post.feed_at(x).subscribers.len() > 0 by {
                if x != id {
                    assert(pre.has_feed(x));
                    assert(post.feed_at(x) == pre.feed_at(x));
                }
            }
            assert forall|y: i64| #[trigger] post.has_sub(y) implies distinct_seq(
                post.sub_feeds(y),
            ) && post.sub_feeds(y).len() > 0 by {
                if y != subscriber {
                    assert(pre.has_sub(y));
                    assert(post.sub_feeds(y) == pre.sub_feeds(y));
                }
            }
            assert(post.wf());
            assert(subscribe_ok(pre, post, subscriber, rss_link@, rss@, link_preview, res));
        }
        Ok(res)
    }

    /// Removes `subscriber`'s membership in the feed behind `rss_link`.
    ///
    /// Fails with `NotSubscribed`, changing nothing, exactly when that
    /// membership does not exist.  On success returns a copy of the feed
    /// record as it stood right before any removal of the record (with
    /// the leaving subscriber already taken out of its subscriber list),
    /// clears the pair's link-preview entry, drops the feed record when
    /// its last subscriber leaves, and triggers a persistence write.
    pub fn unsubscribe(&mut self, subscriber: i64, rss_link: &str) -> (r: Result<Feed, StoreError>)
        requires
            old(self).wf(),
        ensures
            final(self).wf(),
            (match r {
                Ok(f) => unsubscribe_ok(*old(self), *final(self), subscriber, rss_link@, f@),
                Err(e) => e == StoreError::NotSubscribed && !old(self).sub_has_feed(
                    subscriber,
                    hash_of(rss_link@),
                ) && *final(self) == *old(self),
            }),
    {
        let id = hash_str(rss_link);
        let ghost pre = *self;
        let si = match self.find_sub(subscriber) {
            Some(si) => si,
            None => {
                return Err(StoreError::NotSubscribed);
            },
        };
        proof {
            lemma_assoc_at_index(self.subs@, sub_key(), si as int);
        }
        let fpos = match vec_find_u64(&self.subs[si].feeds, id) {
            Some(p) => p,
            None => {
                return Err(StoreError::NotSubscribed);
            },
        };
        proof {
            assert(pre.sub_feeds(subscriber)[fpos as int] == id);
            assert(pre.sub_has_feed(subscriber, id));
            assert(pre.feed_has_sub(id, subscriber) <==> pre.sub_has_feed(subscriber, id));
            assert(pre.has_sub(subscriber));
            assert(distinct_seq(pre.sub_feeds(subscriber)));
            assert(pre.has_feed(id));
            assert(distinct_seq(pre.feed_at(id).subscribers));
        }
        // Index leg: drop the membership, and the entry when it empties.
        let e = &mut self.subs[si];
        let _gone = e.feeds.remove(fpos);
        let entry_empty = e.feeds.len() == 0;
        proof {
            lemma_assoc_update(pre.subs@, sub_key(), si as int, self.subs@[si as int]);
            lemma_distinct_remove(pre.sub_feeds(subscriber), fpos as int);
        }
        let ghost mid1 = *self;
        if entry_empty {
            self.subs.remove(si);
            proof {
                lemma_assoc_remove(mid1.subs@, sub_key(), si as int);
            }
        }
        proof {
            assert(self.feeds == pre.feeds && self.lps == pre.lps && self.path == pre.path
                && self.save_count == pre.save_count);
            assert(assoc_distinct(self.subs@, sub_key()));
            assert(self.has_sub(subscriber) <==> pre.sub_feeds(subscriber).len() > 1);
            if self.has_sub(subscriber) {
                assert(self.sub_feeds(subscriber) == pre.sub_feeds(subscriber).remove(
                    fpos as int,
                ));
                assert forall|x: u64|
                    self.sub_feeds(subscriber).contains(x) <==> (pre.sub_feeds(
                        subscriber,
                    ).contains(x) && x != id) by {
                    lemma_contains_remove(pre.sub_feeds(subscriber), fpos as int, x);
                }
            }
            assert(subs_unchanged_except(pre, *self, subscriber));
        }
        // Registry leg: drop the member, and the record when it empties.
        let ghost s1 = *self;
        let fi = match self.find_feed(id) {
            Some(fi) => fi,
            None => {
                proof {
                    assert(false);
                }
                return Err(StoreError::NotSubscribed);
            },
        };
        proof {
            lemma_assoc_at_index(s1.feeds@, feed_key(), fi as int);
            assert(s1.feeds@[fi as int]@ == pre.feed_at(id));
            assert(pre.feed_at(id).subscribers.contains(subscriber));
        }
        let spos = match vec_find_i64(&self.feeds[fi].subscribers, subscriber) {
            Some(p) => p,
            None => {
                proof {
                    assert(false);
                }
                return Err(StoreError::NotSubscribed);
            },
        };
        let e = &mut self.feeds[fi];
        let _gone2 = e.subscribers.remove(spos);
        proof {
            lemma_assoc_update(pre.feeds@, feed_key(), fi as int, self.feeds@[fi as int]);
            lemma_distinct_remove(pre.feed_at(id).subscribers, spos as int);
        }
        let result = self.feeds[fi].clone();
        let feed_empty = self.feeds[fi].subscribers.len() == 0;
        let ghost mid2 = *self;
        proof {
            assert(result@ == mid2.feed_at(id));
            assert(result@.subscribers == pre.feed_at(id).subscribers.remove(spos as int));
            assert forall|t: i64|
                result@.subscribers.contains(t) <==> (pre.feed_at(id).subscribers.contains(t) && t
                    != subscriber) by {
                lemma_contains_remove(pre.feed_at(id).subscribers, spos as int, t);
            }
        }
        if feed_empty {
            self.feeds.remove(fi);
            proof {
                lemma_assoc_remove(mid2.feeds@, feed_key(), fi as int);
            }
        }
        proof {
            assert(self.subs == s1.subs && self.lps == pre.lps && self.path == pre.path
                && self.save_count == pre.save_count);
            assert(assoc_distinct(self.feeds@, feed_key()));
            assert(self.has_feed(id) <==> pre.feed_at(id).subscribers.len() > 1);
            if self.has_feed(id) {
                assert(self.feed_at(id) == result@);
            }
            assert(feeds_unchanged_except(pre, *self, id));
        }
        // Preview leg: the pair's entry goes away.
        let ghost s2 = *self;
        match self.find_lp(subscriber, id) {
            Some(li) => {
                proof {
                    lemma_assoc_at_index(s2.lps@, lp_key(), li as int);
                }
                let _gone3 = self.lps.remove(li);
                proof {
                    lemma_assoc_remove(s2.lps@, lp_key(), li as int);
                }
            },
            None => {},
        }
        self.save_count = if self.save_count == u64::MAX {
            0
        } else {
            self.save_count + 1
        };
        proof {
            let post = *self;
            assert(!post.has_lp(subscriber, id));
            assert(lps_unchanged_except(pre, post, subscriber, id));
            assert forall|t: i64, f: u64| #[trigger] post.feed_has_sub(f, t) implies
                post.sub_has_feed(t, f) by {
                if f == id {
                    assert(post.feed_at(id) == result@);
                    assert(pre.feed_at(id).subscribers.contains(t) && t != subscriber);
                    assert(pre.feed_has_sub(id, t));
                    assert(pre.sub_has_feed(t, id));
                    assert(post.sub_has_feed(t, f));
                } else {
                    assert(pre.feed_has_sub(f, t));
                    assert(pre.sub_has_feed(t, f));
                    if t == subscriber {
                        lemma_two_contains(pre.sub_feeds(subscriber), f, id);
                        assert(post.has_sub(subscriber));
                        assert(post.sub_feeds(subscriber).contains(f));
                    }
                    assert(post.sub_has_feed(t, f));
                }
            }
            assert forall|t: i64, f: u64| #[trigger] post.sub_has_feed(t, f) implies
                post.feed_has_sub(f, t) by {
                if t == subscriber {
                    assert(pre.sub_has_feed(subscriber, f) && f != id);
                } else {
                    assert(pre.sub_has_feed(t, f));
                }
                assert(pre.feed_has_sub(f, t));
                if f == id {
                    assert(t != subscriber);
                    lemma_two_contains(pre.feed_at(id).subscribers, t, subscriber);
                    assert(post.has_feed(id));
                    assert(post.feed_at(id).subscribers.contains(t));
                }
                assert(post.feed_has_sub(f, t));
            }
            assert forall|x: u64| #[trigger] post.has_feed(x) implies distinct_seq(
                post.feed_at(x).subscribers,
            ) && post.feed_at(x).subscribers.len() > 0 by {
                if x != id {
                    assert(pre.has_feed(x));
                    assert(post.feed_at(x) == pre.feed_at(x));
                }
            }
            assert forall|y: i64| #[trigger] post.has_sub(y) implies distinct_seq(
                post.sub_feeds(y),
            ) && post.sub_feeds(y).len() > 0 by {
                if y != subscriber {
                    assert(pre.has_sub(y));
                    assert(post.sub_feeds(y) == pre.sub_feeds(y));
                }
            }
            assert(post.wf());
            assert(unsubscribe_ok(pre, post, subscriber, rss_link@, result@));
        }
        Ok(result)
    }

    /// Runs one poll cycle's change detection for the feed behind
    /// `rss_link` against the freshly fetched `items`.
    ///
    /// Returns the items whose identity hash is not in the stored
    /// history, in their original order, and replaces the history by the
    /// rebuilt, bounded one when at least one new item was found; the
    /// error counter is cleared either way.  A fetch with no new items
    /// changes no history and triggers no persistence write; an unknown
    /// feed changes nothing and returns no items.
    pub fn update(&mut self, rss_link: &str, items: Vec<Item>) -> (r: Vec<Item>)
        requires
            old(self).wf(),
        ensures
            final(self).wf(),
            final(self).path == old(self).path,
            final(self).subs == old(self).subs,
            final(self).lps == old(self).lps,
            ({
                let id = hash_of(rss_link@);
                let itv = items_view(items@);
                if old(self).has_feed(id) {
                    let hist = old(self).feed_at(id).hash_list;
                    let fresh = new_items(itv, hist);
                    &&& items_view(r@) == fresh
                    &&& (forall|x: u64| final(self).has_feed(x) <==> old(self).has_feed(x))
                    &&& feeds_unchanged_except(*old(self), *final(self), id)
                    &&& final(self).feed_at(id) == (FeedV {
                        error_count: 0u32,
                        hash_list: (if fresh.len() == 0 {
                            hist
                        } else {
                            rebuilt_history(itv, hist)
                        }),
                        ..old(self).feed_at(id)
                    })
                    &&& final(self).save_count == (if fresh.len() == 0 {
                        old(self).save_count
                    } else {
                        bump(old(self).save_count)
                    })
                } else {
                    &&& *final(self) == *old(self)
                    &&& r@.len() == 0
                }
            }),
    {
        let id = hash_str(rss_link);
        let ghost pre = *self;
        let ghost itv = items_view(items@);
        let fi = match self.find_feed(id) {
            Some(fi) => fi,
            None => {
                return Vec::new();
            },
        };
        proof {
            lemma_assoc_at_index(self.feeds@, feed_key(), fi as int);
        }
        let ghost hist = pre.feed_at(id).hash_list;
        let n = items.len();
        // The identity hash of every fetched item, in fetched order.
        let mut all_h: Vec<u64> = Vec::new();
        let mut i: usize = 0;
        while i < n
            invariant
                n == items@.len(),
                i <= n,
                all_h@.len() == i,
                forall|j: int|
                    0 <= j < i ==> all_h@[j] == item_hash_of((#[trigger] items@[j])@),
            decreases n - i,
        {
            let h = item_hash(&items[i]);
            all_h.push(h);
            i = i + 1;
        }
        proof {
            assert(all_h@ =~= crate::hashing::items_hashes(itv));
        }
        // Keep the items whose hash the stored history does not know.
        let mut fresh: Vec<Item> = Vec::new();
        let mut i: usize = 0;
        proof {
            assert(itv.take(0) =~= Seq::<ItemV>::empty());
        }
        while i < n
            invariant
                n == items@.len(),
                itv == items_view(items@),
                all_h@.len() == n,
                forall|j: int|
                    0 <= j < n ==> all_h@[j] == item_hash_of((#[trigger] items@[j])@),
                i <= n,
                *self == pre,
                fi < self.feeds@.len(),
                self.feeds@[fi as int].hash_list@ == hist,
                items_view(fresh@) == new_items(itv.take(i as int), hist),
            decreases n - i,
        {
            let known = vec_contains_u64(&self.feeds[fi].hash_list, all_h[i]);
            proof {
                assert(itv.take(i + 1).drop_last() =~= itv.take(i as int));
                assert(itv.take(i + 1).last() == itv[i as int]);
                assert(itv[i as int] == items@[i as int]@);
            }
            if !known {
                fresh.push(items[i].clone());
                proof {
                    assert(items_view(fresh@) =~= new_items(itv.take(i + 1), hist));
                }
            } else {
                proof {
                    assert(items_view(fresh@) =~= new_items(itv.take(i + 1), hist));
                }
            }
            i = i + 1;
        }
        proof {
            assert(itv.take(n as int) =~= itv);
        }
        let has_fresh = fresh.len() > 0;
        // The rebuilt bounded history, only needed when something is new.
        let ghost all_hv = all_h@;
        let mut rebuilt: Vec<u64> = Vec::new();
        if has_fresh {
            rebuilt = all_h;
            let hl_len = self.feeds[fi].hash_list.len();
            let cap = if hl_len <= n {
                hl_len
            } else {
                n
            };
            proof {
                assert(rebuilt@ + hist.take(0) =~= rebuilt@);
            }
            let mut k: usize = 0;
            while k < cap
                invariant
                    *self == pre,
                    fi < self.feeds@.len(),
                    self.feeds@[fi as int].hash_list@ == hist,
                    cap <= hist.len(),
                    k <= cap,
                    rebuilt@ == all_hv + hist.take(k as int),
                decreases cap - k,
            {
                let v = self.feeds[fi].hash_list[k];
                rebuilt.push(v);
                proof {
                    assert(hist.take(k + 1) =~= hist.take(k as int).push(hist[k as int]));
                    assert(rebuilt@ =~= all_hv + hist.take(k + 1));
                }
                k = k + 1;
            }
            proof {
                assert(rebuilt@ == rebuilt_history(itv, hist));
            }
        }
        // Apply: clear the error counter, swap in the new history.
        let e = &mut self.feeds[fi];
        e.error_count = 0;
        if has_fresh {
            e.hash_list = rebuilt;
        }
        if has_fresh {
            self.save_count = if self.save_count == u64::MAX {
                0
            } else {
                self.save_count + 1
            };
        }
        proof {
            lemma_assoc_update(pre.feeds@, feed_key(), fi as int, self.feeds@[fi as int]);
            lemma_wf_feed_fields_only(pre, *self);
            if has_fresh {
                assert(self.feed_at(id) =~= (FeedV {
                    error_count: 0u32,
                    hash_list: rebuilt_history(itv, hist),
                    ..pre.feed_at(id)
                }));
            } else {
                assert(self.feed_at(id) =~= (FeedV {
                    error_count: 0u32,
                    hash_list: hist,
                    ..pre.feed_at(id)
                }));
            }
            assert(new_items(itv, hist).len() == 0 <==> items_view(fresh@).len() == 0);
        }
        fresh
    }

    /// Unsubscribes the given subscriber from every feed it follows, by
    /// repeated application of unsubscribe; used when a subscriber's chat
    /// becomes permanently unreachable.  One persistence write is
    /// triggered per dropped membership; an unknown subscriber changes
    /// nothing.
    #[verifier::spinoff_prover]
    pub fn delete_subscriber(&mut self, subscriber: i64)
        requires
            old(self).wf(),
        ensures
            final(self).wf(),
            delete_subscriber_post(*old(self), *final(self), subscriber),
    {
        let ghost pre = *self;
        let si = match self.find_sub(subscriber) {
            Some(si) => si,
            None => {
                proof {
                    assert forall|x: u64| pre.has_feed(x) implies feed_shrunk(
                        pre,
                        *self,
                        subscriber,
                        x,
                    ) by {
                        assert(pre.feed_at(x).subscribers.len() > 0);
                        let t = pre.feed_at(x).subscribers[0];
                        assert(pre.feed_at(x).subscribers.contains(t));
                        assert forall|u: i64| pre.feed_at(x).subscribers.contains(u) implies u
                            != subscriber by {
                            if u == subscriber {
                                assert(pre.feed_has_sub(x, subscriber));
                                assert(pre.sub_has_feed(subscriber, x));
                            }
                        }
                        assert(t != subscriber);
                    }
                }
                return ;
            },
        };
        proof {
            lemma_assoc_at_index(self.subs@, sub_key(), si as int);
        }
        let ids = copy_vec_u64(&self.subs[si].feeds);
        let ghost idsv = pre.sub_feeds(subscriber);
        // Collect each followed feed's link up front: records can vanish
        // while the loop below runs.
        let mut links: Vec<String> = Vec::new();
        let mut j: usize = 0;
        while j < ids.len()
            invariant
                *self == pre,
                pre.wf(),
                pre.has_sub(subscriber),
                ids@ == idsv,
                idsv == pre.sub_feeds(subscriber),
                j <= ids@.len(),
                links@.len() == j,
                forall|k: int| 0 <= k < j ==> hash_of((#[trigger] links@[k])@) == idsv[k],
            decreases ids@.len() - j,
        {
            let id = ids[j];
            proof {
                assert(idsv[j as int] == id);
                assert(idsv.contains(id));
                assert(pre.sub_has_feed(subscriber, id));
                assert(pre.feed_has_sub(id, subscriber));
            }
            let fj = match self.find_feed(id) {
                Some(fj) => fj,
                None => {
                    proof {
                        assert(false);
                    }
                    return ;
                },
            };
            proof {
                lemma_assoc_at_index(self.feeds@, feed_key(), fj as int);
            }
            links.push(self.feeds[fj].link.clone());
            j = j + 1;
        }
        proof {
            assert(idsv.skip(0) =~= idsv);
            assert(distinct_seq(idsv));
        }
        let mut i: usize = 0;
        while i < ids.len()
            invariant
                self.wf(),
                pre.wf(),
                pre.has_sub(subscriber),
                distinct_seq(idsv),
                ids@ == idsv,
                idsv == pre.sub_feeds(subscriber),
                links@.len() == idsv.len(),
                forall|k: int| 0 <= k < idsv.len() ==> hash_of((#[trigger] links@[k])@) == idsv[k],
                i <= idsv.len(),
                self.path == pre.path,
                self.save_count == bump_n(pre.save_count, i as nat),
                subs_unchanged_except(pre, *self, subscriber),
                forall|x: u64|
                    #[trigger] self.sub_has_feed(subscriber, x) <==> idsv.skip(
                        i as int,
                    ).contains(x),
                (self.has_sub(subscriber) <==> i < idsv.len()),
                forall|x: u64|
                    !idsv.take(i as int).contains(x) ==> ((#[trigger] self.has_feed(x)
                        <==> pre.has_feed(x)) && (pre.has_feed(x) ==> self.feed_at(x)
                        == pre.feed_at(x))),
                forall|x: u64|
                    idsv.take(i as int).contains(x) ==> feed_shrunk(pre, *self, subscriber, x),
                forall|x: u64|
                    idsv.take(i as int).contains(x) ==> !(#[trigger] self.has_lp(subscriber, x)),
                forall|y: i64, x: u64|
                    !(y == subscriber && idsv.take(i as int).contains(x)) ==> lp_same_at(
                        pre,
                        *self,
                        y,
                        x,
                    ),
            decreases idsv.len() - i,
        {
            let ghost prevc = *self;
            let ghost id = idsv[i as int];
            proof {
                assert(idsv.skip(i as int)[0] == id);
                assert(idsv.skip(i as int).contains(id));
                assert(prevc.sub_has_feed(subscriber, id));
                assert(hash_of(links@[i as int]@) == id);
            }
            let res = self.unsubscribe(subscriber, links[i].as_str());
            match res {
                Ok(_f) => {},
                Err(_e) => {
                    proof {
                        assert(false);
                    }
                    return ;
                },
            }
            proof {
                let cur = *self;
                let take1 = idsv.take(i + 1);
                let take0 = idsv.take(i as int);
                let skip1 = idsv.skip(i + 1);
                let skip0 = idsv.skip(i as int);
                assert(skip0.drop_first() =~= skip1);
                assert(take1 =~= take0.push(id));
                // the id leaves no trace in what remains or was done
                if skip1.contains(id) {
                    let k = choose|k: int| 0 <= k < skip1.len() && skip1[k] == id;
                    assert(idsv[i + 1 + k] == idsv[i as int]);
                    assert(false);
                }
                if take0.contains(id) {
                    let k = choose|k: int| 0 <= k < take0.len() && take0[k] == id;
                    assert(idsv[k] == idsv[i as int]);
                    assert(false);
                }
                assert(distinct_seq(prevc.sub_feeds(subscriber)));
                lemma_distinct_other(prevc.sub_feeds(subscriber), id);
                // memberships that remain
                assert forall|x: u64| #[trigger] cur.sub_has_feed(subscriber, x) <==>
                    skip1.contains(x) by {
                    lemma_contains_first(skip0, x);
                    if cur.sub_has_feed(subscriber, x) {
                        assert(prevc.sub_feeds(subscriber).contains(x) && x != id);
                        assert(prevc.sub_has_feed(subscriber, x));
                        assert(skip0.contains(x));
                    }
                    if skip1.contains(x) {
                        assert(skip0.contains(x));
                        assert(x != id);
                        assert(prevc.sub_has_feed(subscriber, x));
                        assert(prevc.sub_feeds(subscriber).contains(x));
                        assert(cur.has_sub(subscriber));
                    }
                }
                // the index entry survives exactly while something remains
                assert(cur.has_sub(subscriber) <==> prevc.sub_feeds(subscriber).len() > 1);
                if cur.has_sub(subscriber) {
                    let b = choose|b: u64|
                        prevc.sub_feeds(subscriber).contains(b) && b != id;
                    assert(prevc.sub_has_feed(subscriber, b));
                    assert(skip0.contains(b));
                    lemma_contains_first(skip0, b);
                    assert(skip1.contains(b));
                    assert(i + 1 < idsv.len());
                }
                if i + 1 < idsv.len() {
                    assert(skip1[0] == idsv[i + 1]);
                    assert(skip1.contains(idsv[i + 1]));
                    assert(idsv[i + 1] != id);
                    assert(skip0.contains(idsv[i + 1])) by {
                        lemma_contains_first(skip0, idsv[i + 1]);
                    }
                    assert(prevc.sub_has_feed(subscriber, idsv[i + 1]));
                    assert(prevc.sub_feeds(subscriber).contains(idsv[i + 1]));
                    lemma_two_contains(prevc.sub_feeds(subscriber), idsv[i + 1], id);
                    assert(cur.has_sub(subscriber));
                }
                // the processed feed shrank
                assert(pre.feed_has_sub(id, subscriber));
                assert(pre.has_feed(id));
                assert(prevc.feed_at(id) == pre.feed_at(id));
                assert(prevc.feed_has_sub(id, subscriber));
                assert(prevc.feed_at(id).subscribers.contains(subscriber));
                assert(distinct_seq(prevc.feed_at(id).subscribers));
                lemma_distinct_other(prevc.feed_at(id).subscribers, subscriber);
                assert(feed_shrunk(pre, cur, subscriber, id));
                // feeds done earlier, and feeds never touched
                assert forall|x: u64| take1.contains(x) && x != id implies feed_shrunk(
                    pre,
                    cur,
                    subscriber,
                    x,
                ) by {
                    lemma_contains_push(take0, id, x);
                    assert(take0.contains(x));
                    assert(feed_shrunk(pre, prevc, subscriber, x));
                }
                assert forall|x: u64| !take1.contains(x) implies ((#[trigger] cur.has_feed(x)
                    <==> pre.has_feed(x)) && (pre.has_feed(x) ==> cur.feed_at(x)
                    == pre.feed_at(x))) by {
                    lemma_contains_push(take0, id, x);
                    assert(!take0.contains(x) && x != id);
                }
                // previews
                assert forall|x: u64| take1.contains(x) implies !(#[trigger] cur.has_lp(
                    subscriber,
                    x,
                )) by {
                    lemma_contains_push(take0, id, x);
                    if x != id {
                        assert(!prevc.has_lp(subscriber, x));
                    }
                }
                assert forall|y: i64, x: u64| !(y == subscriber && take1.contains(x)) implies
                    lp_same_at(pre, cur, y, x) by {
                    lemma_contains_push(take0, id, x);
                    assert(lp_same_at(pre, prevc, y, x));
                }
                // the index entries of others
                assert forall|y: i64| y != subscriber implies ((#[trigger] cur.has_sub(y)
                    <==> pre.has_sub(y)) && (pre.has_sub(y) ==> cur.sub_feeds(y)
                    == pre.sub_feeds(y))) by {
                    assert(cur.has_sub(y) <==> prevc.has_sub(y));
                    assert(prevc.has_sub(y) <==> pre.has_sub(y));
                    if pre.has_sub(y) {
                        assert(prevc.sub_feeds(y) == pre.sub_feeds(y));
                        assert(cur.sub_feeds(y) == prevc.sub_feeds(y));
                    }
                }
                // counter
                assert(cur.save_count == bump_n(pre.save_count, (i + 1) as nat));
            }
            i = i + 1;
        }
        proof {
            let post = *self;
            assert(idsv.take(idsv.len() as int) =~= idsv);
            assert forall|x: u64| pre.has_feed(x) implies feed_shrunk(
                pre,
                post,
                subscriber,
                x,
            ) by {
                if idsv.contains(x) {
                    assert(idsv.take(i as int).contains(x));
                    assert(feed_shrunk(pre, post, subscriber, x));
                } else {
                    assert(!idsv.take(i as int).contains(x));
                    assert(post.has_feed(x) <==> pre.has_feed(x));
                    assert(post.feed_at(x) == pre.feed_at(x));
                    assert(pre.feed_at(x).subscribers.len() > 0);
                    let t = pre.feed_at(x).subscribers[0];
                    assert(pre.feed_at(x).subscribers.contains(t));
                    assert forall|u: i64| pre.feed_at(x).subscribers.contains(u) implies u
                        != subscriber by {
                        if u == subscriber {
                            assert(pre.feed_has_sub(x, subscriber));
                            assert(pre.sub_has_feed(subscriber, x));
                            assert(idsv.contains(x));
                        }
                    }
                    assert(t != subscriber);
                }
            }
            assert forall|x: u64| !pre.has_feed(x) implies !(#[trigger] post.has_feed(x)) by {
                if idsv.contains(x) {
                    assert(pre.sub_has_feed(subscriber, x));
                    assert(pre.feed_has_sub(x, subscriber));
                }
            }
            assert forall|x: u64| pre.sub_has_feed(subscriber, x) implies !(
            #[trigger] post.has_lp(subscriber, x)) by {
                assert(idsv.contains(x));
            }
            assert forall|y: i64, x: u64| !(y == subscriber && pre.sub_has_feed(subscriber, x))
                implies lp_same_at(pre, post, y, x) by {
                if y == subscriber {
                    assert(!idsv.contains(x));
                }
            }
        }
    }

    /// Migrates every subscription and every link-preview setting owned
    /// by `from` to `to`, merging into `to`'s existing set; used when a
    /// subscriber's identity changes.  A raw relabeling: there are no
    /// `AlreadySubscribed` semantics and no persistence write.  The
    /// subscriber `from` must be known to the index.
    #[verifier::spinoff_prover]
    #[verifier::rlimit(60)]
    pub fn update_subscriber(&mut self, from: i64, to: i64)
        requires
            old(self).wf(),
            old(self).has_sub(from),
        ensures
            final(self).wf(),
            (if from == to {
                *final(self) == *old(self)
            } else {
                reassign_post(*old(self), *final(self), from, to)
            }),
    {
        if from == to {
            return ;
        }
        let ghost pre = *self;
        let si = match self.find_sub(from) {
            Some(si) => si,
            None => {
                proof {
                    assert(false);
                }
                return ;
            },
        };
        proof {
            lemma_assoc_at_index(self.subs@, sub_key(), si as int);
        }
        let entry = self.subs.remove(si);
        proof {
            lemma_assoc_remove(pre.subs@, sub_key(), si as int);
        }
        let ids = entry.feeds;
        let ghost idsv = pre.sub_feeds(from);
        let ghost state_a = *self;
        proof {
            assert(ids@ == idsv);
            assert(distinct_seq(idsv));
            assert(idsv.len() > 0);
            assert(!state_a.has_sub(from));
            assert(assoc_distinct(state_a.subs@, sub_key()));
            assert(idsv.take(0) =~= Seq::<u64>::empty());
            assert forall|x: u64| #[trigger] self.has_feed(x) <==> pre.has_feed(x) by {
                assert(self.feeds@ == pre.feeds@);
            }
            assert forall|x: u64| #[trigger] self.has_feed(x) implies distinct_seq(
                self.feed_at(x).subscribers,
            ) && self.feed_at(x).subscribers.len() > 0 by {
                assert(pre.has_feed(x));
                assert(self.feed_at(x) == pre.feed_at(x));
            }
            assert forall|x: u64| pre.has_feed(x) implies #[trigger] self.feed_at(x)
                == pre.feed_at(x) by {
                assert(self.feeds@ == pre.feeds@);
            }
            assert forall|y: i64, x: u64| lp_same_at(pre, *self, y, x) by {
                assert(self.lps@ == pre.lps@);
            }
        }
        // Per feed: the member list trades `from` for `to`, and the
        // link-preview entry migrates.
        let mut i: usize = 0;
        while i < ids.len()
            invariant
                pre.wf(),
                pre.has_sub(from),
                from != to,
                idsv == pre.sub_feeds(from),
                ids@ == idsv,
                distinct_seq(idsv),
                i <= idsv.len(),
                self.subs == state_a.subs,
                self.path == pre.path,
                self.save_count == pre.save_count,
                assoc_distinct(self.feeds@, feed_key()),
                assoc_distinct(self.lps@, lp_key()),
                forall|x: u64| #[trigger] self.has_feed(x) <==> pre.has_feed(x),
                forall|x: u64|
                    #[trigger] self.has_feed(x) ==> distinct_seq(self.feed_at(x).subscribers)
                        && self.feed_at(x).subscribers.len() > 0,
                forall|x: u64|
                    !idsv.take(i as int).contains(x) && pre.has_feed(x) ==> #[trigger] self.feed_at(
                        x,
                    ) == pre.feed_at(x),
                forall|x: u64|
                    idsv.take(i as int).contains(x) ==> feed_reassigned(pre, *self, from, to, x),
                forall|x: u64|
                    idsv.take(i as int).contains(x) ==> lp_moved(pre, *self, from, to, x),
                forall|y: i64, x: u64|
                    !((y == from || y == to) && idsv.take(i as int).contains(x)) ==> lp_same_at(
                        pre,
                        *self,
                        y,
                        x,
                    ),
            decreases idsv.len() - i,
        {
            let id = ids[i];
            proof {
                assert(idsv[i as int] == id);
                assert(idsv.contains(id));
                assert(pre.sub_has_feed(from, id));
                assert(pre.feed_has_sub(id, from));
                if idsv.take(i as int).contains(id) {
                    let k = choose|k: int|
                        0 <= k < idsv.take(i as int).len() && idsv.take(i as int)[k] == id;
                    assert(idsv[k] == idsv[i as int]);
                    assert(false);
                }
                assert(pre.has_feed(id));
                assert(self.feed_at(id) == pre.feed_at(id));
            }
            let fj = match self.find_feed(id) {
                Some(f) => f,
                None => {
                    proof {
                        assert(false);
                    }
                    return ;
                },
            };
            proof {
                lemma_assoc_at_index(self.feeds@, feed_key(), fj as int);
            }
            let has_to = vec_contains_i64(&self.feeds[fj].subscribers, to);
            let spos = match vec_find_i64(&self.feeds[fj].subscribers, from) {
                Some(p) => p,
                None => {
                    proof {
                        assert(false);
                    }
                    return ;
                },
            };
            let ghost fcur = *self;
            let e = &mut self.feeds[fj];
            let _out = e.subscribers.remove(spos);
            if !has_to {
                e.subscribers.push(to);
            }
            proof {
                lemma_assoc_update(fcur.feeds@, feed_key(), fj as int, self.feeds@[fj as int]);
                assert(fcur.feed_at(id) == pre.feed_at(id));
                assert(self.feed_at(id) == self.feeds@[fj as int]@);
                lemma_distinct_remove(pre.feed_at(id).subscribers, spos as int);
                let rem = pre.feed_at(id).subscribers.remove(spos as int);
                assert forall|t: i64|
                    rem.contains(t) <==> (pre.feed_at(id).subscribers.contains(t) && t
                        != from) by {
                    lemma_contains_remove(pre.feed_at(id).subscribers, spos as int, t);
                }
                if !has_to {
                    assert(!rem.contains(to));
                    lemma_distinct_push(rem, to);
                    assert forall|t: i64|
                        self.feed_at(id).subscribers.contains(t) <==> (rem.contains(t) || t
                            == to) by {
                        lemma_contains_push(rem, to, t);
                    }
                } else {
                    assert(rem.contains(to));
                }
                assert(self.feed_at(id).subscribers.contains(to));
                assert(distinct_seq(self.feed_at(id).subscribers));
                assert(self.feed_at(id).subscribers.len() > 0) by {
                    assert(self.feed_at(id).subscribers.contains(to));
                    let w = choose|w: int|
                        0 <= w < self.feed_at(id).subscribers.len() && self.feed_at(
                            id,
                        ).subscribers[w] == to;
                    assert(0 <= w);
                }
                assert(self.has_feed(id));
                if has_to {
                    assert(self.feed_at(id).subscribers == rem);
                }
                assert(!self.feed_at(id).subscribers.contains(from)) by {
                    if !has_to {
                        assert(self.feed_at(id).subscribers.contains(from) <==> (rem.contains(
                            from,
                        ) || from == to));
                    }
                    assert(!rem.contains(from));
                }
                assert forall|t: i64| t != from && t != to implies (self.feed_at(
                    id,
                ).subscribers.contains(t) <==> pre.feed_at(id).subscribers.contains(t)) by {
                    assert(rem.contains(t) <==> (pre.feed_at(id).subscribers.contains(t) && t
                        != from));
                    if !has_to {
                        assert(self.feed_at(id).subscribers.contains(t) <==> (rem.contains(t)
                            || t == to));
                    }
                }
                assert(self.feed_at(id).link == pre.feed_at(id).link);
                assert(self.feed_at(id).hash_list == pre.feed_at(id).hash_list);
                assert(feed_reassigned(pre, *self, from, to, id));
            }
            // Link preview: `from`'s entry, when present, moves onto the
            // pair (`to`, feed) and overwrites what stood there.
            let ghost lcur = *self;
            proof {
                assert(lcur.lps == fcur.lps);
                assert(lp_same_at(pre, fcur, from, id));
                assert(lp_same_at(pre, fcur, to, id));
                assert(lp_same_at(pre, lcur, from, id));
                assert(lp_same_at(pre, lcur, to, id));
            }
            match self.find_lp(from, id) {
                Some(li) => {
                    proof {
                        lemma_assoc_at_index(lcur.lps@, lp_key(), li as int);
                    }
                    let lpv = self.lps[li].lp;
                    let _out2 = self.lps.remove(li);
                    proof {
                        lemma_assoc_remove(lcur.lps@, lp_key(), li as int);
                    }
                    let ghost lmid = *self;
                    match self.find_lp(to, id) {
                        Some(lj) => {
                            proof {
                                lemma_assoc_at_index(lmid.lps@, lp_key(), lj as int);
                            }
                            let e2 = &mut self.lps[lj];
                            e2.lp = lpv;
                            proof {
                                lemma_assoc_update(
                                    lmid.lps@,
                                    lp_key(),
                                    lj as int,
                                    self.lps@[lj as int],
                                );
                            }
                        },
                        None => {
                            self.lps.push(LpEntry { sub: to, feed: id, lp: lpv });
                            proof {
                                lemma_assoc_push(
                                    lmid.lps@,
                                    lp_key(),
                                    self.lps@[lmid.lps@.len() as int],
                                );
                            }
                        },
                    }
                },
                None => {},
            }
            proof {
                assert(self.feeds == lcur.feeds);
                assert(lp_moved(pre, *self, from, to, id));
                let take1 = idsv.take(i + 1);
                let take0 = idsv.take(i as int);
                assert(take1 =~= take0.push(id));
                assert forall|x: u64| #[trigger] self.has_feed(x) <==> pre.has_feed(x) by {
                    assert(self.has_feed(x) <==> fcur.has_feed(x));
                    assert(fcur.has_feed(x) <==> pre.has_feed(x));
                }
                assert forall|x: u64| #[trigger] self.has_feed(x) implies distinct_seq(
                    self.feed_at(x).subscribers,
                ) && self.feed_at(x).subscribers.len() > 0 by {
                    if x == id {
                        assert(distinct_seq(self.feed_at(id).subscribers));
                    } else {
                        assert(fcur.has_feed(x));
                        assert(self.feed_at(x) == fcur.feed_at(x));
                        assert(distinct_seq(fcur.feed_at(x).subscribers));
                    }
                }
                assert forall|x: u64| !take1.contains(x) && pre.has_feed(x) implies
                    #[trigger] self.feed_at(x) == pre.feed_at(x) by {
                    lemma_contains_push(take0, id, x);
                    assert(fcur.has_feed(x));
                    assert(fcur.feed_at(x) == pre.feed_at(x));
                    assert(self.feed_at(x) == fcur.feed_at(x));
                }
                assert forall|x: u64| take1.contains(x) implies feed_reassigned(
                    pre,
                    *self,
                    from,
                    to,
                    x,
                ) by {
                    lemma_contains_push(take0, id, x);
                    if x != id {
                        assert(feed_reassigned(pre, fcur, from, to, x));
                        assert(fcur.has_feed(x));
                        assert(self.has_feed(x) <==> fcur.has_feed(x));
                        assert(self.feed_at(x) == fcur.feed_at(x));
                    }
                }
                assert forall|x: u64| take1.contains(x) implies lp_moved(
                    pre,
                    *self,
                    from,
                    to,
                    x,
                ) by {
                    lemma_contains_push(take0, id, x);
                    if x != id {
                        assert(lp_moved(pre, fcur, from, to, x));
                        assert(lp_moved(pre, lcur, from, to, x));
                        assert((self.has_lp(from, x) <==> lcur.has_lp(from, x)) && (
                        self.has_lp(to, x) <==> lcur.has_lp(to, x)));
                        if lcur.has_lp(to, x) {
                            assert(self.lp_at(to, x) == lcur.lp_at(to, x));
                        }
                    }
                }
                assert forall|y: i64, x: u64| !((y == from || y == to) && take1.contains(x))
                    implies lp_same_at(pre, *self, y, x) by {
                    lemma_contains_push(take0, id, x);
                    assert(lp_same_at(pre, fcur, y, x));
                    assert(lp_same_at(pre, lcur, y, x));
                    assert(self.has_lp(y, x) <==> lcur.has_lp(y, x));
                    if lcur.has_lp(y, x) {
                        assert(self.lp_at(y, x) == lcur.lp_at(y, x));
                    }
                }
            }
            i = i + 1;
        }
        // Merge the migrated feed set into `to`'s index entry.
        let ghost state_b = *self;
        proof {
            assert(idsv.take(idsv.len() as int) =~= idsv);
            assert(state_b.subs == state_a.subs);
            assert(state_a.has_sub(to) <==> pre.has_sub(to));
            if state_a.has_sub(to) {
                assert(state_a.sub_feeds(to) == pre.sub_feeds(to));
            }
        }
        match self.find_sub(to) {
            None => {
                self.subs.push(SubEntry { id: to, feeds: ids });
                proof {
                    lemma_assoc_push(
                        state_b.subs@,
                        sub_key(),
                        self.subs@[state_b.subs@.len() as int],
                    );
                    assert(!pre.has_sub(to));
                    assert(self.sub_feeds(to) == idsv);
                    assert(self.has_sub(to));
                    assert(!self.has_sub(from));
                    assert(distinct_seq(self.sub_feeds(to)) && self.sub_feeds(to).len() > 0);
                    assert forall|x: u64| #[trigger] self.sub_has_feed(to, x) <==> (
                    pre.sub_has_feed(from, x) || pre.sub_has_feed(to, x)) by {
                        assert(self.sub_feeds(to).contains(x) <==> idsv.contains(x));
                    }
                    assert forall|y: i64| y != from && y != to implies ((#[trigger] self.has_sub(
                        y,
                    ) <==> pre.has_sub(y)) && (pre.has_sub(y) ==> self.sub_feeds(y)
                        == pre.sub_feeds(y))) by {
                        assert(state_b.has_sub(y) <==> state_a.has_sub(y));
                        assert(state_a.has_sub(y) <==> pre.has_sub(y));
                        if pre.has_sub(y) {
                            assert(state_a.sub_feeds(y) == pre.sub_feeds(y));
                            assert(state_b.sub_feeds(y) == state_a.sub_feeds(y));
                            assert(self.sub_feeds(y) == state_b.sub_feeds(y));
                        }
                    }
                    assert forall|y: i64| #[trigger] self.has_sub(y) implies distinct_seq(
                        self.sub_feeds(y),
                    ) && self.sub_feeds(y).len() > 0 by {
                        if y != to {
                            assert(state_b.has_sub(y));
                            assert(state_a.has_sub(y));
                            assert(pre.has_sub(y));
                            assert(self.sub_feeds(y) == state_b.sub_feeds(y));
                            assert(state_b.sub_feeds(y) == state_a.sub_feeds(y));
                            assert(state_a.sub_feeds(y) == pre.sub_feeds(y));
                        }
                    }
                }
            },
            Some(ti) => {
                proof {
                    lemma_assoc_at_index(state_b.subs@, sub_key(), ti as int);
                    assert(state_b.has_sub(to));
                    assert(state_a.has_sub(to));
                    assert(pre.has_sub(to));
                    assert(state_b.sub_feeds(to) == state_a.sub_feeds(to));
                    assert(state_a.sub_feeds(to) == pre.sub_feeds(to));
                    assert(distinct_seq(pre.sub_feeds(to)));
                    assert(distinct_seq(self.sub_feeds(to)));
                    assert(self.sub_feeds(to).len() > 0);
                    assert(idsv.take(0) =~= Seq::<u64>::empty());
                }
                let mut k: usize = 0;
                while k < ids.len()
                    invariant
                        from != to,
                        ids@ == idsv,
                        distinct_seq(idsv),
                        k <= idsv.len(),
                        self.feeds == state_b.feeds,
                        self.lps == state_b.lps,
                        self.path == state_b.path,
                        self.save_count == state_b.save_count,
                        assoc_distinct(self.subs@, sub_key()),
                        ti < self.subs@.len(),
                        self.subs@[ti as int].id == to,
                        state_b.has_sub(to),
                        self.has_sub(to),
                        distinct_seq(self.sub_feeds(to)),
                        self.sub_feeds(to).len() > 0,
                        forall|y: i64|
                            y != to ==> ((#[trigger] self.has_sub(y) <==> state_b.has_sub(y)) && (
                            state_b.has_sub(y) ==> self.sub_feeds(y) == state_b.sub_feeds(y))),
                        forall|x: u64|
                            #[trigger] self.sub_feeds(to).contains(x) <==> (state_b.sub_feeds(
                                to,
                            ).contains(x) || idsv.take(k as int).contains(x)),
                    decreases idsv.len() - k,
                {
                    let id = ids[k];
                    let ghost scur = *self;
                    proof {
                        lemma_assoc_at_index(self.subs@, sub_key(), ti as int);
                    }
                    let c = vec_contains_u64(&self.subs[ti].feeds, id);
                    if !c {
                        let e = &mut self.subs[ti];
                        e.feeds.push(id);
                        proof {
                            lemma_assoc_update(
                                scur.subs@,
                                sub_key(),
                                ti as int,
                                self.subs@[ti as int],
                            );
                            lemma_distinct_push(scur.sub_feeds(to), id);
                        }
                    }
                    proof {
                        assert(idsv.take(k + 1) =~= idsv.take(k as int).push(id));
                        assert forall|x: u64| #[trigger] self.sub_feeds(to).contains(x) <==> (
                        state_b.sub_feeds(to).contains(x) || idsv.take(k + 1).contains(x)) by {
                            lemma_contains_push(idsv.take(k as int), id, x);
                            assert(scur.sub_feeds(to).contains(x) <==> (state_b.sub_feeds(
                                to,
                            ).contains(x) || idsv.take(k as int).contains(x)));
                            if !c {
                                lemma_contains_push(scur.sub_feeds(to), id, x);
                            }
                        }
                        assert forall|y: i64| y != to implies ((#[trigger] self.has_sub(y)
                            <==> state_b.has_sub(y)) && (state_b.has_sub(y) ==> self.sub_feeds(y)
                            == state_b.sub_feeds(y))) by {
                            assert(self.has_sub(y) <==> scur.has_sub(y));
                            assert(scur.has_sub(y) <==> state_b.has_sub(y));
                            if state_b.has_sub(y) {
                                assert(scur.sub_feeds(y) == state_b.sub_feeds(y));
                                assert(self.sub_feeds(y) == scur.sub_feeds(y));
                            }
                        }
                    }
                    k = k + 1;
                }
                proof {
                    assert forall|x: u64| #[trigger] self.sub_has_feed(to, x) <==> (
                    pre.sub_has_feed(from, x) || pre.sub_has_feed(to, x)) by {
                        assert(self.sub_feeds(to).contains(x) <==> (state_b.sub_feeds(
                            to,
                        ).contains(x) || idsv.contains(x)));
                    }
                    assert(!self.has_sub(from)) by {
                        assert(self.has_sub(from) <==> state_b.has_sub(from));
                        assert(state_b.has_sub(from) <==> state_a.has_sub(from));
                    }
                    assert forall|y: i64| y != from && y != to implies ((#[trigger] self.has_sub(
                        y,
                    ) <==> pre.has_sub(y)) && (pre.has_sub(y) ==> self.sub_feeds(y)
                        == pre.sub_feeds(y))) by {
                        assert(self.has_sub(y) <==> state_b.has_sub(y));
                        assert(state_b.has_sub(y) <==> state_a.has_sub(y));
                        assert(state_a.has_sub(y) <==> pre.has_sub(y));
                        if pre.has_sub(y) {
                            assert(state_a.sub_feeds(y) == pre.sub_feeds(y));
                            assert(state_b.sub_feeds(y) == state_a.sub_feeds(y));
                            assert(self.sub_feeds(y) == state_b.sub_feeds(y));
                        }
                    }
                    assert forall|y: i64| #[trigger] self.has_sub(y) implies distinct_seq(
                        self.sub_feeds(y),
                    ) && self.sub_feeds(y).len() > 0 by {
                        if y != to {
                            assert(state_b.has_sub(y));
                            assert(state_a.has_sub(y));
                            assert(pre.has_sub(y));
                            assert(self.sub_feeds(y) == state_b.sub_feeds(y));
                            assert(state_b.sub_feeds(y) == state_a.sub_feeds(y));
                            assert(state_a.sub_feeds(y) == pre.sub_feeds(y));
                        }
                    }
                }
            },
        }
        proof {
                        // Bridge the registry and preview facts to the final value.
            assert(self.feeds == state_b.feeds);
            assert(self.lps == state_b.lps);
            assert forall|x: u64| #[trigger] self.has_feed(x) <==> pre.has_feed(x) by {
                assert(state_b.has_feed(x) <==> pre.has_feed(x));
            }
            assert forall|x: u64| #[trigger] self.has_feed(x) implies distinct_seq(
                self.feed_at(x).subscribers,
            ) && self.feed_at(x).subscribers.len() > 0 by {
                assert(state_b.has_feed(x));
                assert(self.feed_at(x) == state_b.feed_at(x));
                assert(distinct_seq(state_b.feed_at(x).subscribers));
            }
            assert forall|x: u64| idsv.contains(x) implies feed_reassigned(
                pre,
                *self,
                from,
                to,
                x,
            ) && lp_moved(pre, *self, from, to, x) by {
                assert(feed_reassigned(pre, state_b, from, to, x));
                assert(lp_moved(pre, state_b, from, to, x));
                assert(self.has_feed(x) <==> state_b.has_feed(x));
                assert(self.feed_at(x) == state_b.feed_at(x));
                assert((self.has_lp(from, x) <==> state_b.has_lp(from, x)) && (self.has_lp(to, x)
                    <==> state_b.has_lp(to, x)));
                if state_b.has_lp(to, x) {
                    assert(self.lp_at(to, x) == state_b.lp_at(to, x));
                }
            }
            assert forall|x: u64| !idsv.contains(x) && pre.has_feed(x) implies
                #[trigger] self.feed_at(x) == pre.feed_at(x) by {
                assert(state_b.feed_at(x) == pre.feed_at(x));
                assert(state_b.has_feed(x));
                assert(self.feed_at(x) == state_b.feed_at(x));
            }
            assert forall|y: i64, x: u64| !((y == from || y == to) && idsv.contains(x)) implies
                lp_same_at(pre, *self, y, x) by {
                assert(lp_same_at(pre, state_b, y, x));
                assert(self.has_lp(y, x) <==> state_b.has_lp(y, x));
                if state_b.has_lp(y, x) {
                    assert(self.lp_at(y, x) == state_b.lp_at(y, x));
                }
            }
            assert forall|x: u64| #[trigger] pre.sub_has_feed(from, x) implies feed_reassigned(
                pre,
                *self,
                from,
                to,
                x,
            ) && lp_moved(pre, *self, from, to, x) by {
                assert(idsv.contains(x));
            }
            assert forall|x: u64| pre.has_feed(x) && !pre.sub_has_feed(from, x) implies
                #[trigger] self.feed_at(x) == pre.feed_at(x) by {
                if idsv.contains(x) {
                    assert(pre.sub_has_feed(from, x));
                }
            }
            assert forall|y: i64, x: u64| !((y == from || y == to) && pre.sub_has_feed(from, x))
                implies lp_same_at(pre, *self, y, x) by {
                if (y == from || y == to) && idsv.contains(x) {
                    assert(pre.sub_has_feed(from, x));
                }
            }
            // Consistency of the final state.
            assert forall|t: i64, f: u64| #[trigger] self.feed_has_sub(f, t) implies
                self.sub_has_feed(t, f) by {
                assert(pre.has_feed(f));
                if idsv.contains(f) {
                    assert(feed_reassigned(pre, *self, from, to, f));
                    if t == to {
                        assert(pre.sub_has_feed(from, f));
                        assert(self.sub_has_feed(to, f));
                    } else if t == from {
                        assert(false);
                    } else {
                        assert(pre.feed_at(f).subscribers.contains(t));
                        assert(pre.feed_has_sub(f, t));
                        assert(pre.sub_has_feed(t, f));
                        assert(pre.has_sub(t));
                        assert(self.has_sub(t) <==> pre.has_sub(t));
                        assert(self.sub_feeds(t) == pre.sub_feeds(t));
                        assert(self.sub_feeds(t).contains(f));
                        assert(self.sub_has_feed(t, f));
                    }
                } else {
                    assert(self.feed_at(f) == pre.feed_at(f));
                    assert(pre.feed_has_sub(f, t));
                    assert(pre.sub_has_feed(t, f));
                    if t == from {
                        assert(idsv.contains(f));
                        assert(false);
                    }
                    if t == to {
                        assert(self.sub_has_feed(to, f));
                    } else {
                        assert(pre.has_sub(t));
                        assert(self.has_sub(t) <==> pre.has_sub(t));
                        assert(self.sub_feeds(t) == pre.sub_feeds(t));
                        assert(self.sub_feeds(t).contains(f));
                        assert(self.sub_has_feed(t, f));
                    }
                }
            }
            assert forall|t: i64, f: u64| #[trigger] self.sub_has_feed(t, f) implies
                self.feed_has_sub(f, t) by {
                if t == to {
                    if pre.sub_has_feed(from, f) {
                        assert(feed_reassigned(pre, *self, from, to, f));
                        assert(self.feed_has_sub(f, to));
                    } else {
                        assert(pre.sub_has_feed(to, f));
                        assert(pre.feed_has_sub(f, to));
                        if idsv.contains(f) {
                            assert(pre.sub_has_feed(from, f));
                            assert(false);
                        }
                        assert(self.feed_at(f) == pre.feed_at(f));
                        assert(self.has_feed(f));
                        assert(self.feed_has_sub(f, to));
                    }
                } else {
                    assert(t != from);
                    assert(pre.sub_has_feed(t, f));
                    assert(pre.feed_has_sub(f, t));
                    if idsv.contains(f) {
                        assert(feed_reassigned(pre, *self, from, to, f));
                        assert(self.feed_at(f).subscribers.contains(t));
                    } else {
                        assert(self.feed_at(f) == pre.feed_at(f));
                    }
                    assert(self.has_feed(f));
                    assert(self.feed_has_sub(f, t));
                }
            }
            assert(self.wf());
            assert(reassign_post(pre, *self, from, to));
        }
    }

    /// The link-preview setting stored for the pair, if any.
    pub fn get_link_preview(&self, subscriber_id: i64, feed_id: u64) -> (r: Option<LinkPreview>)
        requires
            self.wf(),
        ensures
            r == (if self.has_lp(subscriber_id, feed_id) {
                Some(self.lp_at(subscriber_id, feed_id))
            } else {
                None::<LinkPreview>
            }),
    {
        match self.find_lp(subscriber_id, feed_id) {
            Some(i) => {
                proof {
                    lemma_assoc_at_index(self.lps@, lp_key(), i as int);
                }
                Some(self.lps[i].lp)
            },
            None => None,
        }
    }
}

/// A bare subscriber index holds the pair (`s`, `x`).
pub open spec fn index_has(subs: Seq<SubEntry>, s: i64, x: u64) -> bool {
    exists|k: int|
        0 <= k < subs.len() && (#[trigger] subs[k]).id == s && subs[k].feeds@.contains(x)
}

/// The loaded feed records are sound: identity hashes are pairwise
/// distinct and every record has at least one subscriber, none listed
/// twice.
pub open spec fn snapshot_valid(fs: Seq<FeedV>) -> bool {
    &&& (forall|i: int, j: int|
        0 <= i < j < fs.len() ==> hash_of((#[trigger] fs[i]).link) != hash_of(
            (#[trigger] fs[j]).link,
        ))
    &&& (forall|i: int|
        0 <= i < fs.len() ==> distinct_seq((#[trigger] fs[i]).subscribers) && fs[
            i
        ].subscribers.len() > 0)
}

/// The loaded preview entries are sound: no pair is listed twice.
pub open spec fn lps_valid(ls: Seq<LpV>) -> bool {
    forall|i: int, j: int|
        0 <= i < j < ls.len() ==> !((#[trigger] ls[i]).sub == (#[trigger] ls[j]).sub && ls[i].feed
            == ls[j].feed)
}

/// `v` has no duplicate.
fn distinct_i64_vec(v: &Vec<i64>) -> (r: bool)
    ensures
        r == distinct_seq(v@),
{
    let mut i: usize = 0;
    while i < v.len()
        invariant
            i <= v@.len(),
            forall|a: int, b: int| 0 <= a < b < v@.len() && a < i ==> v@[a] != v@[b],
        decreases v@.len() - i,
    {
        let mut j: usize = i + 1;
        while j < v.len()
            invariant
                i < j,
                j <= v@.len(),
                i < v@.len(),
                forall|b: int| i < b < j ==> v@[i as int] != v@[b],
            decreases v@.len() - j,
        {
            if v[j] == v[i] {
                return false;
            }
            j = j + 1;
        }
        i = i + 1;
    }
    true
}

/// Checks the loaded feed records for soundness.
fn validate_feeds(feeds: &Vec<Feed>) -> (r: bool)
    ensures
        r == snapshot_valid(crate::types::feeds_view(feeds@)),
{
    let ghost fsv = crate::types::feeds_view(feeds@);
    let mut i: usize = 0;
    while i < feeds.len()
        invariant
            fsv == crate::types::feeds_view(feeds@),
            i <= feeds@.len(),
            forall|a: int, b: int|
                0 <= a < b < fsv.len() && a < i ==> hash_of((#[trigger] fsv[a]).link) != hash_of(
                    (#[trigger] fsv[b]).link,
                ),
            forall|a: int|
                0 <= a < i ==> distinct_seq((#[trigger] fsv[a]).subscribers) && fsv[
                    a
                ].subscribers.len() > 0,
        decreases feeds@.len() - i,
    {
        if feeds[i].subscribers.len() == 0 {
            proof {
                assert(fsv[i as int] == feeds@[i as int]@);
                assert(!(distinct_seq(fsv[i as int].subscribers) && fsv[
                    i as int
                ].subscribers.len() > 0));
            }
            return false;
        }
        if !distinct_i64_vec(&feeds[i].subscribers) {
            proof {
                assert(fsv[i as int] == feeds@[i as int]@);
                assert(!distinct_seq(fsv[i as int].subscribers));
            }
            return false;
        }
        let idi = hash_str(feeds[i].link.as_str());
        let mut j: usize = i + 1;
        while j < feeds.len()
            invariant
                fsv == crate::types::feeds_view(feeds@),
                i < j,
                j <= feeds@.len(),
                i < feeds@.len(),
                idi == hash_of(fsv[i as int].link),
                forall|b: int| i < b < j ==> hash_of((#[trigger] fsv[b]).link) != idi,
            decreases feeds@.len() - j,
        {
            if hash_str(feeds[j].link.as_str()) == idi {
                proof {
                    assert(fsv[j as int] == feeds@[j as int]@);
                    assert(hash_of(fsv[j as int].link) == idi);
                    assert(!snapshot_valid(fsv));
                }
                return false;
            }
            j = j + 1;
        }
        i = i + 1;
    }
    true
}

/// Checks the loaded preview entries for soundness.
fn validate_lps(lps: &Vec<LpEntry>) -> (r: bool)
    ensures
        r == lps_valid(crate::types::lps_view(lps@)),
{
    let ghost lsv = crate::types::lps_view(lps@);
    let mut i: usize = 0;
    while i < lps.len()
        invariant
            lsv == crate::types::lps_view(lps@),
            i <= lps@.len(),
            forall|a: int, b: int|
                0 <= a < b < lsv.len() && a < i ==> !((#[trigger] lsv[a]).sub == (
                #[trigger] lsv[b]).sub && lsv[a].feed == lsv[b].feed),
        decreases lps@.len() - i,
    {
        let mut j: usize = i + 1;
        while j < lps.len()
            invariant
                lsv == crate::types::lps_view(lps@),
                i < j,
                j <= lps@.len(),
                i < lps@.len(),
                forall|b: int|
                    i < b < j ==> !(lsv[i as int].sub == (#[trigger] lsv[b]).sub && lsv[
                        i as int
                    ].feed == lsv[b].feed),
            decreases lps@.len() - j,
        {
            if lps[j].sub == lps[i].sub && lps[j].feed == lps[i].feed {
                proof {
                    assert(lsv[i as int] == lps@[i as int]@);
                    assert(lsv[j as int] == lps@[j as int]@);
                    assert(!lps_valid(lsv));
                }
                return false;
            }
            j = j + 1;
        }
        i = i + 1;
    }
    true
}

/// The position of the entry for `s`, if any.
fn find_entry(subs: &Vec<SubEntry>, s: i64) -> (r: Option<usize>)
    ensures
        (match r {
            Some(i) => i < subs@.len() && subs@[i as int].id == s,
            None => forall|k: int| 0 <= k < subs@.len() ==> (#[trigger] subs@[k]).id != s,
        }),
{
    let mut i: usize = 0;
    while i < subs.len()
        invariant
            i <= subs@.len(),
            forall|k: int| 0 <= k < i ==> (#[trigger] subs@[k]).id != s,
        decreases subs@.len() - i,
    {
        if subs[i].id == s {
            return Some(i);
        }
        i = i + 1;
    }
    None
}

/// Records in a bare index that `s` follows `x`.
fn index_add(subs: &mut Vec<SubEntry>, s: i64, x: u64)
    requires
        assoc_distinct(old(subs)@, sub_key()),
        forall|k: int|
            0 <= k < old(subs)@.len() ==> distinct_seq((#[trigger] old(subs)@[k]).feeds@) && old(
                subs,
            )@[k].feeds@.len() > 0,
        !index_has(old(subs)@, s, x),
    ensures
        assoc_distinct(final(subs)@, sub_key()),
        forall|k: int|
            0 <= k < final(subs)@.len() ==> distinct_seq((#[trigger] final(subs)@[k]).feeds@)
                && final(subs)@[k].feeds@.len() > 0,
        forall|y: i64, z: u64|
            #[trigger] index_has(final(subs)@, y, z) <==> (index_has(old(subs)@, y, z) || (y == s
                && z == x)),
{
    let ghost pre = subs@;
    match find_entry(subs, s) {
        Some(i) => {
            proof {
                if pre[i as int].feeds@.contains(x) {
                    assert(index_has(pre, s, x));
                }
            }
            let e = &mut subs[i];
            e.feeds.push(x);
            proof {
                lemma_assoc_update(pre, sub_key(), i as int, subs@[i as int]);
                lemma_distinct_push(pre[i as int].feeds@, x);
                lemma_contains_push(pre[i as int].feeds@, x, x);
                assert forall|k: int|
                    0 <= k < subs@.len() implies distinct_seq((#[trigger] subs@[k]).feeds@)
                    && subs@[k].feeds@.len() > 0 by {
                    if k != i {
                        assert(subs@[k] == pre[k]);
                    }
                }
                assert forall|y: i64, z: u64| #[trigger] index_has(subs@, y, z) implies (
                index_has(pre, y, z) || (y == s && z == x)) by {
                    let k = choose|k: int|
                        0 <= k < subs@.len() && (#[trigger] subs@[k]).id == y
                            && subs@[k].feeds@.contains(z);
                    if k == i {
                        lemma_contains_push(pre[i as int].feeds@, x, z);
                        if z != x {
                            assert(pre[k].feeds@.contains(z));
                            assert(index_has(pre, y, z));
                        }
                    } else {
                        assert(subs@[k] == pre[k]);
                        assert(index_has(pre, y, z));
                    }
                }
                assert forall|y: i64, z: u64|
                    index_has(pre, y, z) || (y == s && z == x) implies #[trigger] index_has(
                    subs@,
                    y,
                    z,
                ) by {
                    if index_has(pre, y, z) {
                        let k = choose|k: int|
                            0 <= k < pre.len() && (#[trigger] pre[k]).id == y
                                && pre[k].feeds@.contains(z);
                        if k == i {
                            lemma_contains_push(pre[i as int].feeds@, x, z);
                            assert(subs@[k].id == y && subs@[k].feeds@.contains(z));
                        } else {
                            assert(subs@[k] == pre[k]);
                        }
                    } else {
                        assert(subs@[i as int].id == s && subs@[i as int].feeds@.contains(x));
                    }
                }
            }
        },
        None => {
            let mut fv: Vec<u64> = Vec::new();
            fv.push(x);
            proof {
                assert(fv@ =~= seq![x]);
            }
            subs.push(SubEntry { id: s, feeds: fv });
            proof {
                assert(seq![x][0] == x);
                assert(!assoc_has(pre, sub_key(), s)) by {
                    if assoc_has(pre, sub_key(), s) {
                        let k = choose|k: int|
                            0 <= k < pre.len() && #[trigger] sub_key()(pre[k]) == s;
                        assert(pre[k].id == s);
                    }
                }
                lemma_assoc_push(pre, sub_key(), subs@[pre.len() as int]);
                assert forall|k: int|
                    0 <= k < subs@.len() implies distinct_seq((#[trigger] subs@[k]).feeds@)
                    && subs@[k].feeds@.len() > 0 by {
                    if k < pre.len() {
                        assert(subs@[k] == pre[k]);
                    } else {
                        assert(subs@[k].feeds@ == seq![x]);
                    }
                }
                assert forall|y: i64, z: u64| #[trigger] index_has(subs@, y, z) implies (
                index_has(pre, y, z) || (y == s && z == x)) by {
                    let k = choose|k: int|
                        0 <= k < subs@.len() && (#[trigger] subs@[k]).id == y
                            && subs@[k].feeds@.contains(z);
                    if k < pre.len() {
                        assert(subs@[k] == pre[k]);
                        assert(index_has(pre, y, z));
                    }
                }
                assert forall|y: i64, z: u64|
                    index_has(pre, y, z) || (y == s && z == x) implies #[trigger] index_has(
                    subs@,
                    y,
                    z,
                ) by {
                    if index_has(pre, y, z) {
                        let k = choose|k: int|
                            0 <= k < pre.len() && (#[trigger] pre[k]).id == y
                                && pre[k].feeds@.contains(z);
                        assert(subs@[k] == pre[k]);
                        assert(subs@[k].id == y && subs@[k].feeds@.contains(z));
                    } else {
                        assert(subs@[pre.len() as int].id == s);
                        assert(subs@[pre.len() as int].feeds@.contains(x));
                    }
                }
            }
        },
    }
}

/// Rebuilds the subscriber index purely from the loaded feed records.
fn build_index(feeds: &Vec<Feed>) -> (r: Vec<SubEntry>)
    requires
        snapshot_valid(crate::types::feeds_view(feeds@)),
    ensures
        assoc_distinct(r@, sub_key()),
        forall|k: int|
            0 <= k < r@.len() ==> distinct_seq((#[trigger] r@[k]).feeds@) && r@[k].feeds@.len()
                > 0,
        forall|s: i64, x: u64|
            #[trigger] index_has(r@, s, x) <==> (exists|i: int|
                0 <= i < feeds@.len() && hash_of((#[trigger] feeds@[i]).link@) == x && feeds@[
                    i
                ].subscribers@.contains(s)),
{
    let ghost fsv = crate::types::feeds_view(feeds@);
    let mut subs: Vec<SubEntry> = Vec::new();
    let mut i: usize = 0;
    while i < feeds.len()
        invariant
            fsv == crate::types::feeds_view(feeds@),
            snapshot_valid(fsv),
            i <= feeds@.len(),
            assoc_distinct(subs@, sub_key()),
            forall|k: int|
                0 <= k < subs@.len() ==> distinct_seq((#[trigger] subs@[k]).feeds@) && subs@[
                    k
                ].feeds@.len() > 0,
            forall|s: i64, x: u64|
                #[trigger] index_has(subs@, s, x) <==> (exists|a: int|
                    0 <= a < i && hash_of((#[trigger] feeds@[a]).link@) == x && feeds@[
                        a
                    ].subscribers@.contains(s)),
        decreases feeds@.len() - i,
    {
        let id = hash_str(feeds[i].link.as_str());
        let mut j: usize = 0;
        while j < feeds[i].subscribers.len()
            invariant
                fsv == crate::types::feeds_view(feeds@),
                snapshot_valid(fsv),
                i < feeds@.len(),
                id == hash_of(feeds@[i as int].link@),
                j <= feeds@[i as int].subscribers@.len(),
                assoc_distinct(subs@, sub_key()),
                forall|k: int|
                    0 <= k < subs@.len() ==> distinct_seq((#[trigger] subs@[k]).feeds@) && subs@[
                        k
                    ].feeds@.len() > 0,
                forall|s: i64, x: u64|
                    #[trigger] index_has(subs@, s, x) <==> ((exists|a: int|
                        0 <= a < i && hash_of((#[trigger] feeds@[a]).link@) == x && feeds@[
                            a
                        ].subscribers@.contains(s)) || (x == hash_of(feeds@[i as int].link@) && (
                    exists|b: int| 0 <= b < j && feeds@[i as int].subscribers@[b] == s))),
            decreases feeds@[i as int].subscribers@.len() - j,
        {
            let s = feeds[i].subscribers[j];
            proof {
                // the pair is fresh: the feed is new to this subscriber
                if index_has(subs@, s, id) {
                    if exists|a: int|
                        0 <= a < i && hash_of((#[trigger] feeds@[a]).link@) == id && feeds@[
                            a
                        ].subscribers@.contains(s) {
                        let a = choose|a: int|
                            0 <= a < i && hash_of((#[trigger] feeds@[a]).link@) == id && feeds@[
                                a
                            ].subscribers@.contains(s);
                        assert(fsv[a].link == feeds@[a].link@);
                        assert(fsv[i as int].link == feeds@[i as int].link@);
                        assert(false);
                    } else {
                        let b = choose|b: int|
                            0 <= b < j && feeds@[i as int].subscribers@[b] == s;
                        assert(fsv[i as int].subscribers[b] == fsv[i as int].subscribers[j as int]);
                        assert(false);
                    }
                }
            }
            index_add(&mut subs, s, id);
            proof {
                assert(feeds@[i as int].subscribers@[j as int] == s);
            }
            j = j + 1;
        }
        proof {
            assert forall|s: i64, x: u64| #[trigger] index_has(subs@, s, x) <==> (exists|a: int|
                0 <= a < i + 1 && hash_of((#[trigger] feeds@[a]).link@) == x && feeds@[
                    a
                ].subscribers@.contains(s)) by {
                if index_has(subs@, s, x) {
                    if x == hash_of(feeds@[i as int].link@) && (exists|b: int|
                        0 <= b < feeds@[i as int].subscribers@.len() && feeds@[
                            i as int
                        ].subscribers@[b] == s) {
                        assert(feeds@[i as int].subscribers@.contains(s));
                    }
                }
                if exists|a: int|
                    0 <= a < i + 1 && hash_of((#[trigger] feeds@[a]).link@) == x && feeds@[
                        a
                    ].subscribers@.contains(s) {
                    let a = choose|a: int|
                        0 <= a < i + 1 && hash_of((#[trigger] feeds@[a]).link@) == x && feeds@[
                            a
                        ].subscribers@.contains(s);
                    if a == i {
                        let b = choose|b: int|
                            0 <= b < feeds@[i as int].subscribers@.len() && feeds@[
                                i as int
                            ].subscribers@[b] == s;
                        assert(0 <= b < feeds@[i as int].subscribers@.len());
                        assert(index_has(subs@, s, x));
                    } else {
                        assert(index_has(subs@, s, x));
                    }
                }
            }
        }
        i = i + 1;
    }
    subs
}

impl Database {
    /// Serialises the full registry state into one snapshot byte string;
    /// the caller writes it to the backing file.
    pub fn save(&self) -> (r: Vec<u8>)
        ensures
            r@ == crate::codec::enc_snapshot(
                crate::types::feeds_view(self.feeds@),
                crate::types::lps_view(self.lps@),
            ),
    {
        crate::codec::encode_snapshot(&self.feeds, &self.lps)
    }

    /// Opens a store that persists to `path` from the backing file's
    /// contents, or as a freshly persisted empty store when the file does
    /// not exist (`None`).  Bytes that do not parse into a sound snapshot
    /// are a format error.  The subscriber index is reconstructed purely
    /// from the loaded feed records; nothing else defines it.
    pub fn open(path: &str, contents: Option<&Vec<u8>>) -> (r: Result<Database, StoreError>)
        ensures
            (match contents {
                None => (match r {
                    Ok(db) => db.wf() && db.feeds@.len() == 0 && db.subs@.len() == 0
                        && db.lps@.len() == 0 && db.path@ == path@ && db.save_count == 1,
                    Err(_) => false,
                }),
                Some(bytes) => (match r {
                    Ok(db) => {
                        &&& db.wf()
                        &&& db.path@ == path@
                        &&& db.save_count == 0
                        &&& crate::codec::dec_snapshot(bytes@) == Some(
                            (
                                crate::types::feeds_view(db.feeds@),
                                crate::types::lps_view(db.lps@),
                            ),
                        )
                        &&& snapshot_valid(crate::types::feeds_view(db.feeds@))
                        &&& lps_valid(crate::types::lps_view(db.lps@))
                    },
                    Err(e) => e == StoreError::DatabaseFormat && (match crate::codec::dec_snapshot(
                        bytes@,
                    ) {
                        None => true,
                        Some((fs, ls)) => !snapshot_valid(fs) || !lps_valid(ls),
                    }),
                }),
            }),
    {
        let bytes = match contents {
            None => {
                return Ok(Self::create(path));
            },
            Some(b) => b,
        };
        let (feeds, lps) = match crate::codec::parse_snapshot(bytes) {
            Ok(p) => p,
            Err(e) => {
                return Err(e);
            },
        };
        if !validate_feeds(&feeds) {
            return Err(StoreError::DatabaseFormat);
        }
        if !validate_lps(&lps) {
            return Err(StoreError::DatabaseFormat);
        }
        let subs = build_index(&feeds);
        let db = Database {
            path: path.to_owned(),
            feeds: feeds,
            subs: subs,
            lps: lps,
            save_count: 0,
        };
        proof {
            let fsv = crate::types::feeds_view(db.feeds@);
            let lsv = crate::types::lps_view(db.lps@);
            assert(assoc_distinct(db.feeds@, feed_key())) by {
                assert forall|i: int, j: int|
                    0 <= i < j < db.feeds@.len() implies #[trigger] feed_key()(db.feeds@[i])
                    != #[trigger] feed_key()(db.feeds@[j]) by {
                    assert(fsv[i].link == db.feeds@[i].link@);
                    assert(fsv[j].link == db.feeds@[j].link@);
                }
            }
            assert(assoc_distinct(db.lps@, lp_key())) by {
                assert forall|i: int, j: int|
                    0 <= i < j < db.lps@.len() implies #[trigger] lp_key()(db.lps@[i])
                    != #[trigger] lp_key()(db.lps@[j]) by {
                    assert(lsv[i].sub == db.lps@[i].sub && lsv[i].feed == db.lps@[i].feed);
                    assert(lsv[j].sub == db.lps@[j].sub && lsv[j].feed == db.lps@[j].feed);
                }
            }
            assert forall|x: u64| #[trigger] db.has_feed(x) implies distinct_seq(
                db.feed_at(x).subscribers,
            ) && db.feed_at(x).subscribers.len() > 0 by {
                let i = choose|i: int|
                    0 <= i < db.feeds@.len() && #[trigger] feed_key()(db.feeds@[i]) == x;
                lemma_assoc_at_index(db.feeds@, feed_key(), i);
                assert(fsv[i] == db.feeds@[i]@);
            }
            assert forall|y: i64| #[trigger] db.has_sub(y) implies distinct_seq(db.sub_feeds(y))
                && db.sub_feeds(y).len() > 0 by {
                let k = choose|k: int|
                    0 <= k < db.subs@.len() && #[trigger] sub_key()(db.subs@[k]) == y;
                lemma_assoc_at_index(db.subs@, sub_key(), k);
            }
            assert forall|s: i64, f: u64| #[trigger] db.feed_has_sub(f, s) implies
                db.sub_has_feed(s, f) by {
                let i = choose|i: int|
                    0 <= i < db.feeds@.len() && #[trigger] feed_key()(db.feeds@[i]) == f;
                lemma_assoc_at_index(db.feeds@, feed_key(), i);
                assert(db.feeds@[i].subscribers@.contains(s));
                assert(hash_of(db.feeds@[i].link@) == f);
                assert(index_has(db.subs@, s, f));
                let k = choose|k: int|
                    0 <= k < db.subs@.len() && (#[trigger] db.subs@[k]).id == s && db.subs@[
                        k
                    ].feeds@.contains(f);
                lemma_assoc_at_index(db.subs@, sub_key(), k);
                assert(db.sub_has_feed(s, f));
            }
            assert forall|s: i64, f: u64| #[trigger] db.sub_has_feed(s, f) implies
                db.feed_has_sub(f, s) by {
                let k = choose|k: int|
                    0 <= k < db.subs@.len() && #[trigger] sub_key()(db.subs@[k]) == s;
                lemma_assoc_at_index(db.subs@, sub_key(), k);
                assert(db.subs@[k].id == s && db.subs@[k].feeds@.contains(f));
                assert(index_has(db.subs@, s, f));
                let i = choose|i: int|
                    0 <= i < db.feeds@.len() && hash_of((#[trigger] db.feeds@[i]).link@) == f
                        && db.feeds@[i].subscribers@.contains(s);
                lemma_assoc_at_index(db.feeds@, feed_key(), i);
                assert(db.feed_has_sub(f, s));
            }
            assert(db.wf());
        }
        Ok(db)
    }
}

} // verus!
