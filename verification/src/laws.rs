//! The store's global laws, stated and proved over the contracts of the
//! operations in [`crate::store`] and [`crate::codec`].

use vstd::prelude::*;

use crate::assoc::lemma_assoc_at_index;
use crate::assoc::lemma_contains_push;
use crate::codec::dec_snapshot;
use crate::codec::enc_snapshot;
use crate::codec::lemma_dec_enc_snapshot;
use crate::codec::snapshot_fits;
use crate::hashing::hash_of;
use crate::store::Database;
use crate::store::feed_key;
use crate::store::lp_key;
use crate::store::lps_valid;
use crate::store::snapshot_valid;
use crate::store::subscribe_ok;
use crate::store::subscribe_rejects;
use crate::types::LinkPreview;
use crate::types::RssV;
use crate::types::SubscriptionResult;
use crate::types::feeds_view;
use crate::types::lps_view;

verus! {

/// A feed exists in the registry exactly while its subscriber set is
/// non-empty: a well-formed store never holds a record without a
/// subscriber, and every mutating operation keeps the store well-formed.
pub proof fn lemma_feed_exists_iff_subscribed(db: Database, id: u64)
    requires
        db.wf(),
    ensures
        db.has_feed(id) ==> db.feed_at(id).subscribers.len() > 0,
{
}

/// Bidirectional consistency: a subscriber stands in a feed's subscriber
/// set exactly when the feed stands in the subscriber's feed set.  Every
/// operation requires and re-establishes well-formedness, so this holds
/// after any sequence of subscribe, unsubscribe, delete or reassign
/// calls.
pub proof fn lemma_bidirectional_consistency(db: Database, s: i64, f: u64)
    requires
        db.wf(),
    ensures
        db.feed_has_sub(f, s) <==> db.sub_has_feed(s, f),
{
}

/// After a successful subscribe, an immediate subscribe with identical
/// arguments meets exactly the rejection condition; by subscribe's
/// contract the rejected call then fails with `AlreadySubscribed` and
/// leaves the whole store, error counters and history included,
/// unchanged.
pub proof fn lemma_resubscribe_rejected(
    pre: Database,
    mid: Database,
    s: i64,
    link: Seq<char>,
    rss: RssV,
    lp: LinkPreview,
    res: SubscriptionResult,
)
    requires
        subscribe_ok(pre, mid, s, link, rss, lp, res),
    ensures
        subscribe_rejects(mid, s, link, lp),
{
    let id = hash_of(link);
    assert(seq![id][0] == id);
    if pre.has_sub(s) && !pre.sub_feeds(s).contains(id) {
        lemma_contains_push(pre.sub_feeds(s), id, id);
    }
    assert(mid.sub_feeds(s).contains(id));
}

/// Round trip: the snapshot bytes that save produces decode back to
/// exactly the feed records and preview entries that were serialised,
/// and they pass open's soundness checks, so open accepts them and
/// rebuilds an equivalent store (same feed set, same memberships, same
/// preview entries; the subscriber index is pinned by consistency).
pub proof fn lemma_save_open_round_trip(db: Database)
    requires
        db.wf(),
        snapshot_fits(feeds_view(db.feeds@), lps_view(db.lps@)),
    ensures
        ({
            let fs = feeds_view(db.feeds@);
            let ls = lps_view(db.lps@);
            &&& dec_snapshot(enc_snapshot(fs, ls)) == Some((fs, ls))
            &&& snapshot_valid(fs)
            &&& lps_valid(ls)
        }),
{
    let fs = feeds_view(db.feeds@);
    let ls = lps_view(db.lps@);
    lemma_dec_enc_snapshot(fs, ls);
    assert(snapshot_valid(fs)) by {
        assert forall|i: int, j: int|
            0 <= i < j < fs.len() implies hash_of((#[trigger] fs[i]).link) != hash_of(
            (#[trigger] fs[j]).link,
        ) by {
            assert(fs[i].link == db.feeds@[i].link@);
            assert(fs[j].link == db.feeds@[j].link@);
            assert(feed_key()(db.feeds@[i]) != feed_key()(db.feeds@[j]));
        }
        assert forall|i: int|
            0 <= i < fs.len() implies crate::store::distinct_seq((#[trigger] fs[i]).subscribers)
            && fs[i].subscribers.len() > 0 by {
            lemma_assoc_at_index(db.feeds@, feed_key(), i);
            assert(db.has_feed(feed_key()(db.feeds@[i])));
            assert(db.feed_at(feed_key()(db.feeds@[i])) == db.feeds@[i]@);
            assert(fs[i] == db.feeds@[i]@);
        }
    }
    assert(lps_valid(ls)) by {
        assert forall|i: int, j: int|
            0 <= i < j < ls.len() implies !((#[trigger] ls[i]).sub == (#[trigger] ls[j]).sub
            && ls[i].feed == ls[j].feed) by {
            assert(ls[i].sub == db.lps@[i].sub && ls[i].feed == db.lps@[i].feed);
            assert(ls[j].sub == db.lps@[j].sub && ls[j].feed == db.lps@[j].feed);
            assert(lp_key()(db.lps@[i]) != lp_key()(db.lps@[j]));
        }
    }
}

} // verus!
