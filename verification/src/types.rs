//! The store's public data types and their mathematical views.

use vstd::prelude::*;

verus! {

/// What a successful subscribe call did.
#[derive(Clone, Copy, Debug, PartialEq, Eq, Structural)]
pub enum SubscriptionResult {
    /// The pair had no link-preview entry before.
    NewlySubscribed,
    /// The pair already had a link-preview entry with a different value.
    LinkPreviewUpdated,
}

/// The link-preview preference of one (subscriber, feed) pair.
#[derive(Clone, Copy, Debug, PartialEq, Eq, Structural)]
pub enum LinkPreview {
    Off,
    On,
    InstantView(u64),
}

impl LinkPreview {
    /// Decodes the compact instant-view render-hash convention: the
    /// smallest value means off, the largest means a generic preview,
    /// anything else is the render hash itself.
    pub fn from_iv_rhash(iv_rhash: u64) -> (r: LinkPreview)
        ensures
            r == (if iv_rhash == 0 {
                LinkPreview::Off
            } else if iv_rhash == u64::MAX {
                LinkPreview::On
            } else {
                LinkPreview::InstantView(iv_rhash)
            }),
    {
        if iv_rhash == u64::MIN {
            LinkPreview::Off
        } else if iv_rhash == u64::MAX {
            LinkPreview::On
        } else {
            LinkPreview::InstantView(iv_rhash)
        }
    }
}

/// The store's typed failures.
#[derive(Clone, Debug, PartialEq, Eq)]
pub enum StoreError {
    /// Subscribe was requested with no effective change.
    AlreadySubscribed,
    /// Unsubscribe was requested for a membership that does not exist.
    NotSubscribed,
    /// The backing file could not be read; carries its path.
    DatabaseOpen(String),
    /// The backing file could not be written; carries its path.
    DatabaseSave(String),
    /// The persisted snapshot is malformed.
    DatabaseFormat,
}

/// One item of a fetched feed, every part optional.
#[derive(Debug)]
pub struct Item {
    /// A stable identifier assigned by the feed source.
    pub id: Option<String>,
    pub title: Option<String>,
    pub link: Option<String>,
}

/// The mathematical view of an [`Item`].
pub ghost struct ItemV {
    pub id: Option<Seq<char>>,
    pub title: Option<Seq<char>>,
    pub link: Option<Seq<char>>,
}

impl View for Item {
    type V = ItemV;

    open spec fn view(&self) -> ItemV {
        ItemV {
            id: (match self.id {
                Some(s) => Some(s@),
                None => None,
            }),
            title: (match self.title {
                Some(s) => Some(s@),
                None => None,
            }),
            link: (match self.link {
                Some(s) => Some(s@),
                None => None,
            }),
        }
    }
}

impl Clone for Item {
    fn clone(&self) -> (r: Self)
        ensures
            r@ == self@,
    {
        Item { id: clone_opt_string(&self.id), title: clone_opt_string(&self.title), link: clone_opt_string(&self.link) }
    }
}

/// The views of a sequence of items, in order.
pub open spec fn items_view(s: Seq<Item>) -> Seq<ItemV> {
    Seq::new(s.len(), |i: int| s[i]@)
}

/// A parsed fetch result: the feed's current title and its items in
/// source order.
#[derive(Debug)]
pub struct Rss {
    pub title: String,
    pub items: Vec<Item>,
}

/// The mathematical view of an [`Rss`].
pub ghost struct RssV {
    pub title: Seq<char>,
    pub items: Seq<ItemV>,
}

impl View for Rss {
    type V = RssV;

    open spec fn view(&self) -> RssV {
        RssV { title: self.title@, items: items_view(self.items@) }
    }
}

/// One distinct content source and everything the store keeps about it.
#[derive(Debug)]
pub struct Feed {
    /// Canonical source address, immutable once created.
    pub link: String,
    /// Human-readable name, updated when the upstream title changes.
    pub title: String,
    /// Consecutive fetch or parse failures, reset on a successful update.
    pub error_count: u32,
    /// The subscribers currently following this feed, without duplicates.
    pub subscribers: Vec<i64>,
    /// Bounded history of item identity hashes, most recently fetched first.
    pub hash_list: Vec<u64>,
}

/// The mathematical view of a [`Feed`].
#[verifier::ext_equal]
pub ghost struct FeedV {
    pub link: Seq<char>,
    pub title: Seq<char>,
    pub error_count: u32,
    pub subscribers: Seq<i64>,
    pub hash_list: Seq<u64>,
}

impl View for Feed {
    type V = FeedV;

    open spec fn view(&self) -> FeedV {
        FeedV {
            link: self.link@,
            title: self.title@,
            error_count: self.error_count,
            subscribers: self.subscribers@,
            hash_list: self.hash_list@,
        }
    }
}

impl Feed {
    /// The feed's identifier: the identity hash of its canonical link.
    pub fn get_id(&self) -> (r: u64)
        ensures
            r == crate::hashing::hash_of(self.link@),
    {
        crate::hashing::hash_str(self.link.as_str())
    }
}

impl Clone for Feed {
    fn clone(&self) -> (r: Self)
        ensures
            r@ == self@,
    {
        Feed {
            link: self.link.clone(),
            title: self.title.clone(),
            error_count: self.error_count,
            subscribers: copy_vec_i64(&self.subscribers),
            hash_list: copy_vec_u64(&self.hash_list),
        }
    }
}

/// The views of a sequence of feed records, in order.
pub open spec fn feeds_view(s: Seq<Feed>) -> Seq<FeedV> {
    Seq::new(s.len(), |i: int| s[i]@)
}

/// One entry of the link-preview matrix.
#[derive(Debug)]
pub struct LpEntry {
    pub sub: i64,
    pub feed: u64,
    pub lp: LinkPreview,
}

/// The mathematical view of an [`LpEntry`].
pub ghost struct LpV {
    pub sub: i64,
    pub feed: u64,
    pub lp: LinkPreview,
}

impl View for LpEntry {
    type V = LpV;

    open spec fn view(&self) -> LpV {
        LpV { sub: self.sub, feed: self.feed, lp: self.lp }
    }
}

/// The views of a sequence of link-preview entries, in order.
pub open spec fn lps_view(s: Seq<LpEntry>) -> Seq<LpV> {
    Seq::new(s.len(), |i: int| s[i]@)
}

/// Callback address and shared secret of a WebSub hub.
#[derive(Debug)]
pub struct Hub {
    pub callback: String,
    pub secret: String,
}

impl Clone for Hub {
    fn clone(&self) -> (r: Self)
        ensures
            r.callback@ == self.callback@,
            r.secret@ == self.secret@,
    {
        Hub { callback: self.callback.clone(), secret: self.secret.clone() }
    }
}

impl Default for Hub {
    fn default() -> (r: Self)
        ensures
            r.callback@ == Seq::<char>::empty(),
            r.secret@ == Seq::<char>::empty(),
    {
        Hub { callback: String::new(), secret: String::new() }
    }
}

/// Clones an optional string, keeping its view.
pub fn clone_opt_string(s: &Option<String>) -> (r: Option<String>)
    ensures
        (match (s, &r) {
            (Some(a), Some(b)) => a@ == b@,
            (None, None) => true,
            _ => false,
        }),
{
    match s {
        Some(v) => Some(v.clone()),
        None => None,
    }
}

/// Copies a vector of subscriber identifiers.
pub fn copy_vec_i64(v: &Vec<i64>) -> (r: Vec<i64>)
    ensures
        r@ == v@,
{
    let mut r: Vec<i64> = Vec::new();
    let mut i: usize = 0;
    while i < v.len()
        invariant
            i <= v@.len(),
            r@ == v@.take(i as int),
        decreases v@.len() - i,
    {
        r.push(v[i]);
        proof {
            assert(v@.take(i + 1) =~= v@.take(i as int).push(v@[i as int]));
        }
        i = i + 1;
    }
    proof {
        assert(v@.take(v@.len() as int) =~= v@);
    }
    r
}

/// Copies a vector of 64-bit hashes.
pub fn copy_vec_u64(v: &Vec<u64>) -> (r: Vec<u64>)
    ensures
        r@ == v@,
{
    let mut r: Vec<u64> = Vec::new();
    let mut i: usize = 0;
    while i < v.len()
        invariant
            i <= v@.len(),
            r@ == v@.take(i as int),
        decreases v@.len() - i,
    {
        r.push(v[i]);
        proof {
            assert(v@.take(i + 1) =~= v@.take(i as int).push(v@[i as int]));
        }
        i = i + 1;
    }
    proof {
        assert(v@.take(v@.len() as int) =~= v@);
    }
    r
}

} // verus!
