use rssbot_store::Database;
use rssbot_store::Item;
use rssbot_store::LinkPreview;
use rssbot_store::Rss;
use rssbot_store::StoreError;
use rssbot_store::SubscriptionResult;
use rssbot_store::hashing::hash_str;
use rssbot_store::hashing::item_hash;

fn empty_feed(title: &str) -> Rss {
    Rss { title: title.to_string(), items: Vec::new() }
}

fn item(id: Option<&str>, title: Option<&str>, link: Option<&str>) -> Item {
    Item {
        id: id.map(|s| s.to_string()),
        title: title.map(|s| s.to_string()),
        link: link.map(|s| s.to_string()),
    }
}

fn rss_with_items(title: &str, items: Vec<Item>) -> Rss {
    Rss { title: title.to_string(), items }
}

#[test]
fn hash_matches_fnv1a_reference() {
    // 64-bit FNV-1a of the byte string "a".
    assert_eq!(hash_str("a"), 0xaf63dc4c8601ec8c);
    assert_eq!(hash_str(""), 0xcbf29ce484222325);
    assert_eq!(hash_str("a"), hash_str("a"));
    assert_ne!(hash_str("http://a"), hash_str("http://b"));
}

#[test]
fn item_hash_uses_id_else_title_and_link() {
    assert_eq!(item_hash(&item(Some("a"), None, None)), hash_str("a"));
    assert_eq!(item_hash(&item(None, Some("a"), Some("b"))), hash_str("ab"));
    assert_eq!(item_hash(&item(None, None, None)), hash_str(""));
    assert_eq!(item_hash(&item(None, Some("x"), None)), hash_str("x"));
}

#[test]
fn from_iv_rhash_decodes_all_variants() {
    assert_eq!(LinkPreview::from_iv_rhash(0), LinkPreview::Off);
    assert_eq!(LinkPreview::from_iv_rhash(u64::MAX), LinkPreview::On);
    assert_eq!(LinkPreview::from_iv_rhash(7), LinkPreview::InstantView(7));
}

#[test]
fn subscribe_then_unsubscribe_leaves_store_empty() {
    let mut db = Database::create("p");
    let r = db.subscribe(42, "http://a", &empty_feed("A"), LinkPreview::Off);
    assert!(matches!(r, Ok(SubscriptionResult::NewlySubscribed)));
    assert_eq!(db.get_all_feeds().len(), 1);
    assert_eq!(db.get_all_feeds()[0].title, "A");
    let gone = db.unsubscribe(42, "http://a").unwrap();
    assert_eq!(gone.link, "http://a");
    assert!(gone.subscribers.is_empty());
    assert_eq!(db.get_all_feeds().len(), 0);
    assert_eq!(db.get_all_subscribers().len(), 0);
}

#[test]
fn second_subscriber_keeps_feed_alive() {
    let mut db = Database::create("p");
    db.subscribe(1, "http://a", &empty_feed("A"), LinkPreview::Off).unwrap();
    db.subscribe(2, "http://a", &empty_feed("A"), LinkPreview::Off).unwrap();
    db.unsubscribe(1, "http://a").unwrap();
    let feeds = db.get_all_feeds();
    assert_eq!(feeds.len(), 1);
    assert_eq!(feeds[0].subscribers, vec![2]);
    assert_eq!(db.get_all_subscribers(), vec![2]);
}

#[test]
fn resubscribe_with_identical_arguments_is_rejected() {
    let mut db = Database::create("p");
    let feed = rss_with_items("A", vec![item(Some("i1"), None, None)]);
    db.subscribe(1, "http://a", &feed, LinkPreview::On).unwrap();
    db.inc_error_count("http://a");
    let feeds_before = db.get_all_feeds();
    let count_before = db.save_count;
    let r = db.subscribe(1, "http://a", &feed, LinkPreview::On);
    assert!(matches!(r, Err(StoreError::AlreadySubscribed)));
    let feeds_after = db.get_all_feeds();
    assert_eq!(feeds_after.len(), feeds_before.len());
    assert_eq!(feeds_after[0].error_count, feeds_before[0].error_count);
    assert_eq!(feeds_after[0].hash_list, feeds_before[0].hash_list);
    assert_eq!(db.save_count, count_before);
}

#[test]
fn resubscribe_with_other_preview_updates_entry() {
    let mut db = Database::create("p");
    db.subscribe(1, "http://a", &empty_feed("A"), LinkPreview::Off).unwrap();
    let id = hash_str("http://a");
    assert_eq!(db.get_link_preview(1, id), Some(LinkPreview::Off));
    let r = db.subscribe(1, "http://a", &empty_feed("A"), LinkPreview::InstantView(9));
    assert!(matches!(r, Ok(SubscriptionResult::LinkPreviewUpdated)));
    assert_eq!(db.get_link_preview(1, id), Some(LinkPreview::InstantView(9)));
}

#[test]
fn unsubscribe_without_membership_fails() {
    let mut db = Database::create("p");
    assert!(matches!(db.unsubscribe(1, "http://a"), Err(StoreError::NotSubscribed)));
    db.subscribe(1, "http://a", &empty_feed("A"), LinkPreview::Off).unwrap();
    assert!(matches!(db.unsubscribe(2, "http://a"), Err(StoreError::NotSubscribed)));
    assert!(matches!(db.unsubscribe(1, "http://b"), Err(StoreError::NotSubscribed)));
}

#[test]
fn update_detects_new_items_and_rebuilds_history() {
    let mut db = Database::create("p");
    let i1 = item(Some("one"), None, None);
    let i2 = item(Some("two"), None, None);
    let i3 = item(Some("three"), None, None);
    let h1 = item_hash(&i1);
    let h2 = item_hash(&i2);
    let h3 = item_hash(&i3);
    // Baseline history [h1, h2] captured at subscribe time.
    let feed = rss_with_items("A", vec![item(Some("one"), None, None), item(Some("two"), None, None)]);
    db.subscribe(1, "http://a", &feed, LinkPreview::Off).unwrap();
    assert_eq!(db.get_all_feeds()[0].hash_list, vec![h1, h2]);
    // Fetch producing hashes [h3, h1]: only the item for h3 is new.
    let fresh = db.update("http://a", vec![i3, i1]);
    assert_eq!(fresh.len(), 1);
    assert_eq!(fresh[0].id.as_deref(), Some("three"));
    // Rebuilt history: all fetched hashes, then old entries up to 2 * |items|.
    assert_eq!(db.get_all_feeds()[0].hash_list, vec![h3, h1, h1, h2]);
}

#[test]
fn update_with_no_new_items_triggers_no_write() {
    let mut db = Database::create("p");
    let feed = rss_with_items("A", vec![item(Some("one"), None, None)]);
    db.subscribe(1, "http://a", &feed, LinkPreview::Off).unwrap();
    db.inc_error_count("http://a");
    let count_before = db.save_count;
    let history_before = db.get_all_feeds()[0].hash_list.clone();
    let fresh = db.update("http://a", vec![item(Some("one"), None, None)]);
    assert!(fresh.is_empty());
    assert_eq!(db.save_count, count_before);
    assert_eq!(db.get_all_feeds()[0].hash_list, history_before);
    // The error counter was still reset by the successful poll.
    assert_eq!(db.get_all_feeds()[0].error_count, 0);
}

#[test]
fn update_with_empty_fetch_changes_no_history() {
    let mut db = Database::create("p");
    let feed = rss_with_items("A", vec![item(Some("one"), None, None)]);
    db.subscribe(1, "http://a", &feed, LinkPreview::Off).unwrap();
    let count_before = db.save_count;
    let history_before = db.get_all_feeds()[0].hash_list.clone();
    let fresh = db.update("http://a", Vec::new());
    assert!(fresh.is_empty());
    assert_eq!(db.get_all_feeds()[0].hash_list, history_before);
    assert_eq!(db.save_count, count_before);
}

#[test]
fn update_on_unknown_feed_returns_nothing() {
    let mut db = Database::create("p");
    let fresh = db.update("http://nowhere", vec![item(Some("one"), None, None)]);
    assert!(fresh.is_empty());
    assert_eq!(db.save_count, 1);
}

#[test]
fn error_counter_is_best_effort_bookkeeping() {
    let mut db = Database::create("p");
    assert_eq!(db.inc_error_count("http://a"), 0);
    db.subscribe(1, "http://a", &empty_feed("A"), LinkPreview::Off).unwrap();
    let count_before = db.save_count;
    assert_eq!(db.inc_error_count("http://a"), 1);
    assert_eq!(db.inc_error_count("http://a"), 2);
    db.reset_error_count("http://a");
    assert_eq!(db.get_all_feeds()[0].error_count, 0);
    db.reset_error_count("http://missing");
    assert_eq!(db.save_count, count_before);
}

#[test]
fn update_title_overwrites_only_known_feeds() {
    let mut db = Database::create("p");
    db.subscribe(1, "http://a", &empty_feed("Old"), LinkPreview::Off).unwrap();
    db.update_title("http://a", "New");
    assert_eq!(db.get_all_feeds()[0].title, "New");
    db.update_title("http://b", "Ghost");
    assert_eq!(db.get_all_feeds().len(), 1);
}

#[test]
fn subscribed_feeds_distinguishes_unknown_from_known() {
    let mut db = Database::create("p");
    assert!(db.get_subscribed_feeds(1).is_none());
    db.subscribe(1, "http://a", &empty_feed("A"), LinkPreview::Off).unwrap();
    db.subscribe(1, "http://b", &empty_feed("B"), LinkPreview::Off).unwrap();
    let feeds = db.get_subscribed_feeds(1).unwrap();
    assert_eq!(feeds.len(), 2);
    let mut links: Vec<String> = feeds.iter().map(|f| f.link.clone()).collect();
    links.sort();
    assert_eq!(links, vec!["http://a".to_string(), "http://b".to_string()]);
}

#[test]
fn delete_subscriber_unsubscribes_everywhere() {
    let mut db = Database::create("p");
    db.subscribe(1, "http://a", &empty_feed("A"), LinkPreview::Off).unwrap();
    db.subscribe(1, "http://b", &empty_feed("B"), LinkPreview::Off).unwrap();
    db.subscribe(2, "http://b", &empty_feed("B"), LinkPreview::Off).unwrap();
    let count_before = db.save_count;
    db.delete_subscriber(1);
    assert!(db.get_subscribed_feeds(1).is_none());
    let feeds = db.get_all_feeds();
    assert_eq!(feeds.len(), 1);
    assert_eq!(feeds[0].link, "http://b");
    assert_eq!(feeds[0].subscribers, vec![2]);
    assert_eq!(db.get_link_preview(1, hash_str("http://a")), None);
    // One write per dropped membership.
    assert_eq!(db.save_count, count_before + 2);
    // Deleting an unknown subscriber changes nothing.
    db.delete_subscriber(77);
    assert_eq!(db.get_all_feeds().len(), 1);
}

#[test]
fn update_subscriber_merges_into_target() {
    let mut db = Database::create("p");
    db.subscribe(1, "http://a", &empty_feed("A"), LinkPreview::On).unwrap();
    db.subscribe(1, "http://b", &empty_feed("B"), LinkPreview::Off).unwrap();
    db.subscribe(2, "http://b", &empty_feed("B"), LinkPreview::InstantView(5)).unwrap();
    db.update_subscriber(1, 2);
    assert!(db.get_subscribed_feeds(1).is_none());
    let feeds = db.get_subscribed_feeds(2).unwrap();
    assert_eq!(feeds.len(), 2);
    let a = hash_str("http://a");
    let b = hash_str("http://b");
    // The migrated entry wins over the target's old one.
    assert_eq!(db.get_link_preview(2, a), Some(LinkPreview::On));
    assert_eq!(db.get_link_preview(2, b), Some(LinkPreview::Off));
    assert_eq!(db.get_link_preview(1, a), None);
    assert_eq!(db.get_link_preview(1, b), None);
    for f in db.get_all_feeds() {
        assert!(!f.subscribers.contains(&1));
        assert!(f.subscribers.contains(&2));
    }
}

#[test]
fn save_then_open_reproduces_the_store() {
    let mut db = Database::create("p");
    let feed_a = rss_with_items("A", vec![item(Some("one"), None, None)]);
    db.subscribe(1, "http://a", &feed_a, LinkPreview::Off).unwrap();
    db.subscribe(2, "http://a", &feed_a, LinkPreview::InstantView(3)).unwrap();
    db.subscribe(2, "http://b", &empty_feed("B"), LinkPreview::On).unwrap();
    db.inc_error_count("http://b");
    let bytes = db.save();
    let back = Database::open("p", Some(&bytes)).unwrap();
    // Same feed set.
    let mut links: Vec<String> = back.get_all_feeds().iter().map(|f| f.link.clone()).collect();
    links.sort();
    assert_eq!(links, vec!["http://a".to_string(), "http://b".to_string()]);
    // Same memberships and record fields.
    for feed in back.get_all_feeds() {
        let orig = db
            .get_all_feeds()
            .into_iter()
            .find(|f| f.link == feed.link)
            .unwrap();
        let mut a = feed.subscribers.clone();
        let mut b = orig.subscribers.clone();
        a.sort();
        b.sort();
        assert_eq!(a, b);
        assert_eq!(feed.title, orig.title);
        assert_eq!(feed.error_count, orig.error_count);
        assert_eq!(feed.hash_list, orig.hash_list);
    }
    // Same subscriber index, rebuilt from the records.
    let mut subs = back.get_all_subscribers();
    subs.sort();
    assert_eq!(subs, vec![1, 2]);
    // Same link-preview entries.
    let a = hash_str("http://a");
    let b = hash_str("http://b");
    assert_eq!(back.get_link_preview(1, a), Some(LinkPreview::Off));
    assert_eq!(back.get_link_preview(2, a), Some(LinkPreview::InstantView(3)));
    assert_eq!(back.get_link_preview(2, b), Some(LinkPreview::On));
    assert_eq!(back.get_link_preview(1, b), None);
}

#[test]
fn open_without_file_creates_an_empty_store() {
    let db = Database::open("p", None).unwrap();
    assert_eq!(db.get_all_feeds().len(), 0);
    assert_eq!(db.get_all_subscribers().len(), 0);
    assert_eq!(db.save_count, 1);
}

#[test]
fn open_rejects_malformed_snapshots() {
    let garbage = vec![1u8, 2, 3];
    assert!(matches!(Database::open("p", Some(&garbage)), Err(StoreError::DatabaseFormat)));
    // A truncated valid snapshot is malformed too.
    let mut db = Database::create("p");
    db.subscribe(1, "http://a", &empty_feed("A"), LinkPreview::Off).unwrap();
    let mut bytes = db.save();
    bytes.pop();
    assert!(matches!(Database::open("p", Some(&bytes)), Err(StoreError::DatabaseFormat)));
    // Trailing bytes after a valid snapshot are rejected as well.
    let mut padded = db.save();
    padded.push(0);
    assert!(matches!(Database::open("p", Some(&padded)), Err(StoreError::DatabaseFormat)));
    // An empty byte string is not a snapshot.
    let empty: Vec<u8> = Vec::new();
    assert!(matches!(Database::open("p", Some(&empty)), Err(StoreError::DatabaseFormat)));
}

#[test]
fn snapshot_strings_survive_unicode_titles() {
    let mut db = Database::create("p");
    db.subscribe(7, "http://u", &empty_feed("Fütter — ß — 日本語"), LinkPreview::Off).unwrap();
    let bytes = db.save();
    let back = Database::open("p", Some(&bytes)).unwrap();
    assert_eq!(back.get_all_feeds()[0].title, "Fütter — ß — 日本語");
}

#[test]
fn feed_get_id_matches_link_hash() {
    let mut db = Database::create("p");
    db.subscribe(1, "http://a", &empty_feed("A"), LinkPreview::Off).unwrap();
    let feed = &db.get_all_feeds()[0];
    assert_eq!(feed.get_id(), hash_str("http://a"));
}
