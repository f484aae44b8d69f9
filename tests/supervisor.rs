use supercv::record::HistoryRecord;
use supercv::supervisor::{ClipboardIndexer, Retention, DEFAULT_RETENTION_SECS};

fn doc(id: i32, content: &str, kind: i32, ts: i64) -> HistoryRecord {
    HistoryRecord::new(id, kind, String::new(), content.to_string(), ts, String::new())
}

#[test]
fn hydrate_then_search() {
    let mut ix = ClipboardIndexer::new(100, 1000);
    ix.hydrate(&[doc(1, "alpha", 0, 950), doc(2, "alphabet", 0, 980)], 1001);
    assert_eq!(ix.last_hydrated_at, 1001);
    assert_eq!(ix.search("ALPHA", 10, None), Some(vec![2, 1]));
    assert_eq!(ix.search("", 10, None), None);
}

#[test]
fn new_records_advance_the_indexed_instant() {
    let mut ix = ClipboardIndexer::new(DEFAULT_RETENTION_SECS, 10);
    ix.on_new_record(&doc(1, "x", 0, 50));
    assert_eq!(ix.last_indexed_at, 50);
    ix.on_new_record(&doc(2, "y", 0, 40));
    assert_eq!(ix.last_indexed_at, 50);
    assert_eq!(ix.trie.len(), 2);
}

#[test]
fn expired_records_are_evicted() {
    let mut ix = ClipboardIndexer::new(100, 0);
    let docs = [doc(1, "old", 0, 10), doc(2, "edge", 0, 900), doc(3, "new", 0, 990)];
    ix.hydrate(&docs, 1000);
    assert_eq!(ix.cutoff(1000), 900);
    assert_eq!(ix.expired_ids(1000), vec![1]);
    ix.evict(&[doc(1, "old", 0, 10)]);
    assert_eq!(ix.trie.len(), 2);
    assert_eq!(ix.search("old", 5, None), Some(vec![]));
    assert_eq!(ix.expired_ids(1000), Vec::<i32>::new());
}

#[test]
fn cutoff_saturates() {
    let ix = ClipboardIndexer::new(100, 0);
    assert_eq!(ix.cutoff(i64::MIN + 5), i64::MIN);
    assert_eq!(DEFAULT_RETENTION_SECS, 3 * 24 * 60 * 60);
}

#[test]
fn per_kind_cutoffs() {
    assert_eq!(Retention::uniform(100).cutoffs(1000), (900, 900, 900));
    let r = Retention { text_secs: 10, image_secs: 20, file_secs: 30 };
    assert_eq!(r.cutoffs(100), (90, 80, 70));
    assert!(r.listed(0, 95, 100));
    assert!(!r.listed(0, 90, 100));
    assert!(r.listed(1, 81, 100));
    assert!(!r.listed(2, 70, 100));
    assert!(!r.listed(3, 100, 100));
    assert_eq!(r.cutoffs(i64::MIN + 15), (i64::MIN + 5, i64::MIN, i64::MIN));
}
