use std::collections::HashMap;

use supercv::index::Trie;
use supercv::record::HistoryRecord;

fn create_test_doc(id: i32, content: &str, doc_type: i32, timestamp: i64) -> HistoryRecord {
    HistoryRecord::new(id, doc_type, "".to_string(), content.to_string(), timestamp, "".to_string())
}

fn get_test_docs() -> (HashMap<i32, HistoryRecord>, Vec<HistoryRecord>) {
    let docs = vec![
        create_test_doc(1, "apple", 1, 1),
        create_test_doc(2, "application", 1, 4),
        create_test_doc(3, "apply", 2, 2),
        create_test_doc(4, "appoint", 2, 6),
        create_test_doc(5, "appointment", 3, 7),
        create_test_doc(6, "苹果商店吃苹果", 3, 8),
        create_test_doc(7, "苹果公司", 1, 9),
        create_test_doc(8, "应用", 2, 11),
        create_test_doc(9, "应用程序", 3, 22),
        create_test_doc(10, "应用商店", 1, 33),
    ];
    let map = docs
        .iter()
        .map(|d| (d.id, create_test_doc(d.id, &d.content, d.kind, d.timestamp)))
        .collect();
    (map, docs)
}

fn indexed() -> (HashMap<i32, HistoryRecord>, Trie) {
    let (map, docs) = get_test_docs();
    let mut trie = Trie::new();
    trie.insert_list(&docs);
    (map, trie)
}

#[test]
fn test_insert() {
    let (_, trie) = indexed();
    assert!(trie.len() > 0);
    assert_eq!(trie.posting_len("a"), Some(5));
    assert_eq!(trie.posting_len("p"), Some(5));
    assert_eq!(trie.posting_len("l"), Some(3));
    assert_eq!(trie.posting_len("店"), Some(2));
}

#[test]
fn test_search() {
    let (_, trie) = indexed();
    assert_eq!(trie.search("apple", 5, None), vec![1]);
    assert_eq!(trie.search("app", 5, None), vec![5, 4, 2, 3, 1]);
    assert_eq!(trie.search("苹果公司", 5, None), vec![7]);
    assert_eq!(trie.search("应用", 5, Some(vec![3])), vec![9]);
    assert_eq!(trie.search("app", 3, None), vec![5, 4, 2]);
}

#[test]
fn test_delete() {
    let (docs_map, mut trie) = indexed();
    let doc = docs_map.get(&1).unwrap();
    trie.delete(doc);
    assert_eq!(trie.search("apple", 5, None).len(), 0);
    assert_eq!(trie.search("app", 5, None), vec![5, 4, 2, 3]);
    assert_eq!(trie.search("l", 5, None), vec![2, 3]);
}

#[test]
fn test_timestamp_ids() {
    let (_, trie) = indexed();
    assert_eq!(trie.instant_count(), 10);
}

#[test]
fn test_timestamp_ids_lt() {
    let (docs_map, mut trie) = indexed();
    let mut result = trie.td_lt_ids(6);
    result.sort();
    assert_eq!(result, vec![1, 2, 3]);

    let doc = docs_map.get(&1).unwrap();
    trie.delete(doc);
    let mut result = trie.td_lt_ids(6);
    result.sort();
    assert_eq!(result, vec![2, 3]);
}

#[test]
fn test_timestamp_ids_gt() {
    let (docs_map, mut trie) = indexed();
    let mut result = trie.td_gt_ids(9);
    result.sort();
    assert_eq!(result, vec![8, 9, 10]);

    let doc = docs_map.get(&8).unwrap();
    trie.delete(doc);
    let mut result = trie.td_gt_ids(10);
    result.sort();
    assert_eq!(result, vec![9, 10]);
}

#[test]
fn test_case_insensitive_search() {
    let (_, trie) = indexed();
    assert_eq!(trie.search("APPLE", 5, None), vec![1]);
    assert_eq!(trie.search("ApPlIcAtIoN", 5, None), vec![2]);
    assert_eq!(trie.search("APP", 5, None), vec![5, 4, 2, 3, 1]);
    assert_eq!(trie.search("苹果公司", 5, None), vec![7]);
    assert_eq!(trie.search("APPly", 5, Some(vec![2])), vec![3]);
}

#[test]
fn test_case_insensitive_delete() {
    let (docs_map, mut trie) = indexed();
    let doc = docs_map.get(&1).unwrap();
    let upper_case_doc = create_test_doc(doc.id, &doc.content.to_uppercase(), doc.kind, doc.timestamp);
    trie.delete(&upper_case_doc);
    assert_eq!(trie.search("apple", 5, None).len(), 0);
    assert_eq!(trie.search("APP", 5, None), vec![5, 4, 2, 3]);
}

#[test]
fn test_search_type_list() {
    let (_, trie) = indexed();
    assert_eq!(trie.search("app", 5, Some(vec![1])), vec![2, 1]);
    assert_eq!(trie.search("app", 5, Some(vec![1, 2])), vec![4, 2, 3, 1]);
    assert_eq!(trie.search("app", 5, None), vec![5, 4, 2, 3, 1]);
    assert_eq!(trie.search("app", 5, Some(vec![])), Vec::<i32>::new());
    assert_eq!(trie.search("app", 5, Some(vec![4])), Vec::<i32>::new());
    assert_eq!(trie.search("app", 2, Some(vec![1, 2])), vec![4, 2]);
    assert_eq!(trie.search("应用", 5, Some(vec![1, 2, 3])), vec![10, 9, 8]);
    assert_eq!(trie.search("APP", 5, Some(vec![1, 2])), vec![4, 2, 3, 1]);
}

#[test]
fn test_bad_case() {
    let docs = vec![
        create_test_doc(1, "[2024-07-20 09:47:56.778839 +08:00] INFO [/Users/zeke/.cargo/registry/src/rsproxy.cn-0dccff568467c15b/sea-orm-migration-0.12.15/src/migrator.rs:374] No pending migrations", 0, 2),
        create_test_doc(2, "/Users/zeke/.cargo/registry/src/rsproxy.cn-0dccff568467c15b/sea-orm-migration-0.12.15/src/migrator.rs:369", 1, 4),
        create_test_doc(3, "initializeClipboardHelper", 1, 7),
        create_test_doc(4, "work", 1, 8),
        create_test_doc(5, "workspace", 1, 8),
    ];
    let mut trie = Trie::new();
    trie.insert_list(&docs);
    let result = trie.search("i", 4, None);
    assert_eq!(result, vec![3, 2, 1])
}
