use std::collections::HashMap;

use supercv::index::Trie;
use supercv::record::HistoryRecord;

fn doc(id: i32, content: &str, kind: i32, ts: i64) -> HistoryRecord {
    HistoryRecord::new(id, kind, String::new(), content.to_string(), ts, String::new())
}

fn docs() -> Vec<HistoryRecord> {
    vec![
        doc(1, "apple", 1, 1),
        doc(2, "application", 1, 4),
        doc(3, "apply", 2, 2),
        doc(4, "appoint", 2, 6),
        doc(5, "appointment", 3, 7),
        doc(6, "苹果商店吃苹果", 3, 8),
        doc(7, "苹果公司", 1, 9),
        doc(8, "应用", 2, 11),
        doc(9, "应用程序", 3, 22),
        doc(10, "应用商店", 1, 33),
        doc(11, "Work", 1, 8),
        doc(12, "workspace", 1, 8),
    ]
}

fn index() -> Trie {
    let mut t = Trie::new();
    t.insert_list(&docs());
    t
}

#[test]
fn every_substring_finds_its_record() {
    let t = index();
    for d in docs() {
        let lower: Vec<char> = d.content.to_lowercase().chars().collect();
        for i in 0..lower.len() {
            for j in i + 1..=lower.len() {
                let q: String = lower[i..j].iter().collect();
                let r = t.search(&q, 100, Some(vec![d.kind]));
                assert!(r.contains(&d.id), "{q} should find {}", d.id);
            }
        }
    }
}

#[test]
fn results_are_ranked_unique_and_capped() {
    let t = index();
    let ts: HashMap<i32, i64> = docs().iter().map(|d| (d.id, d.timestamp)).collect();
    for q in ["a", "p", "app", "苹果", "应", "work", "o", "zzz"] {
        for n in [0u64, 1, 2, 3, 20] {
            let r = t.search(q, n, None);
            assert!(r.len() as u64 <= n);
            for w in r.windows(2) {
                let a = (ts[&w[0]], w[0]);
                let b = (ts[&w[1]], w[1]);
                assert!(a > b, "{q}: {:?} before {:?}", a, b);
            }
        }
    }
    assert_eq!(t.search("work", 5, None), vec![12, 11]);
}

#[test]
fn insert_then_delete_restores_searches() {
    let mut t = index();
    let queries = ["a", "app", "l", "苹果", "应用", "work", "new"];
    let before: Vec<Vec<i32>> = queries.iter().map(|q| t.search(q, 10, None)).collect();
    let extra = doc(99, "A new apple", 0, 5);
    t.insert(&extra);
    assert_eq!(t.search("new", 10, None), vec![99]);
    t.delete(&extra);
    let after: Vec<Vec<i32>> = queries.iter().map(|q| t.search(q, 10, None)).collect();
    assert_eq!(before, after);
    assert_eq!(t.len(), 12);
}

#[test]
fn inserting_twice_is_inserting_once() {
    let mut t = index();
    t.insert(&doc(3, "apply", 2, 2));
    assert_eq!(t.len(), 12);
    assert!(t.contains_id(3));
    assert_eq!(t.search("apply", 10, None), vec![3]);
}

#[test]
fn search_ignores_case() {
    let t = index();
    for (a, b) in [("APP", "app"), ("WoRk", "work"), ("ApPlIcAtIoN", "application")] {
        assert_eq!(t.search(a, 10, None), t.search(b, 10, None));
    }
}

#[test]
fn seed_scenarios() {
    let mut t = Trie::new();
    t.insert_list(&docs()[..10]);
    assert_eq!(t.search("apple", 5, None), vec![1]);
    assert_eq!(t.search("app", 5, None), vec![5, 4, 2, 3, 1]);
    assert_eq!(t.search("苹果公司", 5, None), vec![7]);
    assert_eq!(t.search("应用", 5, Some(vec![3])), vec![9]);
    assert_eq!(t.search("APP", 5, Some(vec![1, 2])), vec![4, 2, 3, 1]);
    let mut older = t.td_lt_ids(6);
    older.sort();
    assert_eq!(older, vec![1, 2, 3]);
    t.delete(&doc(1, "apple", 1, 1));
    assert_eq!(t.search("app", 5, None), vec![5, 4, 2, 3]);
    assert_eq!(t.search("l", 5, None), vec![2, 3]);
}

#[test]
fn empty_query_lists_everything_ranked() {
    let t = index();
    assert_eq!(t.search("", 3, None), vec![10, 9, 8]);
    assert_eq!(t.posting_len("zzz"), None);
}
