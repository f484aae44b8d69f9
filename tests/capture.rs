use supercv::capture::CaptureState;
use supercv::classify::{classify, CivilDate, Snapshot};

#[test]
fn ticks_read_only_after_a_change() {
    let mut s = CaptureState::new();
    assert!(s.observe(5));
    assert!(!s.observe(5));
    assert!(s.observe(6));
    assert_eq!(s.last_change_count, Some(6));
}

#[test]
fn repeats_of_the_last_item_are_dropped() {
    let mut s = CaptureState::new();
    assert!(s.accept(10));
    assert!(!s.accept(10));
    assert!(s.accept(11));
    assert!(s.accept(10));
    assert_eq!(s.last_fingerprint, Some(10));
}

#[test]
fn duplicate_text_leaves_the_listing_unchanged() {
    let date = CivilDate { year: 2024, month: 1, day: 1 };
    let mut state = CaptureState::new();
    let mut listing: Vec<String> = Vec::new();
    for (t, text) in [(1, "first"), (2, "copied"), (3, "copied")] {
        for item in classify(Snapshot::Text(text.to_string()), t, &date, "/f") {
            if state.accept(item.fingerprint) {
                listing.push(item.display_text);
            }
        }
    }
    assert_eq!(listing, vec!["first".to_string(), "copied".to_string()]);
}
