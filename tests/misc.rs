use supercv::config::{convert_log, Config};
use supercv::entry::{convert_to_clipboard_entry, to_clipboard_list};
use supercv::kind::ContentType;
use supercv::record::HistoryRecord;
use supercv::text::chars_of;

#[test]
fn kind_wire_codes() {
    assert_eq!(ContentType::Text.to_i32(), 0);
    assert_eq!(ContentType::Image.to_i32(), 1);
    assert_eq!(ContentType::File.to_i32(), 2);
    assert_eq!(ContentType::from_i32(1), Some(ContentType::Image));
    assert_eq!(ContentType::from_i32(3), None);
    assert_eq!(ContentType::from_i32(-1), None);
    assert_eq!(ContentType::Image.to_string(), "Image");
    assert_eq!(ContentType::Text.to_string(), "Text");
}

#[test]
fn log_levels() {
    assert_eq!(convert_log(Some(0)), "trace");
    assert_eq!(convert_log(Some(1)), "error");
    assert_eq!(convert_log(Some(2)), "warn");
    assert_eq!(convert_log(Some(3)), "info");
    assert_eq!(convert_log(Some(4)), "debug");
    assert_eq!(convert_log(Some(5)), "trace");
    assert_eq!(convert_log(Some(9)), "debug");
    assert_eq!(convert_log(None), "debug");
}

#[test]
fn config_paths() {
    let c = Config::new("/home/u");
    assert_eq!(c.db_path, "/home/u/.cache/super-cv/db");
    assert_eq!(c.files_path, "/home/u/.cache/super-cv/files");
    assert_eq!(c.logs_path, "/home/u/.cache/super-cv/logs");
}

#[test]
fn entries_carry_record_fields() {
    let r = HistoryRecord::new(3, 1, "/p".to_string(), "c".to_string(), 9, "u".to_string());
    let e = convert_to_clipboard_entry(r);
    assert_eq!((e.id, e.kind, e.path.as_str(), e.content.as_str(), e.timestamp, e.uuid.as_str()), (3, 1, "/p", "c", 9, "u"));
    let list = to_clipboard_list(vec![
        HistoryRecord::new(1, 0, String::new(), "a".to_string(), 1, String::new()),
        HistoryRecord::new(2, 0, String::new(), "b".to_string(), 2, String::new()),
    ]);
    let ids: Vec<i32> = list.entries.iter().map(|e| e.id).collect();
    assert_eq!(ids, vec![1, 2]);
}

#[test]
fn chars_in_order() {
    assert_eq!(chars_of("苹a"), vec!['苹', 'a']);
}
