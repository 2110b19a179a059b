use vaktum::history::HistoryEntry;

fn entry(index: usize) -> HistoryEntry {
    HistoryEntry {
        timestamp: format!("2026-09-26T12:{index:02}:00Z"),
        raw_transcript: format!("raw {index}"),
        final_transcript: format!("final {index}"),
    }
}

#[test]
fn entry_preserves_raw_and_final_transcript() {
    let value = entry(1);
    assert_eq!(value.raw_transcript, "raw 1");
    assert_eq!(value.final_transcript, "final 1");
    assert!(!value.timestamp.is_empty());
}

use vaktum::history::{append, history_path, keep_newest, load, HISTORY_LIMIT};

#[test]
fn appended_entry_comes_first_and_history_stays_bounded() {
    let mut entries = (0..(HISTORY_LIMIT + 5)).map(entry).collect::<Vec<_>>();
    entries.reverse();
    let loaded = load(Some(entries));
    assert_eq!(loaded.len(), HISTORY_LIMIT);
    assert_eq!(loaded[0], entry(HISTORY_LIMIT + 4));

    let appended = append(loaded.clone(), entry(999));
    assert_eq!(appended.len(), HISTORY_LIMIT);
    assert_eq!(appended[0], entry(999));
    assert_eq!(appended[1], loaded[0]);
    assert_eq!(load(Some(appended.clone())), appended);
}

#[test]
fn short_history_keeps_everything() {
    let appended = append(vec![entry(1)], entry(2));
    assert_eq!(appended, vec![entry(2), entry(1)]);
    assert_eq!(keep_newest(appended.clone()), appended);
    assert!(load(None).is_empty());
}

#[test]
fn history_file_sits_in_the_data_directory() {
    assert_eq!(history_path(Some("C:\\L".to_owned()), None), vec!["C:\\L", "Vaktum", "history.json"]);
    assert_eq!(history_path(None, None), vec![".vaktum", "history.json"]);
}
