use vaktum::insertion::insert_text;

#[test]
fn rejects_empty_text() {
    let error = insert_text(0, "").expect_err("empty text should be rejected");
    assert_eq!(error, "No transcript available for insertion");
}

#[test]
fn rejects_whitespace_only_text() {
    let error = insert_text(0, "   \n\t").expect_err("whitespace should be rejected");
    assert_eq!(error, "No transcript available for insertion");
}

use vaktum::insertion::{capture_target_window, insertion_target, require_transcript};

#[test]
fn text_without_the_windows_api_is_not_inserted() {
    let error = insert_text(5, " hello ").expect_err("no backend");
    assert_eq!(error, "Focused-app text insertion is only supported on Windows");
    assert_eq!(
        capture_target_window(),
        Err("Focused-app text insertion is only supported on Windows".to_owned())
    );
}

#[test]
fn insertion_requires_text_then_a_target() {
    assert_eq!(require_transcript("a"), Ok(()));
    assert_eq!(insertion_target("hi", Some(42)), Ok(42));
    assert_eq!(
        insertion_target("hi", None),
        Err("No previously focused application was captured".to_owned())
    );
    assert_eq!(
        insertion_target("\u{2028}", Some(1)),
        Err("No transcript available for insertion".to_owned())
    );
}

use vaktum::insertion::{
    captured_window, check_activated, check_paste_sent, check_target_window, is_own_process,
    should_restore_clipboard,
};

#[test]
fn own_windows_are_recognised_by_process_id() {
    assert!(is_own_process(42, 42));
    assert!(!is_own_process(0, 0));
    assert!(!is_own_process(41, 42));
}

#[test]
fn capture_needs_a_foreign_foreground_window() {
    assert_eq!(captured_window(77, false), Ok(77));
    assert_eq!(captured_window(0, false), Err("No foreground application is available".to_owned()));
    assert_eq!(
        captured_window(77, true),
        Err("Vaktum is currently focused; no external target application was captured".to_owned())
    );
}

#[test]
fn target_window_checks_come_in_order() {
    assert_eq!(check_target_window(5, true, false), Ok(()));
    assert_eq!(
        check_target_window(0, true, false),
        Err("The previously focused application window is no longer available".to_owned())
    );
    assert_eq!(
        check_target_window(5, false, true),
        Err("The previously focused application window is no longer available".to_owned())
    );
    assert_eq!(check_target_window(5, true, true), Err("Refusing to insert text into Vaktum".to_owned()));
    assert_eq!(
        check_activated(false),
        Err("Could not activate the previously focused application".to_owned())
    );
    assert_eq!(check_activated(true), Ok(()));
    assert_eq!(check_paste_sent(4, 4), Ok(()));
    assert_eq!(check_paste_sent(3, 4), Err("Paste/input operation failed".to_owned()));
}

#[test]
fn clipboard_is_restored_only_when_unchanged() {
    assert!(should_restore_clipboard(true, Some(9), Some(9)));
    assert!(!should_restore_clipboard(true, Some(9), Some(10)));
    assert!(!should_restore_clipboard(true, None, None));
    assert!(!should_restore_clipboard(false, Some(9), Some(9)));
    assert!(!should_restore_clipboard(true, Some(9), None));
}
