//! Rules for inserting text into the previously focused application.
//!
//! The insertion itself (clipboard and keyboard input) needs the Windows
//! API; this library answers as a build without it does: it checks the text,
//! then reports that focused-app insertion is unavailable.
use vstd::prelude::*;
use crate::text::{chars_of, is_blank, trim};

verus! {

/// The message for text that holds nothing to insert.
pub open spec fn no_transcript_message() -> Seq<char> {
    "No transcript available for insertion"@
}

/// The message of a build that cannot insert into the focused application.
pub open spec fn unsupported_message() -> Seq<char> {
    "Focused-app text insertion is only supported on Windows"@
}

/// Accepts text with something besides whitespace in it.
pub fn require_transcript(text: &str) -> (r: Result<(), String>)
    ensures
        match r {
            Ok(()) => trim(text@).len() > 0,
            Err(message) => trim(text@).len() == 0 && message@ == no_transcript_message(),
        },
{
    let v = chars_of(text);
    if is_blank(&v) {
        Err(String::from_str("No transcript available for insertion"))
    } else {
        Ok(())
    }
}

/// The window that has the focus, to insert into later. Without the
/// Windows API there is none to capture.
pub fn capture_target_window() -> (r: Result<i64, String>)
    ensures
        r matches Err(message) && message@ == unsupported_message(),
{
    Err(String::from_str("Focused-app text insertion is only supported on Windows"))
}

/// Inserts `text` into `target_window`: whitespace-only text is refused
/// first; any other text meets the missing Windows API.
pub fn insert_text(target_window: i64, text: &str) -> (r: Result<(), String>)
    ensures
        r matches Err(message) && (if trim(text@).len() == 0 {
            message@ == no_transcript_message()
        } else {
            message@ == unsupported_message()
        }),
{
    require_transcript(text)?;
    Err(String::from_str("Focused-app text insertion is only supported on Windows"))
}

/// The target of an insertion request: refused for whitespace-only text,
/// then for a request that no window was captured for.
pub fn insertion_target(text: &str, captured: Option<i64>) -> (r: Result<i64, String>)
    ensures
        match r {
            Ok(window) => trim(text@).len() > 0 && captured == Some(window),
            Err(message) => if trim(text@).len() == 0 {
                message@ == no_transcript_message()
            } else {
                captured is None && message@ == "No previously focused application was captured"@
            },
        },
{
    require_transcript(text)?;
    match captured {
        Some(window) => Ok(window),
        None => Err(String::from_str("No previously focused application was captured")),
    }
}

/// Whether a window belongs to this process: the id of the process that
/// owns it is known (not 0) and is this process's id.
pub fn is_own_process(window_process: u32, current_process: u32) -> (r: bool)
    ensures
        r == (window_process != 0 && window_process == current_process),
{
    window_process != 0 && window_process == current_process
}

/// The window to remember as the insertion target, given the foreground
/// window (0 when there is none) and whether it belongs to this process.
pub fn captured_window(foreground: i64, foreground_is_own: bool) -> (r: Result<i64, String>)
    ensures
        match r {
            Ok(window) => foreground != 0 && !foreground_is_own && window == foreground,
            Err(message) => if foreground == 0 {
                message@ == "No foreground application is available"@
            } else {
                foreground_is_own && message@
                    == "Vaktum is currently focused; no external target application was captured"@
            },
        },
{
    if foreground == 0 {
        return Err(String::from_str("No foreground application is available"));
    }
    if foreground_is_own {
        return Err(
            String::from_str(
                "Vaktum is currently focused; no external target application was captured",
            ),
        );
    }
    Ok(foreground)
}

/// Checks the target window before anything is pasted into it: it is a
/// window that still exists, and it does not belong to this process.
pub fn check_target_window(target_window: i64, is_window: bool, is_own: bool) -> (r: Result<(), String>)
    ensures
        match r {
            Ok(()) => target_window != 0 && is_window && !is_own,
            Err(message) => if target_window == 0 || !is_window {
                message@ == "The previously focused application window is no longer available"@
            } else {
                is_own && message@ == "Refusing to insert text into Vaktum"@
            },
        },
{
    if target_window == 0 || !is_window {
        return Err(
            String::from_str("The previously focused application window is no longer available"),
        );
    }
    if is_own {
        return Err(String::from_str("Refusing to insert text into Vaktum"));
    }
    Ok(())
}

/// Checks that the target window came to the foreground.
pub fn check_activated(activated: bool) -> (r: Result<(), String>)
    ensures
        match r {
            Ok(()) => activated,
            Err(message) => !activated && message@
                == "Could not activate the previously focused application"@,
        },
{
    if activated {
        Ok(())
    } else {
        Err(String::from_str("Could not activate the previously focused application"))
    }
}

/// Checks that every input event of the paste was sent.
pub fn check_paste_sent(sent: u32, expected: u32) -> (r: Result<(), String>)
    ensures
        match r {
            Ok(()) => sent == expected,
            Err(message) => sent != expected && message@ == "Paste/input operation failed"@,
        },
{
    if sent != expected {
        Err(String::from_str("Paste/input operation failed"))
    } else {
        Ok(())
    }
}

/// Whether the clipboard gets its earlier text back after a paste: only
/// when there was text, and when the clipboard has not changed since the
/// inserted text was put there (its sequence number is the one it had then).
pub fn should_restore_clipboard(
    had_text: bool,
    sequence_after_insert: Option<u32>,
    current_sequence: Option<u32>,
) -> (r: bool)
    ensures
        r == (had_text && sequence_after_insert is Some && current_sequence
            == sequence_after_insert),
{
    if !had_text {
        return false;
    }
    match sequence_after_insert {
        None => false,
        Some(expected) => match current_sequence {
            Some(current) => current == expected,
            None => false,
        },
    }
}

} // verus!
