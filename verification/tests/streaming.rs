use vaktum::cleanup::clean_transcript;
use vaktum::streaming::{delta_after_committed, join_delta, reconcile_final, stable_prefix};

#[test]
fn stable_prefix_waits_for_a_word_boundary() {
    assert_eq!(stable_prefix("hello wor", "hello world"), "hello");
}

#[test]
fn repeated_hypothesis_commits_complete_words_only() {
    assert_eq!(stable_prefix("hello world", "hello world"), "hello");
}

#[test]
fn stable_prefix_handles_a_new_sentence() {
    assert_eq!(stable_prefix("hello world", "hello world today"), "hello world");
}

#[test]
fn delta_does_not_duplicate_committed_text() {
    assert_eq!(delta_after_committed("hello", "hello world"), "world");
}

#[test]
fn repeated_partial_result_produces_the_same_delta() {
    let stable = stable_prefix("hello world", "hello world");
    assert_eq!(delta_after_committed("hello", &stable), "");
}

#[test]
fn empty_partial_results_are_ignored() {
    assert_eq!(stable_prefix("hello", ""), "");
    assert_eq!(delta_after_committed("hello", ""), "");
}

#[test]
fn transcript_revision_does_not_create_a_false_delta() {
    assert_eq!(stable_prefix("hello world", "hello there"), "hello");
    assert_eq!(delta_after_committed("hello", "hello"), "");
}

#[test]
fn shifted_rolling_windows_produce_stable_overlap() {
    assert_eq!(stable_prefix("hello how are you", "how are you doing"), "how are you");
    assert_eq!(delta_after_committed("hello how are", "how are you"), "you");
}

#[test]
fn punctuation_changes_do_not_break_rolling_overlap() {
    assert_eq!(stable_prefix("hello world", "world, today"), "world,");
    assert_eq!(delta_after_committed("hello world", "world, today"), "today");
}

#[test]
fn final_transcript_reconciles_without_duplication() {
    assert_eq!(reconcile_final("hello world", "hello world today"), "today");
    assert_eq!(reconcile_final("hello world today", "hello world"), "");
}

#[test]
fn punctuation_delta_does_not_get_an_extra_space() {
    assert_eq!(join_delta("hello", ","), ",");
    assert_eq!(join_delta("hello", "world"), " world");
}

#[test]
fn repeated_words_are_preserved() {
    let final_text = clean_transcript("hello hello world");
    assert_eq!(final_text, "hello hello world");
}

use vaktum::streaming::{has_enough_audio, history_entry_for, StreamingState};
use vaktum::transcription::TranscriptionResult;

#[test]
fn repeated_single_word_is_not_committed() {
    assert_eq!(stable_prefix("hello", "hello"), "");
    assert_eq!(stable_prefix(" hello", " hello"), "");
}

#[test]
fn repeated_hypothesis_keeps_words_followed_by_whitespace() {
    assert_eq!(stable_prefix("one two three", "one two three"), "one two");
    assert_eq!(stable_prefix("one two ", "one two "), "one two");
}

#[test]
fn rolling_overlap_needs_a_following_word_for_a_single_match() {
    assert_eq!(stable_prefix("good morning", "morning"), "");
    assert_eq!(stable_prefix("I think so", "think so"), "think so");
}

#[test]
fn stable_prefix_without_common_ground_is_empty() {
    assert_eq!(stable_prefix("alpha beta", "gamma delta"), "");
    assert_eq!(stable_prefix("", "hello world"), "");
}

#[test]
fn delta_after_nothing_is_the_stable_text() {
    assert_eq!(delta_after_committed("", "hello world"), "hello world");
    assert_eq!(delta_after_committed("", "  hello"), "hello");
}

#[test]
fn delta_without_overlap_is_empty() {
    assert_eq!(delta_after_committed("alpha", "beta gamma"), "");
}

#[test]
fn delta_ignores_case_and_quotes_in_the_overlap() {
    assert_eq!(delta_after_committed("he said \"Hello\"", "hello there friend"), "there friend");
}

#[test]
fn final_reconciliation_uses_word_overlap() {
    assert_eq!(reconcile_final("so hello world", "World, today is fine"), "today is fine");
}

#[test]
fn final_reconciliation_without_overlap_inserts_everything() {
    assert_eq!(reconcile_final("alpha", "  beta gamma  "), "beta gamma");
    assert_eq!(reconcile_final("", "hello"), "hello");
}

#[test]
fn join_delta_without_committed_text_adds_no_space() {
    assert_eq!(join_delta("", "hello"), "hello");
    assert_eq!(join_delta("   ", "hello"), "hello");
    assert_eq!(join_delta("hello", ""), "");
    assert_eq!(join_delta("hello", ")"), ")");
    assert_eq!(join_delta("hello", "-dash"), " -dash");
}

#[test]
fn enough_audio_is_nine_tenths_of_a_second() {
    assert!(has_enough_audio(14_400, 16_000));
    assert!(!has_enough_audio(14_399, 16_000));
    assert!(has_enough_audio(0, 1));
    assert!(has_enough_audio(3_865_470_565, u32::MAX));
}

#[test]
fn streaming_session_commits_stable_words() {
    let mut state = StreamingState::new();
    let first = state.on_hypothesis("  hello wor ");
    assert_eq!(first.insert, None);
    assert_eq!(first.transcript.as_deref(), Some("hello wor"));
    assert_eq!(state.previous_hypothesis, "hello wor");

    let second = state.on_hypothesis("hello world today");
    assert_eq!(second.insert.as_deref(), Some("hello"));
    state.on_inserted(&second.insert.unwrap());
    assert_eq!(state.committed, "hello");

    let third = state.on_hypothesis("hello world today is");
    assert_eq!(third.insert.as_deref(), Some(" world today"));
    state.on_inserted(&third.insert.unwrap());
    assert_eq!(state.committed, " world today");

    let blank = state.on_hypothesis(" \t ");
    assert_eq!(blank.insert, None);
    assert_eq!(blank.transcript, None);
    assert_eq!(state.previous_hypothesis, "");
    assert_eq!(state.committed, " world today");
    assert_eq!(state.final_insertion(" world today is nice").as_deref(), Some(" is nice"));
}

#[test]
fn streaming_session_final_insertion() {
    let mut state = StreamingState::new();
    assert_eq!(state.final_insertion("hello world").as_deref(), Some("hello world"));
    state.on_inserted("hello world");
    assert_eq!(state.final_insertion("hello world today").as_deref(), Some(" today"));
    assert_eq!(state.final_insertion("hello world"), None);
    assert_eq!(state.final_insertion("hello world."), Some(".".to_owned()));
}

#[test]
fn history_entry_only_when_enabled() {
    let result = TranscriptionResult {
        raw_transcript: "raw".to_owned(),
        final_transcript: "final".to_owned(),
    };
    let entry = history_entry_for(true, "42".to_owned(), result.clone()).unwrap();
    assert_eq!(entry.timestamp, "42");
    assert_eq!(entry.raw_transcript, "raw");
    assert_eq!(entry.final_transcript, "final");
    assert!(history_entry_for(false, "42".to_owned(), result).is_none());
}

#[test]
fn revised_word_is_not_committed() {
    assert_eq!(stable_prefix("hello worlds", "hello world today"), "hello");
    assert_eq!(stable_prefix("worlds x", "world y"), "");
    assert_eq!(stable_prefix("hello", "hello world"), "hello");
    assert_eq!(stable_prefix("hello world", "hello world  today"), "hello world");
}
