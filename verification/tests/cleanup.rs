use vaktum::cleanup::clean_transcript;

#[test]
fn trims_leading_and_trailing_whitespace() {
    assert_eq!(clean_transcript("   hello world   "), "hello world");
}

#[test]
fn collapses_repeated_whitespace() {
    assert_eq!(clean_transcript("hello    world"), "hello world");
}

#[test]
fn normalizes_punctuation_spacing() {
    assert_eq!(clean_transcript("hello , world ."), "hello, world.");
}

#[test]
fn preserves_repeated_words() {
    assert_eq!(clean_transcript("hello hello world"), "hello hello world");
}

#[test]
fn preserves_intentional_repeated_words() {
    assert_eq!(clean_transcript("very very important"), "very very important");
    assert_eq!(clean_transcript("bye bye"), "bye bye");
    assert_eq!(clean_transcript("no no don't do that"), "no no don't do that");
}

#[test]
fn empty_or_whitespace_only_input_returns_empty() {
    assert_eq!(clean_transcript("   \n\t  "), "");
}

#[test]
fn preserves_technical_terminology() {
    assert_eq!(clean_transcript("React   TypeScript   Tauri"), "React TypeScript Tauri");
}

#[test]
fn preserves_mixed_punctuation_and_text() {
    assert_eq!(
        clean_transcript("Use React , TypeScript and Tauri ."),
        "Use React, TypeScript and Tauri."
    );
}

#[test]
fn preserves_non_repeated_words_and_case() {
    assert_eq!(clean_transcript("HTTP API React TypeScript"), "HTTP API React TypeScript");
}

#[test]
fn leading_punctuation_stays_attached_to_itself() {
    assert_eq!(clean_transcript(", hello"), ", hello");
    assert_eq!(clean_transcript(" , , "), ",,");
}

#[test]
fn punctuation_runs_attach_to_the_word_before() {
    assert_eq!(clean_transcript("wait ... what ?!"), "wait... what?!");
}

#[test]
fn words_with_punctuation_inside_are_not_moved() {
    assert_eq!(clean_transcript("it is 5 p.m. , ok"), "it is 5 p.m., ok");
}

#[test]
fn unicode_whitespace_collapses() {
    assert_eq!(clean_transcript("\u{a0}hello\u{2003}\u{3000}world\u{85}"), "hello world");
}

#[test]
fn non_ascii_words_are_kept() {
    assert_eq!(clean_transcript("  naïve   café , déjà vu "), "naïve café, déjà vu");
}

#[test]
fn cleanup_is_stable_on_its_output() {
    let once = clean_transcript(" Use React , TypeScript and Tauri . ");
    assert_eq!(clean_transcript(&once), once);
}
