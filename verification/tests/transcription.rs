use vaktum::audio::{check_recorded, recording_path};
use vaktum::transcription::{check_audio_samples, check_wav_samples};
use vaktum::transcription::{
    check_transcriber_setup, check_wav_format, validate_wav_path, configured_model_path,
    latest_recording_path, transcription_result, whisper_language,
};

#[test]
fn segments_become_raw_and_final_transcripts() {
    let segments = vec![" Hello ,".to_owned(), " world .  ".to_owned()];
    let result = transcription_result(&segments).expect("text was produced");
    assert_eq!(result.raw_transcript, "Hello , world .");
    assert_eq!(result.final_transcript, "Hello, world.");
}

#[test]
fn blank_segments_are_an_error() {
    assert_eq!(
        transcription_result(&vec![" ".to_owned(), "\n".to_owned()]),
        Err("Whisper transcription failed: no transcript was produced".to_owned())
    );
    assert!(transcription_result(&Vec::new()).is_err());
}

#[test]
fn auto_language_means_detection() {
    assert_eq!(whisper_language(" AuTo "), None);
    assert_eq!(whisper_language(" en "), Some("en".to_owned()));
    assert_eq!(whisper_language("automatic"), Some("automatic".to_owned()));
}

#[test]
fn transcriber_setup_needs_model_and_language() {
    assert_eq!(check_transcriber_setup(true, "m.bin", "en"), Ok(()));
    assert_eq!(
        check_transcriber_setup(false, "m.bin", "en"),
        Err("Whisper model not found: m.bin".to_owned())
    );
    assert_eq!(
        check_transcriber_setup(true, "m.bin", "  "),
        Err("Whisper language is empty".to_owned())
    );
}

#[test]
fn wav_paths_are_checked_in_order() {
    assert_eq!(validate_wav_path(true, true, Some("WAV"), "a.WAV"), Ok(()));
    assert_eq!(
        validate_wav_path(false, false, None, "x.wav"),
        Err("Invalid WAV path: file does not exist: x.wav".to_owned())
    );
    assert_eq!(
        validate_wav_path(true, false, Some("wav"), "dir.wav"),
        Err("Invalid WAV path: not a file: dir.wav".to_owned())
    );
    let error = validate_wav_path(true, true, Some("txt"), "r.txt").unwrap_err();
    assert!(error.contains("expected a .wav file"));
    assert!(validate_wav_path(true, true, None, "noext").is_err());
}

#[test]
fn wav_format_message_names_the_format() {
    assert_eq!(check_wav_format(1, 16000, 16, true), Ok(()));
    assert_eq!(
        check_wav_format(2, 44100, 24, true),
        Err("Unsupported audio format: expected mono 16-bit PCM WAV at 16 kHz, got 2 channel(s), 44100 Hz, 24 bits".to_owned())
    );
    assert_eq!(
        check_wav_format(1, 16000, 16, false),
        Err("Unsupported audio format: expected integer PCM WAV".to_owned())
    );
    let error = check_wav_format(0, 4294967295, 65535, false).unwrap_err();
    assert!(error.ends_with("got 0 channel(s), 4294967295 Hz, 65535 bits"));
}

#[test]
fn model_override_wins_when_set() {
    assert_eq!(configured_model_path(Some("override-model.bin".to_owned()), "configured-model.bin"), "override-model.bin");
    assert_eq!(configured_model_path(Some(String::new()), "configured-model.bin"), "configured-model.bin");
    assert_eq!(configured_model_path(None, "configured-model.bin"), "configured-model.bin");
}

#[test]
fn recording_paths_need_local_app_data() {
    assert_eq!(
        latest_recording_path(Some("L".to_owned())),
        Ok(vec!["L".to_owned(), "Vaktum".to_owned(), "recordings".to_owned(), "latest.wav".to_owned()])
    );
    assert_eq!(latest_recording_path(None), Err("LOCALAPPDATA is unavailable".to_owned()));
    assert_eq!(
        recording_path(Some("L".to_owned())),
        Ok(vec!["L".to_owned(), "recordings".to_owned(), "latest.wav".to_owned()])
    );
    assert_eq!(check_recorded(0), Err("No audio was recorded".to_owned()));
    assert_eq!(check_recorded(3), Ok(()));
}

#[test]
fn empty_audio_is_refused() {
    assert_eq!(
        check_wav_samples(0),
        Err("Whisper transcription failed: WAV contains no audio samples".to_owned())
    );
    assert_eq!(check_wav_samples(1), Ok(()));
    assert_eq!(check_audio_samples(0), Err("Whisper transcription failed: no audio samples".to_owned()));
    assert_eq!(check_audio_samples(2), Ok(()));
}
