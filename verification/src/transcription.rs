//! What surrounds a Whisper run: setup checks, the WAV input checks, the
//! language to ask for, and the transcript made of the segments.
use vstd::prelude::*;
use crate::cleanup::{clean_chars, clean_transcript_empty_iff_blank, spec_clean_transcript};
use crate::text::lemma_trimmed_not_blank;
use crate::config::{opt_view};
use crate::text::{chars_of, lower, lower_chars, string_from, trim, trim_chars, is_blank};
use crate::words::{concat_all, same_chars};

verus! {

/// A transcript as Whisper produced it and as cleaned up.
#[derive(Debug, Clone, PartialEq, Eq)]
pub struct TranscriptionResult {
    pub raw_transcript: String,
    pub final_transcript: String,
}

pub open spec fn no_transcript_message() -> Seq<char> {
    "Whisper transcription failed: no transcript was produced"@
}

pub open spec fn empty_cleanup_message() -> Seq<char> {
    "Whisper transcription failed: cleanup produced an empty transcript"@
}

fn append_chars(out: &mut Vec<char>, s: &str)
    ensures
        final(out)@ == old(out)@ + s@,
{
    let v = chars_of(s);
    let ghost start = out@;
    let mut i: usize = 0;
    while i < v.len()
        invariant
            i <= v.len(),
            out@ == start + v@.take(i as int),
        decreases v.len() - i,
    {
        out.push(v[i]);
        i = i + 1;
        assert(out@ =~= start + v@.take(i as int));
    }
    assert(v@.take(v.len() as int) =~= v@);
}

/// The transcript made of Whisper's segments: the raw transcript is the
/// segments joined and trimmed, the final one its cleanup. Fails when the raw
/// transcript is empty, or when cleanup leaves nothing.
pub fn transcription_result(segments: &Vec<String>) -> (r: Result<TranscriptionResult, String>)
    ensures
        match r {
            Ok(result) => {
                &&& result.raw_transcript@ == trim(concat_all(segments.deep_view()))
                &&& result.final_transcript@ == spec_clean_transcript(result.raw_transcript@)
                &&& result.raw_transcript@.len() > 0
                &&& result.final_transcript@.len() > 0
            },
            Err(message) => trim(concat_all(segments.deep_view())).len() == 0 && message@
                == no_transcript_message(),
        },
{
    let mut joined: Vec<char> = Vec::new();
    let mut i: usize = 0;
    while i < segments.len()
        invariant
            i <= segments.len(),
            joined@ == concat_all(segments.deep_view().take(i as int)),
        decreases segments.len() - i,
    {
        append_chars(&mut joined, segments[i].as_str());
        proof {
            let sub = segments.deep_view().take(i + 1);
            assert(sub.drop_last() =~= segments.deep_view().take(i as int));
            assert(sub.last() == segments[i as int]@);
        }
        i = i + 1;
    }
    assert(segments.deep_view().take(segments.len() as int) =~= segments.deep_view());
    let raw = trim_chars(&joined);
    if raw.len() == 0 {
        return Err(String::from_str("Whisper transcription failed: no transcript was produced"));
    }
    let cleaned = clean_chars(&raw);
    proof {
        cleanup_keeps_transcripts(joined@);
    }
    if cleaned.len() == 0 {
        return Err(
            String::from_str("Whisper transcription failed: cleanup produced an empty transcript"),
        );
    }
    Ok(TranscriptionResult { raw_transcript: string_from(&raw), final_transcript: string_from(&cleaned) })
}

/// The language to ask Whisper for: the configured one, trimmed, or none
/// (detection) when it is `auto` in any ASCII case.
pub fn whisper_language(language: &str) -> (r: Option<String>)
    ensures
        match r {
            Some(l) => l@ == trim(language@) && lower(trim(language@)) != "auto"@,
            None => lower(trim(language@)) == "auto"@,
        },
{
    let v = chars_of(language);
    let trimmed = trim_chars(&v);
    let lowered = lower_chars(&trimmed);
    let auto = chars_of("auto");
    if same_chars(&lowered, &auto) {
        None
    } else {
        Some(string_from(&trimmed))
    }
}

fn concat(a: &str, b: &str) -> (r: String)
    ensures
        r@ == a@ + b@,
{
    let mut out: Vec<char> = chars_of(a);
    append_chars(&mut out, b);
    string_from(&out)
}

/// Checks what a transcriber needs before its model is loaded: a model file
/// at the model path, and a language that is more than whitespace.
pub fn check_transcriber_setup(model_found: bool, model_path: &str, language: &str) -> (r: Result<
    (),
    String,
>)
    ensures
        match r {
            Ok(()) => model_found && trim(language@).len() > 0,
            Err(message) => if !model_found {
                message@ == "Whisper model not found: "@ + model_path@
            } else {
                trim(language@).len() == 0 && message@ == "Whisper language is empty"@
            },
        },
{
    if !model_found {
        return Err(concat("Whisper model not found: ", model_path));
    }
    let v = chars_of(language);
    if is_blank(&v) {
        return Err(String::from_str("Whisper language is empty"));
    }
    Ok(())
}

/// The extension `wav`, in any ASCII case.
pub open spec fn is_wav_extension(extension: Option<&str>) -> bool {
    match extension {
        Some(e) => lower(e@) == "wav"@,
        None => false,
    }
}

/// Checks the path of a recording to transcribe: it exists, is a file, and
/// has the extension `wav` in any ASCII case. `shown` is the path as the
/// messages show it.
pub fn validate_wav_path(exists: bool, is_file: bool, extension: Option<&str>, shown: &str) -> (r:
    Result<(), String>)
    ensures
        match r {
            Ok(()) => exists && is_file && is_wav_extension(extension),
            Err(message) => if !exists {
                message@ == "Invalid WAV path: file does not exist: "@ + shown@
            } else if !is_file {
                message@ == "Invalid WAV path: not a file: "@ + shown@
            } else {
                !is_wav_extension(extension) && message@
                    == "Invalid WAV path: expected a .wav file: "@ + shown@
            },
        },
{
    if !exists {
        return Err(concat("Invalid WAV path: file does not exist: ", shown));
    }
    if !is_file {
        return Err(concat("Invalid WAV path: not a file: ", shown));
    }
    let is_wav = match extension {
        Some(e) => {
            let v = chars_of(e);
            let l = lower_chars(&v);
            let wav = chars_of("wav");
            same_chars(&l, &wav)
        },
        None => false,
    };
    if !is_wav {
        return Err(concat("Invalid WAV path: expected a .wav file: ", shown));
    }
    Ok(())
}

/// The model path a transcriber loads: a non-empty `VAKTUM_WHISPER_MODEL`
/// value, else the configured model.
pub fn configured_model_path(model_override: Option<String>, model: &str) -> (r: String)
    ensures
        r@ == (match opt_view(model_override) {
            Some(path) if path.len() > 0 => path,
            _ => model@,
        }),
{
    if let Some(path) = model_override {
        if !path.as_str().is_empty() {
            return path;
        }
    }
    String::from_str(model)
}

/// The parts of the path of the latest recording, under the local
/// application data directory, which must be known.
pub fn latest_recording_path(local_app_data: Option<String>) -> (r: Result<Vec<String>, String>)
    ensures
        match r {
            Ok(parts) => local_app_data matches Some(dir) && parts.deep_view() == seq![
                dir@,
                "Vaktum"@,
                "recordings"@,
                "latest.wav"@,
            ],
            Err(message) => local_app_data is None && message@ == "LOCALAPPDATA is unavailable"@,
        },
{
    match local_app_data {
        Some(dir) => {
            let mut parts: Vec<String> = Vec::new();
            let ghost d = dir@;
            parts.push(dir);
            parts.push(String::from_str("Vaktum"));
            parts.push(String::from_str("recordings"));
            parts.push(String::from_str("latest.wav"));
            assert(parts.deep_view() =~= seq![d, "Vaktum"@, "recordings"@, "latest.wav"@]);
            Ok(parts)
        },
        None => Err(String::from_str("LOCALAPPDATA is unavailable")),
    }
}

/// Cleanup never empties a transcript that holds more than whitespace, so
/// a transcription fails only when Whisper produced no text at all.
pub proof fn cleanup_keeps_transcripts(raw: Seq<char>)
    ensures
        trim(raw).len() > 0 ==> spec_clean_transcript(trim(raw)).len() > 0,
{
    lemma_trimmed_not_blank(raw);
    clean_transcript_empty_iff_blank(trim(raw));
}

/// The decimal digit of a number below ten.
pub open spec fn digit(d: nat) -> char {
    ((d + 48) as u32) as char
}

/// The decimal representation of a number, as `u64::to_string` gives it.
pub open spec fn decimal(n: nat) -> Seq<char>
    decreases n,
{
    if n < 10 {
        seq![digit(n)]
    } else {
        decimal(n / 10).push(digit(n % 10))
    }
}

fn decimal_chars(n: u64) -> (r: Vec<char>)
    ensures
        r@ == decimal(n as nat),
    decreases n,
{
    let d: u8 = (n % 10) as u8;
    let c: char = (d + 48) as char;
    if n < 10 {
        let mut r: Vec<char> = Vec::new();
        r.push(c);
        assert(r@ =~= seq![digit(n as nat)]);
        r
    } else {
        let mut r = decimal_chars(n / 10);
        r.push(c);
        r
    }
}

/// The message for a recording in another format than mono 16-bit PCM at
/// 16 kHz.
pub open spec fn format_message(channels: u16, sample_rate: u32, bits_per_sample: u16) -> Seq<
    char,
> {
    "Unsupported audio format: expected mono 16-bit PCM WAV at 16 kHz, got "@ + decimal(
        channels as nat,
    ) + " channel(s), "@ + decimal(sample_rate as nat) + " Hz, "@ + decimal(bits_per_sample as nat)
        + " bits"@
}

/// Checks the format of a recording before it is transcribed: one channel,
/// 16 000 samples a second, 16-bit integer samples.
pub fn check_wav_format(channels: u16, sample_rate: u32, bits_per_sample: u16, integer_samples: bool) -> (r:
    Result<(), String>)
    ensures
        match r {
            Ok(()) => channels == 1 && sample_rate == 16000 && bits_per_sample == 16
                && integer_samples,
            Err(message) => if channels != 1 || sample_rate != 16000 || bits_per_sample != 16 {
                message@ == format_message(channels, sample_rate, bits_per_sample)
            } else {
                !integer_samples && message@
                    == "Unsupported audio format: expected integer PCM WAV"@
            },
        },
{
    if channels != 1 || sample_rate != 16000 || bits_per_sample != 16 {
        let mut out = chars_of("Unsupported audio format: expected mono 16-bit PCM WAV at 16 kHz, got ");
        let ghost prefix = out@;
        let ch = decimal_chars(channels as u64);
        append_vec(&mut out, &ch);
        append_chars(&mut out, " channel(s), ");
        let rate = decimal_chars(sample_rate as u64);
        append_vec(&mut out, &rate);
        append_chars(&mut out, " Hz, ");
        let bits = decimal_chars(bits_per_sample as u64);
        append_vec(&mut out, &bits);
        append_chars(&mut out, " bits");
        return Err(string_from(&out));
    }
    if !integer_samples {
        return Err(String::from_str("Unsupported audio format: expected integer PCM WAV"));
    }
    Ok(())
}

fn append_vec(out: &mut Vec<char>, v: &Vec<char>)
    ensures
        final(out)@ == old(out)@ + v@,
{
    let ghost start = out@;
    let mut i: usize = 0;
    while i < v.len()
        invariant
            i <= v.len(),
            out@ == start + v@.take(i as int),
        decreases v.len() - i,
    {
        out.push(v[i]);
        i = i + 1;
        assert(out@ =~= start + v@.take(i as int));
    }
    assert(v@.take(v.len() as int) =~= v@);
}

/// A recording to transcribe must hold samples.
pub fn check_wav_samples(sample_count: usize) -> (r: Result<(), String>)
    ensures
        match r {
            Ok(()) => sample_count > 0,
            Err(message) => sample_count == 0 && message@
                == "Whisper transcription failed: WAV contains no audio samples"@,
        },
{
    if sample_count == 0 {
        Err(String::from_str("Whisper transcription failed: WAV contains no audio samples"))
    } else {
        Ok(())
    }
}

/// Audio to transcribe must hold samples.
pub fn check_audio_samples(sample_count: usize) -> (r: Result<(), String>)
    ensures
        match r {
            Ok(()) => sample_count > 0,
            Err(message) => sample_count == 0 && message@
                == "Whisper transcription failed: no audio samples"@,
        },
{
    if sample_count == 0 {
        Err(String::from_str("Whisper transcription failed: no audio samples"))
    } else {
        Ok(())
    }
}

} // verus!
