//! The application configuration: defaults, validity, and where it lives.
use vstd::prelude::*;
use crate::text::{chars_of, is_blank, is_ws, string_from, trim};
use crate::words::same_text;

verus! {

/// The user's settings.
#[derive(Debug, Clone, PartialEq, Eq)]
pub struct AppConfig {
    pub hotkey: String,
    pub microphone: String,
    pub language: String,
    pub model: String,
    pub history_enabled: bool,
}

/// Text that holds more than whitespace.
pub open spec fn filled(s: Seq<char>) -> bool {
    trim(s).len() > 0
}

/// Text that begins and ends with something besides whitespace is filled in.
pub proof fn lemma_filled_word(s: Seq<char>)
    requires
        s.len() > 0,
        !is_ws(s[0]),
        !is_ws(s[s.len() - 1]),
    ensures
        filled(s),
{
    assert(crate::text::trim_start(s) == s);
    assert(s.last() == s[s.len() - 1]);
    assert(crate::text::trim_end(s) == s);
}

/// What `valid` decides: hotkey, language and model are filled in, and the
/// microphone is `default` or filled in.
pub open spec fn spec_valid(config: AppConfig) -> bool {
    &&& filled(config.hotkey@)
    &&& filled(config.language@)
    &&& filled(config.model@)
    &&& (config.microphone@ == "default"@ || filled(config.microphone@))
}

fn is_filled(s: &String) -> (r: bool)
    ensures
        r == filled(s@),
{
    let v = chars_of(s.as_str());
    !is_blank(&v)
}

/// Whether a configuration can be used as it is.
pub fn valid(config: &AppConfig) -> (r: bool)
    ensures
        r == spec_valid(*config),
{
    let microphone_ok = if same_text(config.microphone.as_str(), "default") {
        true
    } else {
        is_filled(&config.microphone)
    };
    is_filled(&config.hotkey) && is_filled(&config.language) && is_filled(&config.model)
        && microphone_ok
}

impl AppConfig {
    /// The default settings around the given model path: hotkey
    /// `Ctrl+Shift+Space`, the `default` microphone, English, history on.
    pub fn with_model(model: String) -> (r: AppConfig)
        ensures
            r.hotkey@ == "Ctrl+Shift+Space"@,
            r.microphone@ == "default"@,
            r.language@ == "en"@,
            r.model == model,
            r.history_enabled,
            spec_valid(r) == filled(model@),
    {
        proof {
            reveal_strlit("Ctrl+Shift+Space");
            reveal_strlit("default");
            reveal_strlit("en");
            lemma_filled_word("Ctrl+Shift+Space"@);
            lemma_filled_word("en"@);
        }
        AppConfig {
            hotkey: String::from_str("Ctrl+Shift+Space"),
            microphone: String::from_str("default"),
            language: String::from_str("en"),
            model,
            history_enabled: true,
        }
    }
}

impl Default for AppConfig {
    /// The default settings for a process whose environment sets none of
    /// `VAKTUM_WHISPER_MODEL`, `LOCALAPPDATA` and `HOME`: the model path is
    /// then `.vaktum/models/ggml-base.en.bin`. This library does not read the
    /// environment; a caller that has its values gets the default model path
    /// from `default_model_path` and the settings from `with_model`.
    fn default() -> (r: AppConfig)
        ensures
            r.hotkey@ == "Ctrl+Shift+Space"@,
            r.microphone@ == "default"@,
            r.language@ == "en"@,
            r.model@ == join_path_spec(spec_default_model_path(None, None, None), '/'),
            r.history_enabled,
            spec_valid(r),
    {
        let parts = default_model_path(None, None, None);
        let model = join_path(&parts, '/');
        proof {
            reveal_strlit(".vaktum");
            reveal_strlit("models");
            reveal_strlit("ggml-base.en.bin");
            let p = seq![".vaktum"@, "models"@, "ggml-base.en.bin"@];
            assert(spec_default_model_path(None, None, None) =~= p);
            assert(p.drop_last().drop_last() =~= seq![".vaktum"@]);
            assert(p.drop_last() =~= seq![".vaktum"@, "models"@]);
            let m = join_path_spec(p, '/');
            assert(m == join_path_spec(p.drop_last(), '/') + seq!['/'] + "ggml-base.en.bin"@);
            let q = p.drop_last();
            assert(q.len() == 2);
            assert(q.drop_last().len() == 1);
            assert(join_path_spec(q.drop_last(), '/') == ".vaktum"@);
            assert(q.last() == "models"@);
            assert(join_path_spec(q, '/') == ".vaktum"@ + seq!['/'] + "models"@);
            assert(m[0] == '.');
            assert(m[m.len() - 1] == 'n');
            lemma_filled_word(m);
        }
        AppConfig::with_model(model)
    }
}

/// The parts of the directory that holds the application's files: the
/// local application data directory's `Vaktum`, else the home directory's
/// `.vaktum`, else `.vaktum` relative to the working directory.
pub open spec fn spec_data_dir(local_app_data: Option<Seq<char>>, home: Option<Seq<char>>) -> Seq<
    Seq<char>,
> {
    match local_app_data {
        Some(dir) => seq![dir, "Vaktum"@],
        None => match home {
            Some(dir) => seq![dir, ".vaktum"@],
            None => seq![".vaktum"@],
        },
    }
}

pub open spec fn opt_view(s: Option<String>) -> Option<Seq<char>> {
    match s {
        Some(v) => Some(v@),
        None => None,
    }
}

fn push_text(v: &mut Vec<String>, s: &str)
    ensures
        final(v).deep_view() == old(v).deep_view().push(s@),
{
    let ghost before = v.deep_view();
    v.push(String::from_str(s));
    assert(v.deep_view() =~= before.push(s@));
}

/// The data directory, given the values of the `LOCALAPPDATA` and `HOME`
/// environment variables.
pub fn data_dir(local_app_data: Option<String>, home: Option<String>) -> (r: Vec<String>)
    ensures
        r.deep_view() == spec_data_dir(opt_view(local_app_data), opt_view(home)),
{
    let mut r: Vec<String> = Vec::new();
    match local_app_data {
        Some(dir) => {
            push_text(&mut r, dir.as_str());
            push_text(&mut r, "Vaktum");
        },
        None => match home {
            Some(dir) => {
                push_text(&mut r, dir.as_str());
                push_text(&mut r, ".vaktum");
            },
            None => {
                push_text(&mut r, ".vaktum");
            },
        },
    }
    assert(r.deep_view() =~= spec_data_dir(opt_view(local_app_data), opt_view(home)));
    r
}

/// The parts of the configuration file's path.
pub fn config_path(local_app_data: Option<String>, home: Option<String>) -> (r: Vec<String>)
    ensures
        r.deep_view() == spec_data_dir(opt_view(local_app_data), opt_view(home)).push(
            "config.json"@,
        ),
{
    let mut r = data_dir(local_app_data, home);
    push_text(&mut r, "config.json");
    r
}

/// The parts of the default model path: a non-empty `VAKTUM_WHISPER_MODEL`
/// value as it is, else `models/ggml-base.en.bin` in the data directory.
pub open spec fn spec_default_model_path(
    model_override: Option<Seq<char>>,
    local_app_data: Option<Seq<char>>,
    home: Option<Seq<char>>,
) -> Seq<Seq<char>> {
    match model_override {
        Some(path) if path.len() > 0 => seq![path],
        _ => spec_data_dir(local_app_data, home) + seq!["models"@, "ggml-base.en.bin"@],
    }
}

pub fn default_model_path(
    model_override: Option<String>,
    local_app_data: Option<String>,
    home: Option<String>,
) -> (r: Vec<String>)
    ensures
        r.deep_view() == spec_default_model_path(
            opt_view(model_override),
            opt_view(local_app_data),
            opt_view(home),
        ),
{
    if let Some(path) = &model_override {
        if !path.as_str().is_empty() {
            let mut r: Vec<String> = Vec::new();
            push_text(&mut r, path.as_str());
            assert(r.deep_view() =~= seq![path@]);
            return r;
        }
    }
    let mut r = data_dir(local_app_data, home);
    let ghost dir = r.deep_view();
    push_text(&mut r, "models");
    push_text(&mut r, "ggml-base.en.bin");
    assert(r.deep_view() =~= dir + seq!["models"@, "ggml-base.en.bin"@]);
    r
}

/// The parts joined with the separator between neighbours.
pub open spec fn join_path_spec(parts: Seq<Seq<char>>, separator: char) -> Seq<char>
    decreases parts.len(),
{
    if parts.len() == 0 {
        seq![]
    } else if parts.len() == 1 {
        parts[0]
    } else {
        join_path_spec(parts.drop_last(), separator) + seq![separator] + parts.last()
    }
}

pub fn join_path(parts: &Vec<String>, separator: char) -> (r: String)
    ensures
        r@ == join_path_spec(parts.deep_view(), separator),
{
    let mut out: Vec<char> = Vec::new();
    let mut i: usize = 0;
    while i < parts.len()
        invariant
            i <= parts.len(),
            out@ == join_path_spec(parts.deep_view().take(i as int), separator),
        decreases parts.len() - i,
    {
        let ghost before = out@;
        if i > 0 {
            out.push(separator);
        }
        let part = chars_of(parts[i].as_str());
        let ghost mid = out@;
        let mut j: usize = 0;
        while j < part.len()
            invariant
                j <= part.len(),
                out@ == mid + part@.take(j as int),
            decreases part.len() - j,
        {
            out.push(part[j]);
            j = j + 1;
            assert(out@ =~= mid + part@.take(j as int));
        }
        proof {
            let sub = parts.deep_view().take(i + 1);
            assert(sub.drop_last() =~= parts.deep_view().take(i as int));
            assert(sub.last() == parts[i as int]@);
            assert(part@.take(part@.len() as int) =~= part@);
            if i == 0 {
                assert(out@ =~= part@);
            } else {
                assert(out@ =~= before + seq![separator] + part@);
            }
        }
        i = i + 1;
    }
    assert(parts.deep_view().take(parts.len() as int) =~= parts.deep_view());
    string_from(&out)
}

/// The configuration to use: the stored one when it could be read and is
/// valid, the fallback otherwise.
pub fn load(stored: Option<AppConfig>, fallback: AppConfig) -> (r: AppConfig)
    ensures
        r == (match stored {
            Some(config) if spec_valid(config) => config,
            _ => fallback,
        }),
{
    match stored {
        Some(config) => {
            if valid(&config) {
                config
            } else {
                fallback
            }
        },
        None => fallback,
    }
}

/// Loading never yields an invalid configuration when the fallback is
/// valid: an invalid stored configuration is replaced.
pub proof fn loaded_configuration_is_valid(stored: Option<AppConfig>, fallback: AppConfig)
    requires
        spec_valid(fallback),
    ensures
        spec_valid(
            match stored {
                Some(config) if spec_valid(config) => config,
                _ => fallback,
            },
        ),
{
}

} // verus!
