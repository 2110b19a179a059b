//! Where a recording is saved, and when there is one to save.
use vstd::prelude::*;

verus! {

/// The parts of the path of the recording being saved, in the `recordings`
/// directory of the local application data directory, which must be known.
pub fn recording_path(local_app_data: Option<String>) -> (r: Result<Vec<String>, String>)
    ensures
        match r {
            Ok(parts) => local_app_data matches Some(dir) && parts.deep_view() == seq![
                dir@,
                "recordings"@,
                "latest.wav"@,
            ],
            Err(message) => local_app_data is None && message@ == "LOCALAPPDATA is unavailable"@,
        },
{
    match local_app_data {
        Some(dir) => {
            let mut parts: Vec<String> = Vec::new();
            let ghost d = dir@;
            parts.push(dir);
            parts.push(String::from_str("recordings"));
            parts.push(String::from_str("latest.wav"));
            assert(parts.deep_view() =~= seq![d, "recordings"@, "latest.wav"@]);
            Ok(parts)
        },
        None => Err(String::from_str("LOCALAPPDATA is unavailable")),
    }
}

/// A recording can be saved only when it holds samples.
pub fn check_recorded(sample_count: usize) -> (r: Result<(), String>)
    ensures
        match r {
            Ok(()) => sample_count > 0,
            Err(message) => sample_count == 0 && message@ == "No audio was recorded"@,
        },
{
    if sample_count == 0 {
        Err(String::from_str("No audio was recorded"))
    } else {
        Ok(())
    }
}

} // verus!
