//! The transcript history: newest entry first, at most `HISTORY_LIMIT` kept.
use vstd::prelude::*;
use crate::config::{data_dir, opt_view, spec_data_dir};

verus! {

/// The number of entries the history keeps.
pub const HISTORY_LIMIT: usize = 100;

/// One finished dictation.
#[derive(Debug, Clone, PartialEq, Eq)]
pub struct HistoryEntry {
    pub timestamp: String,
    pub raw_transcript: String,
    pub final_transcript: String,
}

/// The first `HISTORY_LIMIT` entries of `entries` (all of them when there
/// are fewer).
pub open spec fn newest(entries: Seq<HistoryEntry>) -> Seq<HistoryEntry> {
    if entries.len() <= HISTORY_LIMIT {
        entries
    } else {
        entries.take(HISTORY_LIMIT as int)
    }
}

/// Keeps the newest `HISTORY_LIMIT` entries of a stored history.
pub fn keep_newest(entries: Vec<HistoryEntry>) -> (r: Vec<HistoryEntry>)
    ensures
        r@ == newest(entries@),
{
    let mut entries = entries;
    entries.truncate(HISTORY_LIMIT);
    entries
}

/// The history as read from storage: the newest `HISTORY_LIMIT` entries of
/// what was read, or none when nothing could be read.
pub fn load(stored: Option<Vec<HistoryEntry>>) -> (r: Vec<HistoryEntry>)
    ensures
        r@ == (match stored {
            Some(entries) => newest(entries@),
            None => Seq::<HistoryEntry>::empty(),
        }),
{
    match stored {
        Some(entries) => keep_newest(entries),
        None => Vec::new(),
    }
}

/// The history with `entry` added as the newest one, keeping at most
/// `HISTORY_LIMIT` entries.
pub fn append(entries: Vec<HistoryEntry>, entry: HistoryEntry) -> (r: Vec<HistoryEntry>)
    ensures
        r@ == newest(seq![entry] + entries@),
{
    let mut entries = entries;
    let ghost before = entries@;
    entries.insert(0, entry);
    assert(entries@ =~= seq![entry] + before);
    entries.truncate(HISTORY_LIMIT);
    entries
}

/// The parts of the history file's path.
pub fn history_path(local_app_data: Option<String>, home: Option<String>) -> (r: Vec<String>)
    ensures
        r.deep_view() == spec_data_dir(opt_view(local_app_data), opt_view(home)).push(
            "history.json"@,
        ),
{
    let mut r = data_dir(local_app_data, home);
    let ghost before = r.deep_view();
    r.push(String::from_str("history.json"));
    assert(r.deep_view() =~= before.push("history.json"@));
    r
}

/// Appending puts the new entry first, keeps the earlier entries after it
/// in their order, and never holds more than `HISTORY_LIMIT` entries.
pub proof fn append_keeps_newest_first(entries: Seq<HistoryEntry>, entry: HistoryEntry)
    ensures
        newest(seq![entry] + entries).len() <= HISTORY_LIMIT,
        newest(seq![entry] + entries).len() == if entries.len() < HISTORY_LIMIT {
            entries.len() as int + 1
        } else {
            HISTORY_LIMIT as int
        },
        newest(seq![entry] + entries)[0] == entry,
        forall|i: int|
            0 < i < newest(seq![entry] + entries).len() ==> #[trigger] newest(
                seq![entry] + entries,
            )[i] == entries[i - 1],
{
}

/// A stored history reads back as it was written: what `append` produces is
/// what `load` returns for it.
pub proof fn appended_history_loads_back(entries: Seq<HistoryEntry>, entry: HistoryEntry)
    ensures
        newest(newest(seq![entry] + entries)) == newest(seq![entry] + entries),
{
}

/// Reading a history never yields more than `HISTORY_LIMIT` entries, and
/// yields the first ones of what was stored.
pub proof fn loaded_history_is_bounded(stored: Seq<HistoryEntry>)
    ensures
        newest(stored).len() <= HISTORY_LIMIT,
        newest(stored).is_prefix_of(stored),
{
    assert(newest(stored) =~= stored.subrange(0, newest(stored).len() as int));
}

} // verus!
