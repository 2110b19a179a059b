//! The streaming commit protocol: which part of a rolling-window hypothesis
//! is stable, what of it is new relative to the text already inserted, and
//! what the final transcript adds.
use vstd::prelude::*;
use crate::cleanup::{clean_chars, lemma_non_ws_empty, spec_clean_transcript};
use crate::config::opt_view;
use crate::history::HistoryEntry;
use crate::text::{
    all_ws, chars_of, common_len, common_prefix_len, copy_range, find_last_ws, is_prefix, is_ws,
    last_ws, lemma_common_len, lemma_last_ws, lemma_trim_end_empty_iff_empty, lower, lower_chars,
    string_from, trim, trim_chars, trim_end, trim_end_chars, trim_start, trim_start_chars,
};
use crate::transcription::TranscriptionResult;
use crate::words::{
    all_words, concat_all, is_word, join_words, join_with_spaces, lemma_concat_words,
    lemma_words_append_word, lemma_words_are_words, lemma_words_join, lemma_words_prefix_at_ws,
    lemma_words_trim_end, lemma_words_word, same_chars, split_words, words,
};

verus! {

/// Characters that `comparable_word` strips from both ends of a word.
pub open spec fn is_edge_punct(c: char) -> bool {
    c == '.' || c == ',' || c == '!' || c == '?' || c == ';' || c == ':' || c == '(' || c == ')'
        || c == '[' || c == ']' || c == '{' || c == '}' || c == '"' || c == '\''
}

fn is_edge_punctuation(c: char) -> (r: bool)
    ensures
        r == is_edge_punct(c),
{
    c == '.' || c == ',' || c == '!' || c == '?' || c == ';' || c == ':' || c == '(' || c == ')'
        || c == '[' || c == ']' || c == '{' || c == '}' || c == '"' || c == '\''
}

pub open spec fn strip_edge_start(s: Seq<char>) -> Seq<char>
    decreases s.len(),
{
    if s.len() > 0 && is_edge_punct(s[0]) {
        strip_edge_start(s.drop_first())
    } else {
        s
    }
}

pub open spec fn strip_edge_end(s: Seq<char>) -> Seq<char>
    decreases s.len(),
{
    if s.len() > 0 && is_edge_punct(s.last()) {
        strip_edge_end(s.drop_last())
    } else {
        s
    }
}

/// The form in which two words are compared across hypotheses: without
/// surrounding punctuation and quotes, in ASCII lower case.
pub open spec fn comparable(w: Seq<char>) -> Seq<char> {
    lower(strip_edge_end(strip_edge_start(w)))
}

fn comparable_word(w: &Vec<char>) -> (r: Vec<char>)
    ensures
        r@ == comparable(w@),
{
    let mut lo: usize = 0;
    assert(w@.skip(0) =~= w@);
    while lo < w.len() && is_edge_punctuation(w[lo])
        invariant
            lo <= w.len(),
            strip_edge_start(w@) == strip_edge_start(w@.skip(lo as int)),
        decreases w.len() - lo,
    {
        assert(w@.skip(lo as int).drop_first() =~= w@.skip(lo + 1));
        lo = lo + 1;
    }
    let start = copy_range(w, lo, w.len());
    assert(start@ =~= w@.skip(lo as int));
    let mut hi: usize = start.len();
    assert(start@.take(hi as int) =~= start@);
    while hi > 0 && is_edge_punctuation(start[hi - 1])
        invariant
            hi <= start.len(),
            strip_edge_end(start@) == strip_edge_end(start@.take(hi as int)),
        decreases hi,
    {
        assert(start@.take(hi as int).drop_last() =~= start@.take(hi - 1));
        hi = hi - 1;
    }
    let core = copy_range(&start, 0, hi);
    assert(core@ =~= start@.take(hi as int));
    lower_chars(&core)
}

pub open spec fn comparables(ws: Seq<Seq<char>>) -> Seq<Seq<char>> {
    ws.map_values(|w: Seq<char>| comparable(w))
}

/// The last `k` words of `a` match the first `k` words of `b`, word by word,
/// once compared as `comparable` forms.
pub open spec fn words_overlap(a: Seq<Seq<char>>, b: Seq<Seq<char>>, k: int) -> bool {
    &&& 0 <= k <= a.len()
    &&& k <= b.len()
    &&& forall|j: int| 0 <= j < k ==> comparable(#[trigger] a[a.len() - k + j]) == comparable(b[j])
}

/// The largest `k` in `1..=bound` for which `words_overlap(a, b, k)` holds,
/// or 0. With `single_needs_more`, an overlap of one word counts only when
/// `b` has a word after it.
pub open spec fn largest_overlap(
    a: Seq<Seq<char>>,
    b: Seq<Seq<char>>,
    bound: int,
    single_needs_more: bool,
) -> int
    decreases bound,
{
    if bound <= 0 {
        0
    } else if words_overlap(a, b, bound) && (bound >= 2 || !single_needs_more || bound < b.len()) {
        bound
    } else {
        largest_overlap(a, b, bound - 1, single_needs_more)
    }
}

pub proof fn lemma_largest_overlap(
    a: Seq<Seq<char>>,
    b: Seq<Seq<char>>,
    bound: int,
    single_needs_more: bool,
)
    ensures
        0 <= largest_overlap(a, b, bound, single_needs_more),
        bound >= 0 ==> largest_overlap(a, b, bound, single_needs_more) <= bound,
        largest_overlap(a, b, bound, single_needs_more) > 0 ==> words_overlap(
            a,
            b,
            largest_overlap(a, b, bound, single_needs_more),
        ),
    decreases bound,
{
    if bound > 0 {
        lemma_largest_overlap(a, b, bound - 1, single_needs_more);
    }
}

fn comparable_words(ws: &Vec<Vec<char>>) -> (r: Vec<Vec<char>>)
    ensures
        r.len() == ws.len(),
        r.deep_view() == comparables(ws.deep_view()),
{
    let mut r: Vec<Vec<char>> = Vec::new();
    let mut i: usize = 0;
    while i < ws.len()
        invariant
            i <= ws.len(),
            r.len() == i,
            r.deep_view() == comparables(ws.deep_view().take(i as int)),
        decreases ws.len() - i,
    {
        let c = comparable_word(&ws[i]);
        let ghost before = r.deep_view();
        assert(c.deep_view() =~= c@);
        assert(ws.deep_view()[i as int] == ws[i as int]@);
        r.push(c);
        assert(r.deep_view() =~= before.push(c@));
        assert(ws.deep_view().take(i + 1) =~= ws.deep_view().take(i as int).push(ws[i as int]@));
        assert(comparables(ws.deep_view().take(i + 1)) =~= comparables(ws.deep_view().take(i as int)).push(comparable(ws[i as int]@)));
        i = i + 1;
    }
    assert(ws.deep_view().take(ws.len() as int) =~= ws.deep_view());
    r
}

/// Whether the last `k` entries of `ca` equal the first `k` entries of `cb`.
fn tail_matches_head(ca: &Vec<Vec<char>>, cb: &Vec<Vec<char>>, k: usize) -> (r: bool)
    requires
        k <= ca.len(),
        k <= cb.len(),
    ensures
        r == (forall|j: int|
            0 <= j < k ==> #[trigger] ca.deep_view()[ca.len() - k + j] == cb.deep_view()[j]),
{
    let start: usize = ca.len() - k;
    let mut j: usize = 0;
    while j < k
        invariant
            j <= k <= ca.len(),
            k <= cb.len(),
            start == ca.len() - k,
            forall|i: int| 0 <= i < j ==> #[trigger] ca.deep_view()[ca.len() - k + i] == cb.deep_view()[i],
        decreases k - j,
    {
        let eq = same_chars(&ca[start + j], &cb[j]);
        assert(ca.deep_view()[start + j] == ca[start + j as int]@);
        assert(cb.deep_view()[j as int] == cb[j as int]@);
        if !eq {
            return false;
        }
        j = j + 1;
    }
    true
}

/// `largest_overlap(a, b, min(|a|, |b|), single_needs_more)`, computed.
fn find_overlap(a: &Vec<Vec<char>>, b: &Vec<Vec<char>>, single_needs_more: bool) -> (k: usize)
    ensures
        k <= a.len(),
        k <= b.len(),
        k as int == largest_overlap(
            a.deep_view(),
            b.deep_view(),
            if a.len() < b.len() { a.len() as int } else { b.len() as int },
            single_needs_more,
        ),
{
    let ca = comparable_words(a);
    let cb = comparable_words(b);
    let mut k: usize = if a.len() < b.len() { a.len() } else { b.len() };
    let ghost bound = k as int;
    while k > 0
        invariant
            k <= a.len(),
            k <= b.len(),
            ca.len() == a.len(),
            cb.len() == b.len(),
            ca.deep_view() == comparables(a.deep_view()),
            cb.deep_view() == comparables(b.deep_view()),
            bound == (if a.len() < b.len() { a.len() as int } else { b.len() as int }),
            largest_overlap(a.deep_view(), b.deep_view(), bound, single_needs_more)
                == largest_overlap(a.deep_view(), b.deep_view(), k as int, single_needs_more),
        decreases k,
    {
        let m = tail_matches_head(&ca, &cb, k);
        proof {
            let av = a.deep_view();
            let bv = b.deep_view();
            if m {
                assert forall|j: int| 0 <= j < k implies comparable(#[trigger] av[av.len() - k + j])
                    == comparable(bv[j]) by {
                    assert(ca.deep_view()[ca.len() - k + j] == cb.deep_view()[j]);
                }
                assert(av.len() == a.len() && bv.len() == b.len());
                assert(words_overlap(av, bv, k as int));
            } else {
                let j = choose|j: int|
                    0 <= j < k && !(#[trigger] ca.deep_view()[ca.len() - k + j] == cb.deep_view()[j]);
                assert(!(comparable(av[av.len() - k + j]) == comparable(bv[j])));
            }
        }
        if m && (k >= 2 || !single_needs_more || k < b.len()) {
            assert(a.deep_view().len() == a.len() && b.deep_view().len() == b.len());
            assert(words_overlap(a.deep_view(), b.deep_view(), k as int));
            assert(largest_overlap(a.deep_view(), b.deep_view(), k as int, single_needs_more) == k);
            return k;
        }
        k = k - 1;
    }
    k
}

pub open spec fn min_len(a: Seq<Seq<char>>, b: Seq<Seq<char>>) -> int {
    if a.len() < b.len() {
        a.len() as int
    } else {
        b.len() as int
    }
}

/// The number of characters of `current` in which to look for the end of
/// the last complete shared word: the common prefix of `previous` and
/// `current`, and, when `previous` ends there, also the character of
/// `current` that follows it (a whitespace there completes the word that
/// both hypotheses end with).
pub open spec fn shared_head_len(previous: Seq<char>, current: Seq<char>) -> int {
    let n: int = common_len(previous, current) as int;
    if n == previous.len() && n < current.len() {
        n + 1
    } else {
        n
    }
}

/// The part of `current` that ends with the last word that both hypotheses
/// agree on and that is complete in both: the head of `current` given by
/// `shared_head_len` is cut at its last whitespace, and trailing whitespace
/// is removed. Empty when that part holds no word.
pub open spec fn prefix_stable_part(previous: Seq<char>, current: Seq<char>) -> Seq<char> {
    let head_len: int = shared_head_len(previous, current);
    let j: int = last_ws(current.take(head_len));
    if j >= 0 {
        trim_end(current.take(j))
    } else {
        seq![]
    }
}

/// What `stable_prefix` returns.
pub open spec fn spec_stable_prefix(previous: Seq<char>, current: Seq<char>) -> Seq<char> {
    if previous.len() == 0 || current.len() == 0 {
        seq![]
    } else if prefix_stable_part(previous, current).len() > 0 {
        prefix_stable_part(previous, current)
    } else {
        let pw = words(previous);
        let cw = words(current);
        let k: int = largest_overlap(pw, cw, min_len(pw, cw), true);
        if k > 0 {
            join_words(cw.take(k))
        } else {
            seq![]
        }
    }
}

/// The stable part of the `current` hypothesis given the `previous` one.
///
/// While consecutive hypotheses share their beginning, the stable part is
/// that shared beginning up to its last complete word (a word is complete
/// once whitespace follows it in `current` and whitespace or the end of
/// `previous` follows it in `previous`). When they share no complete
/// word, the rolling window has moved on: the longest run of words that ends
/// `previous` and begins `current` (compared without surrounding punctuation
/// and case; one word only when `current` goes on after it) is stable, in the
/// form `current` gives it.
pub fn stable_prefix(previous: &str, current: &str) -> (r: String)
    ensures
        r@ == spec_stable_prefix(previous@, current@),
{
    let p = chars_of(previous);
    let c = chars_of(current);
    if p.len() == 0 || c.len() == 0 {
        return String::new();
    }
    let n: usize = common_prefix_len(&p, &c);
    proof {
        lemma_common_len(p@, c@);
    }
    let head_len: usize = if n == p.len() && n < c.len() {
        n + 1
    } else {
        n
    };
    let last = find_last_ws(&c, head_len);
    if let Some(j) = last {
        proof {
            lemma_last_ws(c@.take(head_len as int));
        }
        let t = copy_range(&c, 0, j);
        assert(t@ =~= c@.take(j as int));
        let candidate = trim_end_chars(&t);
        if candidate.len() > 0 {
            return string_from(&candidate);
        }
    }
    let pw = split_words(&p);
    let cw = split_words(&c);
    let k = find_overlap(&pw, &cw, true);
    if k > 0 {
        let joined = join_with_spaces(&cw, 0, k);
        string_from(&joined)
    } else {
        String::new()
    }
}

/// What `delta_after_committed` returns.
pub open spec fn spec_delta_after_committed(committed: Seq<char>, stable: Seq<char>) -> Seq<char> {
    if committed.is_prefix_of(stable) {
        trim_start(stable.skip(committed.len() as int))
    } else {
        let cw = words(committed);
        let sw = words(stable);
        let k: int = largest_overlap(cw, sw, min_len(cw, sw), false);
        if k > 0 {
            join_words(sw.skip(k))
        } else {
            seq![]
        }
    }
}

/// The part of `stable` that is not yet in `committed`.
///
/// When `stable` extends `committed`, it is the rest of `stable` without its
/// leading whitespace. Otherwise the longest run of words that ends
/// `committed` and begins `stable` (compared without surrounding punctuation
/// and case) is skipped and the words of `stable` after it are returned,
/// joined by single spaces; with no such run, nothing is new.
pub fn delta_after_committed(committed: &str, stable: &str) -> (r: String)
    ensures
        r@ == spec_delta_after_committed(committed@, stable@),
{
    let c = chars_of(committed);
    let s = chars_of(stable);
    if is_prefix(&c, &s) {
        let rest = copy_range(&s, c.len(), s.len());
        assert(rest@ =~= s@.skip(c@.len() as int));
        let trimmed = trim_start_chars(&rest);
        return string_from(&trimmed);
    }
    let cw = split_words(&c);
    let sw = split_words(&s);
    let k = find_overlap(&cw, &sw, false);
    if k > 0 {
        proof {
            lemma_largest_overlap(cw.deep_view(), sw.deep_view(), min_len(cw.deep_view(), sw.deep_view()), false);
        }
        let joined = join_with_spaces(&sw, k, sw.len());
        assert(sw.deep_view().subrange(k as int, sw.len() as int) =~= sw.deep_view().skip(k as int));
        string_from(&joined)
    } else {
        String::new()
    }
}

/// What `reconcile_final` returns.
pub open spec fn spec_reconcile_final(committed: Seq<char>, final_transcript: Seq<char>) -> Seq<char> {
    if committed.is_prefix_of(final_transcript) {
        trim_start(final_transcript.skip(committed.len() as int))
    } else if final_transcript.is_prefix_of(committed) {
        seq![]
    } else {
        let cw = words(committed);
        let fw = words(final_transcript);
        let k: int = largest_overlap(cw, fw, min_len(cw, fw), false);
        if k > 0 {
            join_words(fw.skip(k))
        } else {
            trim(final_transcript)
        }
    }
}

/// The part of the final transcript that still has to be inserted after the
/// text already `committed` while streaming.
///
/// When the final transcript extends `committed`, it is the rest without its
/// leading whitespace; when `committed` already covers the final transcript,
/// nothing. Otherwise the longest run of words that ends `committed` and
/// begins the final transcript is skipped; with no such run, the whole final
/// transcript, trimmed, remains.
pub fn reconcile_final(committed: &str, final_transcript: &str) -> (r: String)
    ensures
        r@ == spec_reconcile_final(committed@, final_transcript@),
{
    let c = chars_of(committed);
    let f = chars_of(final_transcript);
    if is_prefix(&c, &f) {
        let rest = copy_range(&f, c.len(), f.len());
        assert(rest@ =~= f@.skip(c@.len() as int));
        let trimmed = trim_start_chars(&rest);
        return string_from(&trimmed);
    }
    if is_prefix(&f, &c) {
        return String::new();
    }
    let cw = split_words(&c);
    let fw = split_words(&f);
    let k = find_overlap(&cw, &fw, false);
    if k > 0 {
        proof {
            lemma_largest_overlap(cw.deep_view(), fw.deep_view(), min_len(cw.deep_view(), fw.deep_view()), false);
        }
        let joined = join_with_spaces(&fw, k, fw.len());
        assert(fw.deep_view().subrange(k as int, fw.len() as int) =~= fw.deep_view().skip(k as int));
        string_from(&joined)
    } else {
        let trimmed = trim_chars(&f);
        string_from(&trimmed)
    }
}

/// Characters that attach to the text before them without a space.
pub open spec fn is_closing_punct(c: char) -> bool {
    c == ',' || c == '.' || c == '!' || c == '?' || c == ':' || c == ';' || c == ')' || c == ']'
        || c == '}'
}

/// What `join_delta` returns.
pub open spec fn spec_join_delta(committed: Seq<char>, delta: Seq<char>) -> Seq<char> {
    if trim(committed).len() == 0 || delta.len() == 0 {
        delta
    } else if is_closing_punct(delta[0]) {
        delta
    } else {
        seq![' '] + delta
    }
}

/// The text to insert for `delta` after `committed`: a space separates it
/// from earlier text, unless nothing was committed yet or it begins with
/// closing punctuation.
pub fn join_delta(committed: &str, delta: &str) -> (r: String)
    ensures
        r@ == spec_join_delta(committed@, delta@),
{
    let c = chars_of(committed);
    let d = chars_of(delta);
    let trimmed = trim_chars(&c);
    if trimmed.len() == 0 || d.len() == 0 {
        return string_from(&d);
    }
    let first = d[0];
    if first == ',' || first == '.' || first == '!' || first == '?' || first == ':' || first == ';'
        || first == ')' || first == ']' || first == '}' {
        string_from(&d)
    } else {
        let mut spaced: Vec<char> = Vec::new();
        spaced.push(' ');
        let mut i: usize = 0;
        while i < d.len()
            invariant
                i <= d.len(),
                spaced@ == seq![' '] + d@.take(i as int),
            decreases d.len() - i,
        {
            spaced.push(d[i]);
            i = i + 1;
            assert(spaced@ =~= seq![' '] + d@.take(i as int));
        }
        assert(d@.take(d.len() as int) =~= d@);
        string_from(&spaced)
    }
}

/// The length of the rolling audio window that each streaming pass
/// transcribes, in milliseconds.
pub const ROLLING_WINDOW_MS: u64 = 5000;

/// The pause between streaming passes, in milliseconds.
pub const POLL_INTERVAL_MS: u64 = 700;

/// The least audio a streaming pass transcribes, in milliseconds.
pub const MIN_AUDIO_MS: u64 = 900;

/// Whether `sample_count` samples at `sample_rate` hold at least
/// `MIN_AUDIO_MS` of audio (whole samples, rounded down).
pub fn has_enough_audio(sample_count: usize, sample_rate: u32) -> (r: bool)
    ensures
        r == (sample_count as int >= (sample_rate as int * MIN_AUDIO_MS as int) / 1000),
{
    let needed: u64 = (sample_rate as u64 * MIN_AUDIO_MS) / 1000;
    sample_count as u64 >= needed
}

/// What a streaming session remembers between passes: the previous
/// hypothesis, and as committed text the text of the most recent insertion
/// (each insertion replaces it).
pub struct StreamingState {
    pub previous_hypothesis: String,
    pub committed: String,
}

/// What one streaming pass asks for: text to insert into the target
/// application, and the cleaned transcript to show.
pub struct StreamingStep {
    pub insert: Option<String>,
    pub transcript: Option<String>,
}

/// The text to insert for a hypothesis `h`: the delta of its stable part
/// after `committed`, spaced by `join_delta`; none when either is empty.
pub open spec fn insertion_for(previous: Seq<char>, committed: Seq<char>, h: Seq<char>) -> Option<
    Seq<char>,
> {
    let stable = spec_stable_prefix(previous, h);
    if stable.len() == 0 {
        None
    } else {
        let delta = spec_delta_after_committed(committed, stable);
        if delta.len() == 0 {
            None
        } else {
            Some(spec_join_delta(committed, delta))
        }
    }
}

/// What is left to insert once the final transcript is known.
pub open spec fn final_insertion_for(committed: Seq<char>, final_transcript: Seq<char>) -> Option<
    Seq<char>,
> {
    let remaining = spec_reconcile_final(committed, final_transcript);
    if remaining.len() == 0 {
        None
    } else {
        Some(spec_join_delta(committed, remaining))
    }
}

impl StreamingState {
    /// A session before its first pass.
    pub fn new() -> (r: StreamingState)
        ensures
            r.previous_hypothesis@ == Seq::<char>::empty(),
            r.committed@ == Seq::<char>::empty(),
    {
        StreamingState { previous_hypothesis: String::new(), committed: String::new() }
    }

    /// A pass produced `raw_transcript`. An empty hypothesis (after trimming)
    /// forgets the previous one and asks for nothing; any other becomes the
    /// previous hypothesis, is shown cleaned, and may yield text to insert.
    pub fn on_hypothesis(&mut self, raw_transcript: &str) -> (step: StreamingStep)
        ensures
            final(self).committed == old(self).committed,
            trim(raw_transcript@).len() == 0 ==> {
                &&& final(self).previous_hypothesis@ == Seq::<char>::empty()
                &&& step.insert is None
                &&& step.transcript is None
            },
            trim(raw_transcript@).len() > 0 ==> {
                &&& final(self).previous_hypothesis@ == trim(raw_transcript@)
                &&& opt_view(step.insert) == insertion_for(
                    old(self).previous_hypothesis@,
                    old(self).committed@,
                    trim(raw_transcript@),
                )
                &&& opt_view(step.transcript) == Some(spec_clean_transcript(trim(raw_transcript@)))
            },
    {
        let raw = chars_of(raw_transcript);
        let hypothesis_chars = trim_chars(&raw);
        if hypothesis_chars.len() == 0 {
            self.previous_hypothesis = String::new();
            return StreamingStep { insert: None, transcript: None };
        }
        let hypothesis = string_from(&hypothesis_chars);
        let stable = stable_prefix(self.previous_hypothesis.as_str(), hypothesis.as_str());
        let mut insert: Option<String> = None;
        if !stable.as_str().is_empty() {
            let delta = delta_after_committed(self.committed.as_str(), stable.as_str());
            if !delta.as_str().is_empty() {
                insert = Some(join_delta(self.committed.as_str(), delta.as_str()));
            }
        }
        let cleaned = clean_chars(&hypothesis_chars);
        self.previous_hypothesis = hypothesis;
        StreamingStep { insert, transcript: Some(string_from(&cleaned)) }
    }

    /// The text asked for was inserted; it becomes the committed text, in
    /// place of what was committed before.
    pub fn on_inserted(&mut self, inserted: &str)
        ensures
            final(self).committed@ == inserted@,
            final(self).previous_hypothesis == old(self).previous_hypothesis,
    {
        self.committed = String::from_str(inserted);
    }

    /// The text to insert once the final transcript of the recording is
    /// known, if any.
    pub fn final_insertion(&self, final_transcript: &str) -> (r: Option<String>)
        ensures
            opt_view(r) == final_insertion_for(self.committed@, final_transcript@),
    {
        let remaining = reconcile_final(self.committed.as_str(), final_transcript);
        if remaining.as_str().is_empty() {
            None
        } else {
            Some(join_delta(self.committed.as_str(), remaining.as_str()))
        }
    }
}

/// The history entry for a finished session, when history is enabled.
pub fn history_entry_for(history_enabled: bool, timestamp: String, result: TranscriptionResult) -> (r:
    Option<HistoryEntry>)
    ensures
        match r {
            Some(entry) => history_enabled && entry.timestamp == timestamp && entry.raw_transcript
                == result.raw_transcript && entry.final_transcript == result.final_transcript,
            None => !history_enabled,
        },
{
    if history_enabled {
        Some(
            HistoryEntry {
                timestamp,
                raw_transcript: result.raw_transcript,
                final_transcript: result.final_transcript,
            },
        )
    } else {
        None
    }
}

proof fn lemma_common_len_self(s: Seq<char>)
    ensures
        common_len(s, s) == s.len(),
{
    lemma_common_len(s, s);
}

proof fn lemma_blank_has_no_words(x: Seq<char>)
    requires
        all_ws(x),
    ensures
        words(x).len() == 0,
{
    lemma_concat_words(x);
    lemma_non_ws_empty(x);
    lemma_words_are_words(x);
    if words(x).len() > 0 {
        let ws = words(x);
        assert(is_word(ws[ws.len() - 1]));
        assert(concat_all(ws) == concat_all(ws.drop_last()) + ws.last());
    }
}

/// Partial results with nothing in them commit nothing: an empty hypothesis
/// (or none before it) has no stable part, and an empty stable part adds
/// nothing after any committed text.
pub proof fn empty_hypotheses_commit_nothing(previous: Seq<char>, current: Seq<char>, committed: Seq<char>)
    ensures
        previous.len() == 0 || current.len() == 0 ==> spec_stable_prefix(previous, current).len()
            == 0,
        spec_delta_after_committed(committed, seq![]).len() == 0,
{
    let e = Seq::<char>::empty();
    if committed.is_prefix_of(e) {
        assert(e.skip(committed.len() as int) =~= e);
    } else {
        assert(words(e) =~= Seq::<Seq<char>>::empty());
        let cw = words(committed);
        assert(min_len(cw, words(e)) == 0);
    }
}

/// A hypothesis that repeats the previous one is stable up to its last
/// whitespace: its last word, which may still grow, waits for the next pass.
pub proof fn repeated_hypothesis_commits_complete_words(s: Seq<char>)
    requires
        s.len() > 0,
    ensures
        spec_stable_prefix(s, s) == (if last_ws(s) >= 0 {
            trim_end(s.take(last_ws(s)))
        } else {
            Seq::<char>::empty()
        }),
{
    lemma_common_len_self(s);
    assert(s.take(s.len() as int) =~= s);
    let j: int = last_ws(s);
    let candidate = prefix_stable_part(s, s);
    if candidate.len() == 0 {
        lemma_last_ws(s);
        let ws = words(s);
        assert(ws.len() <= 1) by {
            if j < 0 {
                assert(is_word(s)) by {
                    assert forall|i: int| 0 <= i < s.len() implies !is_ws(#[trigger] s[i]) by {}
                }
                lemma_words_word(s);
            } else {
                lemma_trim_end_empty_iff_empty(s.take(j));
                lemma_blank_has_no_words(s.take(j));
                let rest = s.skip(j + 1);
                if rest.len() == 0 {
                    assert(s.drop_last() =~= s.take(j));
                } else {
                    assert(is_word(rest)) by {
                        assert forall|i: int| 0 <= i < rest.len() implies !is_ws(#[trigger] rest[i]) by {
                            assert(rest[i] == s[j + 1 + i]);
                        }
                    }
                    lemma_words_append_word(s.take(j), s[j], rest);
                    assert(s.take(j) + seq![s[j]] + rest =~= s);
                }
            }
        }
        let b: int = min_len(ws, ws);
        if b == 1 {
            assert(largest_overlap(ws, ws, 0, true) == 0);
        }
    }
}

/// The stable part consists of the first words of the current hypothesis:
/// streaming only ever commits the beginning of what it hears now.
pub proof fn stable_prefix_is_current_beginning(previous: Seq<char>, current: Seq<char>)
    ensures
        words(spec_stable_prefix(previous, current)).is_prefix_of(words(current)),
{
    let r = spec_stable_prefix(previous, current);
    let cw = words(current);
    if previous.len() == 0 || current.len() == 0 {
        assert(words(r) =~= Seq::<Seq<char>>::empty());
    } else if prefix_stable_part(previous, current).len() > 0 {
        lemma_common_len(previous, current);
        let head_len: int = shared_head_len(previous, current);
        let head = current.take(head_len);
        let j: int = last_ws(head);
        lemma_last_ws(head);
        assert(head[j] == current[j]);
        assert(head.take(j) =~= current.take(j));
        lemma_words_trim_end(current.take(j));
        lemma_words_prefix_at_ws(current, j);
    } else {
        let pw = words(previous);
        let k: int = largest_overlap(pw, cw, min_len(pw, cw), true);
        lemma_largest_overlap(pw, cw, min_len(pw, cw), true);
        if k > 0 {
            lemma_words_are_words(current);
            let first = cw.take(k);
            assert(all_words(first)) by {
                assert forall|i: int| 0 <= i < first.len() implies is_word(#[trigger] first[i]) by {
                    assert(first[i] == cw[i]);
                }
            }
            lemma_words_join(first);
            assert(first =~= cw.subrange(0, k));
        } else {
            assert(words(r) =~= Seq::<Seq<char>>::empty());
        }
    }
}

/// A stable part that the committed text already holds adds nothing, and
/// neither does a final transcript that the committed text already covers.
pub proof fn committed_text_is_not_repeated(committed: Seq<char>, final_transcript: Seq<char>)
    ensures
        spec_delta_after_committed(committed, committed).len() == 0,
        final_transcript.is_prefix_of(committed) ==> spec_reconcile_final(
            committed,
            final_transcript,
        ).len() == 0,
{
    assert(committed.is_prefix_of(committed)) by {
        assert(committed =~= committed.subrange(0, committed.len() as int));
    }
    assert(committed.skip(committed.len() as int) =~= Seq::<char>::empty());
    if final_transcript.is_prefix_of(committed) && committed.is_prefix_of(final_transcript) {
        assert(final_transcript =~= committed);
    }
}

/// A stable part or final transcript that extends the committed text adds
/// exactly what follows it, without leading whitespace.
pub proof fn extension_adds_the_rest(committed: Seq<char>, rest: Seq<char>)
    ensures
        spec_delta_after_committed(committed, committed + rest) == trim_start(rest),
        spec_reconcile_final(committed, committed + rest) == trim_start(rest),
{
    assert(committed.is_prefix_of(committed + rest)) by {
        assert(committed =~= (committed + rest).subrange(0, committed.len() as int));
    }
    assert((committed + rest).skip(committed.len() as int) =~= rest);
}

/// Inserted text is separated from earlier text by at most one space, and
/// closing punctuation attaches without one.
pub proof fn join_delta_spacing(committed: Seq<char>, delta: Seq<char>)
    ensures
        spec_join_delta(committed, delta) == delta || spec_join_delta(committed, delta) == seq![' ']
            + delta,
        delta.len() > 0 && is_closing_punct(delta[0]) ==> spec_join_delta(committed, delta)
            == delta,
{
}

/// While the hypotheses share their beginning, the stable part holds only
/// words that both of them begin with: a word that the previous hypothesis
/// had otherwise (or still growing) is not committed.
pub proof fn shared_beginning_is_in_both(previous: Seq<char>, current: Seq<char>)
    ensures
        words(prefix_stable_part(previous, current)).is_prefix_of(words(previous)),
        words(prefix_stable_part(previous, current)).is_prefix_of(words(current)),
{
    let r = prefix_stable_part(previous, current);
    let n: int = common_len(previous, current) as int;
    lemma_common_len(previous, current);
    let head_len: int = shared_head_len(previous, current);
    let head = current.take(head_len);
    let j: int = last_ws(head);
    lemma_last_ws(head);
    if j >= 0 {
        assert(head[j] == current[j]);
        assert(head.take(j) =~= current.take(j));
        lemma_words_trim_end(current.take(j));
        lemma_words_prefix_at_ws(current, j);
        if j < n {
            assert(current.take(j) =~= previous.take(j)) by {
                assert forall|i: int| 0 <= i < j implies current.take(j)[i] == previous.take(j)[i] by {
                    assert(current.take(n)[i] == previous.take(n)[i]);
                }
            }
            assert(previous[j] == current[j]) by {
                assert(current.take(n)[j] == previous.take(n)[j]);
            }
            lemma_words_prefix_at_ws(previous, j);
        } else {
            assert(j == n && n == previous.len());
            assert(current.take(j) =~= previous) by {
                assert forall|i: int| 0 <= i < j implies current.take(j)[i] == previous[i] by {
                    assert(current.take(n)[i] == previous.take(n)[i]);
                }
            }
            let pw = words(previous);
            assert(pw =~= pw.subrange(0, pw.len() as int));
        }
    } else {
        assert(words(r) =~= Seq::<Seq<char>>::empty());
    }
}

/// The final transcript adds nothing that was committed already: when the
/// committed text covers it, nothing is inserted; when it extends the
/// committed text, only the rest is inserted.
pub proof fn final_insertion_adds_only_the_rest(committed: Seq<char>, rest: Seq<char>)
    ensures
        final_insertion_for(committed, committed) is None,
        trim_start(rest).len() > 0 ==> final_insertion_for(committed, committed + rest) == Some(
            spec_join_delta(committed, trim_start(rest)),
        ),
        trim_start(rest).len() == 0 ==> final_insertion_for(committed, committed + rest) is None,
{
    extension_adds_the_rest(committed, rest);
    assert(committed.is_prefix_of(committed)) by {
        assert(committed =~= committed.subrange(0, committed.len() as int));
    }
    assert(committed.skip(committed.len() as int) =~= Seq::<char>::empty());
}

/// A stable part that extends the committed text by a space and a word
/// adds that word, spaced as the stable part spaces it; and after a
/// committed text that already ends with it, the same stable part has
/// nothing new.
pub proof fn inserted_stable_part_is_not_repeated(committed: Seq<char>, word: Seq<char>)
    requires
        trim(committed).len() > 0,
        word.len() > 0,
        !is_ws(word[0]),
        !is_closing_punct(word[0]),
    ensures
        spec_delta_after_committed(committed, committed + seq![' '] + word) == word,
        spec_join_delta(committed, word) == seq![' '] + word,
        spec_delta_after_committed(
            committed + spec_join_delta(committed, word),
            committed + seq![' '] + word,
        ).len() == 0,
{
    let rest = seq![' '] + word;
    assert(committed + seq![' '] + word =~= committed + rest);
    extension_adds_the_rest(committed, rest);
    assert(rest.drop_first() =~= word);
    assert(trim_start(rest) == trim_start(rest.drop_first()));
    assert(trim_start(word) == word);
    committed_text_is_not_repeated(committed + rest, seq![]);
}

proof fn lemma_largest_overlap_is_largest(
    a: Seq<Seq<char>>,
    b: Seq<Seq<char>>,
    bound: int,
    single_needs_more: bool,
    k: int,
)
    requires
        0 < k <= bound,
        words_overlap(a, b, k),
        k >= 2 || !single_needs_more || k < b.len(),
    ensures
        largest_overlap(a, b, bound, single_needs_more) >= k,
    decreases bound,
{
    if bound > k {
        if !(words_overlap(a, b, bound) && (bound >= 2 || !single_needs_more || bound < b.len())) {
            lemma_largest_overlap_is_largest(a, b, bound - 1, single_needs_more, k);
        }
    }
}

/// The words after an overlap of `m` words, joined, split back into exactly
/// those words.
proof fn lemma_words_after(ws: Seq<Seq<char>>, m: int)
    requires
        all_words(ws),
        0 <= m <= ws.len(),
    ensures
        words(join_words(ws.skip(m))) == ws.skip(m),
{
    let rest = ws.skip(m);
    assert(all_words(rest)) by {
        assert forall|i: int| 0 <= i < rest.len() implies is_word(#[trigger] rest[i]) by {
            assert(rest[i] == ws[m + i]);
        }
    }
    lemma_words_join(rest);
}

/// When the stable part does not extend the committed text, the delta is
/// the stable part's words after an overlap with the end of the committed
/// text, and that overlap is the longest: every run of words that ends the
/// committed text and begins the stable part (compared as `comparable`
/// forms) is skipped, so no committed word is inserted again.
pub proof fn delta_skips_the_longest_overlap(committed: Seq<char>, stable: Seq<char>, k: int)
    requires
        !committed.is_prefix_of(stable),
        k > 0,
        words_overlap(words(committed), words(stable), k),
    ensures
        words(spec_delta_after_committed(committed, stable)) == words(stable).skip(
            words(stable).len() - words(spec_delta_after_committed(committed, stable)).len(),
        ),
        words(stable).len() - words(spec_delta_after_committed(committed, stable)).len() >= k,
        words_overlap(
            words(committed),
            words(stable),
            words(stable).len() - words(spec_delta_after_committed(committed, stable)).len(),
        ),
{
    let cw = words(committed);
    let sw = words(stable);
    let bound = min_len(cw, sw);
    lemma_largest_overlap_is_largest(cw, sw, bound, false, k);
    lemma_largest_overlap(cw, sw, bound, false);
    let m = largest_overlap(cw, sw, bound, false);
    lemma_words_are_words(stable);
    lemma_words_after(sw, m);
}

/// When neither the final transcript nor the committed text extends the
/// other, what remains is the final transcript's words after an overlap with
/// the end of the committed text, and that overlap is the longest: no word
/// of any overlapping run is inserted again.
pub proof fn reconcile_skips_the_longest_overlap(
    committed: Seq<char>,
    final_transcript: Seq<char>,
    k: int,
)
    requires
        !committed.is_prefix_of(final_transcript),
        !final_transcript.is_prefix_of(committed),
        k > 0,
        words_overlap(words(committed), words(final_transcript), k),
    ensures
        words(spec_reconcile_final(committed, final_transcript)) == words(final_transcript).skip(
            words(final_transcript).len() - words(
                spec_reconcile_final(committed, final_transcript),
            ).len(),
        ),
        words(final_transcript).len() - words(spec_reconcile_final(committed, final_transcript)).len()
            >= k,
        words_overlap(
            words(committed),
            words(final_transcript),
            words(final_transcript).len() - words(
                spec_reconcile_final(committed, final_transcript),
            ).len(),
        ),
{
    let cw = words(committed);
    let fw = words(final_transcript);
    let bound = min_len(cw, fw);
    lemma_largest_overlap_is_largest(cw, fw, bound, false, k);
    lemma_largest_overlap(cw, fw, bound, false);
    let m = largest_overlap(cw, fw, bound, false);
    lemma_words_are_words(final_transcript);
    lemma_words_after(fw, m);
}

/// The text inserted once the final transcript is known is what remains of
/// it after the committed text, with one space before it when there is
/// committed text and the remainder does not begin with closing punctuation
/// (`,` `.` `!` `?` `:` `;` `)` `]` `}`); nothing is inserted when nothing
/// remains.
pub proof fn final_insertion_is_spaced_remainder(committed: Seq<char>, final_transcript: Seq<char>)
    ensures
        spec_reconcile_final(committed, final_transcript).len() == 0 ==> final_insertion_for(
            committed,
            final_transcript,
        ) is None,
        spec_reconcile_final(committed, final_transcript).len() > 0 ==> {
            let r = spec_reconcile_final(committed, final_transcript);
            let closing = r[0] == ',' || r[0] == '.' || r[0] == '!' || r[0] == '?' || r[0] == ':'
                || r[0] == ';' || r[0] == ')' || r[0] == ']' || r[0] == '}';
            final_insertion_for(committed, final_transcript) == Some(
                if trim(committed).len() > 0 && !closing {
                    seq![' '] + r
                } else {
                    r
                },
            )
        },
{
}

/// `comparable` ignores each of `.` `,` `!` `?` `;` `:` `(` `)` `[` `]` `{`
/// `}` `"` `'` at either end of a word: words that differ only by such a
/// character compare equal.
pub proof fn comparable_ignores_edge_punctuation(w: Seq<char>, c: char)
    requires
        c == '.' || c == ',' || c == '!' || c == '?' || c == ';' || c == ':' || c == '(' || c
            == ')' || c == '[' || c == ']' || c == '{' || c == '}' || c == '"' || c == '\'',
    ensures
        comparable(w.push(c)) == comparable(w),
        comparable(seq![c] + w) == comparable(w),
{
    assert((seq![c] + w).drop_first() =~= w);
    lemma_strip_edge_start_push(w, c);
    let x = strip_edge_start(w);
    if x.len() > 0 {
        assert(x.push(c).drop_last() =~= x);
    } else {
        assert(strip_edge_end(seq![]) =~= Seq::<char>::empty());
    }
}

proof fn lemma_strip_edge_start_push(w: Seq<char>, c: char)
    requires
        is_edge_punct(c),
    ensures
        strip_edge_start(w).len() > 0 ==> strip_edge_start(w.push(c)) == strip_edge_start(w).push(c),
        strip_edge_start(w).len() == 0 ==> strip_edge_start(w.push(c)).len() == 0,
    decreases w.len(),
{
    if w.len() == 0 {
        let one = seq![c];
        assert(w.push(c) =~= one);
        assert(one.drop_first() =~= Seq::<char>::empty());
        assert(strip_edge_start(one.drop_first()) =~= Seq::<char>::empty());
        assert(strip_edge_start(one) == strip_edge_start(one.drop_first()));
    } else {
        assert(w.push(c)[0] == w[0]);
        assert(w.push(c).drop_first() =~= w.drop_first().push(c));
        if is_edge_punct(w[0]) {
            lemma_strip_edge_start_push(w.drop_first(), c);
        }
    }
}

/// When the hypotheses share no complete word at their beginning, the
/// stable part is the first words of the current hypothesis that end the
/// previous one, and as many of them as possible: every such run (of two or
/// more words, or of one word that `current` goes on after) is covered.
pub proof fn stable_prefix_takes_the_longest_overlap(previous: Seq<char>, current: Seq<char>, k: int)
    requires
        previous.len() > 0,
        current.len() > 0,
        prefix_stable_part(previous, current).len() == 0,
        k > 0,
        words_overlap(words(previous), words(current), k),
        k >= 2 || k < words(current).len(),
    ensures
        words(spec_stable_prefix(previous, current)) == words(current).take(
            words(spec_stable_prefix(previous, current)).len() as int,
        ),
        words(spec_stable_prefix(previous, current)).len() >= k,
        words_overlap(
            words(previous),
            words(current),
            words(spec_stable_prefix(previous, current)).len() as int,
        ),
{
    let pw = words(previous);
    let cw = words(current);
    let bound = min_len(pw, cw);
    lemma_largest_overlap_is_largest(pw, cw, bound, true, k);
    lemma_largest_overlap(pw, cw, bound, true);
    let m = largest_overlap(pw, cw, bound, true);
    lemma_words_are_words(current);
    let first = cw.take(m);
    assert(all_words(first)) by {
        assert forall|i: int| 0 <= i < first.len() implies is_word(#[trigger] first[i]) by {
            assert(first[i] == cw[i]);
        }
    }
    lemma_words_join(first);
}

} // verus!
