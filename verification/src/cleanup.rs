//! Transcript cleanup: whitespace collapsing and punctuation spacing.
use vstd::prelude::*;
use crate::text::{
    chars_of, is_ascii_punct, is_ascii_punctuation, string_from, trim_end, trim_end_chars,
};
use crate::text::{all_ws, is_ws};
use crate::words::{
    all_words, concat_all, is_word, join_words, lemma_concat_words, lemma_non_ws_add,
    lemma_words_append_word, lemma_words_are_words, lemma_words_join, lemma_words_word, non_ws,
    split_words, words,
};

verus! {

/// A token made only of ASCII punctuation (`,`, `.`, `?!` and the like).
pub open spec fn is_punctuation_word(t: Seq<char>) -> bool {
    t.len() > 0 && forall|i: int| 0 <= i < t.len() ==> is_ascii_punct(#[trigger] t[i])
}

/// The tokens laid out with one space between them, except that a
/// punctuation token is attached to the text before it.
pub open spec fn normalize(tokens: Seq<Seq<char>>) -> Seq<char>
    decreases tokens.len(),
{
    if tokens.len() == 0 {
        seq![]
    } else {
        let r = normalize(tokens.drop_last());
        let t = tokens.last();
        if is_punctuation_word(t) {
            trim_end(r) + t
        } else if r.len() == 0 {
            t
        } else {
            r + seq![' '] + t
        }
    }
}

/// What `clean_transcript` returns.
pub open spec fn spec_clean_transcript(s: Seq<char>) -> Seq<char> {
    normalize(words(s))
}

fn is_punctuation_token(t: &Vec<char>) -> (r: bool)
    ensures
        r == is_punctuation_word(t@),
{
    if t.len() == 0 {
        return false;
    }
    let mut i: usize = 0;
    while i < t.len()
        invariant
            i <= t.len(),
            forall|j: int| 0 <= j < i ==> is_ascii_punct(#[trigger] t@[j]),
        decreases t.len() - i,
    {
        if !is_ascii_punctuation(t[i]) {
            return false;
        }
        i = i + 1;
    }
    true
}

fn normalize_punctuation_spacing(tokens: &Vec<Vec<char>>) -> (r: Vec<char>)
    ensures
        r@ == normalize(tokens.deep_view()),
{
    let mut result: Vec<char> = Vec::new();
    let mut i: usize = 0;
    while i < tokens.len()
        invariant
            i <= tokens.len(),
            result@ == normalize(tokens.deep_view().take(i as int)),
        decreases tokens.len() - i,
    {
        let token = &tokens[i];
        let ghost before = result@;
        proof {
            let ts = tokens.deep_view().take(i + 1);
            assert(ts.drop_last() =~= tokens.deep_view().take(i as int));
            assert(ts.last() == token@);
        }
        if is_punctuation_token(token) {
            result = trim_end_chars(&result);
        } else if result.len() > 0 {
            result.push(' ');
        }
        let ghost mid = result@;
        let mut j: usize = 0;
        while j < token.len()
            invariant
                j <= token.len(),
                result@ == mid + token@.take(j as int),
            decreases token.len() - j,
        {
            result.push(token[j]);
            j = j + 1;
            assert(result@ =~= mid + token@.take(j as int));
        }
        assert(token@.take(token.len() as int) =~= token@);
        proof {
            if !is_punctuation_word(token@) && before.len() == 0 {
                assert(mid =~= seq![]);
                assert(result@ =~= token@);
            }
        }
        i = i + 1;
    }
    assert(tokens.deep_view().take(tokens.len() as int) =~= tokens.deep_view());
    result
}

/// Cleans a raw transcript: whitespace runs (leading and trailing ones
/// included) collapse, words stay as they are, and punctuation tokens
/// attach to the word before them ("hello , world ." becomes "hello, world.").
pub fn clean_transcript(input: &str) -> (r: String)
    ensures
        r@ == spec_clean_transcript(input@),
{
    let chars = chars_of(input);
    let cleaned = clean_chars(&chars);
    string_from(&cleaned)
}

/// `clean_transcript` on characters.
pub fn clean_chars(chars: &Vec<char>) -> (r: Vec<char>)
    ensures
        r@ == spec_clean_transcript(chars@),
{
    let tokens = split_words(chars);
    if tokens.len() == 0 {
        return Vec::new();
    }
    normalize_punctuation_spacing(&tokens)
}

/// No whitespace at either end, and each whitespace character is a single
/// space between two other characters.
pub open spec fn well_spaced(r: Seq<char>) -> bool {
    &&& r.len() > 0 ==> !is_ws(r[0]) && !is_ws(r.last())
    &&& forall|i: int|
        0 <= i < r.len() && is_ws(#[trigger] r[i]) ==> r[i] == ' ' && !is_ws(r[i - 1]) && !is_ws(
            r[i + 1],
        )
}

pub proof fn lemma_non_ws_of_word(w: Seq<char>)
    requires
        forall|i: int| 0 <= i < w.len() ==> !is_ws(#[trigger] w[i]),
    ensures
        non_ws(w) == w,
    decreases w.len(),
{
    if w.len() > 0 {
        let v = w.drop_last();
        assert forall|i: int| 0 <= i < v.len() implies !is_ws(#[trigger] v[i]) by {
            assert(v[i] == w[i]);
        }
        lemma_non_ws_of_word(v);
        assert(!is_ws(w[w.len() - 1]));
        assert(v.push(w.last()) =~= w);
    }
}

pub proof fn lemma_non_ws_empty(s: Seq<char>)
    ensures
        (non_ws(s).len() == 0) == all_ws(s),
    decreases s.len(),
{
    if s.len() > 0 {
        lemma_non_ws_empty(s.drop_last());
        if all_ws(s.drop_last()) && is_ws(s.last()) {
            assert forall|i: int| 0 <= i < s.len() implies is_ws(#[trigger] s[i]) by {
                if i < s.len() - 1 {
                    assert(s[i] == s.drop_last()[i]);
                }
            }
        }
        if all_ws(s) {
            assert(is_ws(s[s.len() - 1]));
            assert forall|i: int| 0 <= i < s.drop_last().len() implies is_ws(
                #[trigger] s.drop_last()[i],
            ) by {
                assert(s.drop_last()[i] == s[i]);
            }
        }
    }
}

/// On words, `normalize` leaves a well spaced text made of their characters.
pub proof fn lemma_normalize(tokens: Seq<Seq<char>>)
    requires
        all_words(tokens),
    ensures
        well_spaced(normalize(tokens)),
        non_ws(normalize(tokens)) == concat_all(tokens),
        (normalize(tokens).len() == 0) == (tokens.len() == 0),
    decreases tokens.len(),
{
    if tokens.len() > 0 {
        let init = tokens.drop_last();
        assert(all_words(init)) by {
            assert forall|i: int| 0 <= i < init.len() implies is_word(#[trigger] init[i]) by {
                assert(init[i] == tokens[i]);
            }
        }
        lemma_normalize(init);
        let r0 = normalize(init);
        let t = tokens.last();
        assert(is_word(tokens[tokens.len() - 1]));
        assert(!is_ws(t[0]));
        assert(!is_ws(t[t.len() - 1]));
        lemma_non_ws_of_word(t);
        let r = normalize(tokens);
        if r0.len() > 0 {
            assert(!is_ws(r0[r0.len() - 1]));
        }
        assert(trim_end(r0) == r0);
        if is_punctuation_word(t) {
            assert(r == r0 + t);
            lemma_non_ws_add(r0, t);
            assert forall|i: int| 0 <= i < r.len() && is_ws(#[trigger] r[i]) implies r[i] == ' '
                && !is_ws(r[i - 1]) && !is_ws(r[i + 1]) by {
                if i < r0.len() {
                    assert(r[i] == r0[i]);
                    assert(r[i - 1] == r0[i - 1]);
                    assert(r[i + 1] == r0[i + 1]);
                } else {
                    assert(r[i] == t[i - r0.len()]);
                }
            }
            if r0.len() > 0 {
                assert(r[0] == r0[0]);
            } else {
                assert(r[0] == t[0]);
            }
            assert(r.last() == t.last());
        } else if r0.len() == 0 {
            assert(r == t);
            assert(init.len() == 0);
            assert(concat_all(init) =~= Seq::<char>::empty());
            assert(concat_all(tokens) =~= t);
        } else {
            let sp = r0 + seq![' '];
            assert(r == sp + t);
            lemma_non_ws_add(r0, seq![' ']);
            lemma_non_ws_add(sp, t);
            assert(non_ws(seq![' ']) =~= Seq::<char>::empty()) by {
                let one = seq![' '];
                assert(one.drop_last() =~= Seq::<char>::empty());
                assert(is_ws(one.last()));
                assert(non_ws(one) == non_ws(one.drop_last()));
                assert(non_ws(one.drop_last()) =~= Seq::<char>::empty());
            }
            assert forall|i: int| 0 <= i < r.len() && is_ws(#[trigger] r[i]) implies r[i] == ' '
                && !is_ws(r[i - 1]) && !is_ws(r[i + 1]) by {
                if i < r0.len() {
                    assert(r[i] == r0[i]);
                    assert(r[i - 1] == r0[i - 1]);
                    assert(r[i + 1] == r0[i + 1]);
                } else if i == r0.len() {
                    assert(r[i - 1] == r0[r0.len() - 1]);
                    assert(r[i + 1] == t[0]);
                } else {
                    assert(r[i] == t[i - r0.len() - 1]);
                }
            }
            assert(r[0] == r0[0]);
            assert(r.last() == t.last());
            assert(non_ws(r0) + Seq::<char>::empty() + t =~= concat_all(init) + t);
        }
    }
}

/// Cleanup trims the transcript and collapses each run of whitespace
/// between words to one space (or none, before punctuation).
pub proof fn clean_transcript_is_well_spaced(s: Seq<char>)
    ensures
        well_spaced(spec_clean_transcript(s)),
{
    lemma_words_are_words(s);
    lemma_normalize(words(s));
}

/// Cleanup keeps every non-whitespace character, in order and in its case:
/// repeated words, technical terms and capitals all stay.
pub proof fn clean_transcript_keeps_text(s: Seq<char>)
    ensures
        non_ws(spec_clean_transcript(s)) == non_ws(s),
{
    lemma_words_are_words(s);
    lemma_normalize(words(s));
    lemma_concat_words(s);
}

/// Cleanup yields nothing exactly for empty or whitespace-only input.
pub proof fn clean_transcript_empty_iff_blank(s: Seq<char>)
    ensures
        (spec_clean_transcript(s).len() == 0) == all_ws(s),
{
    lemma_words_are_words(s);
    lemma_normalize(words(s));
    lemma_concat_words(s);
    lemma_non_ws_empty(s);
    if words(s).len() > 0 {
        let ws = words(s);
        assert(is_word(ws[ws.len() - 1]));
        lemma_concat_last_nonempty(ws);
    } else {
        assert(concat_all(words(s)) =~= Seq::<char>::empty());
    }
}

proof fn lemma_concat_last_nonempty(ws: Seq<Seq<char>>)
    requires
        ws.len() > 0,
        ws.last().len() > 0,
    ensures
        concat_all(ws).len() > 0,
{
}

/// The words of a normalized text: each punctuation token joins the word
/// before it.
pub open spec fn glue(tokens: Seq<Seq<char>>) -> Seq<Seq<char>>
    decreases tokens.len(),
{
    if tokens.len() == 0 {
        seq![]
    } else {
        let g = glue(tokens.drop_last());
        let t = tokens.last();
        if is_punctuation_word(t) && g.len() > 0 {
            g.update(g.len() - 1, g.last() + t)
        } else {
            g.push(t)
        }
    }
}

/// Only the first of the words may be punctuation alone.
pub open spec fn punctuation_only_first(g: Seq<Seq<char>>) -> bool {
    forall|i: int| 1 <= i < g.len() ==> !is_punctuation_word(#[trigger] g[i])
}

proof fn lemma_join_nonempty(g: Seq<Seq<char>>)
    requires
        g.len() > 0,
        g.last().len() > 0,
    ensures
        join_words(g).len() > 0,
{
}

proof fn lemma_glue(tokens: Seq<Seq<char>>)
    requires
        all_words(tokens),
    ensures
        normalize(tokens) == join_words(glue(tokens)),
        (glue(tokens).len() > 0) == (tokens.len() > 0),
        all_words(glue(tokens)),
        punctuation_only_first(glue(tokens)),
    decreases tokens.len(),
{
    if tokens.len() > 0 {
        let init = tokens.drop_last();
        assert(all_words(init)) by {
            assert forall|i: int| 0 <= i < init.len() implies is_word(#[trigger] init[i]) by {
                assert(init[i] == tokens[i]);
            }
        }
        lemma_glue(init);
        lemma_normalize(init);
        let g = glue(init);
        let t = tokens.last();
        let r = normalize(init);
        assert(is_word(tokens[tokens.len() - 1]));
        if r.len() > 0 {
            assert(!is_ws(r[r.len() - 1]));
        }
        assert(trim_end(r) == r);
        if is_punctuation_word(t) && g.len() > 0 {
            let n: int = g.len() as int;
            let x = g.last();
            let u = g.update(n - 1, x + t);
            assert(is_word(g[n - 1]));
            if n == 1 {
                assert(join_words(u) == u[0]);
                assert(join_words(g) == g[0]);
            } else {
                assert(u.drop_last() =~= g.drop_last());
                assert(join_words(u) == join_words(u.drop_last()) + seq![' '] + u.last());
                assert(join_words(g) == join_words(g.drop_last()) + seq![' '] + g.last());
            }
            assert(join_words(u) =~= join_words(g) + t);
            assert(is_word(x + t)) by {
                assert forall|i: int| 0 <= i < (x + t).len() implies !is_ws(#[trigger] (x + t)[i]) by {
                    if i < x.len() {
                        assert((x + t)[i] == x[i]);
                    } else {
                        assert((x + t)[i] == t[i - x.len()]);
                    }
                }
            }
            assert(all_words(u)) by {
                assert forall|i: int| 0 <= i < u.len() implies is_word(#[trigger] u[i]) by {
                    if i < n - 1 {
                        assert(u[i] == g[i]);
                    }
                }
            }
            assert(punctuation_only_first(u)) by {
                assert forall|i: int| 1 <= i < u.len() implies !is_punctuation_word(#[trigger] u[i]) by {
                    if i < n - 1 {
                        assert(u[i] == g[i]);
                    } else {
                        assert(!is_punctuation_word(g[n - 1]));
                        let k = choose|k: int| 0 <= k < x.len() && !is_ascii_punct(#[trigger] x[k]);
                        assert((x + t)[k] == x[k]);
                    }
                }
            }
        } else {
            let u = g.push(t);
            assert(u.drop_last() =~= g);
            if g.len() == 0 {
                assert(init.len() == 0);
                assert(r.len() == 0);
                assert(join_words(u) == u[0]);
            } else {
                lemma_join_nonempty(g);
                assert(r.len() > 0);
                assert(!is_punctuation_word(t));
            }
            assert(all_words(u)) by {
                assert forall|i: int| 0 <= i < u.len() implies is_word(#[trigger] u[i]) by {
                    if i < g.len() {
                        assert(u[i] == g[i]);
                    }
                }
            }
            assert(punctuation_only_first(u)) by {
                assert forall|i: int| 1 <= i < u.len() implies !is_punctuation_word(#[trigger] u[i]) by {
                    if i < g.len() {
                        assert(u[i] == g[i]);
                    }
                }
            }
        }
    }
}

proof fn lemma_normalize_glued(g: Seq<Seq<char>>)
    requires
        all_words(g),
        punctuation_only_first(g),
    ensures
        normalize(g) == join_words(g),
    decreases g.len(),
{
    if g.len() > 0 {
        let init = g.drop_last();
        assert(all_words(init)) by {
            assert forall|i: int| 0 <= i < init.len() implies is_word(#[trigger] init[i]) by {
                assert(init[i] == g[i]);
            }
        }
        assert(punctuation_only_first(init)) by {
            assert forall|i: int| 1 <= i < init.len() implies !is_punctuation_word(#[trigger] init[i]) by {
                assert(init[i] == g[i]);
            }
        }
        lemma_normalize_glued(init);
        assert(is_word(g[g.len() - 1]));
        if g.len() == 1 {
            assert(init.len() == 0);
            assert(trim_end(normalize(init)) =~= Seq::<char>::empty());
            assert(Seq::<char>::empty() + g.last() =~= g.last());
        } else {
            assert(is_word(init[init.len() - 1]));
            lemma_join_nonempty(init);
            assert(!is_punctuation_word(g[g.len() - 1]));
        }
    }
}

/// Cleaning a cleaned transcript changes nothing.
pub proof fn clean_transcript_is_idempotent(s: Seq<char>)
    ensures
        spec_clean_transcript(spec_clean_transcript(s)) == spec_clean_transcript(s),
{
    let ts = words(s);
    lemma_words_are_words(s);
    lemma_glue(ts);
    lemma_words_join(glue(ts));
    lemma_normalize_glued(glue(ts));
}

/// Two words keep their single space when the second holds anything
/// besides ASCII punctuation (a word such as `(maybe)` is not attached), and
/// lose it when the second is ASCII punctuation only (`hello ,` becomes
/// `hello,`).
pub proof fn clean_transcript_spaces_two_words(a: Seq<char>, b: Seq<char>)
    requires
        is_word(a),
        is_word(b),
    ensures
        (exists|i: int| 0 <= i < b.len() && !is_ascii_punct(#[trigger] b[i]))
            ==> spec_clean_transcript(a + seq![' '] + b) == a + seq![' '] + b,
        (forall|i: int| 0 <= i < b.len() ==> is_ascii_punct(#[trigger] b[i]))
            ==> spec_clean_transcript(a + seq![' '] + b) == a + b,
{
    lemma_words_word(a);
    lemma_words_append_word(a, ' ', b);
    let ts = seq![a].push(b);
    assert(words(a + seq![' '] + b) == ts);
    assert(ts.drop_last() =~= seq![a]);
    assert(seq![a].drop_last() =~= Seq::<Seq<char>>::empty());
    assert(normalize(seq![a].drop_last()) =~= Seq::<char>::empty());
    assert(trim_end(Seq::<char>::empty()) =~= Seq::<char>::empty());
    assert(normalize(seq![a]) =~= a);
    assert(!is_ws(a[a.len() - 1]));
    assert(trim_end(a) == a);
}

} // verus!
