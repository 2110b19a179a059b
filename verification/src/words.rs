//! Whitespace-separated words and their single-space join.
use vstd::prelude::*;
use crate::text::{is_ws, is_whitespace};

verus! {

/// The whitespace-separated words of `s`, as `str::split_whitespace` yields
/// them: the maximal runs of non-whitespace characters, in order.
pub open spec fn words(s: Seq<char>) -> Seq<Seq<char>>
    decreases s.len(),
{
    if s.len() == 0 {
        seq![]
    } else {
        let w = words(s.drop_last());
        if is_ws(s.last()) {
            w
        } else if s.len() >= 2 && !is_ws(s[s.len() - 2]) {
            w.update(w.len() - 1, w.last().push(s.last()))
        } else {
            w.push(seq![s.last()])
        }
    }
}

/// The words joined with one space between neighbours (`[..].join(" ")`).
pub open spec fn join_words(ws: Seq<Seq<char>>) -> Seq<char>
    decreases ws.len(),
{
    if ws.len() == 0 {
        seq![]
    } else if ws.len() == 1 {
        ws[0]
    } else {
        join_words(ws.drop_last()) + seq![' '] + ws.last()
    }
}

/// A word: non-empty, without whitespace.
pub open spec fn is_word(w: Seq<char>) -> bool {
    w.len() > 0 && forall|i: int| 0 <= i < w.len() ==> !is_ws(#[trigger] w[i])
}

pub open spec fn all_words(ws: Seq<Seq<char>>) -> bool {
    forall|i: int| 0 <= i < ws.len() ==> is_word(#[trigger] ws[i])
}

pub proof fn lemma_words_last(s: Seq<char>)
    requires
        s.len() > 0,
        !is_ws(s.last()),
    ensures
        words(s).len() > 0,
    decreases s.len(),
{
    if s.len() >= 2 && !is_ws(s[s.len() - 2]) {
        lemma_words_last(s.drop_last());
    }
}

pub proof fn lemma_words_are_words(s: Seq<char>)
    ensures
        all_words(words(s)),
    decreases s.len(),
{
    if s.len() > 0 {
        lemma_words_are_words(s.drop_last());
        if !is_ws(s.last()) && s.len() >= 2 && !is_ws(s[s.len() - 2]) {
            lemma_words_last(s.drop_last());
        }
    }
}

/// `str::split_whitespace`, collected.
pub fn split_words(v: &Vec<char>) -> (r: Vec<Vec<char>>)
    ensures
        r.deep_view() == words(v@),
{
    let mut out: Vec<Vec<char>> = Vec::new();
    let mut cur: Vec<char> = Vec::new();
    let mut i: usize = 0;
    while i < v.len()
        invariant
            i <= v.len(),
            cur@.len() > 0 <==> (i > 0 && !is_ws(v@[i - 1])),
            words(v@.take(i as int)) == (if cur@.len() > 0 {
                out.deep_view().push(cur@)
            } else {
                out.deep_view()
            }),
        decreases v.len() - i,
    {
        let c = v[i];
        proof {
            assert(v@.take(i + 1).drop_last() =~= v@.take(i as int));
            assert(v@.take(i + 1).last() == c);
            if i > 0 {
                assert(v@.take(i + 1)[i - 1] == v@[i - 1]);
            }
        }
        let ghost old_out = out.deep_view();
        let ghost old_cur = cur@;
        if is_whitespace(c) {
            if cur.len() > 0 {
                assert(cur.deep_view() =~= cur@);
                out.push(cur);
                cur = Vec::new();
                assert(out.deep_view() =~= old_out.push(old_cur));
            }
        } else {
            cur.push(c);
            if cur.len() > 1 {
                let ghost w = old_out.push(old_cur);
                assert(w.update(w.len() - 1, w.last().push(c)) =~= old_out.push(cur@));
            } else {
                assert(cur@ =~= seq![c]);
            }
        }
        i = i + 1;
    }
    let ghost old_out = out.deep_view();
    if cur.len() > 0 {
        let ghost old_cur = cur@;
        assert(cur.deep_view() =~= cur@);
        out.push(cur);
        assert(out.deep_view() =~= old_out.push(old_cur));
    }
    assert(v@.take(v@.len() as int) =~= v@);
    out
}

/// `[..].join(" ")` on words.
pub fn join_with_spaces(ws: &Vec<Vec<char>>, lo: usize, hi: usize) -> (r: Vec<char>)
    requires
        lo <= hi <= ws.len(),
    ensures
        r@ == join_words(ws.deep_view().subrange(lo as int, hi as int)),
{
    let mut r: Vec<char> = Vec::new();
    let mut i: usize = lo;
    while i < hi
        invariant
            lo <= i <= hi <= ws.len(),
            r@ == join_words(ws.deep_view().subrange(lo as int, i as int)),
        decreases hi - i,
    {
        let ghost before = r@;
        if i > lo {
            r.push(' ');
        }
        let w = &ws[i];
        let mut j: usize = 0;
        let ghost mid = r@;
        while j < w.len()
            invariant
                j <= w.len(),
                r@ == mid + w@.take(j as int),
            decreases w.len() - j,
        {
            r.push(w[j]);
            j = j + 1;
            assert(r@ =~= mid + w@.take(j as int));
        }
        proof {
            let sub = ws.deep_view().subrange(lo as int, i + 1);
            assert(sub.drop_last() =~= ws.deep_view().subrange(lo as int, i as int));
            assert(sub.last() == ws.deep_view()[i as int]);
            assert(ws.deep_view()[i as int] == w@);
            assert(w@.take(w@.len() as int) =~= w@);
            if i == lo {
                assert(sub.len() == 1);
                assert(r@ =~= w@);
            } else {
                assert(r@ =~= before + seq![' '] + w@);
            }
        }
        i = i + 1;
    }
    r
}

/// Whether two character sequences are equal.
pub fn same_chars(a: &Vec<char>, b: &Vec<char>) -> (r: bool)
    ensures
        r == (a@ == b@),
{
    if a.len() != b.len() {
        return false;
    }
    let mut i: usize = 0;
    while i < a.len()
        invariant
            i <= a.len() == b.len(),
            a@.take(i as int) == b@.take(i as int),
        decreases a.len() - i,
    {
        if a[i] != b[i] {
            assert(a@[i as int] != b@[i as int]);
            return false;
        }
        assert(a@.take(i + 1) =~= a@.take(i as int).push(a@[i as int]));
        assert(b@.take(i + 1) =~= b@.take(i as int).push(b@[i as int]));
        i = i + 1;
    }
    assert(a@ =~= a@.take(i as int));
    assert(b@ =~= b@.take(i as int));
    true
}

/// Whether two strings have the same characters.
pub fn same_text(a: &str, b: &str) -> (r: bool)
    ensures
        r == (a@ == b@),
{
    let x = crate::text::chars_of(a);
    let y = crate::text::chars_of(b);
    same_chars(&x, &y)
}

pub proof fn lemma_words_word(w: Seq<char>)
    requires
        is_word(w),
    ensures
        words(w) == seq![w],
    decreases w.len(),
{
    assert(!is_ws(w[w.len() - 1]));
    if w.len() == 1 {
        assert(w.drop_last() =~= Seq::<char>::empty());
        assert(words(w.drop_last()) =~= Seq::<Seq<char>>::empty());
        assert(words(w) == words(w.drop_last()).push(seq![w.last()]));
        assert(seq![w.last()] =~= w);
        assert(words(w) =~= seq![w]);
    } else {
        let v = w.drop_last();
        assert(is_word(v)) by {
            assert forall|i: int| 0 <= i < v.len() implies !is_ws(#[trigger] v[i]) by {
                assert(v[i] == w[i]);
            }
        }
        lemma_words_word(v);
        assert(w[w.len() - 2] == v[v.len() - 1]);
        assert(!is_ws(w[w.len() - 2]));
        let pw = words(v);
        assert(words(w) == pw.update(pw.len() - 1, pw.last().push(w.last())));
        assert(v.push(w.last()) =~= w);
        assert(seq![v].update(0, v.push(w.last())) =~= seq![w]);
    }
}

/// Appending a whitespace character and a word adds that word.
pub proof fn lemma_words_append_word(x: Seq<char>, d: char, w: Seq<char>)
    requires
        is_ws(d),
        is_word(w),
    ensures
        words(x + seq![d] + w) == words(x).push(w),
    decreases w.len(),
{
    let s = x + seq![d] + w;
    assert(!is_ws(w[w.len() - 1]));
    assert(s.last() == w.last());
    if w.len() == 1 {
        let xs = x + seq![d];
        assert(s.drop_last() =~= xs);
        assert(xs.drop_last() =~= x);
        assert(xs.last() == d);
        assert(words(xs) == words(x));
        assert(s[s.len() - 2] == d);
        assert(words(s) == words(s.drop_last()).push(seq![s.last()]));
        assert(seq![s.last()] =~= w);
    } else {
        let v = w.drop_last();
        assert(is_word(v)) by {
            assert forall|i: int| 0 <= i < v.len() implies !is_ws(#[trigger] v[i]) by {
                assert(v[i] == w[i]);
            }
        }
        lemma_words_append_word(x, d, v);
        assert(s.drop_last() =~= x + seq![d] + v);
        assert(s[s.len() - 2] == v.last());
        assert(!is_ws(v.last()));
        let pw = words(s.drop_last());
        assert(words(s) == pw.update(pw.len() - 1, pw.last().push(s.last())));
        assert(v.push(w.last()) =~= w);
        assert(words(x).push(v).update(words(x).len() as int, v.push(w.last())) =~= words(x).push(w));
    }
}

/// Splitting a single-space join gives back the words.
pub proof fn lemma_words_join(ws: Seq<Seq<char>>)
    requires
        all_words(ws),
    ensures
        words(join_words(ws)) == ws,
    decreases ws.len(),
{
    if ws.len() == 0 {
    } else if ws.len() == 1 {
        assert(is_word(ws[0]));
        lemma_words_word(ws[0]);
        assert(seq![ws[0]] =~= ws);
    } else {
        let init = ws.drop_last();
        assert(all_words(init)) by {
            assert forall|i: int| 0 <= i < init.len() implies is_word(#[trigger] init[i]) by {
                assert(init[i] == ws[i]);
            }
        }
        lemma_words_join(init);
        assert(is_word(ws[ws.len() - 1]));
        lemma_words_append_word(join_words(init), ' ', ws.last());
        assert(init.push(ws.last()) =~= ws);
    }
}

/// Trailing whitespace holds no word.
pub proof fn lemma_words_trim_end(x: Seq<char>)
    ensures
        words(crate::text::trim_end(x)) == words(x),
    decreases x.len(),
{
    if x.len() > 0 && is_ws(x.last()) {
        lemma_words_trim_end(x.drop_last());
    }
}

/// Cut at whitespace, a text keeps the first of its words.
pub proof fn lemma_words_prefix_at_ws(c: Seq<char>, j: int)
    requires
        0 <= j < c.len(),
        is_ws(c[j]),
    ensures
        words(c.take(j)).is_prefix_of(words(c)),
{
    lemma_words_prefix_upto(c, j, c.len() as int);
    assert(c.take(c.len() as int) =~= c);
}

proof fn lemma_words_prefix_upto(c: Seq<char>, j: int, n: int)
    requires
        0 <= j < c.len(),
        is_ws(c[j]),
        j <= n <= c.len(),
    ensures
        words(c.take(j)).is_prefix_of(words(c.take(n))),
        n > j ==> (crate::text::all_ws(c.subrange(j, n)) || words(c.take(j)).len() < words(
            c.take(n),
        ).len()),
    decreases n - j,
{
    let a = words(c.take(j));
    if n == j {
        assert(a.is_prefix_of(a)) by {
            assert(a =~= a.subrange(0, a.len() as int));
        }
    } else {
        lemma_words_prefix_upto(c, j, n - 1);
        let s = c.take(n);
        let prev = words(c.take(n - 1));
        assert(s.drop_last() =~= c.take(n - 1));
        assert(s.last() == c[n - 1]);
        if is_ws(c[n - 1]) {
            if n - 1 > j {
                if crate::text::all_ws(c.subrange(j, n - 1)) {
                    assert forall|i: int| 0 <= i < c.subrange(j, n).len() implies is_ws(
                        #[trigger] c.subrange(j, n)[i],
                    ) by {
                        if i < n - 1 - j {
                            assert(c.subrange(j, n)[i] == c.subrange(j, n - 1)[i]);
                        }
                    }
                }
            } else {
                assert forall|i: int| 0 <= i < c.subrange(j, n).len() implies is_ws(
                    #[trigger] c.subrange(j, n)[i],
                ) by {
                    assert(c.subrange(j, n)[i] == c[j]);
                }
            }
        } else if n >= 2 && !is_ws(s[n - 2]) {
            assert(s[n - 2] == c[n - 2]);
            assert(n - 2 >= j);
            if n - 2 == j {
            } else {
                assert(!crate::text::all_ws(c.subrange(j, n - 1))) by {
                    assert(c.subrange(j, n - 1)[n - 2 - j] == c[n - 2]);
                }
            }
            let w = prev.update(prev.len() - 1, prev.last().push(s.last()));
            assert(a.is_prefix_of(w)) by {
                assert forall|i: int| 0 <= i < a.len() implies a[i] == w[i] by {
                    assert(a[i] == prev.subrange(0, a.len() as int)[i]);
                }
                assert(a =~= w.subrange(0, a.len() as int));
            }
        } else {
            assert(n - 1 > j);
            let w = prev.push(seq![s.last()]);
            assert(a =~= w.subrange(0, a.len() as int)) by {
                assert forall|i: int| 0 <= i < a.len() implies a[i] == w[i] by {
                    assert(a[i] == prev.subrange(0, a.len() as int)[i]);
                }
            }
        }
    }
}

/// The segments one after the other.
pub open spec fn concat_all(segments: Seq<Seq<char>>) -> Seq<char>
    decreases segments.len(),
{
    if segments.len() == 0 {
        seq![]
    } else {
        concat_all(segments.drop_last()) + segments.last()
    }
}

/// The characters that are not whitespace, in order.
pub open spec fn non_ws(s: Seq<char>) -> Seq<char>
    decreases s.len(),
{
    if s.len() == 0 {
        seq![]
    } else if is_ws(s.last()) {
        non_ws(s.drop_last())
    } else {
        non_ws(s.drop_last()).push(s.last())
    }
}

pub proof fn lemma_non_ws_add(a: Seq<char>, b: Seq<char>)
    ensures
        non_ws(a + b) == non_ws(a) + non_ws(b),
    decreases b.len(),
{
    if b.len() == 0 {
        assert(a + b =~= a);
        assert(non_ws(a) + non_ws(b) =~= non_ws(a));
    } else {
        lemma_non_ws_add(a, b.drop_last());
        assert((a + b).drop_last() =~= a + b.drop_last());
        assert((a + b).last() == b.last());
        if !is_ws(b.last()) {
            assert(non_ws(a + b.drop_last()).push(b.last()) =~= non_ws(a) + non_ws(b.drop_last()).push(b.last()));
        }
    }
}

/// The words hold exactly the text's non-whitespace characters.
pub proof fn lemma_concat_words(s: Seq<char>)
    ensures
        concat_all(words(s)) == non_ws(s),
    decreases s.len(),
{
    if s.len() > 0 {
        lemma_concat_words(s.drop_last());
        let w = words(s.drop_last());
        if !is_ws(s.last()) {
            if s.len() >= 2 && !is_ws(s[s.len() - 2]) {
                lemma_words_last(s.drop_last());
                let u = w.update(w.len() - 1, w.last().push(s.last()));
                assert(u.drop_last() =~= w.drop_last());
                assert(u.last() == w.last().push(s.last()));
                assert(concat_all(w) == concat_all(w.drop_last()) + w.last());
                assert(concat_all(u) =~= concat_all(w).push(s.last()));
            } else {
                let u = w.push(seq![s.last()]);
                assert(u.drop_last() =~= w);
                assert(concat_all(u) =~= concat_all(w).push(s.last()));
            }
        }
    }
}

} // verus!
