//! Word counting over an author's poems: every line is split on single
//! spaces, every token lowercased, occurrences are accumulated per
//! word, and the result is ordered by descending count (ties keep
//! their first-seen order).

use vstd::prelude::*;
use crate::order::lemma_sort_by_le_ensures;
use crate::order::lemma_sort_by_le_multiset;
use crate::order::lemma_sort_by_le_pairwise;
use crate::order::lemma_insert_pos_at;
use crate::order::sort_by_le;
use crate::poems::Poem;
use crate::text::lower_of;
use crate::text::lowercase;
use crate::text::seq_views;
use crate::text::split_spaces;
use crate::text::split_words;
use crate::text::str_eq;

verus! {

/// The tokens of one line: split on single spaces, then lowercased.
pub open spec fn line_tokens(l: Seq<char>) -> Seq<Seq<char>> {
    split_spaces(l).map_values(|t: Seq<char>| lower_of(t))
}

pub open spec fn lines_tokens(ls: Seq<String>) -> Seq<Seq<char>>
    decreases ls.len(),
{
    if ls.len() == 0 {
        Seq::empty()
    } else {
        line_tokens(ls[0]@) + lines_tokens(ls.drop_first())
    }
}

/// All tokens of all lines of all poems, in reading order.
pub open spec fn poems_tokens(ps: Seq<Poem>) -> Seq<Seq<char>>
    decreases ps.len(),
{
    if ps.len() == 0 {
        Seq::empty()
    } else {
        lines_tokens(ps[0].lines@) + poems_tokens(ps.drop_first())
    }
}

/// How many times the word `w` occurs among `tokens`.
pub open spec fn count_occ(tokens: Seq<Seq<char>>, w: Seq<char>) -> nat {
    tokens.filter(|t: Seq<char>| t == w).len()
}

pub proof fn lemma_count_occ_push(tokens: Seq<Seq<char>>, t: Seq<char>, w: Seq<char>)
    ensures
        count_occ(tokens.push(t), w) == count_occ(tokens, w) + (if t == w {
            1nat
        } else {
            0nat
        }),
{
    reveal(Seq::filter);
    assert(tokens.push(t).drop_last() =~= tokens);
}

pub proof fn lemma_count_occ_contains(tokens: Seq<Seq<char>>, w: Seq<char>)
    ensures
        count_occ(tokens, w) > 0 <==> tokens.contains(w),
    decreases tokens.len(),
{
    reveal(Seq::filter);
    if tokens.len() == 0 {
    } else {
        lemma_count_occ_contains(tokens.drop_last(), w);
        assert(tokens =~= tokens.drop_last().push(tokens.last()));
        lemma_count_occ_push(tokens.drop_last(), tokens.last(), w);
        if tokens.last() == w {
            assert(tokens[tokens.len() - 1] == w);
        } else {
            if tokens.contains(w) {
                let i = choose|i: int| 0 <= i < tokens.len() && tokens[i] == w;
                assert(tokens.drop_last()[i] == w);
            }
            if tokens.drop_last().contains(w) {
                let i = choose|i: int|
                    0 <= i < tokens.drop_last().len() && tokens.drop_last()[i] == w;
                assert(tokens[i] == w);
            }
        }
    }
}

/// Some entry of the counting lists the word `w`.
pub open spec fn has_word(r: Seq<(String, u64)>, w: Seq<char>) -> bool {
    exists|i: int| 0 <= i < r.len() && (#[trigger] r[i]).0@ == w
}

/// Every entry carries the exact number of occurrences of its word.
pub open spec fn counts_exact(r: Seq<(String, u64)>, tokens: Seq<Seq<char>>) -> bool {
    forall|i: int| 0 <= i < r.len() ==> (#[trigger] r[i]).1 == count_occ(tokens, r[i].0@)
}

/// No word is listed twice.
pub open spec fn distinct_words(r: Seq<(String, u64)>) -> bool {
    forall|i: int, j: int| 0 <= i < j < r.len() ==> (#[trigger] r[i]).0@ != (#[trigger] r[j]).0@
}

proof fn lemma_tokens_contains_push(s: Seq<Seq<char>>, x: Seq<char>, w: Seq<char>)
    ensures
        s.push(x).contains(w) <==> (s.contains(w) || x == w),
{
    if s.push(x).contains(w) {
        let i = choose|i: int| 0 <= i < s.push(x).len() && s.push(x)[i] == w;
        if i < s.len() {
            assert(s[i] == w);
        }
    }
    if s.contains(w) {
        let i = choose|i: int| 0 <= i < s.len() && s[i] == w;
        assert(s.push(x)[i] == w);
    }
    if x == w {
        assert(s.push(x)[s.len() as int] == w);
    }
}

/// Accumulates, in first-seen order, the number of occurrences of each
/// token.
pub fn count_words(tokens: Vec<String>) -> (r: Vec<(String, u64)>)
    ensures
        counts_exact(r@, seq_views(tokens@)),
        distinct_words(r@),
        forall|w: Seq<char>| seq_views(tokens@).contains(w) <==> has_word(r@, w),
{
    broadcast use vstd::seq_lib::group_filter_ensures;

    let ghost total = seq_views(tokens@);
    let ghost orig = tokens@;
    let mut out: Vec<(String, u64)> = Vec::new();
    let mut rest = tokens;
    let mut idx: usize = 0;
    let init_len = rest.len();
    proof {
        assert(init_len == orig.len());
        assert(rest@ =~= orig.skip(0));
        assert(seq_views(orig.subrange(0, 0)) =~= Seq::<Seq<char>>::empty());
    }
    while rest.len() > 0
        invariant
            idx <= orig.len(),
            orig.len() <= usize::MAX,
            rest@ == orig.skip(idx as int),
            counts_exact(out@, seq_views(orig.subrange(0, idx as int))),
            distinct_words(out@),
            forall|w: Seq<char>|
                seq_views(orig.subrange(0, idx as int)).contains(w) <==> has_word(out@, w),
        decreases rest.len(),
    {
        let ghost pref = seq_views(orig.subrange(0, idx as int));
        let t = rest.remove(0);
        proof {
            assert(orig.skip(idx as int)[0] == orig[idx as int]);
            assert(orig.skip(idx as int).remove(0) =~= orig.skip(idx as int + 1));
        }
        let ghost tv = t@;
        let ghost pref1 = seq_views(orig.subrange(0, idx as int + 1));
        proof {
            crate::text::lemma_seq_views_take(orig, idx as int);
            assert(pref1 == pref.push(tv));
        }
        let mut found = false;
        let mut j: usize = 0;
        while !found && j < out.len()
            invariant
                j <= out.len(),
                !found ==> forall|k: int| 0 <= k < j ==> (#[trigger] out@[k]).0@ != tv,
                found ==> j < out.len() && out@[j as int].0@ == tv,
                tv == t@,
            decreases out.len() - j + (if found {
                0int
            } else {
                1int
            }),
        {
            if str_eq(out[j].0.as_str(), t.as_str()) {
                found = true;
            } else {
                j += 1;
            }
        }
        if found {
            let ghost old_out = out@;
            let pair = out.remove(j);
            let w = pair.0;
            let c = pair.1;
            proof {
                // the stored count is the exact count so far, and one more
                // occurrence still fits
                assert(c == count_occ(pref, tv));
                assert(count_occ(pref, tv) <= pref.len());
                assert(pref.len() == idx);
            }
            out.insert(j, (w, c + 1));
            proof {
                assert(out@ =~= old_out.update(j as int, (w, (c + 1) as u64)));
                assert(w@ == tv);
                assert forall|i: int| 0 <= i < out@.len() implies (#[trigger] out@[i]).1
                    == count_occ(pref1, out@[i].0@) by {
                    lemma_count_occ_push(pref, tv, out@[i].0@);
                    if i != j {
                        assert(out@[i] == old_out[i]);
                        assert(old_out[i].0@ != tv);
                    }
                }
                assert forall|i: int, x: int| 0 <= i < x < out@.len() implies (
                #[trigger] out@[i]).0@ != (#[trigger] out@[x]).0@ by {
                    assert(out@[i].0@ == old_out[i].0@);
                    assert(out@[x].0@ == old_out[x].0@);
                }
                assert forall|ww: Seq<char>| pref1.contains(ww) <==> has_word(out@, ww) by {
                    lemma_tokens_contains_push(pref, tv, ww);
                    assert forall|i: int| 0 <= i < out@.len() implies (#[trigger] out@[i]).0@
                        == old_out[i].0@ by {}
                    if has_word(old_out, ww) {
                        let i = choose|i: int|
                            0 <= i < old_out.len() && (#[trigger] old_out[i]).0@ == ww;
                        assert(out@[i].0@ == ww);
                    }
                    if has_word(out@, ww) {
                        let i = choose|i: int| 0 <= i < out@.len() && (#[trigger] out@[i]).0@ == ww;
                        assert(old_out[i].0@ == ww);
                    }
                    if ww == tv {
                        assert(old_out[j as int].0@ == ww);
                    }
                }
            }
        } else {
            let ghost old_out = out@;
            proof {
                assert forall|k: int| 0 <= k < old_out.len() implies (#[trigger] old_out[k]).0@
                    != tv by {}
                if pref.contains(tv) {
                    assert(has_word(old_out, tv));
                }
                lemma_count_occ_contains(pref, tv);
                assert(count_occ(pref, tv) == 0);
            }
            out.push((t, 1));
            proof {
                assert forall|i: int| 0 <= i < out@.len() implies (#[trigger] out@[i]).1
                    == count_occ(pref1, out@[i].0@) by {
                    lemma_count_occ_push(pref, tv, out@[i].0@);
                    if i < old_out.len() {
                        assert(out@[i] == old_out[i]);
                    } else {
                        assert(out@[i].0@ == tv);
                    }
                }
                assert forall|ww: Seq<char>| pref1.contains(ww) <==> has_word(out@, ww) by {
                    lemma_tokens_contains_push(pref, tv, ww);
                    if has_word(old_out, ww) {
                        let i = choose|i: int|
                            0 <= i < old_out.len() && (#[trigger] old_out[i]).0@ == ww;
                        assert(out@[i].0@ == ww);
                    }
                    if has_word(out@, ww) {
                        let i = choose|i: int| 0 <= i < out@.len() && (#[trigger] out@[i]).0@ == ww;
                        if i < old_out.len() {
                            assert(old_out[i].0@ == ww);
                        }
                    }
                    if ww == tv {
                        assert(out@[old_out.len() as int].0@ == ww);
                    }
                }
            }
        }
        idx += 1;
    }
    proof {
        assert(orig.subrange(0, orig.len() as int) =~= orig);
    }
    out
}

/// Descending order on counts.
pub open spec fn count_ge() -> spec_fn((String, u64), (String, u64)) -> bool {
    |a: (String, u64), b: (String, u64)| a.1 >= b.1
}

/// Stable sort of the accumulated counts by descending count: ties
/// keep their first-seen order.
pub fn sort_counts_desc(counts: Vec<(String, u64)>) -> (r: Vec<(String, u64)>)
    ensures
        r@ == sort_by_le(count_ge(), counts@),
{
    let ghost le = count_ge();
    let ghost orig = counts@;
    let mut rest = counts;
    let mut out: Vec<(String, u64)> = Vec::new();
    let mut idx: usize = 0;
    let init_len = rest.len();
    proof {
        assert(init_len == orig.len());
        assert(orig.subrange(0, 0) =~= Seq::<(String, u64)>::empty());
        assert(rest@ =~= orig.skip(0));
    }
    while rest.len() > 0
        invariant
            idx <= orig.len(),
            orig.len() <= usize::MAX,
            rest@ == orig.skip(idx as int),
            le == count_ge(),
            out@ == sort_by_le(le, orig.subrange(0, idx as int)),
        decreases rest.len(),
    {
        let p = rest.remove(0);
        proof {
            assert(orig.skip(idx as int)[0] == orig[idx as int]);
            assert(orig.skip(idx as int).remove(0) =~= orig.skip(idx as int + 1));
        }
        let mut j: usize = 0;
        while j < out.len() && out[j].1 >= p.1
            invariant
                j <= out.len(),
                le == count_ge(),
                forall|x: int| 0 <= x < j ==> #[trigger] le(out@[x], p),
            decreases out.len() - j,
        {
            j += 1;
        }
        proof {
            lemma_insert_pos_at(le, out@, p, j as int);
            let pref = orig.subrange(0, idx as int);
            let pref1 = orig.subrange(0, idx as int + 1);
            assert(pref1.drop_last() =~= pref);
            assert(pref1.last() == orig[idx as int]);
        }
        out.insert(j, p);
        idx += 1;
    }
    proof {
        assert(orig.subrange(0, orig.len() as int) =~= orig);
    }
    out
}

proof fn lemma_count_ge_total_trans()
    ensures
        forall|a: (String, u64), b: (String, u64)|
            #[trigger] count_ge()(a, b) || #[trigger] count_ge()(b, a),
        forall|a: (String, u64), b: (String, u64), c: (String, u64)|
            #[trigger] count_ge()(a, b) && #[trigger] count_ge()(b, c) ==> count_ge()(a, c),
{
}

/// The word-count listing for one author's poems: each word that
/// occurs in any line appears exactly once, with its exact occurrence
/// count, and the listing is ordered by descending count.
pub fn word_count(poems: Vec<Poem>) -> (r: Vec<(String, u64)>)
    ensures
        counts_exact(r@, poems_tokens(poems@)),
        distinct_words(r@),
        forall|w: Seq<char>| poems_tokens(poems@).contains(w) <==> has_word(r@, w),
        forall|i: int, j: int|
            0 <= i < j < r@.len() ==> (#[trigger] r@[i]).1 >= (#[trigger] r@[j]).1,
{
    let ghost total = poems_tokens(poems@);
    let mut tokens: Vec<String> = Vec::new();
    let mut ps = poems;
    proof {
        assert(seq_views(tokens@) =~= Seq::<Seq<char>>::empty());
        assert(seq_views(tokens@) + poems_tokens(ps@) =~= total);
    }
    while ps.len() > 0
        invariant
            seq_views(tokens@) + poems_tokens(ps@) == total,
        decreases ps.len(),
    {
        let ghost ps_old = ps@;
        let p = ps.remove(0);
        let mut lines = p.lines;
        proof {
            assert(ps_old[0] == p);
            assert(ps_old.drop_first() =~= ps@);
            assert(poems_tokens(ps_old) == lines_tokens(lines@) + poems_tokens(ps@));
            assert(seq_views(tokens@) + (lines_tokens(lines@) + poems_tokens(ps@)) =~= (seq_views(
                tokens@,
            ) + lines_tokens(lines@)) + poems_tokens(ps@));
        }
        while lines.len() > 0
            invariant
                (seq_views(tokens@) + lines_tokens(lines@)) + poems_tokens(ps@) == total,
            decreases lines.len(),
        {
            let ghost ls_old = lines@;
            let line = lines.remove(0);
            let mut ws = split_words(line.as_str());
            proof {
                assert(ls_old[0] == line);
                assert(ls_old.drop_first() =~= lines@);
                assert(lines_tokens(ls_old) == line_tokens(line@) + lines_tokens(lines@));
                assert(lowered_views(ws@) =~= line_tokens(line@));
                assert((seq_views(tokens@) + (line_tokens(line@) + lines_tokens(lines@)))
                    =~= ((seq_views(tokens@) + lowered_views(ws@)) + lines_tokens(lines@)));
                assert(((seq_views(tokens@) + (line_tokens(line@) + lines_tokens(lines@)))
                    + poems_tokens(ps@)) =~= (((seq_views(tokens@) + lowered_views(ws@))
                    + lines_tokens(lines@)) + poems_tokens(ps@)));
            }
            while ws.len() > 0
                invariant
                    ((seq_views(tokens@) + lowered_views(ws@)) + lines_tokens(lines@))
                        + poems_tokens(ps@) == total,
                decreases ws.len(),
            {
                let ghost ws_old = ws@;
                let w = ws.remove(0);
                let lw = lowercase(w.as_str());
                proof {
                    assert(ws_old[0] == w);
                    assert(ws_old.drop_first() =~= ws@);
                    crate::text::lemma_seq_views_push(tokens@, lw);
                    assert(lowered_views(ws_old)[0] == lower_of(w@));
                    assert(lowered_views(ws_old).drop_first() =~= lowered_views(ws@));
                    assert((seq_views(tokens@.push(lw)) + lowered_views(ws@)) =~= (seq_views(
                        tokens@,
                    ) + lowered_views(ws_old)));
                    assert(((seq_views(tokens@.push(lw)) + lowered_views(ws@)) + lines_tokens(
                        lines@,
                    )) + poems_tokens(ps@) =~= ((seq_views(tokens@) + lowered_views(ws_old))
                        + lines_tokens(lines@)) + poems_tokens(ps@));
                }
                tokens.push(lw);
            }
            proof {
                assert((seq_views(tokens@) + lowered_views(ws@)) =~= seq_views(tokens@));
            }
        }
        proof {
            assert((seq_views(tokens@) + lines_tokens(lines@)) =~= seq_views(tokens@));
        }
    }
    proof {
        assert(seq_views(tokens@) =~= total);
    }
    let counts = count_words(tokens);
    let ghost cs = counts@;
    let r = sort_counts_desc(counts);
    proof {
        lemma_count_ge_total_trans();
        lemma_sort_by_le_ensures(count_ge(), cs);
        lemma_sort_by_le_multiset(count_ge(), cs);
        cs.to_multiset_ensures();
        r@.to_multiset_ensures();
        assert forall|i: int| 0 <= i < r@.len() implies (#[trigger] r@[i]).1 == count_occ(
            total,
            r@[i].0@,
        ) by {
            assert(r@.contains(r@[i]));
            assert(cs.to_multiset().count(r@[i]) > 0);
            assert(cs.contains(r@[i]));
            let k = choose|k: int| 0 <= k < cs.len() && cs[k] == r@[i];
            assert(cs[k].1 == count_occ(total, cs[k].0@));
        }
        lemma_sort_by_le_pairwise(
            count_ge(),
            (|a: (String, u64), b: (String, u64)| a.0@ == b.0@),
            cs,
        );
        assert forall|w: Seq<char>| total.contains(w) <==> has_word(r@, w) by {
            if has_word(r@, w) {
                let i = choose|i: int| 0 <= i < r@.len() && (#[trigger] r@[i]).0@ == w;
                assert(r@.contains(r@[i]));
                assert(cs.to_multiset().count(r@[i]) > 0);
                assert(cs.contains(r@[i]));
                let k = choose|k: int| 0 <= k < cs.len() && cs[k] == r@[i];
                assert(has_word(cs, w));
            }
            if total.contains(w) {
                assert(has_word(cs, w));
                let i = choose|i: int| 0 <= i < cs.len() && (#[trigger] cs[i]).0@ == w;
                assert(cs.contains(cs[i]));
                assert(r@.to_multiset().count(cs[i]) > 0);
                assert(r@.contains(cs[i]));
                let k = choose|k: int| 0 <= k < r@.len() && r@[k] == cs[i];
                assert(has_word(r@, w));
            }
        }
        assert forall|i: int, j: int| 0 <= i < j < r@.len() implies (#[trigger] r@[i]).1 >= (
        #[trigger] r@[j]).1 by {
            assert(count_ge()(r@[i], r@[j]));
        }
    }
    r
}

/// The lowercased views of raw tokens.
pub open spec fn lowered_views(s: Seq<String>) -> Seq<Seq<char>> {
    s.map_values(|x: String| lower_of(x@))
}

} // verus!
