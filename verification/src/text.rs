//! Verified character-sequence primitives the engine is built on:
//! equality, lexicographic order, substring search and splitting on
//! spaces, plus the one trusted lowercase mapping.

use vstd::prelude::*;
use vstd::string::StrSliceExecFns;

verus! {

/// The views of a sequence of owned strings.
pub open spec fn seq_views(s: Seq<String>) -> Seq<Seq<char>> {
    s.map_values(|x: String| x@)
}

pub proof fn lemma_seq_views_push(s: Seq<String>, x: String)
    ensures
        seq_views(s.push(x)) == seq_views(s).push(x@),
{
    assert(seq_views(s.push(x)) =~= seq_views(s).push(x@));
}

pub proof fn lemma_seq_views_take(s: Seq<String>, i: int)
    requires
        0 <= i <= s.len(),
    ensures
        i < s.len() ==> seq_views(s.subrange(0, i + 1)) == seq_views(s.subrange(0, i)).push(s[i]@),
{
    if i < s.len() {
        assert(seq_views(s.subrange(0, i + 1)) =~= seq_views(s.subrange(0, i)).push(s[i]@));
    }
}

/// Character-for-character equality of two string slices.
pub fn str_eq(a: &str, b: &str) -> (r: bool)
    ensures
        r == (a@ == b@),
{
    let n = a.unicode_len();
    let m = b.unicode_len();
    if n != m {
        return false;
    }
    let mut i: usize = 0;
    while i < n
        invariant
            i <= n,
            n == a@.len(),
            n == b@.len(),
            forall|k: int| 0 <= k < i ==> a@[k] == b@[k],
        decreases n - i,
    {
        if a.get_char(i) != b.get_char(i) {
            return false;
        }
        i += 1;
    }
    proof {
        assert(a@ =~= b@);
    }
    true
}

/// Lexicographic order on character sequences, comparing code points.
pub open spec fn lex_le(a: Seq<char>, b: Seq<char>) -> bool
    decreases a.len(),
{
    if a.len() == 0 {
        true
    } else if b.len() == 0 {
        false
    } else if (a[0] as u32) == (b[0] as u32) {
        lex_le(a.drop_first(), b.drop_first())
    } else {
        (a[0] as u32) < (b[0] as u32)
    }
}

/// `lex_le` is total: of two sequences, one is always ordered before
/// the other.
pub proof fn lemma_lex_le_total(a: Seq<char>, b: Seq<char>)
    ensures
        lex_le(a, b) || lex_le(b, a),
    decreases a.len(),
{
    if a.len() == 0 {
    } else if b.len() == 0 {
    } else if (a[0] as u32) == (b[0] as u32) {
        lemma_lex_le_total(a.drop_first(), b.drop_first());
    }
}

/// `lex_le` is transitive.
pub proof fn lemma_lex_le_trans(a: Seq<char>, b: Seq<char>, c: Seq<char>)
    requires
        lex_le(a, b),
        lex_le(b, c),
    ensures
        lex_le(a, c),
    decreases a.len(),
{
    if a.len() == 0 {
    } else {
        if (a[0] as u32) == (b[0] as u32) && (b[0] as u32) == (c[0] as u32) {
            lemma_lex_le_trans(a.drop_first(), b.drop_first(), c.drop_first());
        }
    }
}

/// Lexicographic comparison of two string slices.
pub fn str_lex_le(a: &str, b: &str) -> (r: bool)
    ensures
        r == lex_le(a@, b@),
{
    let n = a.unicode_len();
    let m = b.unicode_len();
    let mut i: usize = 0;
    proof {
        assert(a@.skip(0) =~= a@);
        assert(b@.skip(0) =~= b@);
    }
    loop
        invariant
            i <= n,
            i <= m,
            n == a@.len(),
            m == b@.len(),
            lex_le(a@, b@) == lex_le(a@.skip(i as int), b@.skip(i as int)),
        decreases n - i,
    {
        if i == n {
            return true;
        }
        if i == m {
            return false;
        }
        let ca = a.get_char(i) as u32;
        let cb = b.get_char(i) as u32;
        proof {
            assert(a@.skip(i as int)[0] == a@[i as int]);
            assert(b@.skip(i as int)[0] == b@[i as int]);
        }
        if ca == cb {
            proof {
                assert(a@.skip(i as int).drop_first() =~= a@.skip(i as int + 1));
                assert(b@.skip(i as int).drop_first() =~= b@.skip(i as int + 1));
            }
            i += 1;
        } else {
            return ca < cb;
        }
    }
}

/// Whether `needle` occurs contiguously inside `hay`.
pub open spec fn is_substring(hay: Seq<char>, needle: Seq<char>) -> bool {
    exists|i: int|
        0 <= i && i + needle.len() <= hay.len() && #[trigger] hay.subrange(i, i + needle.len())
            == needle
}

/// Case-sensitive substring search.
pub fn contains_str(hay: &str, needle: &str) -> (r: bool)
    ensures
        r == is_substring(hay@, needle@),
{
    let n = hay.unicode_len();
    let m = needle.unicode_len();
    if m > n {
        return false;
    }
    if m == 0 {
        proof {
            assert(hay@.subrange(0, 0 + needle@.len() as int) =~= needle@);
        }
        return true;
    }
    let mut i: usize = 0;
    while i <= n - m
        invariant
            1 <= m <= n,
            n == hay@.len(),
            m == needle@.len(),
            i <= n - m + 1,
            forall|s: int| 0 <= s < i ==> #[trigger] hay@.subrange(s, s + m) != needle@,
        decreases n - m + 1 - i,
    {
        let mut j: usize = 0;
        let mut ok = true;
        while ok && j < m
            invariant
                i + m <= n,
                j <= m,
                n == hay@.len(),
                m == needle@.len(),
                ok ==> forall|k: int| 0 <= k < j ==> hay@[i + k] == needle@[k],
                !ok ==> hay@.subrange(i as int, i as int + m as int) != needle@,
            decreases m - j + (if ok {
                1int
            } else {
                0int
            }),
        {
            if hay.get_char(i + j) == needle.get_char(j) {
                j += 1;
            } else {
                proof {
                    assert(hay@.subrange(i as int, i as int + m as int)[j as int] == hay@[i + j]);
                }
                ok = false;
            }
        }
        if ok {
            proof {
                assert(hay@.subrange(i as int, i as int + m as int) =~= needle@);
            }
            return true;
        }
        i += 1;
    }
    proof {
        assert(!is_substring(hay@, needle@)) by {
            if is_substring(hay@, needle@) {
                let s = choose|s: int|
                    0 <= s && s + needle@.len() <= hay@.len() && #[trigger] hay@.subrange(
                        s,
                        s + needle@.len(),
                    ) == needle@;
                assert(s < i);
            }
        }
    }
    false
}

/// The lowercase form of a character sequence, as `str::to_lowercase`
/// computes it.
pub uninterp spec fn lower_of(s: Seq<char>) -> Seq<char>;

/// Relies on str::to_lowercase: the result depends on the characters of
/// the input alone.
#[verifier::external_body]
pub fn lowercase(s: &str) -> (r: String)
    ensures
        r@ == lower_of(s@),
{
    s.to_lowercase()
}

/// The index of the first space in `s`, or `s.len()` when there is
/// none.
pub open spec fn first_space(s: Seq<char>) -> int
    decreases s.len(),
{
    if s.len() == 0 {
        0
    } else if s[0] == ' ' {
        0
    } else {
        1 + first_space(s.drop_first())
    }
}

pub proof fn lemma_first_space(s: Seq<char>)
    ensures
        0 <= first_space(s) <= s.len(),
        first_space(s) < s.len() ==> s[first_space(s)] == ' ',
        forall|k: int| 0 <= k < first_space(s) ==> s[k] != ' ',
    decreases s.len(),
{
    if s.len() == 0 {
    } else if s[0] == ' ' {
    } else {
        lemma_first_space(s.drop_first());
        assert forall|k: int| 0 <= k < first_space(s) implies s[k] != ' ' by {
            if k > 0 {
                assert(s.drop_first()[k - 1] == s[k]);
            }
        }
    }
}

pub proof fn lemma_first_space_at(s: Seq<char>, i: int)
    requires
        0 <= i <= s.len(),
        forall|k: int| 0 <= k < i ==> s[k] != ' ',
        i < s.len() ==> s[i] == ' ',
    ensures
        first_space(s) == i,
    decreases s.len(),
{
    if s.len() == 0 {
    } else if s[0] == ' ' {
        assert(i == 0);
    } else {
        assert(i != 0);
        assert forall|k: int| 0 <= k < i - 1 implies s.drop_first()[k] != ' ' by {
            assert(s.drop_first()[k] == s[k + 1]);
        }
        assert(i - 1 < s.drop_first().len() ==> s.drop_first()[i - 1] == s[i]);
        lemma_first_space_at(s.drop_first(), i - 1);
    }
}

/// Splitting on single-space boundaries: every maximal run between
/// spaces is a token, and adjacent or outer spaces yield empty tokens.
pub open spec fn split_spaces(s: Seq<char>) -> Seq<Seq<char>>
    decreases s.len(),
    via split_spaces_dec
{
    let i = first_space(s);
    if i >= s.len() {
        seq![s]
    } else {
        seq![s.subrange(0, i)] + split_spaces(s.skip(i + 1))
    }
}

#[via_fn]
proof fn split_spaces_dec(s: Seq<char>) {
    lemma_first_space(s);
}

/// Unfolds `split_spaces` at a known first space (or its absence).
pub proof fn lemma_split_spaces_step(s: Seq<char>, i: int)
    requires
        0 <= i <= s.len(),
        forall|k: int| 0 <= k < i ==> s[k] != ' ',
        i < s.len() ==> s[i] == ' ',
    ensures
        i == s.len() ==> split_spaces(s) == seq![s],
        i < s.len() ==> split_spaces(s) == seq![s.subrange(0, i)] + split_spaces(s.skip(i + 1)),
{
    lemma_first_space_at(s, i);
}

/// Splits a line on single spaces, as the word-count step requires.
pub fn split_words(line: &str) -> (r: Vec<String>)
    ensures
        seq_views(r@) == split_spaces(line@),
{
    let n = line.unicode_len();
    let mut out: Vec<String> = Vec::new();
    let mut start: usize = 0;
    let mut i: usize = 0;
    proof {
        assert(line@.skip(0) =~= line@);
        assert(seq_views(out@) + split_spaces(line@) =~= split_spaces(line@));
    }
    while i < n
        invariant
            start <= i,
            i <= n,
            n == line@.len(),
            forall|k: int| start <= k < i ==> line@[k] != ' ',
            split_spaces(line@) == seq_views(out@) + split_spaces(line@.skip(start as int)),
        decreases n - i,
    {
        if line.get_char(i) == ' ' {
            let w = line.substring_char(start, i).to_owned();
            proof {
                let rest = line@.skip(start as int);
                assert forall|k: int| 0 <= k < i - start implies rest[k] != ' ' by {
                    assert(rest[k] == line@[start + k]);
                }
                assert(rest[i - start] == line@[i as int]);
                lemma_split_spaces_step(rest, i - start);
                assert(rest.subrange(0, i - start) =~= line@.subrange(start as int, i as int));
                assert(rest.skip(i - start + 1) =~= line@.skip(i as int + 1));
                lemma_seq_views_push(out@, w);
                assert(seq_views(out@.push(w)) =~= seq_views(out@) + seq![w@]);
                assert(seq_views(out@) + (seq![w@] + split_spaces(line@.skip(i as int + 1)))
                    =~= (seq_views(out@) + seq![w@]) + split_spaces(line@.skip(i as int + 1)));
            }
            out.push(w);
            start = i + 1;
        }
        i += 1;
    }
    let w = line.substring_char(start, n).to_owned();
    proof {
        let rest = line@.skip(start as int);
        assert forall|k: int| 0 <= k < n - start implies rest[k] != ' ' by {
            assert(rest[k] == line@[start + k]);
        }
        lemma_split_spaces_step(rest, n - start);
        assert(rest =~= line@.subrange(start as int, n as int));
        lemma_seq_views_push(out@, w);
        assert(seq_views(out@.push(w)) =~= seq_views(out@) + seq![w@]);
    }
    out.push(w);
    out
}

} // verus!
