//! Poem records and the filter/sort step of the poem listing: a
//! case-insensitive title search, then an optional stable sort by one
//! of the record's fields, compared as text.

use vstd::prelude::*;
use crate::authors::view_opt;
use crate::order::lemma_insert_pos_at;
use crate::order::lemma_sort_by_le_ensures;
use crate::order::sort_by_le;
use crate::order::sorted_by_le;
use crate::text::contains_str;
use crate::text::is_substring;
use crate::text::lemma_lex_le_total;
use crate::text::lemma_lex_le_trans;
use crate::text::lex_le;
use crate::text::lower_of;
use crate::text::lowercase;
use crate::text::str_eq;
use crate::text::str_lex_le;

verus! {

/// One poem as the poetry upstream reports it.  The line count is kept
/// textual, as the upstream sends it, so sorting on it compares
/// strings, not numbers.
pub struct Poem {
    pub title: String,
    pub author: String,
    pub lines: Vec<String>,
    pub linecount: String,
}

/// The fields a poem listing may be sorted by.
#[derive(Clone, Copy, Debug, PartialEq, Eq, Structural)]
pub enum SortKey {
    Title,
    Author,
    Linecount,
}

#[derive(Clone, Copy, Debug, PartialEq, Eq, Structural)]
pub enum SortDir {
    Asc,
    Desc,
}

pub open spec fn key_of(k: SortKey, p: Poem) -> Seq<char> {
    match k {
        SortKey::Title => p.title@,
        SortKey::Author => p.author@,
        SortKey::Linecount => p.linecount@,
    }
}

/// The comparison the sort uses: lexicographic on the chosen field,
/// reversed for a descending sort.
pub open spec fn poem_le(k: SortKey, d: SortDir) -> spec_fn(Poem, Poem) -> bool {
    match d {
        SortDir::Asc => (|a: Poem, b: Poem| lex_le(key_of(k, a), key_of(k, b))),
        SortDir::Desc => (|a: Poem, b: Poem| lex_le(key_of(k, b), key_of(k, a))),
    }
}

pub proof fn lemma_poem_le_total_trans(k: SortKey, d: SortDir)
    ensures
        forall|a: Poem, b: Poem| #[trigger] poem_le(k, d)(a, b) || #[trigger] poem_le(k, d)(b, a),
        forall|a: Poem, b: Poem, c: Poem|
            #[trigger] poem_le(k, d)(a, b) && #[trigger] poem_le(k, d)(b, c) ==> poem_le(k, d)(
                a,
                c,
            ),
{
    assert forall|a: Poem, b: Poem|
        #[trigger] poem_le(k, d)(a, b) || #[trigger] poem_le(k, d)(b, a) by {
        lemma_lex_le_total(key_of(k, a), key_of(k, b));
        lemma_lex_le_total(key_of(k, b), key_of(k, a));
    }
    assert forall|a: Poem, b: Poem, c: Poem|
        #[trigger] poem_le(k, d)(a, b) && #[trigger] poem_le(k, d)(b, c) implies poem_le(k, d)(
        a,
        c,
    ) by {
        match d {
            SortDir::Asc => {
                lemma_lex_le_trans(key_of(k, a), key_of(k, b), key_of(k, c));
            },
            SortDir::Desc => {
                lemma_lex_le_trans(key_of(k, c), key_of(k, b), key_of(k, a));
            },
        }
    }
}

fn poem_le_exec(k: SortKey, d: SortDir, a: &Poem, b: &Poem) -> (r: bool)
    ensures
        r == poem_le(k, d)(*a, *b),
{
    let (x, y) = match d {
        SortDir::Asc => (a, b),
        SortDir::Desc => (b, a),
    };
    let xs: &str = match k {
        SortKey::Title => x.title.as_str(),
        SortKey::Author => x.author.as_str(),
        SortKey::Linecount => x.linecount.as_str(),
    };
    let ys: &str = match k {
        SortKey::Title => y.title.as_str(),
        SortKey::Author => y.author.as_str(),
        SortKey::Linecount => y.linecount.as_str(),
    };
    str_lex_le(xs, ys)
}

/// Whether a poem's title contains the search text, both lowercased.
pub open spec fn title_matches(p: Poem, q: Seq<char>) -> bool {
    is_substring(lower_of(p.title@), lower_of(q))
}

pub open spec fn filter_poems_spec(s: Seq<Poem>, q: Seq<char>) -> Seq<Poem> {
    s.filter(|p: Poem| title_matches(p, q))
}

/// Retains the poems whose title contains the search text, case
/// insensitively, keeping the upstream order.
pub fn filter_poems(poems: Vec<Poem>, search: &String) -> (r: Vec<Poem>)
    ensures
        r@ == filter_poems_spec(poems@, search@),
{
    let needle = lowercase(search.as_str());
    let ghost orig = poems@;
    let mut out: Vec<Poem> = Vec::new();
    let mut rest = poems;
    let mut idx: usize = 0;
    let init_len = rest.len();
    proof {
        assert(init_len == orig.len());
        reveal(Seq::filter);
        assert(orig.subrange(0, 0) =~= Seq::<Poem>::empty());
        assert(rest@ =~= orig.skip(0));
    }
    while rest.len() > 0
        invariant
            idx <= orig.len(),
            orig.len() <= usize::MAX,
            rest@ == orig.skip(idx as int),
            needle@ == lower_of(search@),
            out@ == filter_poems_spec(orig.subrange(0, idx as int), search@),
        decreases rest.len(),
    {
        let p = rest.remove(0);
        proof {
            assert(orig.skip(idx as int)[0] == orig[idx as int]);
            assert(orig.skip(idx as int).remove(0) =~= orig.skip(idx as int + 1));
        }
        let low_title = lowercase(p.title.as_str());
        let keep = contains_str(low_title.as_str(), needle.as_str());
        proof {
            reveal(Seq::filter);
            let pref = orig.subrange(0, idx as int);
            let pref1 = orig.subrange(0, idx as int + 1);
            assert(pref1.drop_last() =~= pref);
            assert(pref1.last() == orig[idx as int]);
        }
        if keep {
            out.push(p);
        }
        idx += 1;
    }
    proof {
        assert(orig.subrange(0, orig.len() as int) =~= orig);
    }
    out
}

/// Stable insertion sort of the poems under the chosen field and
/// direction: equal keys keep their upstream order.
pub fn sort_poems(poems: Vec<Poem>, k: SortKey, d: SortDir) -> (r: Vec<Poem>)
    ensures
        r@ == sort_by_le(poem_le(k, d), poems@),
{
    let ghost le = poem_le(k, d);
    let ghost orig = poems@;
    let mut rest = poems;
    let mut out: Vec<Poem> = Vec::new();
    let mut idx: usize = 0;
    let init_len = rest.len();
    proof {
        assert(init_len == orig.len());
        assert(orig.subrange(0, 0) =~= Seq::<Poem>::empty());
        assert(rest@ =~= orig.skip(0));
    }
    while rest.len() > 0
        invariant
            idx <= orig.len(),
            orig.len() <= usize::MAX,
            rest@ == orig.skip(idx as int),
            le == poem_le(k, d),
            out@ == sort_by_le(le, orig.subrange(0, idx as int)),
        decreases rest.len(),
    {
        let p = rest.remove(0);
        proof {
            assert(orig.skip(idx as int)[0] == orig[idx as int]);
            assert(orig.skip(idx as int).remove(0) =~= orig.skip(idx as int + 1));
        }
        let mut j: usize = 0;
        while j < out.len() && poem_le_exec(k, d, &out[j], &p)
            invariant
                j <= out.len(),
                le == poem_le(k, d),
                forall|x: int| 0 <= x < j ==> #[trigger] le(out@[x], p),
            decreases out.len() - j,
        {
            j += 1;
        }
        proof {
            lemma_insert_pos_at(le, out@, p, j as int);
            let pref = orig.subrange(0, idx as int);
            let pref1 = orig.subrange(0, idx as int + 1);
            assert(pref1.drop_last() =~= pref);
            assert(pref1.last() == orig[idx as int]);
        }
        out.insert(j, p);
        idx += 1;
    }
    proof {
        assert(orig.subrange(0, orig.len() as int) =~= orig);
    }
    out
}

/// The sort law for poems: for every field and direction, the sorted
/// listing holds exactly the original poems and orders them by the
/// chosen comparison.
pub proof fn lemma_sort_poems_ensures(k: SortKey, d: SortDir, s: Seq<Poem>)
    ensures
        sort_by_le(poem_le(k, d), s).to_multiset() == s.to_multiset(),
        sort_by_le(poem_le(k, d), s).len() == s.len(),
        sorted_by_le(poem_le(k, d), sort_by_le(poem_le(k, d), s)),
{
    lemma_poem_le_total_trans(k, d);
    lemma_sort_by_le_ensures(poem_le(k, d), s);
}

/// The poems tied with `v` on the chosen field.
pub open spec fn tied_with(k: SortKey, d: SortDir, v: Poem) -> spec_fn(Poem) -> bool {
    |x: Poem| poem_le(k, d)(x, v) && poem_le(k, d)(v, x)
}

/// The stable tie-break: poems whose key ties with any fixed poem's
/// stand in the sorted listing exactly in their upstream order.
pub proof fn lemma_sort_poems_stable(k: SortKey, d: SortDir, s: Seq<Poem>, v: Poem)
    ensures
        sort_by_le(poem_le(k, d), s).filter(tied_with(k, d, v)) == s.filter(tied_with(k, d, v)),
{
    lemma_poem_le_total_trans(k, d);
    crate::order::lemma_sort_by_le_stable(poem_le(k, d), s, v);
    let le = poem_le(k, d);
    assert(tied_with(k, d, v) =~= (|x: Poem| le(x, v) && le(v, x)));
}

/// The sort direction a request selects: descending exactly when
/// `desc` was asked for, ascending otherwise (and by default).
pub open spec fn spec_sort_dir(o: Option<Seq<char>>) -> SortDir {
    match o {
        None => SortDir::Asc,
        Some(s) => if s == "desc"@ {
            SortDir::Desc
        } else {
            SortDir::Asc
        },
    }
}

pub fn parse_sort_dir(o: &Option<String>) -> (d: SortDir)
    ensures
        d == spec_sort_dir(view_opt(*o)),
{
    match o {
        None => SortDir::Asc,
        Some(s) => if str_eq(s.as_str(), "desc") {
            SortDir::Desc
        } else {
            SortDir::Asc
        },
    }
}

/// The field a request selects; an unrecognized name selects none, and
/// the listing is then left unsorted.
pub open spec fn spec_sort_key(o: Option<Seq<char>>) -> Option<SortKey> {
    match o {
        None => None,
        Some(s) => if s == "title"@ {
            Some(SortKey::Title)
        } else if s == "author"@ {
            Some(SortKey::Author)
        } else if s == "linecount"@ {
            Some(SortKey::Linecount)
        } else {
            None
        },
    }
}

pub fn parse_sort_key(o: &Option<String>) -> (k: Option<SortKey>)
    ensures
        k == spec_sort_key(view_opt(*o)),
{
    match o {
        None => None,
        Some(s) => if str_eq(s.as_str(), "title") {
            Some(SortKey::Title)
        } else if str_eq(s.as_str(), "author") {
            Some(SortKey::Author)
        } else if str_eq(s.as_str(), "linecount") {
            Some(SortKey::Linecount)
        } else {
            None
        },
    }
}

/// The whole poem listing step after the upstream fetch: optional
/// case-insensitive title filter, then an optional stable sort on the
/// selected field.
pub open spec fn spec_process_poems(
    s: Seq<Poem>,
    search: Option<Seq<char>>,
    sort: Option<Seq<char>>,
    order: Option<Seq<char>>,
) -> Seq<Poem> {
    let f = match search {
        Some(q) => filter_poems_spec(s, q),
        None => s,
    };
    match spec_sort_key(sort) {
        None => f,
        Some(k) => sort_by_le(poem_le(k, spec_sort_dir(order)), f),
    }
}

pub fn process_poems(
    poems: Vec<Poem>,
    search: Option<String>,
    sort: Option<String>,
    sort_order: Option<String>,
) -> (r: Vec<Poem>)
    ensures
        r@ == spec_process_poems(poems@, view_opt(search), view_opt(sort), view_opt(sort_order)),
{
    let d = parse_sort_dir(&sort_order);
    let filtered = match &search {
        Some(q) => filter_poems(poems, q),
        None => poems,
    };
    let key = parse_sort_key(&sort);
    match key {
        Some(k) => sort_poems(filtered, k, d),
        None => filtered,
    }
}

} // verus!
