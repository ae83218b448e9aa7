//! The author listing: validation of the pagination bounds, the
//! order-preserving union of the two upstream author lists, the
//! case-sensitive name filter, and the page window.

use vstd::prelude::*;
use crate::error::ApiError;
use crate::order::page_of;
use crate::order::take_page;
use crate::text::contains_str;
use crate::text::is_substring;
use crate::text::str_eq;

verus! {

/// The largest `limit` a listing request may ask for.
pub const LIMIT_CAP: u64 = 100;

/// The largest `offset` a listing request may ask for.
pub const OFFSET_CAP: u64 = 1000;

pub open spec fn spec_listing_valid(limit: Option<u64>, offset: Option<u64>) -> bool {
    (match limit {
        Some(l) => l <= LIMIT_CAP,
        None => true,
    }) && (match offset {
        Some(o) => o <= OFFSET_CAP,
        None => true,
    })
}

/// Validates the pagination parameters before any upstream call is
/// made: a limit over the cap or an offset over the cap is rejected as
/// a bad request, and nothing else is.
pub fn validate_listing(limit: Option<u64>, offset: Option<u64>) -> (r: Result<(), ApiError>)
    ensures
        r is Ok <==> spec_listing_valid(limit, offset),
        !spec_listing_valid(limit, offset) ==> r == Result::<(), ApiError>::Err(
            ApiError::BadRequest,
        ),
{
    if let Some(l) = limit {
        if l > LIMIT_CAP {
            return Err(ApiError::BadRequest);
        }
    }
    if let Some(o) = offset {
        if o > OFFSET_CAP {
            return Err(ApiError::BadRequest);
        }
    }
    Ok(())
}

/// Whether some string in `s` reads `w`.
pub open spec fn contains_name(s: Seq<String>, w: Seq<char>) -> bool {
    exists|i: int| 0 <= i < s.len() && #[trigger] s[i]@ == w
}

/// All strings of `s` read differently.
pub open spec fn distinct_names(s: Seq<String>) -> bool {
    forall|i: int, j: int| 0 <= i < j < s.len() ==> #[trigger] s[i]@ != #[trigger] s[j]@
}

/// The order-preserving union: all of `a`, then every element of `b`
/// whose text is not already present.
pub open spec fn merge_names(a: Seq<String>, b: Seq<String>) -> Seq<String>
    decreases b.len(),
{
    if b.len() == 0 {
        a
    } else {
        let m = merge_names(a, b.drop_last());
        if contains_name(m, b.last()@) {
            m
        } else {
            m.push(b.last())
        }
    }
}

pub proof fn lemma_contains_name_push(s: Seq<String>, x: String, w: Seq<char>)
    ensures
        contains_name(s.push(x), w) <==> (contains_name(s, w) || x@ == w),
{
    if contains_name(s.push(x), w) {
        let i = choose|i: int| 0 <= i < s.push(x).len() && #[trigger] s.push(x)[i]@ == w;
        if i < s.len() {
            assert(s[i]@ == w);
        } else {
            assert(s.push(x)[i] == x);
        }
    }
    if contains_name(s, w) {
        let i = choose|i: int| 0 <= i < s.len() && #[trigger] s[i]@ == w;
        assert(s.push(x)[i]@ == w);
    }
    if x@ == w {
        assert(s.push(x)[s.len() as int]@ == w);
    }
}

/// A name is in the union exactly when one of the sources lists it.
pub proof fn lemma_merge_names_membership(a: Seq<String>, b: Seq<String>, w: Seq<char>)
    ensures
        contains_name(merge_names(a, b), w) <==> (contains_name(a, w) || contains_name(b, w)),
    decreases b.len(),
{
    if b.len() == 0 {
    } else {
        lemma_merge_names_membership(a, b.drop_last(), w);
        let m = merge_names(a, b.drop_last());
        assert(b =~= b.drop_last().push(b.last()));
        lemma_contains_name_push(b.drop_last(), b.last(), w);
        if !contains_name(m, b.last()@) {
            lemma_contains_name_push(m, b.last(), w);
        } else {
            if b.last()@ == w {
                assert(contains_name(m, w));
            }
        }
    }
}

/// The union keeps source A's order as a prefix and introduces no
/// duplicate when source A had none.
pub proof fn lemma_merge_names_shape(a: Seq<String>, b: Seq<String>)
    ensures
        merge_names(a, b).len() >= a.len(),
        merge_names(a, b).subrange(0, a.len() as int) == a,
        distinct_names(a) ==> distinct_names(merge_names(a, b)),
    decreases b.len(),
{
    if b.len() == 0 {
        assert(a.subrange(0, a.len() as int) =~= a);
    } else {
        lemma_merge_names_shape(a, b.drop_last());
        let m = merge_names(a, b.drop_last());
        if !contains_name(m, b.last()@) {
            let t = m.push(b.last());
            assert(t.subrange(0, a.len() as int) =~= m.subrange(0, a.len() as int));
            if distinct_names(m) {
                assert forall|i: int, j: int| 0 <= i < j < t.len() implies t[i]@ != t[j]@ by {
                    if j == m.len() {
                        assert(t[i] == m[i]);
                        if m[i]@ == b.last()@ {
                            assert(contains_name(m, b.last()@));
                        }
                    }
                }
            }
        }
    }
}

/// Concatenates source A's authors with source B's, skipping any name
/// already present.
pub fn merge_authors(a: Vec<String>, b: Vec<String>) -> (r: Vec<String>)
    ensures
        r@ == merge_names(a@, b@),
{
    let ghost aorig = a@;
    let ghost borig = b@;
    let mut out = a;
    let mut rest = b;
    let mut idx: usize = 0;
    let init_len = rest.len();
    proof {
        assert(init_len == borig.len());
        assert(borig.subrange(0, 0) =~= Seq::<String>::empty());
        assert(rest@ =~= borig.skip(0));
    }
    while rest.len() > 0
        invariant
            idx <= borig.len(),
            borig.len() <= usize::MAX,
            rest@ == borig.skip(idx as int),
            out@ == merge_names(aorig, borig.subrange(0, idx as int)),
        decreases rest.len(),
    {
        let x = rest.remove(0);
        proof {
            assert(borig.skip(idx as int)[0] == borig[idx as int]);
            assert(borig.skip(idx as int).remove(0) =~= borig.skip(idx as int + 1));
        }
        let mut found = false;
        let mut j: usize = 0;
        while !found && j < out.len()
            invariant
                j <= out.len(),
                !found ==> forall|k: int| 0 <= k < j ==> #[trigger] out@[k]@ != x@,
                found ==> contains_name(out@, x@),
            decreases out.len() - j + (if found {
                0int
            } else {
                1int
            }),
        {
            if str_eq(out[j].as_str(), x.as_str()) {
                found = true;
            } else {
                j += 1;
            }
        }
        proof {
            let pref = borig.subrange(0, idx as int);
            let pref1 = borig.subrange(0, idx as int + 1);
            assert(pref1.drop_last() =~= pref);
            assert(pref1.last() == borig[idx as int]);
        }
        if !found {
            out.push(x);
        }
        idx += 1;
    }
    proof {
        assert(borig.subrange(0, borig.len() as int) =~= borig);
    }
    out
}

/// The names of `s` that contain `pat` as a substring, in order.
pub open spec fn filter_names(s: Seq<String>, pat: Seq<char>) -> Seq<String> {
    s.filter(|x: String| is_substring(x@, pat))
}

/// Retains the authors whose name contains the filter, case
/// sensitively, keeping their order.
pub fn filter_authors(authors: Vec<String>, pat: &String) -> (r: Vec<String>)
    ensures
        r@ == filter_names(authors@, pat@),
{
    let ghost orig = authors@;
    let mut out: Vec<String> = Vec::new();
    let mut rest = authors;
    let mut idx: usize = 0;
    let init_len = rest.len();
    proof {
        assert(init_len == orig.len());
        reveal(Seq::filter);
        assert(orig.subrange(0, 0) =~= Seq::<String>::empty());
        assert(rest@ =~= orig.skip(0));
    }
    while rest.len() > 0
        invariant
            idx <= orig.len(),
            orig.len() <= usize::MAX,
            rest@ == orig.skip(idx as int),
            out@ == filter_names(orig.subrange(0, idx as int), pat@),
        decreases rest.len(),
    {
        let x = rest.remove(0);
        proof {
            assert(orig.skip(idx as int)[0] == orig[idx as int]);
            assert(orig.skip(idx as int).remove(0) =~= orig.skip(idx as int + 1));
        }
        let keep = contains_str(x.as_str(), pat.as_str());
        proof {
            reveal(Seq::filter);
            let pref = orig.subrange(0, idx as int);
            let pref1 = orig.subrange(0, idx as int + 1);
            assert(pref1.drop_last() =~= pref);
            assert(pref1.last() == orig[idx as int]);
        }
        if keep {
            out.push(x);
        }
        idx += 1;
    }
    proof {
        assert(orig.subrange(0, orig.len() as int) =~= orig);
    }
    out
}

pub open spec fn view_opt(s: Option<String>) -> Option<Seq<char>> {
    match s {
        Some(x) => Some(x@),
        None => None,
    }
}

/// The whole author listing, after validation: union of the two
/// sources, optional name filter, then offset (default 0) and limit
/// (default: all that remains), applied to the merged, filtered list in
/// that order.
pub open spec fn spec_authors_listing(
    a: Seq<String>,
    b: Seq<String>,
    name: Option<Seq<char>>,
    offset: Option<u64>,
    limit: Option<u64>,
) -> Seq<String> {
    let merged = merge_names(a, b);
    let filtered = match name {
        Some(p) => filter_names(merged, p),
        None => merged,
    };
    let off = match offset {
        Some(o) => o as int,
        None => 0int,
    };
    let lim = match limit {
        Some(l) => l as int,
        None => filtered.len() as int,
    };
    page_of(filtered, off, lim)
}

pub fn authors_listing(
    a: Vec<String>,
    b: Vec<String>,
    name: Option<String>,
    offset: Option<u64>,
    limit: Option<u64>,
) -> (r: Vec<String>)
    ensures
        r@ == spec_authors_listing(a@, b@, view_opt(name), offset, limit),
{
    let merged = merge_authors(a, b);
    let filtered = match &name {
        Some(p) => filter_authors(merged, p),
        None => merged,
    };
    let len = filtered.len();
    let off_us: usize = match offset {
        Some(o) => if o > len as u64 {
            len
        } else {
            o as usize
        },
        None => 0,
    };
    let lim_us: usize = match limit {
        Some(l) => if l > len as u64 {
            len
        } else {
            l as usize
        },
        None => len,
    };
    let ghost filtered_view = filtered@;
    let r = take_page(filtered, off_us, lim_us);
    proof {
        assert(r@ =~= spec_authors_listing(a@, b@, view_opt(name), offset, limit));
    }
    r
}

} // verus!
