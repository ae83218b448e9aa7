//! The book listing and the single-book lookup: client-side selection
//! of the Polish catalog's page, concatenation of the two sources'
//! titles, and the exact-title search that yields the URLs to shorten.

use vstd::prelude::*;
use crate::error::ApiError;
use crate::error::FetchError;
use crate::error::combine_sources;
use crate::error::spec_combine_sources;
use crate::order::lemma_insert_pos_at;
use crate::order::page_of;
use crate::order::sort_by_le;
use crate::order::take_page;
use crate::text::contains_str;
use crate::text::is_substring;
use crate::text::lex_le;
use crate::text::lower_of;
use crate::text::lowercase;
use crate::text::seq_views;
use crate::text::str_eq;
use crate::text::str_lex_le;

verus! {

/// One catalog entry of the public-domain books source: a title and a
/// list of (format name, download URL) pairs, in the order the source
/// sent them.
pub struct GutendexBook {
    pub title: String,
    pub formats: Vec<(String, String)>,
}

/// One catalog entry of the Polish literature source.
pub struct WolneBook {
    pub kind: String,
    pub title: String,
    pub href: String,
}

/// How many books one page of the Polish catalog holds.
pub const BOOKS_PER_PAGE: u64 = 10;

pub open spec fn book_le() -> spec_fn(WolneBook, WolneBook) -> bool {
    |a: WolneBook, b: WolneBook| lex_le(a.title@, b.title@)
}

/// The Polish catalog's page selection, done client side: filter by
/// search text on the title and by topic on the kind (both case
/// insensitively), sort by title, then take the requested page of ten.
pub open spec fn spec_wolne_listing(
    s: Seq<WolneBook>,
    search: Option<Seq<char>>,
    topic: Option<Seq<char>>,
    page: u64,
) -> Seq<WolneBook> {
    let f1 = match search {
        Some(q) => s.filter(|b: WolneBook| is_substring(lower_of(b.title@), lower_of(q))),
        None => s,
    };
    let f2 = match topic {
        Some(t) => f1.filter(|b: WolneBook| is_substring(lower_of(b.kind@), lower_of(t))),
        None => f1,
    };
    let sorted = sort_by_le(book_le(), f2);
    page_of(sorted, (page - 1) * (BOOKS_PER_PAGE as int), BOOKS_PER_PAGE as int)
}

fn filter_wolne_title(books: Vec<WolneBook>, q: &String) -> (r: Vec<WolneBook>)
    ensures
        r@ == books@.filter((|b: WolneBook| is_substring(lower_of(b.title@), lower_of(q@)))),
{
    let needle = lowercase(q.as_str());
    let ghost orig = books@;
    let mut out: Vec<WolneBook> = Vec::new();
    let mut rest = books;
    let mut idx: usize = 0;
    let init_len = rest.len();
    proof {
        assert(init_len == orig.len());
        reveal(Seq::filter);
        assert(orig.subrange(0, 0) =~= Seq::<WolneBook>::empty());
        assert(rest@ =~= orig.skip(0));
    }
    while rest.len() > 0
        invariant
            idx <= orig.len(),
            orig.len() <= usize::MAX,
            rest@ == orig.skip(idx as int),
            needle@ == lower_of(q@),
            out@ == orig.subrange(0, idx as int).filter(
                (|b: WolneBook| is_substring(lower_of(b.title@), lower_of(q@))),
            ),
        decreases rest.len(),
    {
        let b = rest.remove(0);
        proof {
            assert(orig.skip(idx as int)[0] == orig[idx as int]);
            assert(orig.skip(idx as int).remove(0) =~= orig.skip(idx as int + 1));
        }
        let low = lowercase(b.title.as_str());
        let keep = contains_str(low.as_str(), needle.as_str());
        proof {
            reveal(Seq::filter);
            let pref = orig.subrange(0, idx as int);
            let pref1 = orig.subrange(0, idx as int + 1);
            assert(pref1.drop_last() =~= pref);
            assert(pref1.last() == orig[idx as int]);
        }
        if keep {
            out.push(b);
        }
        idx += 1;
    }
    proof {
        assert(orig.subrange(0, orig.len() as int) =~= orig);
    }
    out
}

fn filter_wolne_kind(books: Vec<WolneBook>, t: &String) -> (r: Vec<WolneBook>)
    ensures
        r@ == books@.filter((|b: WolneBook| is_substring(lower_of(b.kind@), lower_of(t@)))),
{
    let needle = lowercase(t.as_str());
    let ghost orig = books@;
    let mut out: Vec<WolneBook> = Vec::new();
    let mut rest = books;
    let mut idx: usize = 0;
    let init_len = rest.len();
    proof {
        assert(init_len == orig.len());
        reveal(Seq::filter);
        assert(orig.subrange(0, 0) =~= Seq::<WolneBook>::empty());
        assert(rest@ =~= orig.skip(0));
    }
    while rest.len() > 0
        invariant
            idx <= orig.len(),
            orig.len() <= usize::MAX,
            rest@ == orig.skip(idx as int),
            needle@ == lower_of(t@),
            out@ == orig.subrange(0, idx as int).filter(
                (|b: WolneBook| is_substring(lower_of(b.kind@), lower_of(t@))),
            ),
        decreases rest.len(),
    {
        let b = rest.remove(0);
        proof {
            assert(orig.skip(idx as int)[0] == orig[idx as int]);
            assert(orig.skip(idx as int).remove(0) =~= orig.skip(idx as int + 1));
        }
        let low = lowercase(b.kind.as_str());
        let keep = contains_str(low.as_str(), needle.as_str());
        proof {
            reveal(Seq::filter);
            let pref = orig.subrange(0, idx as int);
            let pref1 = orig.subrange(0, idx as int + 1);
            assert(pref1.drop_last() =~= pref);
            assert(pref1.last() == orig[idx as int]);
        }
        if keep {
            out.push(b);
        }
        idx += 1;
    }
    proof {
        assert(orig.subrange(0, orig.len() as int) =~= orig);
    }
    out
}

fn sort_wolne(books: Vec<WolneBook>) -> (r: Vec<WolneBook>)
    ensures
        r@ == sort_by_le(book_le(), books@),
{
    let ghost le = book_le();
    let ghost orig = books@;
    let mut rest = books;
    let mut out: Vec<WolneBook> = Vec::new();
    let mut idx: usize = 0;
    let init_len = rest.len();
    proof {
        assert(init_len == orig.len());
        assert(orig.subrange(0, 0) =~= Seq::<WolneBook>::empty());
        assert(rest@ =~= orig.skip(0));
    }
    while rest.len() > 0
        invariant
            idx <= orig.len(),
            orig.len() <= usize::MAX,
            rest@ == orig.skip(idx as int),
            le == book_le(),
            out@ == sort_by_le(le, orig.subrange(0, idx as int)),
        decreases rest.len(),
    {
        let b = rest.remove(0);
        proof {
            assert(orig.skip(idx as int)[0] == orig[idx as int]);
            assert(orig.skip(idx as int).remove(0) =~= orig.skip(idx as int + 1));
        }
        let mut j: usize = 0;
        while j < out.len() && str_lex_le(out[j].title.as_str(), b.title.as_str())
            invariant
                j <= out.len(),
                le == book_le(),
                forall|x: int| 0 <= x < j ==> #[trigger] le(out@[x], b),
            decreases out.len() - j,
        {
            j += 1;
        }
        proof {
            lemma_insert_pos_at(le, out@, b, j as int);
            let pref = orig.subrange(0, idx as int);
            let pref1 = orig.subrange(0, idx as int + 1);
            assert(pref1.drop_last() =~= pref);
            assert(pref1.last() == orig[idx as int]);
        }
        out.insert(j, b);
        idx += 1;
    }
    proof {
        assert(orig.subrange(0, orig.len() as int) =~= orig);
    }
    out
}

/// Selects the Polish catalog's page for a listing request.  The page
/// count starts at one.
pub fn wolne_listing(
    books: Vec<WolneBook>,
    search: &Option<String>,
    topic: &Option<String>,
    page: u64,
) -> (r: Vec<WolneBook>)
    requires
        page >= 1,
    ensures
        r@ == spec_wolne_listing(
            books@,
            crate::authors::view_opt(*search),
            crate::authors::view_opt(*topic),
            page,
        ),
{
    let f1 = match search {
        Some(q) => filter_wolne_title(books, q),
        None => books,
    };
    let f2 = match topic {
        Some(t) => filter_wolne_kind(f1, t),
        None => f1,
    };
    let sorted = sort_wolne(f2);
    let ghost sorted_view = sorted@;
    let sorted_len = sorted.len();
    proof {
        assert(sorted_len == sorted_view.len());
    }
    let off128: u128 = (page as u128 - 1) * (BOOKS_PER_PAGE as u128);
    let off: usize = if off128 > usize::MAX as u128 {
        usize::MAX
    } else {
        off128 as usize
    };
    let r = take_page(sorted, off, BOOKS_PER_PAGE as usize);
    proof {
        assert(r@ =~= page_of(
            sorted_view,
            (page - 1) * (BOOKS_PER_PAGE as int),
            BOOKS_PER_PAGE as int,
        ));
    }
    r
}

pub open spec fn titles_g(s: Seq<GutendexBook>) -> Seq<Seq<char>> {
    s.map_values(|b: GutendexBook| b.title@)
}

pub open spec fn titles_w(s: Seq<WolneBook>) -> Seq<Seq<char>> {
    s.map_values(|b: WolneBook| b.title@)
}

pub open spec fn result_view_g(r: Result<Vec<GutendexBook>, FetchError>) -> Result<
    Seq<GutendexBook>,
    FetchError,
> {
    match r {
        Ok(v) => Ok(v@),
        Err(e) => Err(e),
    }
}

pub open spec fn result_view_w(r: Result<Vec<WolneBook>, FetchError>) -> Result<
    Seq<WolneBook>,
    FetchError,
> {
    match r {
        Ok(v) => Ok(v@),
        Err(e) => Err(e),
    }
}

/// The book listing: the two sources' outcomes combine as everywhere
/// (one unavailable source fails everything, not-found needs both),
/// and on success the listing is the first source's titles followed by
/// the second's, without cross-source de-duplication.
pub open spec fn spec_books_listing(
    g: Result<Seq<GutendexBook>, FetchError>,
    w: Result<Seq<WolneBook>, FetchError>,
) -> Result<Seq<Seq<char>>, ApiError> {
    match spec_combine_sources(g, w) {
        Err(e) => Err(e),
        Ok((og, ow)) => Ok(
            (match og {
                Some(s) => titles_g(s),
                None => Seq::empty(),
            }) + (match ow {
                Some(s) => titles_w(s),
                None => Seq::empty(),
            }),
        ),
    }
}

pub fn books_listing(
    g: Result<Vec<GutendexBook>, FetchError>,
    w: Result<Vec<WolneBook>, FetchError>,
) -> (r: Result<Vec<String>, ApiError>)
    ensures
        (match r {
            Ok(v) => spec_books_listing(result_view_g(g), result_view_w(w)) == Result::<
                Seq<Seq<char>>,
                ApiError,
            >::Ok(seq_views(v@)),
            Err(e) => spec_books_listing(result_view_g(g), result_view_w(w)) == Result::<
                Seq<Seq<char>>,
                ApiError,
            >::Err(e),
        }),
{
    let ghost gv = result_view_g(g);
    let ghost wv = result_view_w(w);
    match combine_sources(g, w) {
        Err(e) => Err(e),
        Ok((og, ow)) => {
            let mut titles: Vec<String> = Vec::new();
            let ghost gpart: Seq<Seq<char>> = match og {
                Some(ref s) => titles_g(s@),
                None => Seq::empty(),
            };
            let ghost wpart: Seq<Seq<char>> = match ow {
                Some(ref s) => titles_w(s@),
                None => Seq::empty(),
            };
            if let Some(gb) = og {
                let ghost orig = gb@;
                let mut rest = gb;
                let mut idx: usize = 0;
                let init_len = rest.len();
                proof {
                    assert(init_len == orig.len());
                    assert(rest@ =~= orig.skip(0));
                    assert(seq_views(titles@) =~= titles_g(orig.subrange(0, 0)));
                }
                while rest.len() > 0
                    invariant
                        idx <= orig.len(),
                        orig.len() <= usize::MAX,
                        rest@ == orig.skip(idx as int),
                        gpart == titles_g(orig),
                        seq_views(titles@) == titles_g(orig.subrange(0, idx as int)),
                    decreases rest.len(),
                {
                    let b = rest.remove(0);
                    proof {
                        assert(orig.skip(idx as int)[0] == orig[idx as int]);
                        assert(orig.skip(idx as int).remove(0) =~= orig.skip(idx as int + 1));
                        crate::text::lemma_seq_views_push(titles@, b.title);
                        assert(seq_views(titles@).push(b.title@) =~= titles_g(
                            orig.subrange(0, idx as int + 1),
                        ));
                    }
                    titles.push(b.title);
                    idx += 1;
                }
                proof {
                    assert(orig.subrange(0, orig.len() as int) =~= orig);
                }
            }
            proof {
                assert(seq_views(titles@) == gpart);
            }
            let ghost after_g = seq_views(titles@);
            if let Some(wb) = ow {
                let ghost orig = wb@;
                let mut rest = wb;
                let mut idx: usize = 0;
                let init_len = rest.len();
                proof {
                    assert(init_len == orig.len());
                    assert(rest@ =~= orig.skip(0));
                    assert(seq_views(titles@) =~= after_g + titles_w(orig.subrange(0, 0)));
                }
                while rest.len() > 0
                    invariant
                        idx <= orig.len(),
                        orig.len() <= usize::MAX,
                        rest@ == orig.skip(idx as int),
                        wpart == titles_w(orig),
                        seq_views(titles@) == after_g + titles_w(orig.subrange(0, idx as int)),
                    decreases rest.len(),
                {
                    let b = rest.remove(0);
                    proof {
                        assert(orig.skip(idx as int)[0] == orig[idx as int]);
                        assert(orig.skip(idx as int).remove(0) =~= orig.skip(idx as int + 1));
                        crate::text::lemma_seq_views_push(titles@, b.title);
                        assert(seq_views(titles@).push(b.title@) =~= after_g + titles_w(
                            orig.subrange(0, idx as int + 1),
                        ));
                    }
                    titles.push(b.title);
                    idx += 1;
                }
                proof {
                    assert(orig.subrange(0, orig.len() as int) =~= orig);
                }
            }
            proof {
                assert(seq_views(titles@) =~= gpart + wpart);
            }
            Ok(titles)
        },
    }
}

/// The first book of the first source whose title equals `t` exactly.
pub open spec fn find_g(s: Seq<GutendexBook>, t: Seq<char>) -> Option<GutendexBook>
    decreases s.len(),
{
    if s.len() == 0 {
        None
    } else if s[0].title@ == t {
        Some(s[0])
    } else {
        find_g(s.drop_first(), t)
    }
}

/// The first book of the second source whose title equals `t` exactly.
pub open spec fn find_w(s: Seq<WolneBook>, t: Seq<char>) -> Option<WolneBook>
    decreases s.len(),
{
    if s.len() == 0 {
        None
    } else if s[0].title@ == t {
        Some(s[0])
    } else {
        find_w(s.drop_first(), t)
    }
}

fn find_gutendex(books: Vec<GutendexBook>, t: &String) -> (r: Option<GutendexBook>)
    ensures
        r == find_g(books@, t@),
{
    let ghost orig = books@;
    let mut rest = books;
    while rest.len() > 0
        invariant
            orig == books@,
            find_g(orig, t@) == find_g(rest@, t@),
        decreases rest.len(),
    {
        let ghost old_rest = rest@;
        let b = rest.remove(0);
        proof {
            assert(old_rest[0] == b);
            assert(old_rest.drop_first() =~= rest@);
        }
        if str_eq(b.title.as_str(), t.as_str()) {
            proof {
                assert(old_rest.len() > 0);
                assert(find_g(old_rest, t@) == Some(b));
            }
            return Some(b);
        }
    }
    None
}

fn find_wolne(books: Vec<WolneBook>, t: &String) -> (r: Option<WolneBook>)
    ensures
        r == find_w(books@, t@),
{
    let ghost orig = books@;
    let mut rest = books;
    while rest.len() > 0
        invariant
            orig == books@,
            find_w(orig, t@) == find_w(rest@, t@),
        decreases rest.len(),
    {
        let ghost old_rest = rest@;
        let b = rest.remove(0);
        proof {
            assert(old_rest[0] == b);
            assert(old_rest.drop_first() =~= rest@);
        }
        if str_eq(b.title.as_str(), t.as_str()) {
            proof {
                assert(old_rest.len() > 0);
                assert(find_w(old_rest, t@) == Some(b));
            }
            return Some(b);
        }
    }
    None
}

/// The single-book lookup: each source is searched for the exact
/// title; the lookup is not-found only when the title is absent from
/// both (or both reported not-found), and otherwise yields the URLs to
/// shorten — the first source's first listed format, then the second
/// source's href.
pub open spec fn spec_book_lookup(
    g: Result<Seq<GutendexBook>, FetchError>,
    w: Result<Seq<WolneBook>, FetchError>,
    t: Seq<char>,
) -> Result<Seq<Seq<char>>, ApiError> {
    match spec_combine_sources(g, w) {
        Err(e) => Err(e),
        Ok((og, ow)) => {
            let fg = match og {
                Some(s) => find_g(s, t),
                None => None,
            };
            let fw = match ow {
                Some(s) => find_w(s, t),
                None => None,
            };
            if fg is None && fw is None {
                Err(ApiError::NotFound)
            } else {
                let u1 = match fg {
                    Some(b) => if b.formats@.len() > 0 {
                        seq![b.formats@[0].1@]
                    } else {
                        Seq::empty()
                    },
                    None => Seq::empty(),
                };
                let u2 = match fw {
                    Some(b) => seq![b.href@],
                    None => Seq::empty(),
                };
                Ok(u1 + u2)
            }
        },
    }
}

pub fn book_lookup(
    g: Result<Vec<GutendexBook>, FetchError>,
    w: Result<Vec<WolneBook>, FetchError>,
    title: &String,
) -> (r: Result<Vec<String>, ApiError>)
    ensures
        (match r {
            Ok(v) => spec_book_lookup(result_view_g(g), result_view_w(w), title@) == Result::<
                Seq<Seq<char>>,
                ApiError,
            >::Ok(seq_views(v@)),
            Err(e) => spec_book_lookup(result_view_g(g), result_view_w(w), title@) == Result::<
                Seq<Seq<char>>,
                ApiError,
            >::Err(e),
        }),
{
    match combine_sources(g, w) {
        Err(e) => Err(e),
        Ok((og, ow)) => {
            let fg = match og {
                Some(s) => find_gutendex(s, title),
                None => None,
            };
            let fw = match ow {
                Some(s) => find_wolne(s, title),
                None => None,
            };
            if fg.is_none() && fw.is_none() {
                return Err(ApiError::NotFound);
            }
            let mut urls: Vec<String> = Vec::new();
            let ghost u1: Seq<Seq<char>> = match fg {
                Some(ref b) => if b.formats@.len() > 0 {
                    seq![b.formats@[0].1@]
                } else {
                    Seq::empty()
                },
                None => Seq::empty(),
            };
            let ghost u2: Seq<Seq<char>> = match fw {
                Some(ref b) => seq![b.href@],
                None => Seq::empty(),
            };
            if let Some(b) = fg {
                let mut formats = b.formats;
                if formats.len() > 0 {
                    let first = formats.remove(0);
                    urls.push(first.1);
                }
            }
            proof {
                assert(seq_views(urls@) =~= u1);
            }
            if let Some(b) = fw {
                proof {
                    crate::text::lemma_seq_views_push(urls@, b.href);
                }
                urls.push(b.href);
            }
            proof {
                assert(seq_views(urls@) =~= u1 + u2);
            }
            Ok(urls)
        },
    }
}

/// The lookup is not-found exactly on a title absent from both
/// sources: whether a source answered not-found outright or answered
/// without listing the title, neither contributes, and both must fail
/// that way.
pub proof fn lemma_book_lookup_absent(
    g: Result<Seq<GutendexBook>, FetchError>,
    w: Result<Seq<WolneBook>, FetchError>,
    t: Seq<char>,
)
    requires
        (match g {
            Ok(s) => find_g(s, t) is None,
            Err(e) => e == FetchError::NotFound,
        }),
        (match w {
            Ok(s) => find_w(s, t) is None,
            Err(e) => e == FetchError::NotFound,
        }),
    ensures
        spec_book_lookup(g, w, t) == Result::<Seq<Seq<char>>, ApiError>::Err(ApiError::NotFound),
{
}

/// Keeps the URLs the shortening step managed to produce, in order.
pub open spec fn somes_of(s: Seq<Option<String>>) -> Seq<String>
    decreases s.len(),
{
    if s.len() == 0 {
        Seq::empty()
    } else {
        let rest = somes_of(s.drop_first());
        match s[0] {
            Some(x) => seq![x] + rest,
            None => rest,
        }
    }
}

pub fn collect_present(xs: Vec<Option<String>>) -> (r: Vec<String>)
    ensures
        r@ == somes_of(xs@),
{
    let ghost orig = xs@;
    let mut out: Vec<String> = Vec::new();
    let mut rest = xs;
    proof {
        assert(out@ + somes_of(rest@) =~= somes_of(orig));
    }
    while rest.len() > 0
        invariant
            out@ + somes_of(rest@) == somes_of(orig),
        decreases rest.len(),
    {
        let ghost old_rest = rest@;
        let ghost old_out = out@;
        let x = rest.remove(0);
        proof {
            assert(old_rest[0] == x);
            assert(old_rest.drop_first() =~= rest@);
        }
        match x {
            Some(u) => {
                proof {
                    assert((old_out.push(u)) + somes_of(rest@) =~= old_out + (seq![u] + somes_of(
                        rest@,
                    )));
                }
                out.push(u);
            },
            None => {},
        }
    }
    proof {
        assert(somes_of(rest@) =~= Seq::<String>::empty());
        assert(out@ + somes_of(rest@) =~= out@);
    }
    out
}

} // verus!
