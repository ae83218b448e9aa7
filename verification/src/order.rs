//! Stable sorting and pagination, specified once for every collection
//! the gateway orders: a deterministic insertion-based sort and a
//! skip/take page window.

use vstd::prelude::*;
use vstd::seq_lib::lemma_multiset_commutative;

verus! {

/// The index at which a stable insertion places `p` in `s`: after every
/// prefix element ordered no later than `p`, so equal keys keep their
/// first-seen order.
pub open spec fn insert_pos<T>(le: spec_fn(T, T) -> bool, s: Seq<T>, p: T) -> int
    decreases s.len(),
{
    if s.len() == 0 {
        0
    } else if !le(s[0], p) {
        0
    } else {
        1 + insert_pos(le, s.drop_first(), p)
    }
}

pub proof fn lemma_insert_pos_bounds<T>(le: spec_fn(T, T) -> bool, s: Seq<T>, p: T)
    ensures
        0 <= insert_pos(le, s, p) <= s.len(),
    decreases s.len(),
{
    if s.len() == 0 {
    } else if !le(s[0], p) {
    } else {
        lemma_insert_pos_bounds(le, s.drop_first(), p);
    }
}

/// Everything before the insertion point is ordered no later than `p`,
/// and the element at the insertion point (if any) is not.
pub proof fn lemma_insert_pos_prefix<T>(le: spec_fn(T, T) -> bool, s: Seq<T>, p: T)
    ensures
        forall|k: int| 0 <= k < insert_pos(le, s, p) ==> le(s[k], p),
        insert_pos(le, s, p) < s.len() ==> !le(s[insert_pos(le, s, p)], p),
    decreases s.len(),
{
    lemma_insert_pos_bounds(le, s, p);
    if s.len() == 0 {
    } else if !le(s[0], p) {
    } else {
        lemma_insert_pos_prefix(le, s.drop_first(), p);
        lemma_insert_pos_bounds(le, s.drop_first(), p);
        assert forall|k: int| 0 <= k < insert_pos(le, s, p) implies le(s[k], p) by {
            if k > 0 {
                assert(s.drop_first()[k - 1] == s[k]);
            }
        }
        if insert_pos(le, s, p) < s.len() {
            assert(s.drop_first()[insert_pos(le, s.drop_first(), p)] == s[insert_pos(le, s, p)]);
        }
    }
}

/// A scan that stopped at `i` found the insertion point.
pub proof fn lemma_insert_pos_at<T>(le: spec_fn(T, T) -> bool, s: Seq<T>, p: T, i: int)
    requires
        0 <= i <= s.len(),
        forall|k: int| 0 <= k < i ==> le(s[k], p),
        i < s.len() ==> !le(s[i], p),
    ensures
        insert_pos(le, s, p) == i,
    decreases s.len(),
{
    if s.len() == 0 {
    } else if !le(s[0], p) {
        assert(i == 0);
    } else {
        assert(i != 0);
        assert forall|k: int| 0 <= k < i - 1 implies le(s.drop_first()[k], p) by {
            assert(s.drop_first()[k] == s[k + 1]);
        }
        assert(i - 1 < s.drop_first().len() ==> s.drop_first()[i - 1] == s[i]);
        lemma_insert_pos_at(le, s.drop_first(), p, i - 1);
    }
}

/// One stable insertion of `p` into `s`.
pub open spec fn insert_sorted<T>(le: spec_fn(T, T) -> bool, s: Seq<T>, p: T) -> Seq<T> {
    s.insert(insert_pos(le, s, p), p)
}

/// The stable insertion sort of `s` under `le`: a deterministic
/// function of the input, so every run on the same data yields the same
/// ordering.
pub open spec fn sort_by_le<T>(le: spec_fn(T, T) -> bool, s: Seq<T>) -> Seq<T>
    decreases s.len(),
{
    if s.len() == 0 {
        s
    } else {
        insert_sorted(le, sort_by_le(le, s.drop_last()), s.last())
    }
}

/// Being sorted under `le`.
pub open spec fn sorted_by_le<T>(le: spec_fn(T, T) -> bool, s: Seq<T>) -> bool {
    forall|i: int, j: int| 0 <= i < j < s.len() ==> le(#[trigger] s[i], #[trigger] s[j])
}

pub proof fn lemma_insert_sorted_multiset<T>(le: spec_fn(T, T) -> bool, s: Seq<T>, p: T)
    ensures
        insert_sorted(le, s, p).to_multiset() == s.to_multiset().insert(p),
        insert_sorted(le, s, p).len() == s.len() + 1,
{
    lemma_insert_pos_bounds(le, s, p);
    let i = insert_pos(le, s, p);
    let left = s.subrange(0, i);
    let right = s.subrange(i, s.len() as int);
    assert(s.insert(i, p) == left.push(p) + right);
    lemma_multiset_commutative(left.push(p), right);
    lemma_multiset_commutative(left, right);
    left.to_multiset_ensures();
    assert(s =~= left + right);
    assert(left.push(p).to_multiset() =~= left.to_multiset().insert(p));
    assert((left.to_multiset().insert(p)).add(right.to_multiset()) =~= (left.to_multiset().add(
        right.to_multiset(),
    )).insert(p));
}

pub proof fn lemma_insert_sorted_sorted<T>(le: spec_fn(T, T) -> bool, s: Seq<T>, p: T)
    requires
        sorted_by_le(le, s),
        forall|a: T, b: T| #[trigger] le(a, b) || #[trigger] le(b, a),
        forall|a: T, b: T, c: T| #[trigger] le(a, b) && #[trigger] le(b, c) ==> le(a, c),
    ensures
        sorted_by_le(le, insert_sorted(le, s, p)),
{
    lemma_insert_pos_bounds(le, s, p);
    lemma_insert_pos_prefix(le, s, p);
    let i = insert_pos(le, s, p);
    let t = insert_sorted(le, s, p);
    s.insert_ensures(i, p);
    assert forall|x: int, y: int| 0 <= x < y < t.len() implies le(t[x], t[y]) by {
        if y < i {
        } else if x < i && y == i {
        } else if x < i && y > i {
            assert(t[y] == s[y - 1]);
        } else if x == i {
            assert(t[y] == s[y - 1]);
            if y - 1 > i {
                assert(le(s[i], s[y - 1]));
                assert(le(p, s[i]));
            } else {
                assert(le(p, s[y - 1]));
            }
        } else {
            assert(t[x] == s[x - 1]);
            assert(t[y] == s[y - 1]);
        }
    }
}

/// The sort law: sorting keeps exactly the original elements (as a
/// multiset) and orders them by `le`, for any total, transitive `le`.
pub proof fn lemma_sort_by_le_ensures<T>(le: spec_fn(T, T) -> bool, s: Seq<T>)
    requires
        forall|a: T, b: T| #[trigger] le(a, b) || #[trigger] le(b, a),
        forall|a: T, b: T, c: T| #[trigger] le(a, b) && #[trigger] le(b, c) ==> le(a, c),
    ensures
        sort_by_le(le, s).to_multiset() == s.to_multiset(),
        sort_by_le(le, s).len() == s.len(),
        sorted_by_le(le, sort_by_le(le, s)),
    decreases s.len(),
{
    broadcast use vstd::seq_lib::group_to_multiset_ensures;

    if s.len() == 0 {
    } else {
        lemma_sort_by_le_ensures(le, s.drop_last());
        lemma_insert_sorted_multiset(le, sort_by_le(le, s.drop_last()), s.last());
        lemma_insert_sorted_sorted(le, sort_by_le(le, s.drop_last()), s.last());
        assert(s =~= s.drop_last().push(s.last()));
        assert(s.drop_last().push(s.last()).to_multiset() =~= s.drop_last().to_multiset().insert(
            s.last(),
        ));
    }
}

/// Sorting is a permutation whatever the comparison is.
pub proof fn lemma_sort_by_le_multiset<T>(le: spec_fn(T, T) -> bool, s: Seq<T>)
    ensures
        sort_by_le(le, s).to_multiset() == s.to_multiset(),
        sort_by_le(le, s).len() == s.len(),
    decreases s.len(),
{
    broadcast use vstd::seq_lib::group_to_multiset_ensures;

    if s.len() == 0 {
    } else {
        lemma_sort_by_le_multiset(le, s.drop_last());
        lemma_insert_sorted_multiset(le, sort_by_le(le, s.drop_last()), s.last());
        assert(s =~= s.drop_last().push(s.last()));
        assert(s.drop_last().push(s.last()).to_multiset() =~= s.drop_last().to_multiset().insert(
            s.last(),
        ));
    }
}

/// Sorting keeps any pairwise-distinctness: when no two input elements
/// are related by the symmetric relation `eq`, no two output elements
/// are either.
pub proof fn lemma_sort_by_le_pairwise<T>(le: spec_fn(T, T) -> bool, eq: spec_fn(T, T) -> bool, s: Seq<T>)
    requires
        forall|a: T, b: T| #[trigger] eq(a, b) <==> #[trigger] eq(b, a),
        forall|i: int, j: int| 0 <= i < j < s.len() ==> !eq(#[trigger] s[i], #[trigger] s[j]),
    ensures
        forall|i: int, j: int|
            0 <= i < j < sort_by_le(le, s).len() ==> !eq(
                #[trigger] sort_by_le(le, s)[i],
                #[trigger] sort_by_le(le, s)[j],
            ),
    decreases s.len(),
{
    if s.len() == 0 {
    } else {
        let m = sort_by_le(le, s.drop_last());
        let p = s.last();
        assert forall|i: int, j: int| 0 <= i < j < s.drop_last().len() implies !eq(
            #[trigger] s.drop_last()[i],
            #[trigger] s.drop_last()[j],
        ) by {
            assert(s.drop_last()[i] == s[i]);
            assert(s.drop_last()[j] == s[j]);
        }
        lemma_sort_by_le_pairwise(le, eq, s.drop_last());
        lemma_sort_by_le_multiset(le, s.drop_last());
        s.drop_last().to_multiset_ensures();
        m.to_multiset_ensures();
        assert forall|x: int| 0 <= x < m.len() implies !eq(m[x], p) by {
            assert(m.contains(m[x]));
            assert(s.drop_last().to_multiset().count(m[x]) > 0);
            assert(s.drop_last().contains(m[x]));
            let k = choose|k: int| 0 <= k < s.drop_last().len() && s.drop_last()[k] == m[x];
            assert(s[k] == m[x]);
            assert(!eq(s[k], s[s.len() - 1]));
        }
        lemma_insert_pos_bounds(le, m, p);
        let pos = insert_pos(le, m, p);
        m.insert_ensures(pos, p);
        let t = insert_sorted(le, m, p);
        assert forall|i: int, j: int| 0 <= i < j < t.len() implies !eq(t[i], t[j]) by {
            if j < pos {
            } else if i < pos && j == pos {
                assert(t[i] == m[i]);
            } else if i < pos && j > pos {
                assert(t[j] == m[j - 1]);
            } else if i == pos {
                assert(t[j] == m[j - 1]);
            } else {
                assert(t[i] == m[i - 1]);
                assert(t[j] == m[j - 1]);
            }
        }
    }
}

proof fn lemma_filter_empty<T>(s: Seq<T>, pred: spec_fn(T) -> bool)
    requires
        forall|i: int| 0 <= i < s.len() ==> !pred(#[trigger] s[i]),
    ensures
        s.filter(pred) == Seq::<T>::empty(),
    decreases s.len(),
{
    reveal(Seq::filter);
    if s.len() == 0 {
        assert(s.filter(pred) =~= Seq::<T>::empty());
    } else {
        assert forall|i: int| 0 <= i < s.drop_last().len() implies !pred(
            #[trigger] s.drop_last()[i],
        ) by {
            assert(s.drop_last()[i] == s[i]);
        }
        lemma_filter_empty(s.drop_last(), pred);
    }
}

proof fn lemma_filter_push<T>(s: Seq<T>, p: T, pred: spec_fn(T) -> bool)
    ensures
        pred(p) ==> s.push(p).filter(pred) == s.filter(pred).push(p),
        !pred(p) ==> s.push(p).filter(pred) == s.filter(pred),
{
    reveal(Seq::filter);
    assert(s.push(p).drop_last() =~= s);
}

/// The sort is stable: the elements tied (under `le`) to any fixed
/// value keep exactly their first-seen order.
pub proof fn lemma_sort_by_le_stable<T>(le: spec_fn(T, T) -> bool, s: Seq<T>, v: T)
    requires
        forall|a: T, b: T| #[trigger] le(a, b) || #[trigger] le(b, a),
        forall|a: T, b: T, c: T| #[trigger] le(a, b) && #[trigger] le(b, c) ==> le(a, c),
    ensures
        sort_by_le(le, s).filter((|x: T| le(x, v) && le(v, x))) == s.filter(
            (|x: T| le(x, v) && le(v, x)),
        ),
    decreases s.len(),
{
    let pred = (|x: T| le(x, v) && le(v, x));
    if s.len() == 0 {
    } else {
        let prior = s.drop_last();
        let p = s.last();
        lemma_sort_by_le_stable(le, prior, v);
        lemma_sort_by_le_ensures(le, prior);
        let m = sort_by_le(le, prior);
        lemma_insert_pos_bounds(le, m, p);
        lemma_insert_pos_prefix(le, m, p);
        let pos = insert_pos(le, m, p);
        let left = m.subrange(0, pos);
        let right = m.subrange(pos, m.len() as int);
        assert(m =~= left + right);
        assert(sort_by_le(le, s) == left.push(p) + right);
        Seq::filter_distributes_over_add(left, right, pred);
        Seq::filter_distributes_over_add(left.push(p), right, pred);
        lemma_filter_push(left, p, pred);
        lemma_filter_push(prior, p, pred);
        assert(s =~= prior.push(p));
        if pred(p) {
            assert forall|i: int| 0 <= i < right.len() implies !pred(#[trigger] right[i]) by {
                assert(right[i] == m[pos + i]);
                assert(!le(m[pos], p));
                if i > 0 {
                    assert(le(m[pos], m[pos + i]));
                }
                if pred(m[pos + i]) {
                    assert(le(m[pos + i], v));
                    assert(le(v, p));
                    assert(le(m[pos + i], p));
                }
            }
            lemma_filter_empty(right, pred);
            assert(sort_by_le(le, s).filter(pred) =~= left.filter(pred).push(p));
            assert(s.filter(pred) =~= prior.filter(pred).push(p));
            assert(m.filter(pred) =~= left.filter(pred));
        } else {
            assert(sort_by_le(le, s).filter(pred) =~= left.filter(pred) + right.filter(pred));
            assert(s.filter(pred) =~= prior.filter(pred));
            assert(m.filter(pred) =~= left.filter(pred) + right.filter(pred));
        }
    }
}

/// The page window: skip `off` elements, then take up to `lim`.
pub open spec fn page_of<T>(s: Seq<T>, off: int, lim: int) -> Seq<T> {
    let start = if off > s.len() {
        s.len() as int
    } else {
        off
    };
    let end = if off + lim > s.len() {
        s.len() as int
    } else {
        off + lim
    };
    s.subrange(start, end)
}

/// Applies the page window to a vector: the result is exactly the
/// `off`-th through `(off + lim - 1)`-th elements of the input, clipped
/// to its length.
pub fn take_page<T>(v: Vec<T>, off: usize, lim: usize) -> (r: Vec<T>)
    ensures
        r@ == page_of(v@, off as int, lim as int),
{
    let mut rest = v;
    let ghost orig = rest@;
    let mut skipped: usize = 0;
    while skipped < off && rest.len() > 0
        invariant
            skipped <= off,
            skipped <= orig.len(),
            rest@ == orig.skip(skipped as int),
        decreases off - skipped,
    {
        let _ = rest.remove(0);
        proof {
            assert(orig.skip(skipped as int).remove(0) =~= orig.skip(skipped as int + 1));
        }
        skipped += 1;
    }
    let ghost start = skipped as int;
    let mut out: Vec<T> = Vec::new();
    let mut taken: usize = 0;
    proof {
        assert(out@ =~= orig.subrange(start, start + 0));
    }
    while taken < lim && rest.len() > 0
        invariant
            taken <= lim,
            start == skipped as int,
            skipped <= off,
            skipped <= orig.len(),
            skipped == off || skipped == orig.len(),
            start + taken <= orig.len(),
            out@ == orig.subrange(start, start + taken),
            rest@ == orig.skip(start + taken),
        decreases lim - taken,
    {
        let x = rest.remove(0);
        proof {
            assert(orig.skip(start + taken).remove(0) =~= orig.skip(start + taken + 1));
            assert(orig.skip(start + taken)[0] == orig[start + taken]);
            assert(out@.push(x) =~= orig.subrange(start, start + taken + 1));
        }
        out.push(x);
        taken += 1;
    }
    proof {
        assert(out@ =~= page_of(orig, off as int, lim as int));
    }
    out
}

} // verus!
