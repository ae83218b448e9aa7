//! The random poem pick: a seeded generator chooses uniformly from the
//! author's full poem list, and the same seed over the same list always
//! selects the same poem.

use vstd::prelude::*;
use rand::Rng;
use rand::SeedableRng;
use crate::poems::Poem;

verus! {

/// The index a generator seeded from `seed` draws for a list of `n`
/// candidates: a function of the seed and the length alone.
pub uninterp spec fn pick_of(seed: u64, n: usize) -> usize;

/// Relies on rand's StdRng (seeded from the given value) and
/// Rng::gen_range: the draw lies below `n` and depends on the seed and
/// the bound alone.
#[verifier::external_body]
fn seeded_index(seed: u64, n: usize) -> (r: usize)
    requires
        n >= 1,
    ensures
        r < n,
        r == pick_of(seed, n),
{
    let mut rng = rand::rngs::StdRng::seed_from_u64(seed);
    rng.gen_range(0..n)
}

/// Relies on rand::random for a process-random seed when the request
/// supplies none; nothing is assumed of the value.
#[verifier::external_body]
fn fresh_seed() -> u64 {
    rand::random::<u64>()
}

/// Picks the poem a generator seeded from `seed` selects.  The result
/// is a function of the seed and the list, so repeated calls with the
/// same seed and the same list yield the same poem; only an empty list
/// yields none.
pub fn pick_poem(poems: Vec<Poem>, seed: u64) -> (r: Option<Poem>)
    ensures
        poems@.len() == 0 ==> r is None,
        poems@.len() > 0 ==> pick_of(seed, poems@.len() as usize) < poems@.len(),
        poems@.len() > 0 ==> r == Some(poems@[pick_of(seed, poems@.len() as usize) as int]),
        (match r {
            Some(p) => poems@.contains(p),
            None => true,
        }),
{
    let n = poems.len();
    if n == 0 {
        return None;
    }
    let i = seeded_index(seed, n);
    let mut v = poems;
    let p = v.remove(i);
    proof {
        assert(poems@.contains(poems@[i as int]));
    }
    Some(p)
}

/// The pick with an optional seed: a missing seed is replaced by a
/// process-random one, so then only membership is promised; a supplied
/// seed pins the result exactly.
pub fn pick_poem_opt(poems: Vec<Poem>, seed: Option<u64>) -> (r: Option<Poem>)
    ensures
        r is None <==> poems@.len() == 0,
        (match seed {
            Some(s) => poems@.len() > 0 ==> r == Some(
                poems@[pick_of(s, poems@.len() as usize) as int],
            ),
            None => true,
        }),
        (match r {
            Some(p) => poems@.contains(p),
            None => true,
        }),
{
    let s = match seed {
        Some(s) => s,
        None => fresh_seed(),
    };
    pick_poem(poems, s)
}

} // verus!
