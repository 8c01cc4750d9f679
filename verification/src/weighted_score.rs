use vstd::prelude::*;

verus! {

/// Probabilities are held in fixed point: a probability p is stored as the
/// integer p * SCALE, so a full distribution sums to exactly SCALE.
pub const SCALE: u64 = 1_000_000_000_000;

/// One delivery's outcome: either the striker scores some runs (possibly
/// zero), or the striker is dismissed.
#[derive(Debug)]
pub enum Outcome {
    RUNS(usize),
    OUT,
}

/// The rand crate's thread-local generator, opaque to the verifier.
#[verifier::external_type_specification]
#[verifier::external_body]
pub struct ExThreadRng(rand::rngs::ThreadRng);

/// Relies on rand's `Rng::gen_range`: it returns a value sampled uniformly
/// from the half-open range handed to it, here `0..SCALE`.
#[verifier::external_body]
fn draw_uniform(rng: &mut rand::rngs::ThreadRng) -> (u: u64)
    ensures
        u < SCALE,
{
    rand::Rng::gen_range(rng, 0..SCALE)
}

/// The index the search settles on when it starts scanning `bins` at
/// position `i`: the first position from `i` on whose bin is at least `u`,
/// or the last position as a fallback when no bin qualifies.
pub open spec fn pick_index_from(bins: Seq<u64>, u: u64, i: int) -> int
    decreases bins.len() - i,
{
    if i < 0 || i >= bins.len() {
        bins.len() - 1
    } else if u <= bins[i] {
        i
    } else {
        pick_index_from(bins, u, i + 1)
    }
}

/// The index a draw of `u` selects from the cumulative bins: the smallest
/// index whose bin is at least `u`, falling back to the last index.
pub open spec fn pick_index_spec(bins: Seq<u64>, u: u64) -> int {
    pick_index_from(bins, u, 0)
}

/// How a selected bin index is read as a delivery outcome: the last slot
/// of the 8-symbol alphabet is the dismissal, every other slot carries its
/// own index as the run value.
pub open spec fn outcome_of_index(i: int) -> Outcome {
    if i == 7 {
        Outcome::OUT
    } else {
        Outcome::RUNS(i as usize)
    }
}

/// The bin selected by a concrete draw `u`: the smallest index `i` with
/// `u <= bins[i]`, or the last index when even the final bin falls short.
pub fn pick_index(bins: &Vec<u64>, u: u64) -> (i: usize)
    requires
        bins@.len() >= 1,
    ensures
        i < bins@.len(),
        i as int == pick_index_spec(bins@, u),
{
    let mut i: usize = 0;
    while i < bins.len()
        invariant
            i <= bins@.len(),
            pick_index_spec(bins@, u) == pick_index_from(bins@, u, i as int),
        decreases bins@.len() - i,
    {
        if u <= bins[i] {
            return i;
        }
        i += 1;
    }
    bins.len() - 1
}

/// Characterisation of the selection: everything strictly before the
/// selected index was passed over because its bin was below `u`, and the
/// selected index either satisfies `u <= bins[k]` or is the fallback.
pub proof fn lemma_pick_index_props(bins: Seq<u64>, u: u64, i: int)
    requires
        0 <= i <= bins.len(),
    ensures
        ({
            let k = pick_index_from(bins, u, i);
            &&& bins.len() >= 1 ==> 0 <= k < bins.len()
            &&& forall|j: int| i <= j < k ==> u > bins[j]
            &&& k != bins.len() - 1 ==> i <= k && u <= bins[k]
        }),
    decreases bins.len() - i,
{
    if i < bins.len() && u > bins[i] {
        lemma_pick_index_props(bins, u, i + 1);
    }
}

/// In a well-formed cumulative distribution (non-decreasing bins whose
/// last entry is SCALE), an entry with zero assigned probability -- a bin
/// equal to its predecessor, or a first bin of zero -- is never selected.
/// The one draw this cannot cover is `u == 0` against a zero first entry,
/// which the `<=` comparison accepts; every positive draw excludes that
/// entry too.
pub proof fn lemma_zero_probability_never_picked(bins: Seq<u64>, k: int, u: u64)
    requires
        bins.len() >= 1,
        0 <= k < bins.len(),
        forall|i: int, j: int| 0 <= i <= j < bins.len() ==> bins[i] <= bins[j],
        bins[bins.len() - 1] == SCALE,
        u < SCALE,
        if k == 0 {
            bins[0] == 0 && u > 0
        } else {
            bins[k] == bins[k - 1]
        },
    ensures
        pick_index_spec(bins, u) != k,
{
    let p = pick_index_spec(bins, u);
    lemma_pick_index_props(bins, u, 0);
    assert(u <= bins[bins.len() - 1]);
    if p == k {
        if k == 0 {
            assert(u <= bins[0]);
        } else {
            assert(u > bins[k - 1]);
            if p < bins.len() - 1 {
                assert(u <= bins[k]);
            } else {
                assert(u <= bins[p]);
            }
        }
    }
}

/// One weighted draw over the cumulative bins: a uniform sample in
/// `[0, SCALE)` selects the smallest index whose bin covers it.
pub fn weighted_pick_index(bins: &Vec<u64>, rng: &mut rand::rngs::ThreadRng) -> (i: usize)
    requires
        bins@.len() >= 1,
    ensures
        i < bins@.len(),
        exists|u: u64| u < SCALE && i as int == pick_index_spec(bins@, u),
{
    let u = draw_uniform(rng);
    pick_index(bins, u)
}

/// One delivery drawn from a batter's cumulative profile: the last slot is
/// read as a dismissal, every other slot as its run value.
pub fn weighted_pick(probs: &Vec<u64>, rng: &mut rand::rngs::ThreadRng) -> (r: Outcome)
    requires
        probs@.len() >= 1,
    ensures
        exists|u: u64| u < SCALE && r == outcome_of_index(pick_index_spec(probs@, u)),
        r matches Outcome::RUNS(v) ==> v < probs@.len() && v != 7,
{
    let i = weighted_pick_index(&probs, rng);
    if i == 7 {
        Outcome::OUT
    } else {
        Outcome::RUNS(i)
    }
}

} // verus!
