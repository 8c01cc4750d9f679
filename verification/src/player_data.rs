use vstd::prelude::*;
use crate::weighted_score::SCALE;

verus! {

/// One batter of the chasing side: a display name and the cumulative form
/// of an outcome distribution, in fixed point (see SCALE), one bin per
/// symbol of the 8-symbol outcome alphabet.
pub struct Player {
    pub name: &'static str,
    pub bins: Vec<u64>,
}

/// Total of a sequence of fixed-point probabilities.
pub open spec fn chances_total(s: Seq<u64>) -> int
    decreases s.len(),
{
    if s.len() == 0 {
        0
    } else {
        chances_total(s.drop_last()) + s.last()
    }
}

/// A well-formed profile: one probability per alphabet symbol, summing to
/// exactly one -- that is, to SCALE in fixed point.
pub open spec fn valid_chances(s: Seq<u64>) -> bool {
    s.len() == 8 && chances_total(s) == SCALE as int
}

/// A prefix never totals more than the whole sequence.
pub proof fn lemma_chances_total_prefix(s: Seq<u64>, k: int)
    requires
        0 <= k <= s.len(),
    ensures
        chances_total(s.take(k)) <= chances_total(s),
    decreases s.len(),
{
    if k == s.len() {
        assert(s.take(k) =~= s);
    } else {
        assert(s.take(k) =~= s.drop_last().take(k));
        lemma_chances_total_prefix(s.drop_last(), k);
    }
}

/// The total of an 8-element sequence, written out.
pub proof fn lemma_chances_total8(s: Seq<u64>)
    requires
        s.len() == 8,
    ensures
        chances_total(s) == s[0] + s[1] + s[2] + s[3] + s[4] + s[5] + s[6] + s[7],
{
    let s7 = s.drop_last();
    let s6 = s7.drop_last();
    let s5 = s6.drop_last();
    let s4 = s5.drop_last();
    let s3 = s4.drop_last();
    let s2 = s3.drop_last();
    let s1 = s2.drop_last();
    let s0 = s1.drop_last();
    assert(s0 =~= Seq::<u64>::empty());
    assert(chances_total(s) == chances_total(s7) + s[7]);
    assert(chances_total(s7) == chances_total(s6) + s[6]);
    assert(chances_total(s6) == chances_total(s5) + s[5]);
    assert(chances_total(s5) == chances_total(s4) + s[4]);
    assert(chances_total(s4) == chances_total(s3) + s[3]);
    assert(chances_total(s3) == chances_total(s2) + s[2]);
    assert(chances_total(s2) == chances_total(s1) + s[1]);
    assert(chances_total(s1) == chances_total(s0) + s[0]);
}

/// Whether a profile is well formed: exactly one probability per alphabet
/// symbol, and a total of exactly one. The roster must satisfy this
/// before the match starts; a profile that fails it must not be played.
pub fn check_chances(chances: &Vec<u64>) -> (r: bool)
    ensures
        r == valid_chances(chances@),
{
    if chances.len() != 8 {
        return false;
    }
    let mut total: u64 = 0;
    let mut i: usize = 0;
    proof {
        assert(chances@.take(0) =~= Seq::<u64>::empty());
    }
    while i < chances.len()
        invariant
            i <= chances@.len(),
            chances@.len() == 8,
            total as int == chances_total(chances@.take(i as int)),
        decreases chances@.len() - i,
    {
        let c = chances[i];
        proof {
            assert(chances@.take(i as int + 1).drop_last() =~= chances@.take(i as int));
            assert(chances@.take(i as int + 1).last() == c);
        }
        if c > u64::MAX - total {
            proof {
                lemma_chances_total_prefix(chances@, i as int + 1);
            }
            return false;
        }
        total = total + c;
        i += 1;
    }
    proof {
        assert(chances@.take(i as int) =~= chances@);
    }
    total == SCALE
}

/// The cumulative form of a profile: entry `i` is the total of the
/// probabilities up to and including symbol `i`.
pub fn to_bins(chances: &Vec<u64>) -> (r: Vec<u64>)
    requires
        chances_total(chances@) <= u64::MAX,
    ensures
        r@.len() == chances@.len(),
        forall|i: int|
            0 <= i < r@.len() ==> #[trigger] r@[i] as int == chances_total(
                chances@.take(i + 1),
            ),
{
    let mut bins: Vec<u64> = Vec::new();
    let mut total: u64 = 0;
    let mut i: usize = 0;
    proof {
        assert(chances@.take(0) =~= Seq::<u64>::empty());
    }
    while i < chances.len()
        invariant
            i <= chances@.len(),
            chances_total(chances@) <= u64::MAX,
            total as int == chances_total(chances@.take(i as int)),
            bins@.len() == i,
            forall|j: int|
                0 <= j < i ==> #[trigger] bins@[j] as int == chances_total(
                    chances@.take(j + 1),
                ),
        decreases chances@.len() - i,
    {
        let c = chances[i];
        proof {
            assert(chances@.take(i as int + 1).drop_last() =~= chances@.take(i as int));
            assert(chances@.take(i as int + 1).last() == c);
            lemma_chances_total_prefix(chances@, i as int + 1);
        }
        total = total + c;
        bins.push(total);
        i += 1;
    }
    bins
}

/// In the cumulative form of a well-formed profile the bins never
/// decrease, and the last bin is exactly one.
pub proof fn lemma_bins_of_valid(chances: Seq<u64>, bins: Seq<u64>)
    requires
        valid_chances(chances),
        bins.len() == chances.len(),
        forall|i: int|
            0 <= i < bins.len() ==> #[trigger] bins[i] as int == chances_total(chances.take(i + 1)),
    ensures
        forall|i: int, j: int| #![trigger bins[i], bins[j]] 0 <= i <= j < bins.len() ==> bins[i]
            <= bins[j],
        bins[7] == SCALE,
{
    assert forall|i: int, j: int| #![trigger bins[i], bins[j]] 0 <= i <= j < bins.len() implies
        bins[i] <= bins[j] by {
        assert(chances.take(j + 1).take(i + 1) =~= chances.take(i + 1));
        lemma_chances_total_prefix(chances.take(j + 1), i + 1);
    }
    assert(chances.take(8) =~= chances);
}

impl Player {
    /// A batter built from a well-formed profile: the probabilities are
    /// turned into their cumulative form once, before the match starts.
    fn new(name: &'static str, chances: Vec<u64>) -> (p: Player)
        requires
            valid_chances(chances@),
        ensures
            p.name == name,
            p.bins@.len() == 8,
            forall|i: int|
                0 <= i < p.bins@.len() ==> #[trigger] p.bins@[i] as int == chances_total(
                    chances@.take(i + 1),
                ),
    {
        let bins = to_bins(&chances);
        Player { name, bins }
    }
}

/// The fixed roster's outcome profiles, batter by batter, in fixed point.
pub open spec fn roster_chances(p: int) -> Seq<u64> {
    if p == 0 {
        seq![
            50_000_000_000u64,
            300_000_000_000u64,
            250_000_000_000u64,
            100_000_000_000u64,
            150_000_000_000u64,
            10_000_000_000u64,
            90_000_000_000u64,
            50_000_000_000u64,
        ]
    } else if p == 1 {
        seq![
            100_000_000_000u64,
            400_000_000_000u64,
            200_000_000_000u64,
            50_000_000_000u64,
            100_000_000_000u64,
            10_000_000_000u64,
            40_000_000_000u64,
            100_000_000_000u64,
        ]
    } else if p == 2 {
        seq![
            200_000_000_000u64,
            300_000_000_000u64,
            150_000_000_000u64,
            50_000_000_000u64,
            50_000_000_000u64,
            10_000_000_000u64,
            40_000_000_000u64,
            200_000_000_000u64,
        ]
    } else {
        seq![
            300_000_000_000u64,
            250_000_000_000u64,
            50_000_000_000u64,
            0u64,
            50_000_000_000u64,
            10_000_000_000u64,
            40_000_000_000u64,
            300_000_000_000u64,
        ]
    }
}

/// Push the 8 entries of one roster profile into a vector.
fn roster_vec(c0: u64, c1: u64, c2: u64, c3: u64, c4: u64, c5: u64, c6: u64, c7: u64) -> (v: Vec<
    u64,
>)
    ensures
        v@ =~= seq![c0, c1, c2, c3, c4, c5, c6, c7],
{
    let mut v: Vec<u64> = Vec::new();
    v.push(c0);
    v.push(c1);
    v.push(c2);
    v.push(c3);
    v.push(c4);
    v.push(c5);
    v.push(c6);
    v.push(c7);
    v
}

/// The four batters of the chasing side, each with the cumulative form of
/// his profile from `roster_chances`.
pub fn get_player_data() -> (ps: Vec<Player>)
    ensures
        ps@.len() == 4,
        forall|p: int|
            0 <= p < 4 ==> {
                let bins = #[trigger] ps@[p].bins@;
                &&& valid_chances(roster_chances(p))
                &&& bins.len() == 8
                &&& forall|i: int|
                    0 <= i < 8 ==> #[trigger] bins[i] as int == chances_total(
                        roster_chances(p).take(i + 1),
                    )
            },
{
    proof {
        lemma_chances_total8(roster_chances(0));
        lemma_chances_total8(roster_chances(1));
        lemma_chances_total8(roster_chances(2));
        lemma_chances_total8(roster_chances(3));
    }
    let c0 = roster_vec(
        50_000_000_000,
        300_000_000_000,
        250_000_000_000,
        100_000_000_000,
        150_000_000_000,
        10_000_000_000,
        90_000_000_000,
        50_000_000_000,
    );
    let c1 = roster_vec(
        100_000_000_000,
        400_000_000_000,
        200_000_000_000,
        50_000_000_000,
        100_000_000_000,
        10_000_000_000,
        40_000_000_000,
        100_000_000_000,
    );
    let c2 = roster_vec(
        200_000_000_000,
        300_000_000_000,
        150_000_000_000,
        50_000_000_000,
        50_000_000_000,
        10_000_000_000,
        40_000_000_000,
        200_000_000_000,
    );
    let c3 = roster_vec(
        300_000_000_000,
        250_000_000_000,
        50_000_000_000,
        0,
        50_000_000_000,
        10_000_000_000,
        40_000_000_000,
        300_000_000_000,
    );
    let mut ps: Vec<Player> = Vec::new();
    ps.push(Player::new("Kirat Boli", c0));
    ps.push(Player::new("N.S Nodhi", c1));
    ps.push(Player::new("R Rumrah", c2));
    ps.push(Player::new("Shashi Henra", c3));
    ps
}

} // verus!
