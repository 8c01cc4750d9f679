use vstd::prelude::*;
use vstd::pervasive::VecAdditionalExecFns;
use crate::weighted_score::Outcome;

verus! {

/// Runs still needed by the chasing side at the start of the match.
pub const INITIAL_RUNS_LEFT: usize = 40;

/// Deliveries available at the start of the match (4 overs of 6 balls).
pub const INITIAL_BALLS_LEFT: usize = 24;

/// Number of batsmen on the chasing side.
pub const NUM_BATSMEN: usize = 4;

/// How the match concluded: the chasing side (Bangalore) reached the
/// target, the defending side (Chennai) kept them short, or the scores
/// finished level.
#[derive(PartialEq, Eq, Structural, Debug)]
pub enum GameResult {
    BangaloreWins,
    ChennaiWins,
    Tie,
}

/// The one mutable entity of the simulation: the chase as seen after any
/// number of deliveries.
#[derive(Debug)]
pub struct GameState {
    /// Runs the chasing side still needs; the chase succeeds when it is 0.
    pub runs_left: usize,
    /// Deliveries still to be bowled.
    pub balls_left: usize,
    /// Indices of the batsmen not yet dismissed, in ascending order.
    pub batsmen_left: Vec<usize>,
    /// Runs credited to each batsman.
    pub batsmen_scores: Vec<usize>,
    /// Deliveries faced by each batsman.
    pub batsmen_balls: Vec<usize>,
    /// Index of the batsman on strike.
    pub batting: usize,
    /// Index of the batsman at the other end.
    pub off_side: usize,
}

/// Mathematical image of a `GameState`: every count as an unbounded
/// integer, every table as a sequence.
#[verifier::ext_equal]
pub ghost struct StateModel {
    pub runs_left: int,
    pub balls_left: int,
    pub batsmen_left: Seq<int>,
    pub batsmen_scores: Seq<int>,
    pub batsmen_balls: Seq<int>,
    pub batting: int,
    pub off_side: int,
}

/// A sequence of machine words, read as unbounded integers.
pub open spec fn seq_int(s: Seq<usize>) -> Seq<int> {
    s.map_values(|x: usize| x as int)
}

impl View for GameState {
    type V = StateModel;

    open spec fn view(&self) -> StateModel {
        StateModel {
            runs_left: self.runs_left as int,
            balls_left: self.balls_left as int,
            batsmen_left: seq_int(self.batsmen_left@),
            batsmen_scores: seq_int(self.batsmen_scores@),
            batsmen_balls: seq_int(self.batsmen_balls@),
            batting: self.batting as int,
            off_side: self.off_side as int,
        }
    }
}

/// Whether two vectors of counts hold the same entries in the same order.
fn vecs_equal(a: &Vec<usize>, b: &Vec<usize>) -> (r: bool)
    ensures
        r == (a@ == b@),
{
    if a.len() != b.len() {
        return false;
    }
    let mut i: usize = 0;
    while i < a.len()
        invariant
            i <= a@.len(),
            a@.len() == b@.len(),
            forall|j: int| 0 <= j < i ==> a@[j] == b@[j],
        decreases a@.len() - i,
    {
        if a[i] != b[i] {
            return false;
        }
        i += 1;
    }
    proof {
        assert(a@ =~= b@);
    }
    true
}

impl PartialEq for GameState {
    /// Two match states are equal when every field agrees.
    fn eq(&self, other: &GameState) -> (r: bool) {
        self.runs_left == other.runs_left && self.balls_left == other.balls_left && vecs_equal(
            &self.batsmen_left,
            &other.batsmen_left,
        ) && vecs_equal(&self.batsmen_scores, &other.batsmen_scores) && vecs_equal(
            &self.batsmen_balls,
            &other.batsmen_balls,
        ) && self.batting == other.batting && self.off_side == other.off_side
    }
}

impl vstd::std_specs::cmp::PartialEqSpecImpl for GameState {
    open spec fn obeys_eq_spec() -> bool {
        true
    }

    open spec fn eq_spec(&self, other: &GameState) -> bool {
        &&& self.runs_left == other.runs_left
        &&& self.balls_left == other.balls_left
        &&& self.batsmen_left@ == other.batsmen_left@
        &&& self.batsmen_scores@ == other.batsmen_scores@
        &&& self.batsmen_balls@ == other.batsmen_balls@
        &&& self.batting == other.batting
        &&& self.off_side == other.off_side
    }
}

/// The match is over once only one batsman is left standing, the
/// deliveries are exhausted, or the target has been reached.
pub open spec fn spec_ended(m: StateModel) -> bool {
    m.batsmen_left.len() == 1 || m.balls_left == 0 || m.runs_left == 0
}

/// Classification of a finished match, directly from `runs_left`:
/// target reached means the chasing side won, more than one run short
/// means the defending side won, exactly one run short is a tie.
pub open spec fn spec_result(m: StateModel) -> Option<GameResult> {
    if spec_ended(m) {
        if m.runs_left > 1 {
            Some(GameResult::ChennaiWins)
        } else if m.runs_left == 0 {
            Some(GameResult::BangaloreWins)
        } else {
            Some(GameResult::Tie)
        }
    } else {
        None
    }
}

/// The model a fresh match starts from.
pub open spec fn initial_model() -> StateModel {
    StateModel {
        runs_left: INITIAL_RUNS_LEFT as int,
        balls_left: INITIAL_BALLS_LEFT as int,
        batsmen_left: seq![0int, 1int, 2int, 3int],
        batsmen_scores: seq![0int, 0int, 0int, 0int],
        batsmen_balls: seq![0int, 0int, 0int, 0int],
        batting: 0,
        off_side: 1,
    }
}

/// A fresh match is well formed.
pub proof fn lemma_initial_wf()
    ensures
        wf(initial_model()),
{
    let m = initial_model();
    assert(sum_seq(m.batsmen_balls) == 0) by {
        let s3 = m.batsmen_balls.drop_last();
        let s2 = s3.drop_last();
        let s1 = s2.drop_last();
        let s0 = s1.drop_last();
        assert(s0 =~= Seq::<int>::empty());
        assert(sum_seq(m.batsmen_balls) == sum_seq(s3) + 0);
        assert(sum_seq(s3) == sum_seq(s2) + 0);
        assert(sum_seq(s2) == sum_seq(s1) + 0);
        assert(sum_seq(s1) == sum_seq(s0) + 0);
    }
    assert(m.batsmen_left.contains(1)) by {
        assert(m.batsmen_left[1] == 1);
    }
    assert(m.batsmen_left.contains(0)) by {
        assert(m.batsmen_left[0] == 0);
    }
}

/// Total of a sequence of integers.
pub open spec fn sum_seq(s: Seq<int>) -> int
    decreases s.len(),
{
    if s.len() == 0 {
        0
    } else {
        sum_seq(s.drop_last()) + s.last()
    }
}

/// Replacing one entry moves the total by the difference.
pub proof fn lemma_sum_seq_update(s: Seq<int>, i: int, v: int)
    requires
        0 <= i < s.len(),
    ensures
        sum_seq(s.update(i, v)) == sum_seq(s) - s[i] + v,
    decreases s.len(),
{
    if i == s.len() - 1 {
        assert(s.update(i, v).drop_last() =~= s.drop_last());
    } else {
        assert(s.update(i, v).drop_last() =~= s.drop_last().update(i, v));
        lemma_sum_seq_update(s.drop_last(), i, v);
    }
}

/// A sequence of non-negative integers has a non-negative total, and no
/// entry exceeds it.
pub proof fn lemma_sum_seq_bounds(s: Seq<int>)
    requires
        forall|i: int| 0 <= i < s.len() ==> #[trigger] s[i] >= 0,
    ensures
        sum_seq(s) >= 0,
        forall|i: int| 0 <= i < s.len() ==> #[trigger] s[i] <= sum_seq(s),
    decreases s.len(),
{
    if s.len() > 0 {
        assert forall|i: int| 0 <= i < s.drop_last().len() implies #[trigger] s.drop_last()[i]
            >= 0 by {
            assert(s.drop_last()[i] == s[i]);
        }
        lemma_sum_seq_bounds(s.drop_last());
        assert forall|i: int| 0 <= i < s.len() implies #[trigger] s[i] <= sum_seq(s) by {
            if i < s.len() - 1 {
                assert(s.drop_last()[i] == s[i]);
                assert(s.drop_last()[i] <= sum_seq(s.drop_last()));
            }
        }
    }
}

/// Keeps every batsman index except the dismissed one.
pub open spec fn not_batsman(b: int) -> spec_fn(int) -> bool {
    |x: int| x != b
}

/// The batsman who takes strike after a dismissal: the first entry of
/// `left`, in order, that is not the batsman at the other end; when every
/// entry is ruled out, the out-of-range index NUM_BATSMEN stands for
/// "nobody", and the match is over.
pub open spec fn next_batsman_spec(left: Seq<int>, off: int) -> int
    decreases left.len(),
{
    if left.len() == 0 {
        NUM_BATSMEN as int
    } else if left[0] != off {
        left[0]
    } else {
        next_batsman_spec(left.drop_first(), off)
    }
}

/// The chosen batsman is either the "nobody" marker, or an entry of
/// `left` different from `off`; the latter is guaranteed as soon as any
/// such entry exists.
pub proof fn lemma_next_batsman_props(left: Seq<int>, off: int)
    ensures
        ({
            let n = next_batsman_spec(left, off);
            &&& n == NUM_BATSMEN as int || (left.contains(n) && n != off)
            &&& (exists|i: int| 0 <= i < left.len() && left[i] != off) ==> left.contains(n) && n
                != off
        }),
    decreases left.len(),
{
    if left.len() > 0 && left[0] == off {
        let rest = left.drop_first();
        lemma_next_batsman_props(rest, off);
        let n = next_batsman_spec(left, off);
        if rest.contains(n) {
            let i = choose|i: int| 0 <= i < rest.len() && rest[i] == n;
            assert(left[i + 1] == n);
        }
        if exists|i: int| 0 <= i < left.len() && left[i] != off {
            let i = choose|i: int| 0 <= i < left.len() && left[i] != off;
            assert(rest[i - 1] == left[i]);
        }
    }
}

/// Filtering keeps a strictly ascending sequence strictly ascending.
pub proof fn lemma_filter_strict_sorted(s: Seq<int>, pred: spec_fn(int) -> bool)
    requires
        forall|i: int, j: int| #![trigger s[i], s[j]] 0 <= i < j < s.len() ==> s[i] < s[j],
    ensures
        ({
            let f = s.filter(pred);
            forall|i: int, j: int| #![trigger f[i], f[j]] 0 <= i < j < f.len() ==> f[i] < f[j]
        }),
    decreases s.len(),
{
    reveal(Seq::filter);
    broadcast use vstd::seq_lib::group_filter_ensures;

    if s.len() > 0 {
        let d = s.drop_last();
        assert(forall|i: int, j: int| #![trigger d[i], d[j]] 0 <= i < j < d.len() ==> d[i] < d[j]);
        lemma_filter_strict_sorted(d, pred);
        let fd = d.filter(pred);
        let f = s.filter(pred);
        if pred(s.last()) {
            assert(f =~= fd.push(s.last()));
            assert forall|i: int, j: int| 0 <= i < j < f.len() implies f[i] < f[j] by {
                if j == f.len() - 1 {
                    assert(f[i] == fd[i]);
                    d.lemma_filter_contains_rev(pred, fd[i]);
                    let k = choose|k: int| 0 <= k < d.len() && d[k] == fd[i];
                    assert(s[k] < s[s.len() - 1]);
                }
            }
        }
    }
}

/// Whether an outcome belongs to the 8-symbol alphabet: a dismissal, or a
/// run value of at most 6.
pub open spec fn outcome_valid(o: Outcome) -> bool {
    match o {
        Outcome::RUNS(r) => r <= 6,
        Outcome::OUT => true,
    }
}

/// The internal invariant every reachable match state satisfies: table
/// sizes, the ascending roll of surviving batsmen, conservation of
/// deliveries, bounded runs, and a coherent pair of active batsmen.
pub open spec fn wf(m: StateModel) -> bool {
    &&& m.batsmen_scores.len() == NUM_BATSMEN as int
    &&& m.batsmen_balls.len() == NUM_BATSMEN as int
    &&& 1 <= m.batsmen_left.len() <= NUM_BATSMEN as int
    &&& forall|i: int|
        0 <= i < m.batsmen_left.len() ==> 0 <= #[trigger] m.batsmen_left[i] < NUM_BATSMEN as int
    &&& forall|i: int, j: int|
        #![trigger m.batsmen_left[i], m.batsmen_left[j]]
        0 <= i < j < m.batsmen_left.len() ==> m.batsmen_left[i] < m.batsmen_left[j]
    &&& 0 <= m.balls_left <= INITIAL_BALLS_LEFT as int
    &&& sum_seq(m.batsmen_balls) + m.balls_left == INITIAL_BALLS_LEFT as int
    &&& forall|i: int| 0 <= i < m.batsmen_balls.len() ==> #[trigger] m.batsmen_balls[i] >= 0
    &&& forall|i: int|
        0 <= i < m.batsmen_scores.len() ==> 0 <= #[trigger] m.batsmen_scores[i] <= 6
            * m.batsmen_balls[i]
    &&& 0 <= m.runs_left <= INITIAL_RUNS_LEFT as int
    &&& m.batsmen_left.contains(m.off_side)
    &&& m.batting != m.off_side
    &&& m.batsmen_left.contains(m.batting) || m.batting == NUM_BATSMEN as int
    &&& m.batsmen_left.len() >= 2 ==> m.batsmen_left.contains(m.batting)
}

/// The transition one delivery makes: a ball is always used up and faced
/// by the striker; a dismissal strikes the striker off the roll and calls
/// the next batsman in; a run value is credited in full to the striker,
/// reduces the target (clamped at zero), and rotates the strike once for
/// an odd run value and once more at the end of an over.
pub open spec fn step(m: StateModel, o: Outcome) -> StateModel {
    let b = m.batting;
    let balls_left = m.balls_left - 1;
    let batsmen_balls = m.batsmen_balls.update(b, m.batsmen_balls[b] + 1);
    match o {
        Outcome::OUT => {
            let batsmen_left = m.batsmen_left.filter(not_batsman(b));
            StateModel {
                balls_left,
                batsmen_balls,
                batsmen_left,
                batting: next_batsman_spec(batsmen_left, m.off_side),
                ..m
            }
        },
        Outcome::RUNS(r) => {
            let gained = if (r as int) <= m.runs_left {
                r as int
            } else {
                m.runs_left
            };
            let rotate = ((r as int) % 2 != 0) != (balls_left % 6 == 0);
            StateModel {
                balls_left,
                batsmen_balls,
                runs_left: m.runs_left - gained,
                batsmen_scores: m.batsmen_scores.update(b, m.batsmen_scores[b] + r as int),
                batting: if rotate {
                    m.off_side
                } else {
                    m.batting
                },
                off_side: if rotate {
                    m.batting
                } else {
                    m.off_side
                },
                ..m
            }
        },
    }
}

/// One valid delivery applied to a well-formed, unfinished state keeps it
/// well formed; a ball is used up, the target never grows, the scored
/// total never shrinks, and the roll of surviving batsmen only loses
/// entries.
pub proof fn lemma_step_wf(m: StateModel, o: Outcome)
    requires
        wf(m),
        !spec_ended(m),
        outcome_valid(o),
    ensures
        wf(step(m, o)),
        step(m, o).balls_left == m.balls_left - 1,
        step(m, o).runs_left <= m.runs_left,
        sum_seq(step(m, o).batsmen_scores) >= sum_seq(m.batsmen_scores),
        step(m, o).batsmen_left.len() <= m.batsmen_left.len(),
        forall|x: int|
            #[trigger] step(m, o).batsmen_left.contains(x) ==> m.batsmen_left.contains(x),
{
    broadcast use vstd::seq_lib::group_filter_ensures;

    let b = m.batting;
    assert(m.batsmen_left.len() >= 2);
    assert(m.batsmen_left.contains(b));
    let bi = choose|i: int| 0 <= i < m.batsmen_left.len() && m.batsmen_left[i] == b;
    assert(0 <= b < NUM_BATSMEN as int);
    lemma_sum_seq_update(m.batsmen_balls, b, m.batsmen_balls[b] + 1);
    match o {
        Outcome::OUT => {
            let left = m.batsmen_left.filter(not_batsman(b));
            lemma_filter_strict_sorted(m.batsmen_left, not_batsman(b));
            assert forall|x: int| #[trigger] left.contains(x) implies m.batsmen_left.contains(
                x,
            ) by {
                m.batsmen_left.lemma_filter_contains_rev(not_batsman(b), x);
            }
            let oi = choose|i: int|
                0 <= i < m.batsmen_left.len() && m.batsmen_left[i] == m.off_side;
            assert(left.contains(m.off_side)) by {
                m.batsmen_left.lemma_filter_contains(not_batsman(b), oi);
            }
            assert(forall|i: int|
                0 <= i < left.len() ==> 0 <= #[trigger] left[i] < NUM_BATSMEN as int) by {
                assert forall|i: int| 0 <= i < left.len() implies 0 <= #[trigger] left[i]
                    < NUM_BATSMEN as int by {
                    assert(left.contains(left[i]));
                }
            }
            lemma_next_batsman_props(left, m.off_side);
            if left.len() >= 2 {
                assert(left[0] < left[1]);
                if left[0] == m.off_side {
                    assert(left[1] != m.off_side);
                } else {
                    assert(left[0] != m.off_side);
                }
            }
        },
        Outcome::RUNS(r) => {
            lemma_sum_seq_update(m.batsmen_scores, b, m.batsmen_scores[b] + r as int);
        },
    }
}

/// The roll of batsmen with the dismissed one struck off, order kept.
fn without_batsman(v: &Vec<usize>, b: usize) -> (r: Vec<usize>)
    ensures
        seq_int(r@) == seq_int(v@).filter(not_batsman(b as int)),
{
    broadcast use Seq::lemma_filter_push;

    let mut kept: Vec<usize> = Vec::new();
    let mut i: usize = 0;
    proof {
        assert(seq_int(v@.take(0)).filter(not_batsman(b as int)) =~= Seq::<int>::empty()) by {
            reveal(Seq::filter);
            assert(seq_int(v@.take(0)) =~= Seq::<int>::empty());
        }
        assert(seq_int(kept@) =~= Seq::<int>::empty());
    }
    while i < v.len()
        invariant
            i <= v@.len(),
            seq_int(kept@) == seq_int(v@.take(i as int)).filter(not_batsman(b as int)),
        decreases v@.len() - i,
    {
        let x = v[i];
        proof {
            assert(v@.take(i as int + 1) =~= v@.take(i as int).push(x));
            assert(seq_int(v@.take(i as int).push(x)) =~= seq_int(v@.take(i as int)).push(
                x as int,
            ));
            seq_int(v@.take(i as int)).lemma_filter_push(x as int, not_batsman(b as int));
        }
        if x != b {
            let ghost kept0 = kept@;
            kept.push(x);
            proof {
                assert(seq_int(kept0.push(x)) =~= seq_int(kept0).push(x as int));
            }
        }
        i += 1;
    }
    proof {
        assert(v@.take(i as int) =~= v@);
    }
    kept
}

impl GameState {
    /// A match about to begin: full target, full quota of deliveries, all
    /// four batsmen available, batsman 0 on strike and batsman 1 off it.
    pub fn new() -> (s: Self)
        ensures
            s@ == initial_model(),
            wf(s@),
    {
        proof {
            lemma_initial_wf();
        }
        let mut batsmen_left: Vec<usize> = Vec::new();
        batsmen_left.push(0);
        batsmen_left.push(1);
        batsmen_left.push(2);
        batsmen_left.push(3);
        let mut batsmen_scores: Vec<usize> = Vec::new();
        batsmen_scores.push(0);
        batsmen_scores.push(0);
        batsmen_scores.push(0);
        batsmen_scores.push(0);
        let mut batsmen_balls: Vec<usize> = Vec::new();
        batsmen_balls.push(0);
        batsmen_balls.push(0);
        batsmen_balls.push(0);
        batsmen_balls.push(0);
        let s = GameState {
            runs_left: INITIAL_RUNS_LEFT,
            balls_left: INITIAL_BALLS_LEFT,
            batsmen_left,
            batsmen_scores,
            batsmen_balls,
            batting: 0,
            off_side: 1,
        };
        proof {
            assert(s@.batsmen_left =~= initial_model().batsmen_left);
            assert(s@.batsmen_scores =~= initial_model().batsmen_scores);
            assert(s@.batsmen_balls =~= initial_model().batsmen_balls);
        }
        s
    }

    /// Whether the match is over.
    pub fn game_ended(&self) -> (r: bool)
        ensures
            r == spec_ended(self@),
    {
        self.batsmen_left.len() == 1 || self.balls_left == 0 || self.runs_left == 0
    }

    /// `None` while the match is in progress; once it is over, who won.
    pub fn game_result(&self) -> (r: Option<GameResult>)
        ensures
            r == spec_result(self@),
    {
        if self.game_ended() {
            if self.runs_left > 1 {
                Some(GameResult::ChennaiWins)
            } else if self.runs_left == 0 {
                Some(GameResult::BangaloreWins)
            } else {
                Some(GameResult::Tie)
            }
        } else {
            None
        }
    }

    /// The batsman to take strike after a dismissal: the first on the roll
    /// who is not at the other end, or the out-of-range marker when nobody
    /// is available.
    fn next_batsman(&self) -> (r: usize)
        requires
            self.batsmen_balls@.len() == NUM_BATSMEN as int,
        ensures
            r as int == next_batsman_spec(seq_int(self.batsmen_left@), self.off_side as int),
    {
        let ghost full = seq_int(self.batsmen_left@);
        let ghost off = self.off_side as int;
        let mut i: usize = 0;
        proof {
            assert(full.skip(0) =~= full);
        }
        while i < self.batsmen_left.len()
            invariant
                i <= self.batsmen_left@.len(),
                full == seq_int(self.batsmen_left@),
                off == self.off_side as int,
                self.batsmen_balls@.len() == NUM_BATSMEN as int,
                next_batsman_spec(full, off) == next_batsman_spec(full.skip(i as int), off),
            decreases self.batsmen_left@.len() - i,
        {
            let x = self.batsmen_left[i];
            proof {
                assert(full.skip(i as int)[0] == x as int);
            }
            if x != self.off_side {
                return x;
            }
            proof {
                assert(full.skip(i as int).drop_first() =~= full.skip(i as int + 1));
            }
            i += 1;
        }
        proof {
            assert(full.skip(i as int).len() == 0);
        }
        self.batsmen_balls.len()
    }

    /// Swap the striker and the batsman at the other end once for an odd
    /// run value, and once more when the delivery just bowled closed an
    /// over; the two rotations cancel when both apply.
    fn rotate_batsmen(&mut self, runs: usize)
        ensures
            final(self)@ == (StateModel {
                batting: if ((runs as int) % 2 != 0) != (old(self)@.balls_left % 6 == 0) {
                    old(self)@.off_side
                } else {
                    old(self)@.batting
                },
                off_side: if ((runs as int) % 2 != 0) != (old(self)@.balls_left % 6 == 0) {
                    old(self)@.batting
                } else {
                    old(self)@.off_side
                },
                ..old(self)@
            }),
    {
        if runs % 2 != 0 {
            let t = self.batting;
            self.batting = self.off_side;
            self.off_side = t;
        }
        if self.balls_left % 6 == 0 {
            let t = self.batting;
            self.batting = self.off_side;
            self.off_side = t;
        }
    }

    /// Apply one delivery's outcome to the match. Exactly the transition
    /// `step` describes on the mathematical image of the state, and the
    /// well-formedness invariant is preserved.
    pub fn play(&mut self, outcome: &Outcome)
        requires
            wf(old(self)@),
            !spec_ended(old(self)@),
            outcome_valid(*outcome),
        ensures
            final(self)@ == step(old(self)@, *outcome),
            wf(final(self)@),
    {
        proof {
            lemma_step_wf(old(self)@, *outcome);
            assert(old(self)@.batsmen_left.contains(old(self)@.batting));
            lemma_sum_seq_bounds(old(self)@.batsmen_balls);
            assert(seq_int(self.batsmen_balls@)[self.batting as int] == self.batsmen_balls@[
                self.batting as int] as int);
        }
        let batting = self.batting;
        self.balls_left = self.balls_left - 1;
        let nb = self.batsmen_balls[batting] + 1;
        self.batsmen_balls.set(batting, nb);
        proof {
            assert(seq_int(self.batsmen_balls@) =~= old(self)@.batsmen_balls.update(
                batting as int,
                old(self)@.batsmen_balls[batting as int] + 1,
            ));
        }
        match outcome {
            Outcome::OUT => {
                self.batsmen_left = without_batsman(&self.batsmen_left, batting);
                let next = self.next_batsman();
                self.batting = next;
                proof {
                    assert(self@ =~= step(old(self)@, *outcome));
                }
            },
            Outcome::RUNS(r) => {
                let r = *r;
                let gained = if r <= self.runs_left {
                    r
                } else {
                    self.runs_left
                };
                self.runs_left = self.runs_left - gained;
                let ns = self.batsmen_scores[batting] + r;
                self.batsmen_scores.set(batting, ns);
                proof {
                    assert(seq_int(self.batsmen_scores@) =~= old(self)@.batsmen_scores.update(
                        batting as int,
                        old(self)@.batsmen_scores[batting as int] + r as int,
                    ));
                }
                self.rotate_batsmen(r);
                proof {
                    assert(self@ =~= step(old(self)@, *outcome));
                }
            },
        }
    }
}

} // verus!

