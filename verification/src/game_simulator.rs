use vstd::prelude::*;
use crate::game_state::{
    GameState, StateModel, lemma_step_wf, outcome_valid, spec_ended, step, sum_seq, wf,
    NUM_BATSMEN,
};
use crate::player_data::Player;
use crate::weighted_score::{weighted_pick, Outcome};

verus! {

/// Every outcome in the sequence belongs to the 8-symbol alphabet.
pub open spec fn all_outcomes_valid(outs: Seq<Outcome>) -> bool {
    forall|i: int| 0 <= i < outs.len() ==> outcome_valid(#[trigger] outs[i])
}

/// The state a match reaches when the outcomes of `outs` are applied one
/// by one, the way a driver would: each next outcome is applied only while
/// the match is still in progress, and the rest are discarded.
pub open spec fn run_seq(m: StateModel, outs: Seq<Outcome>) -> StateModel
    decreases outs.len(),
{
    if outs.len() == 0 || spec_ended(m) {
        m
    } else {
        run_seq(step(m, outs[0]), outs.drop_first())
    }
}

/// Extending the outcome sequence by one element either changes nothing
/// (the match was already over) or applies one more transition.
pub proof fn lemma_run_seq_push(m: StateModel, outs: Seq<Outcome>, o: Outcome)
    ensures
        run_seq(m, outs.push(o)) == if spec_ended(run_seq(m, outs)) {
            run_seq(m, outs)
        } else {
            step(run_seq(m, outs), o)
        },
    decreases outs.len(),
{
    if spec_ended(m) {
        assert(run_seq(m, outs.push(o)) == m);
        assert(run_seq(m, outs) == m);
    } else if outs.len() == 0 {
        assert(run_seq(m, outs) == m);
        assert(outs.push(o)[0] == o);
        assert(outs.push(o).drop_first() =~= Seq::<Outcome>::empty());
        assert(run_seq(m, outs.push(o)) == run_seq(step(m, o), Seq::<Outcome>::empty()));
        assert(run_seq(step(m, o), Seq::<Outcome>::empty()) == step(m, o));
    } else {
        assert(outs.push(o)[0] == outs[0]);
        assert(outs.push(o).drop_first() =~= outs.drop_first().push(o));
        lemma_run_seq_push(step(m, outs[0]), outs.drop_first(), o);
        assert(run_seq(m, outs.push(o)) == run_seq(step(m, outs[0]), outs.drop_first().push(o)));
        assert(run_seq(m, outs) == run_seq(step(m, outs[0]), outs.drop_first()));
    }
}

/// Applying any sequence of valid outcomes to a well-formed state leaves
/// a well-formed state.
pub proof fn lemma_run_seq_wf(m: StateModel, outs: Seq<Outcome>)
    requires
        wf(m),
        all_outcomes_valid(outs),
    ensures
        wf(run_seq(m, outs)),
    decreases outs.len(),
{
    if outs.len() > 0 && !spec_ended(m) {
        lemma_step_wf(m, outs[0]);
        assert(forall|i: int|
            0 <= i < outs.drop_first().len() ==> outcome_valid(#[trigger] outs.drop_first()[i]));
        lemma_run_seq_wf(step(m, outs[0]), outs.drop_first());
    }
}

/// However the match unfolds from a well-formed state, the deliveries
/// faced by the batsmen and the deliveries still to come together always
/// account for the full initial quota. Every intermediate state is
/// `run_seq` of a prefix of the outcome sequence, so this holds at every
/// point of the match.
pub proof fn lemma_conservation(m: StateModel, outs: Seq<Outcome>)
    requires
        wf(m),
        all_outcomes_valid(outs),
    ensures
        sum_seq(run_seq(m, outs).batsmen_balls) + run_seq(m, outs).balls_left == sum_seq(
            m.batsmen_balls,
        ) + m.balls_left,
{
    lemma_run_seq_wf(m, outs);
}

/// However the match unfolds, the total of the batsmen's scores never
/// decreases, and the runs still needed never increase and never fall
/// below zero.
pub proof fn lemma_run_accounting(m: StateModel, outs: Seq<Outcome>)
    requires
        wf(m),
        all_outcomes_valid(outs),
    ensures
        sum_seq(run_seq(m, outs).batsmen_scores) >= sum_seq(m.batsmen_scores),
        run_seq(m, outs).runs_left <= m.runs_left,
        run_seq(m, outs).runs_left >= 0,
    decreases outs.len(),
{
    if outs.len() > 0 && !spec_ended(m) {
        lemma_step_wf(m, outs[0]);
        assert(forall|i: int|
            0 <= i < outs.drop_first().len() ==> outcome_valid(#[trigger] outs.drop_first()[i]));
        lemma_run_accounting(step(m, outs[0]), outs.drop_first());
    }
}

/// The roll of surviving batsmen only ever loses entries, and a batsman
/// who is off the roll never returns to either end of the pitch.
pub proof fn lemma_dismissal_monotonic(m: StateModel, outs: Seq<Outcome>)
    requires
        wf(m),
        all_outcomes_valid(outs),
    ensures
        run_seq(m, outs).batsmen_left.len() <= m.batsmen_left.len(),
        forall|x: int|
            #[trigger] run_seq(m, outs).batsmen_left.contains(x) ==> m.batsmen_left.contains(x),
        forall|x: int|
            0 <= x < NUM_BATSMEN as int && !m.batsmen_left.contains(x) ==> run_seq(m, outs).batting
                != x && run_seq(m, outs).off_side != x,
    decreases outs.len(),
{
    lemma_run_seq_wf(m, outs);
    if outs.len() > 0 && !spec_ended(m) {
        lemma_step_wf(m, outs[0]);
        assert(forall|i: int|
            0 <= i < outs.drop_first().len() ==> outcome_valid(#[trigger] outs.drop_first()[i]));
        lemma_dismissal_monotonic(step(m, outs[0]), outs.drop_first());
    }
}

/// However the match unfolds, while at least two batsmen survive, the
/// striker and the batsman at the other end are distinct. (Well-formedness
/// in fact keeps them distinct even at the very end, when the striker's
/// place may be held by the out-of-range marker.)
pub proof fn lemma_strike_invariant(m: StateModel, outs: Seq<Outcome>)
    requires
        wf(m),
        all_outcomes_valid(outs),
    ensures
        run_seq(m, outs).batsmen_left.len() >= 2 ==> run_seq(m, outs).batting != run_seq(
            m,
            outs,
        ).off_side,
{
    lemma_run_seq_wf(m, outs);
}

/// Every delivery uses up one of the limited stock of balls, so any
/// sequence of at least `balls_left` outcomes is certain to bring the
/// match to its end.
pub proof fn lemma_termination(m: StateModel, outs: Seq<Outcome>)
    requires
        wf(m),
        all_outcomes_valid(outs),
        outs.len() >= m.balls_left,
    ensures
        spec_ended(run_seq(m, outs)),
    decreases outs.len(),
{
    if !spec_ended(m) {
        lemma_step_wf(m, outs[0]);
        assert(forall|i: int|
            0 <= i < outs.drop_first().len() ==> outcome_valid(#[trigger] outs.drop_first()[i]));
        lemma_termination(step(m, outs[0]), outs.drop_first());
    }
}

impl GameState {
    /// Drive the match to its end: while it is in progress, draw one
    /// weighted outcome from the striker's profile and apply it. The final
    /// state is exactly the result of running some sequence of alphabet
    /// outcomes from the starting state.
    pub fn run(&mut self, players: &Vec<Player>, rng: &mut rand::rngs::ThreadRng)
        requires
            wf(old(self)@),
            players@.len() == NUM_BATSMEN as int,
            forall|i: int| 0 <= i < players@.len() ==> #[trigger] players@[i].bins@.len() == 8,
        ensures
            wf(final(self)@),
            spec_ended(final(self)@),
            exists|outs: Seq<Outcome>|
                all_outcomes_valid(outs) && final(self)@ == run_seq(old(self)@, outs),
    {
        let ghost mut outs: Seq<Outcome> = Seq::empty();
        while !self.game_ended()
            invariant
                wf(self@),
                players@.len() == NUM_BATSMEN as int,
                forall|i: int| 0 <= i < players@.len() ==> #[trigger] players@[i].bins@.len() == 8,
                all_outcomes_valid(outs),
                self@ == run_seq(old(self)@, outs),
            decreases self.balls_left,
        {
            let batting = self.batting;
            proof {
                assert(self@.batsmen_left.contains(self@.batting));
                assert(0 <= self@.batting < NUM_BATSMEN as int);
            }
            let outcome = weighted_pick(&players[batting].bins, rng);
            proof {
                lemma_run_seq_push(old(self)@, outs, outcome);
            }
            self.play(&outcome);
            proof {
                outs = outs.push(outcome);
            }
        }
    }
}

} // verus!

