use cricket_sim::game_state::{GameResult, GameState};
use cricket_sim::weighted_score::Outcome;

#[test]
fn score_runs_even() {
    let mut game_state = GameState::new();
    game_state.play(&Outcome::RUNS(6));
    assert_eq!(
        game_state,
        GameState {
            runs_left: 34,
            balls_left: 23,
            batsmen_scores: vec![6, 0, 0, 0],
            batsmen_balls: vec![1, 0, 0, 0],
            ..GameState::new()
        }
    );
}

#[test]
fn score_runs_odd() {
    let mut game_state = GameState::new();
    game_state.play(&Outcome::RUNS(1));
    assert_eq!(
        game_state,
        GameState {
            runs_left: 39,
            balls_left: 23,
            batsmen_scores: vec![1, 0, 0, 0],
            batsmen_balls: vec![1, 0, 0, 0],
            batting: 1,
            off_side: 0,
            ..GameState::new()
        }
    );
}

#[test]
fn player_out() {
    let mut game_state = GameState::new();
    game_state.play(&Outcome::OUT);
    assert_eq!(
        game_state,
        GameState {
            balls_left: 23,
            batsmen_balls: vec![1, 0, 0, 0],
            batting: 2,
            batsmen_left: vec![1, 2, 3],
            ..GameState::new()
        }
    )
}

#[test]
fn over_end_even_runs() {
    let mut game_state = GameState {
        balls_left: 19,
        ..GameState::new()
    };
    game_state.play(&Outcome::RUNS(0));
    assert_eq!(
        game_state,
        GameState {
            balls_left: 18,
            batsmen_balls: vec![1, 0, 0, 0],
            batting: 1,
            off_side: 0,
            ..GameState::new()
        }
    )
}

#[test]
fn over_end_and_odd_runs() {
    let mut game_state = GameState {
        balls_left: 19,
        ..GameState::new()
    };
    game_state.play(&Outcome::RUNS(1));
    assert_eq!(
        game_state,
        GameState {
            runs_left: 39,
            balls_left: 18,
            batsmen_balls: vec![1, 0, 0, 0],
            batsmen_scores: vec![1, 0, 0, 0],
            batting: 0,
            off_side: 1,
            ..GameState::new()
        }
    )
}

#[test]
fn game_end_none() {
    let game_state = GameState {
        balls_left: 19,
        ..GameState::new()
    };
    assert_eq!(game_state.game_ended(), false);
}

#[test]
fn game_end_balls_over() {
    let game_state = GameState {
        balls_left: 0,
        ..GameState::new()
    };
    assert_eq!(game_state.game_ended(), true);
}

#[test]
fn game_end_runs_over() {
    let game_state = GameState {
        runs_left: 0,
        ..GameState::new()
    };
    assert_eq!(game_state.game_ended(), true);
}

#[test]
fn game_end_wickets_over() {
    let game_state = GameState {
        batsmen_left: vec![0],
        ..GameState::new()
    };
    assert_eq!(game_state.game_ended(), true);
}

#[test]
fn game_result_none() {
    let game_state = GameState {
        balls_left: 19,
        ..GameState::new()
    };
    assert_eq!(game_state.game_result(), None);
}

#[test]
fn game_result_balls_over() {
    let game_state = GameState {
        balls_left: 0,
        ..GameState::new()
    };
    assert_eq!(game_state.game_result(), Some(GameResult::ChennaiWins));
}

#[test]
fn game_result_balls_over_one_run() {
    let game_state = GameState {
        balls_left: 0,
        runs_left: 1,
        ..GameState::new()
    };
    assert_eq!(game_state.game_result(), Some(GameResult::Tie));
}

#[test]
fn game_result_balls_over_runs_over() {
    let game_state = GameState {
        balls_left: 0,
        runs_left: 0,
        ..GameState::new()
    };
    assert_eq!(game_state.game_result(), Some(GameResult::BangaloreWins));
}

#[test]
fn game_result_runs_over() {
    let game_state = GameState {
        runs_left: 0,
        ..GameState::new()
    };
    assert_eq!(game_state.game_result(), Some(GameResult::BangaloreWins));
}

#[test]
fn game_result_wickets_over() {
    let game_state = GameState {
        batsmen_left: vec![0],
        ..GameState::new()
    };
    assert_eq!(game_state.game_result(), Some(GameResult::ChennaiWins));
}

#[test]
fn game_result_wickets_over_one_run() {
    let game_state = GameState {
        batsmen_left: vec![0],
        runs_left: 1,
        ..GameState::new()
    };
    assert_eq!(game_state.game_result(), Some(GameResult::Tie));
}

#[test]
fn overshoot_clamps_target_but_credits_runs() {
    // The winning stroke is credited in full to the batsman even when it
    // overshoots the target, while runs_left clamps at zero, so the totals
    // "scored + still needed" drift apart by the excess -- deliberate.
    let mut game_state = GameState {
        runs_left: 3,
        ..GameState::new()
    };
    game_state.play(&Outcome::RUNS(6));
    assert_eq!(game_state.runs_left, 0);
    assert_eq!(game_state.batsmen_scores, vec![6, 0, 0, 0]);
    assert_eq!(game_state.game_result(), Some(GameResult::BangaloreWins));
}

#[test]
fn dismissals_until_one_batsman_stands() {
    let mut game_state = GameState::new();
    game_state.play(&Outcome::OUT);
    assert_eq!(game_state.batsmen_left, vec![1, 2, 3]);
    assert_eq!(game_state.batting, 2);
    game_state.play(&Outcome::OUT);
    assert_eq!(game_state.batsmen_left, vec![1, 3]);
    assert_eq!(game_state.batting, 3);
    game_state.play(&Outcome::OUT);
    // Only the non-striker is left: nobody can take strike, marked by the
    // out-of-range index, and the match is over.
    assert_eq!(game_state.batsmen_left, vec![1]);
    assert_eq!(game_state.batting, 4);
    assert!(game_state.game_ended());
    assert_eq!(game_state.game_result(), Some(GameResult::ChennaiWins));
}

#[test]
fn dismissed_batsman_never_returns() {
    let mut game_state = GameState::new();
    game_state.play(&Outcome::OUT);
    for _ in 0..20 {
        if game_state.game_ended() {
            break;
        }
        game_state.play(&Outcome::RUNS(1));
        assert_ne!(game_state.batting, 0);
        assert_ne!(game_state.off_side, 0);
        assert!(!game_state.batsmen_left.contains(&0));
    }
}

#[test]
fn conservation_of_deliveries() {
    let mut game_state = GameState::new();
    let outcomes = [
        Outcome::RUNS(0),
        Outcome::RUNS(1),
        Outcome::RUNS(4),
        Outcome::OUT,
        Outcome::RUNS(2),
        Outcome::RUNS(3),
        Outcome::OUT,
        Outcome::RUNS(6),
    ];
    for outcome in outcomes.iter() {
        assert!(!game_state.game_ended());
        game_state.play(outcome);
        let balls_played: usize = game_state.batsmen_balls.iter().sum();
        assert_eq!(balls_played + game_state.balls_left, 24);
    }
}

#[test]
fn run_totals_move_one_way() {
    let mut game_state = GameState::new();
    let outcomes = [
        Outcome::RUNS(6),
        Outcome::RUNS(0),
        Outcome::OUT,
        Outcome::RUNS(5),
        Outcome::RUNS(1),
        Outcome::RUNS(2),
    ];
    for outcome in outcomes.iter() {
        let scored_before: usize = game_state.batsmen_scores.iter().sum();
        let runs_left_before = game_state.runs_left;
        game_state.play(outcome);
        let scored_after: usize = game_state.batsmen_scores.iter().sum();
        assert!(scored_after >= scored_before);
        assert!(game_state.runs_left <= runs_left_before);
    }
}

#[test]
fn strike_stays_split_while_two_bat() {
    let mut game_state = GameState::new();
    let outcomes = [
        Outcome::RUNS(1),
        Outcome::RUNS(3),
        Outcome::OUT,
        Outcome::RUNS(2),
        Outcome::RUNS(1),
        Outcome::OUT,
        Outcome::RUNS(0),
    ];
    for outcome in outcomes.iter() {
        game_state.play(outcome);
        if game_state.batsmen_left.len() >= 2 {
            assert_ne!(game_state.batting, game_state.off_side);
        }
    }
}
