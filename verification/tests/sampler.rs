use cricket_sim::player_data::{check_chances, get_player_data, to_bins};
use cricket_sim::weighted_score::{pick_index, weighted_pick_index, SCALE};

#[test]
fn choices_to_bins() {
    let chances = vec![
        0,
        100_000_000_000,
        200_000_000_000,
        300_000_000_000,
        100_000_000_000,
        50_000_000_000,
        10_000_000_000,
        240_000_000_000,
    ];
    let bins = vec![
        0,
        100_000_000_000,
        300_000_000_000,
        600_000_000_000,
        700_000_000_000,
        750_000_000_000,
        760_000_000_000,
        1_000_000_000_000,
    ];
    to_bins(&chances).iter().zip(bins).for_each(|(u, v)| {
        assert!(
            *u == v,
            "Bins computed are wrong! u: {} != bins[i]: {}",
            u,
            v
        )
    });
}

#[test]
fn weighted_distribution() {
    let mut rng = rand::thread_rng();
    let probs = vec![0.0, 0.2, 0.7, 0.1];
    let bins = vec![0, 200_000_000_000, 900_000_000_000, 1_000_000_000_000];

    let simulations = 100_000.0;
    let mut counts: Vec<f64> = vec![0.0; 4];
    for _i in 0..simulations as usize {
        let a = weighted_pick_index(&bins, &mut rng);
        assert_ne!(a, 0, "A choice with zero probability was picked!");
        counts[a] += 1.0 / simulations;
    }

    // counts approaches probs as simulations -> oo
    // this test passes with a very high probability
    (0..counts.len()).for_each(|i| assert!((probs[i] - counts[i]).abs() < 0.01));
}

#[test]
fn pick_index_exact_boundaries() {
    let bins = vec![0, 200_000_000_000, 900_000_000_000, 1_000_000_000_000];
    // A draw equal to a bin selects that bin, not the next one: the "<="
    // comparison is what keeps zero-probability entries unselected.
    assert_eq!(pick_index(&bins, 0), 0);
    assert_eq!(pick_index(&bins, 1), 1);
    assert_eq!(pick_index(&bins, 200_000_000_000), 1);
    assert_eq!(pick_index(&bins, 200_000_000_001), 2);
    assert_eq!(pick_index(&bins, 900_000_000_000), 2);
    assert_eq!(pick_index(&bins, 900_000_000_001), 3);
    assert_eq!(pick_index(&bins, SCALE - 1), 3);
    // Even a draw beyond the last bin falls back to the last index.
    assert_eq!(pick_index(&bins, SCALE + 1), 3);
}

#[test]
fn check_chances_accepts_a_full_profile() {
    let chances = vec![
        50_000_000_000,
        300_000_000_000,
        250_000_000_000,
        100_000_000_000,
        150_000_000_000,
        10_000_000_000,
        90_000_000_000,
        50_000_000_000,
    ];
    assert!(check_chances(&chances));
}

#[test]
fn check_chances_rejects_a_short_profile() {
    let chances = vec![
        50_000_000_000,
        300_000_000_000,
        250_000_000_000,
        100_000_000_000,
        150_000_000_000,
        10_000_000_000,
        140_000_000_000,
    ];
    assert!(!check_chances(&chances));
}

#[test]
fn check_chances_rejects_a_wrong_total() {
    let chances = vec![
        50_000_000_000,
        300_000_000_000,
        250_000_000_000,
        100_000_000_000,
        150_000_000_000,
        10_000_000_000,
        90_000_000_000,
        50_000_000_001,
    ];
    assert!(!check_chances(&chances));
}

#[test]
fn roster_profiles_are_cumulative() {
    let players = get_player_data();
    assert_eq!(players.len(), 4);
    assert_eq!(players[0].name, "Kirat Boli");
    assert_eq!(players[1].name, "N.S Nodhi");
    assert_eq!(players[2].name, "R Rumrah");
    assert_eq!(players[3].name, "Shashi Henra");
    for player in players.iter() {
        assert_eq!(player.bins.len(), 8);
        for w in player.bins.windows(2) {
            assert!(w[0] <= w[1]);
        }
        assert_eq!(player.bins[7], SCALE);
    }
    // The first batter's profile starts at 0.05 and accumulates.
    assert_eq!(players[0].bins[0], 50_000_000_000);
    assert_eq!(players[0].bins[1], 350_000_000_000);
    // The last batter has a zero-probability slot: two equal bins.
    assert_eq!(players[3].bins[2], players[3].bins[3]);
}
