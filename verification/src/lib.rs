pub mod game_simulator;
pub mod game_state;
pub mod player_data;
pub mod weighted_score;
