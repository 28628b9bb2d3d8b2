use wordtwist::game::Game;
use wordtwist::timing::GameTime;

fn dict(words: &[&str]) -> Vec<String> {
    words.iter().map(|w| w.to_string()).collect()
}

fn sample_game() -> Game {
    Game::from_parts(
        vec![vec!['a', 'b'], vec!['c', 'd']],
        dict(&["ab", "abc", "dcba"]),
    )
}

#[test]
fn score_of_empty_submission_is_zero() {
    let game = sample_game();
    let results = game.score(&Vec::new());
    assert_eq!(results.score, 0);
    assert!(results.found_words.is_empty());
    assert_eq!(results.missed_words, dict(&["ab", "abc", "dcba"]));
}

#[test]
fn score_round_trip_finds_everything() {
    let game = sample_game();
    let results = game.score(&dict(&["ab", "abc", "dcba"]));
    assert!(results.missed_words.is_empty());
    assert_eq!(results.found_words, dict(&["ab", "abc", "dcba"]));
    // 2^2 + 2^3 + 2^4
    assert_eq!(results.score, 4 + 8 + 16);
}

#[test]
fn score_partitions_found_and_missed() {
    let game = sample_game();
    let results = game.score(&dict(&["abc", "nonsense"]));
    assert_eq!(results.found_words, dict(&["abc"]));
    assert_eq!(results.missed_words, dict(&["ab", "dcba"]));
    assert_eq!(results.score, 8);
}

#[test]
fn duplicate_submissions_count_once() {
    let game = sample_game();
    let results = game.score(&dict(&["ab", "ab", "ab"]));
    assert_eq!(results.found_words, dict(&["ab"]));
    assert_eq!(results.score, 4);
}

#[test]
fn max_score_sums_the_whole_list() {
    let game = sample_game();
    assert_eq!(game.max_score(), Some(4 + 8 + 16));
}

#[test]
fn game_time_follows_size() {
    assert_eq!(GameTime::from_game_size(3), Some(GameTime(120)));
    assert_eq!(GameTime::from_game_size(5), Some(GameTime(240)));
    assert_eq!(GameTime::from_game_size(7), Some(GameTime(360)));
    assert_eq!(GameTime::from_game_size(2), None);
    assert_eq!(GameTime::from_game_size(8), None);
    assert_eq!(GameTime::default(), GameTime(120));
}
