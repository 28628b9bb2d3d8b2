use wordtwist::game::{Game, GameError};
use wordtwist::words::{generate_wordlist_from_game, get_random_letter};

fn dict(words: &[&str]) -> Vec<String> {
    words.iter().map(|w| w.to_string()).collect()
}

/// A dictionary that covers every target length a game of size 3 through 5
/// can draw, plus a few short words, built from a single repeated letter so
/// that the embedded target always makes them findable.
fn generation_dictionary() -> Vec<String> {
    let mut words = vec!["a".to_string(), "aa".to_string(), "aaa".to_string()];
    for len in 6..=14 {
        words.push("a".repeat(len));
    }
    words
}

fn fixed_grid() -> Vec<Vec<char>> {
    vec![
        vec!['b', 'a', 'r'],
        vec!['a', 'z', 'o'],
        vec!['r', 'q', 'x'],
    ]
}

#[test]
fn test_game_generation() {
    let words = generation_dictionary();
    let _x = Game::new(&words, 5).unwrap();
    let _y = Game::new(&words, 4).unwrap();
}

#[test]
fn wordlist_validation() {
    let game = Game::from_parts(
        vec![vec![]],
        vec![
            "bar".to_string(),
            "baz".to_string(),
            "foo".to_string(),
            "qux".to_string(),
        ],
    );
    assert!(game.validate("foo"));
    assert!(game.validate("bar"));
    assert!(game.validate("baz"));
    assert!(game.validate("qux"));

    let words = generation_dictionary();
    let game = Game::new(&words, 5).unwrap();
    assert!(game.validate(&game.valid_words()[2]));
    assert!(game.validate(&game.valid_words()[game.valid_words().len() - 1]));
}

#[test]
fn test_random_letter() {
    get_random_letter();
}

#[test]
fn words_test_random_letter() {
    let c = get_random_letter();
    assert!(c.is_ascii_lowercase());
}

#[test]
fn generated_grid_is_square_and_alphabetic() {
    let words = generation_dictionary();
    for size in [3, 4, 5] {
        let game = Game::new(&words, size).unwrap();
        assert_eq!(game.size(), size);
        let grid = game.grid();
        assert_eq!(grid.len(), size);
        for row in grid {
            assert_eq!(row.len(), size);
            for c in row {
                assert!(c.is_ascii_lowercase());
            }
        }
        assert!(!game.valid_words().is_empty());
    }
}

#[test]
fn fixed_grid_wordlist_is_exact() {
    let words = dict(&["bar", "baz", "foo", "qux"]);
    let found = generate_wordlist_from_game(&fixed_grid(), &words);
    assert_eq!(found, vec!["bar".to_string(), "baz".to_string()]);
}

#[test]
fn search_respects_cell_reuse() {
    // "bob" needs two distinct b-cells; this grid has only one.
    let grid = vec![vec!['b', 'o'], vec!['x', 'y']];
    let words = dict(&["bo", "ob", "bob"]);
    let found = generate_wordlist_from_game(&grid, &words);
    assert_eq!(found, vec!["bo".to_string(), "ob".to_string()]);
}

#[test]
fn search_needs_adjacency() {
    // "cat" is present as letters but 'c' and 't' never touch the 'a' chain.
    let grid = vec![
        vec!['c', 'x', 't'],
        vec!['x', 'x', 'x'],
        vec!['a', 'x', 'x'],
    ];
    let words = dict(&["cat", "ax"]);
    let found = generate_wordlist_from_game(&grid, &words);
    assert_eq!(found, vec!["ax".to_string()]);
}

#[test]
fn validate_unknown_word_is_false() {
    let game = Game::from_parts(fixed_grid(), dict(&["bar", "baz"]));
    assert!(!game.validate("quux"));
    assert!(!game.validate(""));
}

#[test]
fn validate_is_case_insensitive() {
    let game = Game::from_parts(fixed_grid(), dict(&["bar"]));
    assert_eq!(game.validate("BAR"), game.validate("bar"));
    assert!(game.validate("BAR"));
    assert!(game.validate("bAr"));
}

#[test]
fn missing_length_is_reported() {
    // Size 3 draws a target length in 6..9; this dictionary has none.
    let words = dict(&["bar", "baz"]);
    match Game::new(&words, 3) {
        Err(GameError::NoWordOfLength(l)) => {
            assert!((6..9).contains(&l));
        }
        other => panic!("expected a missing-length error, got {:?}", other.map(|g| g.size())),
    }
}

#[test]
fn impossible_embedding_is_reported() {
    // Five letters can never fit a 2-by-2 grid.
    let words = dict(&["aaaaa"]);
    let r = Game::from_target_word(&words, 2, "aaaaa");
    assert!(matches!(r, Err(GameError::EmbeddingFailed)));
}

#[test]
fn embedded_target_word_is_always_valid() {
    let words = dict(&["ratio", "rat"]);
    let game = Game::from_target_word(&words, 4, "ratio").unwrap();
    assert!(game.validate("ratio"));
    assert!(!game.valid_words().is_empty());
}
