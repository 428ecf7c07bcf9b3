use std::str::FromStr;

use aoc23::cube_set::CubeSet;
use aoc23::game::{Game, GameParseErr};

#[test]
fn test_game_from_str_1() {
    let input = "Game 1: 3 blue, 4 red; 1 red, 2 green, 6 blue; 2 green";
    let expected = Game {
        id: 1,
        handfuls: vec![
            CubeSet {
                red: 4,
                green: 0,
                blue: 3,
            },
            CubeSet {
                red: 1,
                green: 2,
                blue: 6,
            },
            CubeSet {
                red: 0,
                green: 2,
                blue: 0,
            },
        ],
    };
    let actual = Game::from_str(input).unwrap();
    assert_eq!(expected, actual);

    let bag = CubeSet {
        red: 12,
        green: 13,
        blue: 14,
    };
    assert!(actual.is_possible(&bag));
}

#[test]
fn test_game_from_str_2() {
    let input = "Game 2: 1 blue, 2 green; 3 green, 4 blue, 1 red; 1 green, 1 blue";
    let expected = Game {
        id: 2,
        handfuls: vec![
            CubeSet {
                red: 0,
                green: 2,
                blue: 1,
            },
            CubeSet {
                red: 1,
                green: 3,
                blue: 4,
            },
            CubeSet {
                red: 0,
                green: 1,
                blue: 1,
            },
        ],
    };
    let actual = Game::from_str(input).unwrap();
    assert_eq!(expected, actual);

    let bag = CubeSet {
        red: 12,
        green: 13,
        blue: 14,
    };
    assert!(actual.is_possible(&bag));
}

#[test]
fn test_game_from_str_3() {
    let input = "Game 3: 8 green, 6 blue, 20 red; 5 blue, 4 red, 13 green; 5 green, 1 red";
    let expected = Game {
        id: 3,
        handfuls: vec![
            CubeSet {
                red: 20,
                green: 8,
                blue: 6,
            },
            CubeSet {
                red: 4,
                green: 13,
                blue: 5,
            },
            CubeSet {
                red: 1,
                green: 5,
                blue: 0,
            },
        ],
    };
    let actual = Game::from_str(input).unwrap();
    assert_eq!(expected, actual);

    let bag = CubeSet {
        red: 12,
        green: 13,
        blue: 14,
    };
    assert!(!actual.is_possible(&bag));
}

#[test]
fn test_game_from_str_4() {
    let input = "Game 4: 1 green, 3 red, 6 blue; 3 green, 6 red; 3 green, 15 blue, 14 red";
    let expected = Game {
        id: 4,
        handfuls: vec![
            CubeSet {
                red: 3,
                green: 1,
                blue: 6,
            },
            CubeSet {
                red: 6,
                green: 3,
                blue: 0,
            },
            CubeSet {
                red: 14,
                green: 3,
                blue: 15,
            },
        ],
    };
    let actual = Game::from_str(input).unwrap();
    assert_eq!(expected, actual);

    let bag = CubeSet {
        red: 12,
        green: 13,
        blue: 14,
    };
    assert!(!actual.is_possible(&bag));
}

#[test]
fn test_game_from_str_5() {
    let input = "Game 5: 6 red, 1 blue, 3 green; 2 blue, 1 red, 2 green";
    let expected = Game {
        id: 5,
        handfuls: vec![
            CubeSet {
                red: 6,
                green: 3,
                blue: 1,
            },
            CubeSet {
                red: 1,
                green: 2,
                blue: 2,
            },
        ],
    };
    let actual = Game::from_str(input).unwrap();
    assert_eq!(expected, actual);

    let bag = CubeSet {
        red: 12,
        green: 13,
        blue: 14,
    };
    assert!(actual.is_possible(&bag));
}

#[test]
fn test_game_from_str_not_id_handfuls_pair() {
    let input = "Game 6 - 1 red, 2 green, 3 blue";
    let result = Game::from_str(input);
    assert_eq!(result.unwrap_err(), GameParseErr::NotIdHandfulsPair);
}

#[test]
fn test_game_from_str_invalid_game_id_format() {
    let input = "Game7: 1 red, 2 green, 3 blue";
    let result = Game::from_str(input);
    assert_eq!(result.unwrap_err(), GameParseErr::InvalidGameId);
}

#[test]
fn test_game_from_str_invalid_game_id() {
    let input = "Game 8b: 1 red, 2 green, 3 blue";
    let result = Game::from_str(input);
    assert_eq!(result.unwrap_err(), GameParseErr::InvalidGameId);
}

#[test]
fn test_game_from_str_incorrect_handfuls() {
    let input = "Game 9: 1 red, 2 green, 3 purple";
    let result = Game::from_str(input);
    assert_eq!(result.unwrap_err(), GameParseErr::IncorrectHandfuls);
}

#[test]
fn game_id_is_checked_before_handfuls() {
    assert_eq!(Game::parse("Game x: 1 purple"), Err(GameParseErr::InvalidGameId));
}

#[test]
fn game_without_handful_text_is_incorrect() {
    assert_eq!(Game::parse("Game 1:"), Err(GameParseErr::IncorrectHandfuls));
    assert_eq!(Game::parse("Game 1: 1 red;"), Err(GameParseErr::IncorrectHandfuls));
}

#[test]
fn game_head_word_is_not_checked() {
    let g = Game::parse("Round 12: 1 red").unwrap();
    assert_eq!(g.id, 12);
    assert_eq!(g.handfuls, vec![CubeSet { red: 1, green: 0, blue: 0 }]);
}

#[test]
fn game_with_no_handfuls_is_possible() {
    let g = Game { id: 4, handfuls: vec![] };
    assert!(g.is_possible(&CubeSet { red: 0, green: 0, blue: 0 }));
}

#[test]
fn game_possible_needs_every_color_within_bag() {
    let bag = CubeSet { red: 12, green: 13, blue: 14 };
    let g = Game { id: 1, handfuls: vec![CubeSet { red: 12, green: 13, blue: 14 }] };
    assert!(g.is_possible(&bag));
    let g = Game { id: 1, handfuls: vec![CubeSet { red: 0, green: 0, blue: 15 }] };
    assert!(!g.is_possible(&bag));
    let g = Game { id: 1, handfuls: vec![CubeSet { red: 0, green: 14, blue: 0 }] };
    assert!(!g.is_possible(&bag));
}

#[test]
fn game_equality_compares_id_and_handfuls() {
    let a = Game::parse("Game 2: 1 red; 2 blue").unwrap();
    let b = Game::parse("Game 2: 1 red; 2 blue").unwrap();
    let c = Game::parse("Game 2: 2 blue; 1 red").unwrap();
    let d = Game::parse("Game 3: 1 red; 2 blue").unwrap();
    assert!(a == b);
    assert!(a != c);
    assert!(a != d);
}

#[test]
fn game_canonical_form_reads_back() {
    let g = Game {
        id: 7,
        handfuls: vec![
            CubeSet { red: 1, green: 2, blue: 3 },
            CubeSet { red: 0, green: 0, blue: 9 },
        ],
    };
    let again = Game::parse("Game 7: 1 red, 2 green, 3 blue; 0 red, 0 green, 9 blue").unwrap();
    assert_eq!(g, again);
}
