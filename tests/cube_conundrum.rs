use aoc23::cube_conundrum::{get_sum_possible_game_ids, solve};
use aoc23::cube_set::CubeSet;
use aoc23::game::Game;

#[test]
fn test_solve() {
    let input = "Game 1: 3 blue, 4 red; 1 red, 2 green, 6 blue; 2 green
Game 2: 1 blue, 2 green; 3 green, 4 blue, 1 red; 1 green, 1 blue
Game 3: 8 green, 6 blue, 20 red; 5 blue, 4 red, 13 green; 5 green, 1 red
Game 4: 1 green, 3 red, 6 blue; 3 green, 6 red; 3 green, 15 blue, 14 red
Game 5: 6 red, 1 blue, 3 green; 2 blue, 1 red, 2 green
";

    assert_eq!(8, solve(input))
}

#[test]
fn solve_takes_crlf_lines() {
    let input = "Game 1: 3 blue\r\nGame 4: 20 red\r\nGame 6: 1 green\r\n";
    assert_eq!(7, solve(input));
}

#[test]
fn solve_on_empty_input_is_zero() {
    assert_eq!(0, solve(""));
}

#[test]
fn sum_of_ids_reports_overflow() {
    let bag = CubeSet { red: 1, green: 1, blue: 1 };
    let games = vec![
        Game { id: usize::MAX, handfuls: vec![] },
        Game { id: 1, handfuls: vec![] },
    ];
    assert_eq!(get_sum_possible_game_ids(games, &bag), None);
    let games = vec![
        Game { id: usize::MAX, handfuls: vec![] },
        Game { id: 1, handfuls: vec![CubeSet { red: 2, green: 0, blue: 0 }] },
    ];
    assert_eq!(get_sum_possible_game_ids(games, &bag), Some(usize::MAX));
}
