use vstd::prelude::*;

use crate::cube_set::CubeSet;
use crate::game::{parse_game, possible, Game, GameView};
use crate::text::{line_bounds, lines, to_chars};

verus! {

/// The bag that the puzzle asks about.
pub open spec fn puzzle_bag() -> CubeSet {
    CubeSet { red: 12, green: 13, blue: 14 }
}

/// Every line is a game record.
pub open spec fn all_games(ls: Seq<Seq<char>>) -> bool {
    forall|k: int| 0 <= k < ls.len() ==> (#[trigger] parse_game(ls[k])) is Ok
}

/// The games that the lines describe.
pub open spec fn games_of(ls: Seq<Seq<char>>) -> Seq<GameView> {
    ls.map_values(|l: Seq<char>| parse_game(l)->Ok_0)
}

/// The sum of the ids of the games that could have been played with `bag`.
pub open spec fn possible_id_sum(games: Seq<GameView>, bag: CubeSet) -> nat
    decreases games.len(),
{
    if games.len() == 0 {
        0
    } else {
        possible_id_sum(games.drop_last(), bag) + if possible(games.last(), bag) {
            games.last().id as nat
        } else {
            0
        }
    }
}

/// The sum of the ids of the games that could have been drawn from `bag`, or
/// `None` where it does not fit in a `usize`.
pub fn get_sum_possible_game_ids(games: Vec<Game>, bag: &CubeSet) -> (r: Option<usize>)
    ensures
        r == if possible_id_sum(games@.map_values(|g: Game| g@), *bag) <= usize::MAX {
            Some(possible_id_sum(games@.map_values(|g: Game| g@), *bag) as usize)
        } else {
            None
        },
{
    let ghost gs = games@.map_values(|g: Game| g@);
    let mut sum: usize = 0;
    let mut fits = true;
    let mut k: usize = 0;
    assert(gs.take(0) =~= Seq::<GameView>::empty());
    while k < games.len()
        invariant
            k <= games.len() == gs.len(),
            gs == games@.map_values(|g: Game| g@),
            fits ==> sum == possible_id_sum(gs.take(k as int), *bag),
            !fits ==> possible_id_sum(gs.take(k as int), *bag) > usize::MAX,
        decreases games.len() - k,
    {
        assert(gs.take(k + 1).drop_last() =~= gs.take(k as int));
        assert(gs.take(k + 1).last() == games@[k as int]@);
        if fits && games[k].is_possible(bag) {
            let id = games[k].id;
            if sum <= usize::MAX - id {
                sum = sum + id;
            } else {
                fits = false;
            }
        }
        k = k + 1;
    }
    assert(gs.take(k as int) =~= gs);
    if fits {
        Some(sum)
    } else {
        None
    }
}

/// Parses every line of `input` as a game and sums the ids of the games that
/// could have been drawn from a bag of 12 red, 13 green and 14 blue cubes.
pub fn solve(input: &str) -> (r: usize)
    requires
        all_games(lines(input@)),
        possible_id_sum(games_of(lines(input@)), puzzle_bag()) <= usize::MAX,
    ensures
        r == possible_id_sum(games_of(lines(input@)), puzzle_bag()),
{
    let chars = to_chars(input);
    let bounds = line_bounds(&chars);
    let ghost ls = lines(input@);
    let mut games: Vec<Game> = Vec::new();
    let mut k: usize = 0;
    assert(games@.map_values(|g: Game| g@) =~= games_of(ls).take(0));
    while k < bounds.len()
        invariant
            k <= bounds.len() == ls.len(),
            chars@ == input@,
            ls == lines(input@),
            all_games(ls),
            forall|j: int|
                0 <= j < bounds.len() ==> {
                    &&& (#[trigger] bounds[j]).0 <= bounds[j].1 <= chars.len()
                    &&& chars@.subrange(bounds[j].0 as int, bounds[j].1 as int) == ls[j]
                },
            games@.map_values(|g: Game| g@) == games_of(ls).take(k as int),
        decreases bounds.len() - k,
    {
        let (a, b) = bounds[k];
        assert(parse_game(ls[k as int]) is Ok);
        match Game::parse_range(&chars, a, b) {
            Ok(g) => {
                let ghost before = games@.map_values(|g: Game| g@);
                assert(parse_game(ls[k as int])->Ok_0 == g@);
                games.push(g);
                assert(games@.map_values(|g: Game| g@) =~= before.push(g@));
                assert(games_of(ls).take(k + 1) =~= games_of(ls).take(k as int).push(g@));
            },
            Err(_) => {
                return 0;
            },
        }
        k = k + 1;
    }
    assert(games_of(ls).take(k as int) =~= games_of(ls));
    let bag = CubeSet { red: 12, green: 13, blue: 14 };
    match get_sum_possible_game_ids(games, &bag) {
        Some(sum) => sum,
        None => 0,
    }
}

} // verus!
