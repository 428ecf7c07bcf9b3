use vstd::prelude::*;

use crate::cube_set::{
    cube_set_text, lemma_text_round_trip, parse_cube_set, CubeSet, CubeSetParseErr,
};
use crate::text::{
    decimal, find_first, is_digit, is_first, lemma_decimal, lemma_split_concat, lemma_split_none,
    lemma_split_once_at, parse_usize, parse_usize_range, split, split_bounds, split_once, to_chars,
};

verus! {

/// One game: its id and the handfuls drawn, in the order drawn.
#[derive(Debug)]
pub struct Game {
    pub id: usize,
    pub handfuls: Vec<CubeSet>,
}

/// What a game is, as a mathematical value.
pub struct GameView {
    pub id: usize,
    pub handfuls: Seq<CubeSet>,
}

impl View for Game {
    type V = GameView;

    open spec fn view(&self) -> GameView {
        GameView { id: self.id, handfuls: self.handfuls@ }
    }
}

/// Why a line is no game record.
#[derive(Debug, Clone, Copy, PartialEq, Eq, Structural)]
pub enum GameParseErr {
    /// The line holds no `:` between its head and its handfuls.
    NotIdHandfulsPair,
    /// The head holds no space, or what follows its first space is no id.
    InvalidGameId,
    /// Some handful is no list of "amount color" pairs.
    IncorrectHandfuls,
}

/// The cube sets that the texts `parts` describe, in order, or `None` where
/// one of them describes none.
pub open spec fn parse_handfuls(parts: Seq<Seq<char>>) -> Option<Seq<CubeSet>>
    decreases parts.len(),
{
    if parts.len() == 0 {
        Some(Seq::<CubeSet>::empty())
    } else {
        match parse_handfuls(parts.drop_last()) {
            None => None,
            Some(hs) => match parse_cube_set(parts.last()) {
                Ok(h) => Some(hs.push(h)),
                Err(_) => None,
            },
        }
    }
}

/// The game that a line `Game <id>: <handful>; <handful>; ...` describes.
pub open spec fn parse_game(s: Seq<char>) -> Result<GameView, GameParseErr> {
    match split_once(s, ':') {
        None => Err(GameParseErr::NotIdHandfulsPair),
        Some((head, rest)) => match split_once(head, ' ') {
            None => Err(GameParseErr::InvalidGameId),
            Some((_, id_text)) => match parse_usize(id_text) {
                None => Err(GameParseErr::InvalidGameId),
                Some(id) => match parse_handfuls(split(rest, ';')) {
                    None => Err(GameParseErr::IncorrectHandfuls),
                    Some(hs) => Ok(GameView { id, handfuls: hs }),
                },
            },
        },
    }
}

/// `h` holds no more cubes of any color than `bag`.
pub open spec fn fits(h: CubeSet, bag: CubeSet) -> bool {
    h.red <= bag.red && h.green <= bag.green && h.blue <= bag.blue
}

/// Every handful of `g` could have been drawn from `bag`.
pub open spec fn possible(g: GameView, bag: CubeSet) -> bool {
    forall|i: int| 0 <= i < g.handfuls.len() ==> fits(#[trigger] g.handfuls[i], bag)
}

/// The text of one handful within a game: a space, then its canonical text.
pub open spec fn handful_text(h: CubeSet) -> Seq<char> {
    seq![' '] + cube_set_text(h)
}

/// The canonical text of the handfuls of a game, separated by `;`.
pub open spec fn handfuls_text(hs: Seq<CubeSet>) -> Seq<char>
    decreases hs.len(),
{
    if hs.len() == 0 {
        Seq::empty()
    } else if hs.len() == 1 {
        handful_text(hs[0])
    } else {
        handfuls_text(hs.drop_last()) + seq![';'] + handful_text(hs.last())
    }
}

/// The canonical text of a game: `"Game <id>: <handful>; <handful>; ..."`.
pub open spec fn game_text(g: GameView) -> Seq<char> {
    "Game "@ + decimal(g.id as nat) + seq![':'] + handfuls_text(g.handfuls)
}

/// The canonical text of the handfuls splits at `;` into their texts, which
/// read back as the handfuls.
proof fn lemma_handfuls_round_trip(hs: Seq<CubeSet>)
    requires
        hs.len() >= 1,
    ensures
        split(handfuls_text(hs), ';') == hs.map_values(|h: CubeSet| handful_text(h)),
        parse_handfuls(hs.map_values(|h: CubeSet| handful_text(h))) == Some(hs),
    decreases hs.len(),
{
    let parts = hs.map_values(|h: CubeSet| handful_text(h));
    let last = handful_text(hs.last());
    lemma_text_round_trip(seq![' '], hs.last());
    lemma_split_none(last, ';');
    assert(parts.last() == last);
    assert(parse_cube_set(last) == Ok::<CubeSet, CubeSetParseErr>(hs.last()));
    if hs.len() == 1 {
        assert(split(handfuls_text(hs), ';') =~= parts);
        assert(parts.drop_last() =~= Seq::<Seq<char>>::empty());
        assert(parse_handfuls(parts.drop_last()) == Some(Seq::<CubeSet>::empty()));
        assert(hs =~= Seq::<CubeSet>::empty().push(hs.last()));
    } else {
        lemma_handfuls_round_trip(hs.drop_last());
        lemma_split_concat(handfuls_text(hs.drop_last()), last, ';');
        assert(parts.drop_last() =~= hs.drop_last().map_values(|h: CubeSet| handful_text(h)));
        assert(split(handfuls_text(hs), ';') =~= parts);
        assert(parse_handfuls(parts.drop_last()) == Some(hs.drop_last()));
        assert(hs =~= hs.drop_last().push(hs.last()));
    }
}

/// Reading the canonical text of a game with at least one handful gives that
/// game back.
pub proof fn lemma_game_round_trip(g: GameView)
    requires
        g.handfuls.len() >= 1,
    ensures
        parse_game(game_text(g)) == Ok::<GameView, GameParseErr>(g),
{
    reveal_strlit("Game ");
    lemma_decimal(g.id as nat);
    lemma_handfuls_round_trip(g.handfuls);
    let d = decimal(g.id as nat);
    let head = "Game "@ + d;
    let rest = handfuls_text(g.handfuls);
    let s = game_text(g);
    let k = head.len() as int;
    assert forall|j: int| 0 <= j < k implies s[j] != ':' by {
        assert(s[j] == head[j]);
        if j >= 5 {
            assert(is_digit(d[j - 5]));
        }
    }
    assert(is_first(s, ':', k));
    lemma_split_once_at(s, ':', k);
    assert(s.subrange(0, k) =~= head);
    assert(s.subrange(k + 1, s.len() as int) =~= rest);
    assert(is_first(head, ' ', 4));
    lemma_split_once_at(head, ' ', 4);
    assert(head.subrange(5, head.len() as int) =~= d);
}

/// The parse result `r` seen as mathematical values.
pub open spec fn result_view(r: Result<Game, GameParseErr>) -> Result<GameView, GameParseErr> {
    match r {
        Ok(g) => Ok(g@),
        Err(e) => Err(e),
    }
}

impl Game {
    /// Parses the handfuls in `chars[lo..hi]`, separated by `;`.
    fn parse_handfuls_range(chars: &Vec<char>, lo: usize, hi: usize) -> (r: Option<Vec<CubeSet>>)
        requires
            lo <= hi <= chars.len(),
        ensures
            match r {
                Some(v) => parse_handfuls(split(chars@.subrange(lo as int, hi as int), ';'))
                    == Some(v@),
                None => parse_handfuls(split(chars@.subrange(lo as int, hi as int), ';')) is None,
            },
    {
        let segs = split_bounds(chars, lo, hi, ';');
        let ghost parts = split(chars@.subrange(lo as int, hi as int), ';');
        let mut hs: Vec<CubeSet> = Vec::new();
        let mut ok = true;
        let mut k: usize = 0;
        assert(parts.take(0) =~= Seq::<Seq<char>>::empty());
        assert(hs@ =~= Seq::<CubeSet>::empty());
        while k < segs.len()
            invariant
                k <= segs.len() == parts.len(),
                parts == split(chars@.subrange(lo as int, hi as int), ';'),
                forall|j: int|
                    0 <= j < segs.len() ==> {
                        &&& lo <= (#[trigger] segs[j]).0 <= segs[j].1 <= hi
                        &&& chars@.subrange(segs[j].0 as int, segs[j].1 as int) == parts[j]
                    },
                lo <= hi <= chars.len(),
                ok ==> parse_handfuls(parts.take(k as int)) == Some(hs@),
                !ok ==> parse_handfuls(parts.take(k as int)) is None,
            decreases segs.len() - k,
        {
            assert(parts.take(k + 1).drop_last() =~= parts.take(k as int));
            assert(parts.take(k + 1).last() == parts[k as int]);
            let (a, b) = segs[k];
            if ok {
                match CubeSet::parse_range(chars, a, b) {
                    Ok(h) => hs.push(h),
                    Err(_) => {
                        ok = false;
                    },
                }
            }
            k = k + 1;
        }
        assert(parts.take(k as int) =~= parts);
        if ok {
            Some(hs)
        } else {
            None
        }
    }

    /// Parses the game record `chars[lo..hi]`.
    pub(crate) fn parse_range(chars: &Vec<char>, lo: usize, hi: usize) -> (r: Result<
        Game,
        GameParseErr,
    >)
        requires
            lo <= hi <= chars.len(),
        ensures
            result_view(r) == parse_game(chars@.subrange(lo as int, hi as int)),
    {
        let ghost s = chars@.subrange(lo as int, hi as int);
        match find_first(chars, lo, hi, ':') {
            None => Err(GameParseErr::NotIdHandfulsPair),
            Some(c) => {
                match find_first(chars, lo, c, ' ') {
                    None => Err(GameParseErr::InvalidGameId),
                    Some(sp) => {
                        assert(chars@.subrange(sp + 1, c as int) =~= chars@.subrange(
                            lo as int,
                            c as int,
                        ).subrange(sp + 1 - lo, c - lo));
                        match parse_usize_range(chars, sp + 1, c) {
                            None => Err(GameParseErr::InvalidGameId),
                            Some(id) => match Game::parse_handfuls_range(chars, c + 1, hi) {
                                None => Err(GameParseErr::IncorrectHandfuls),
                                Some(hs) => Ok(Game { id, handfuls: hs }),
                            },
                        }
                    },
                }
            },
        }
    }

    /// Parses a line such as `Game 1: 3 blue, 4 red; 1 red, 2 green`.
    pub fn parse(s: &str) -> (r: Result<Game, GameParseErr>)
        ensures
            result_view(r) == parse_game(s@),
    {
        let chars = to_chars(s);
        assert(chars@.subrange(0, chars.len() as int) =~= s@);
        Game::parse_range(&chars, 0, chars.len())
    }

    /// Whether every handful of the game could have been drawn from `bag`.
    pub fn is_possible(&self, bag: &CubeSet) -> (r: bool)
        ensures
            r == possible(self@, *bag),
    {
        let mut i: usize = 0;
        while i < self.handfuls.len()
            invariant
                i <= self.handfuls.len(),
                forall|j: int| 0 <= j < i ==> fits(#[trigger] self.handfuls@[j], *bag),
            decreases self.handfuls.len() - i,
        {
            let h = &self.handfuls[i];
            if !(h.red <= bag.red && h.green <= bag.green && h.blue <= bag.blue) {
                assert(!fits(self@.handfuls[i as int], *bag));
                return false;
            }
            i = i + 1;
        }
        true
    }
}

impl PartialEq for Game {
    fn eq(&self, o: &Game) -> (r: bool) {
        if self.id != o.id || self.handfuls.len() != o.handfuls.len() {
            return false;
        }
        let mut i: usize = 0;
        while i < self.handfuls.len()
            invariant
                i <= self.handfuls.len() == o.handfuls.len(),
                forall|j: int| 0 <= j < i ==> self.handfuls@[j] == o.handfuls@[j],
            decreases self.handfuls.len() - i,
        {
            if self.handfuls[i] != o.handfuls[i] {
                return false;
            }
            i = i + 1;
        }
        assert(self.handfuls@ =~= o.handfuls@);
        true
    }
}

impl vstd::std_specs::cmp::PartialEqSpecImpl for Game {
    open spec fn obeys_eq_spec() -> bool {
        true
    }

    open spec fn eq_spec(&self, o: &Game) -> bool {
        self@ == o@
    }
}

impl std::str::FromStr for Game {
    type Err = GameParseErr;

    fn from_str(s: &str) -> Result<Game, GameParseErr> {
        Game::parse(s)
    }
}

} // verus!
