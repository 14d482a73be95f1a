//! The cube game: which games a bag of 12 red, 13 green and 14 blue cubes allows, and
//! the fewest cubes each game needs.
use vstd::prelude::*;
use crate::text::{chars_of, same_text, split_words, split_pieces, words_of, pieces_of, texts};
use crate::parse::{parse_numbers, numbers_of};

verus! {

/// The cubes of each colour shown in one round.
#[derive(Clone, Copy, Debug, PartialEq, Eq, Structural)]
pub struct Round {
    pub red: u32,
    pub blue: u32,
    pub green: u32,
}

#[derive(Debug)]
pub struct Game {
    pub id: u32,
    pub rounds: Vec<Round>,
}

pub const MAX_RED: u32 = 12;
pub const MAX_GREEN: u32 = 13;
pub const MAX_BLUE: u32 = 14;

/// The number that `s` holds alone, if it fits in a `u32`.
pub open spec fn single_u32(s: Seq<char>) -> Option<u32> {
    match numbers_of(s) {
        Some(ns) => if ns.len() == 1 && ns[0] <= u32::MAX {
            Some(ns[0] as u32)
        } else {
            None
        },
        None => None,
    }
}

pub(crate) fn parse_u32_text(word: &str) -> (r: Option<u32>)
    ensures
        r == single_u32(word@),
{
    let chars = chars_of(word);
    proof {
        assert(chars@.subrange(0, chars@.len() as int) =~= word@);
    }
    match parse_numbers(&chars, 0, chars.len()) {
        Some(ns) => if ns.len() == 1 && ns[0] <= u32::MAX as u64 {
            Some(ns[0] as u32)
        } else {
            None
        },
        None => None,
    }
}

/// A round with `n` more cubes of the named colour: `blue`, `green`, and any other
/// name counting as red; `None` when the count runs past `u32::MAX`.
pub open spec fn add_pick(r: Round, n: u32, color: Seq<char>) -> Option<Round> {
    if color == "blue"@ {
        if r.blue + n > u32::MAX {
            None
        } else {
            Some(Round { blue: (r.blue + n) as u32, ..r })
        }
    } else if color == "green"@ {
        if r.green + n > u32::MAX {
            None
        } else {
            Some(Round { green: (r.green + n) as u32, ..r })
        }
    } else {
        if r.red + n > u32::MAX {
            None
        } else {
            Some(Round { red: (r.red + n) as u32, ..r })
        }
    }
}

/// The round that the picks (`<count> <colour>`) give, added up from nothing.
pub open spec fn picks_round(picks: Seq<Seq<char>>) -> Option<Round>
    decreases picks.len(),
{
    if picks.len() == 0 {
        Some(Round { red: 0, blue: 0, green: 0 })
    } else {
        match picks_round(picks.drop_last()) {
            None => None,
            Some(r) => {
                let ws = words_of(picks.last());
                if ws.len() < 2 {
                    None
                } else {
                    match single_u32(ws[0]) {
                        None => None,
                        Some(n) => add_pick(r, n, ws[1]),
                    }
                }
            },
        }
    }
}

/// The round that a comma-separated list of picks describes.
pub open spec fn round_of(text: Seq<char>) -> Option<Round> {
    picks_round(pieces_of(text, ','))
}

proof fn lemma_picks_fail(picks: Seq<Seq<char>>, n: int)
    requires
        0 <= n <= picks.len(),
        picks_round(picks.take(n)) is None,
    ensures
        picks_round(picks) is None,
    decreases picks.len() - n,
{
    if n == picks.len() {
        assert(picks.take(n) =~= picks);
    } else {
        assert(picks.take(n + 1).drop_last() =~= picks.take(n));
        lemma_picks_fail(picks, n + 1);
    }
}

/// Reads one round, such as `3 blue, 4 red`.
pub fn parse_round(round_data: &str) -> (r: Option<Round>)
    ensures
        r == round_of(round_data@),
{
    let picks = split_pieces(round_data, ',');
    let ghost ps = texts(picks@);
    let mut round = Round { red: 0, blue: 0, green: 0 };
    let mut k: usize = 0;
    proof {
        assert(ps.take(0) =~= Seq::<Seq<char>>::empty());
    }
    while k < picks.len()
        invariant
            ps == texts(picks@),
            ps == pieces_of(round_data@, ','),
            k <= picks@.len(),
            picks_round(ps.take(k as int)) == Some(round),
        decreases picks.len() - k,
    {
        proof {
            assert(ps.take(k + 1).drop_last() =~= ps.take(k as int));
            assert(ps.take(k + 1).last() == picks@[k as int]@);
        }
        let ws = split_words(picks[k].as_str());
        if ws.len() < 2 {
            proof {
                lemma_picks_fail(ps, k + 1);
            }
            return None;
        }
        proof {
            assert(texts(ws@)[0] == ws@[0]@);
            assert(texts(ws@)[1] == ws@[1]@);
        }
        let n = match parse_u32_text(ws[0].as_str()) {
            Some(n) => n,
            None => {
                proof {
                    lemma_picks_fail(ps, k + 1);
                }
                return None;
            },
        };
        let color = chars_of(ws[1].as_str());
        let len = color.len();
        let next = if same_text(&color, 0, len, "blue") {
            proof {
                assert(color@.subrange(0, len as int) =~= color@);
            }
            match round.blue.checked_add(n) {
                Some(b) => Some(Round { blue: b, ..round }),
                None => None,
            }
        } else if same_text(&color, 0, len, "green") {
            proof {
                assert(color@.subrange(0, len as int) =~= color@);
            }
            match round.green.checked_add(n) {
                Some(g) => Some(Round { green: g, ..round }),
                None => None,
            }
        } else {
            proof {
                assert(color@.subrange(0, len as int) =~= color@);
            }
            match round.red.checked_add(n) {
                Some(x) => Some(Round { red: x, ..round }),
                None => None,
            }
        };
        match next {
            Some(r) => {
                round = r;
            },
            None => {
                proof {
                    lemma_picks_fail(ps, k + 1);
                }
                return None;
            },
        }
        k = k + 1;
    }
    proof {
        assert(ps.take(k as int) =~= ps);
    }
    Some(round)
}

/// The rounds of a list of round texts, if each is well formed.
pub open spec fn rounds_of(texts: Seq<Seq<char>>) -> Option<Seq<Round>>
    decreases texts.len(),
{
    if texts.len() == 0 {
        Some(Seq::empty())
    } else {
        match (rounds_of(texts.drop_last()), round_of(texts.last())) {
            (Some(rs), Some(r)) => Some(rs.push(r)),
            _ => None,
        }
    }
}

/// The id and rounds of a line `Game <id>: <round>; <round>; ...`: the text before the
/// first `:` holds the id as its second space-separated part, and the text up to the
/// next `:` holds the rounds.
pub open spec fn game_of(line: Seq<char>) -> Option<(u32, Seq<Round>)> {
    let parts = pieces_of(line, ':');
    if parts.len() < 2 {
        None
    } else {
        let head = pieces_of(parts[0], ' ');
        if head.len() < 2 {
            None
        } else {
            match (single_u32(head[1]), rounds_of(pieces_of(parts[1], ';'))) {
                (Some(id), Some(rs)) => Some((id, rs)),
                _ => None,
            }
        }
    }
}

proof fn lemma_rounds_fail(ts: Seq<Seq<char>>, n: int)
    requires
        0 <= n <= ts.len(),
        rounds_of(ts.take(n)) is None,
    ensures
        rounds_of(ts) is None,
    decreases ts.len() - n,
{
    if n == ts.len() {
        assert(ts.take(n) =~= ts);
    } else {
        assert(ts.take(n + 1).drop_last() =~= ts.take(n));
        lemma_rounds_fail(ts, n + 1);
    }
}

/// Reads one game line.
pub fn parse_game(line: &str) -> (r: Option<Game>)
    ensures
        match r {
            Some(g) => game_of(line@) == Some((g.id, g.rounds@)),
            None => game_of(line@) is None,
        },
{
    let parts = split_pieces(line, ':');
    if parts.len() < 2 {
        return None;
    }
    proof {
        assert(texts(parts@)[0] == parts@[0]@);
        assert(texts(parts@)[1] == parts@[1]@);
    }
    let head = split_pieces(parts[0].as_str(), ' ');
    if head.len() < 2 {
        return None;
    }
    proof {
        assert(texts(head@)[1] == head@[1]@);
    }
    let id = match parse_u32_text(head[1].as_str()) {
        Some(id) => id,
        None => {
            return None;
        },
    };
    let texts_of_rounds = split_pieces(parts[1].as_str(), ';');
    let ghost ts = texts(texts_of_rounds@);
    let mut rounds: Vec<Round> = Vec::new();
    let mut k: usize = 0;
    proof {
        assert(ts.take(0) =~= Seq::<Seq<char>>::empty());
    }
    while k < texts_of_rounds.len()
        invariant
            parts@.len() >= 2,
            texts(parts@) == pieces_of(line@, ':'),
            head@.len() >= 2,
            texts(head@) == pieces_of(parts@[0]@, ' '),
            texts(head@)[1] == head@[1]@,
            single_u32(head@[1]@) == Some(id),
            texts(parts@)[0] == parts@[0]@,
            texts(parts@)[1] == parts@[1]@,
            ts == texts(texts_of_rounds@),
            ts == pieces_of(parts@[1]@, ';'),
            k <= ts.len(),
            rounds_of(ts.take(k as int)) == Some(rounds@),
        decreases texts_of_rounds.len() - k,
    {
        proof {
            assert(ts.take(k + 1).drop_last() =~= ts.take(k as int));
            assert(ts.take(k + 1).last() == texts_of_rounds@[k as int]@);
        }
        match parse_round(texts_of_rounds[k].as_str()) {
            Some(r) => {
                rounds.push(r);
            },
            None => {
                proof {
                    lemma_rounds_fail(ts, k + 1);
                }
                return None;
            },
        }
        k = k + 1;
    }
    proof {
        assert(ts.take(k as int) =~= ts);
    }
    Some(Game { id, rounds })
}

/// Every round of the game shows no more cubes of a colour than the bag holds.
pub open spec fn possible(rounds: Seq<Round>) -> bool {
    forall|k: int|
        0 <= k < rounds.len() ==> #[trigger] rounds[k].red <= MAX_RED && rounds[k].green <= MAX_GREEN
            && rounds[k].blue <= MAX_BLUE
}

/// The sum of the ids of the possible games.
pub open spec fn possible_ids(games: Seq<Game>) -> nat
    decreases games.len(),
{
    if games.len() == 0 {
        0
    } else {
        possible_ids(games.drop_last()) + if possible(games.last().rounds@) {
            games.last().id as nat
        } else {
            0nat
        }
    }
}

proof fn lemma_possible_ids_prefix(games: Seq<Game>, n: int)
    requires
        0 <= n <= games.len(),
    ensures
        possible_ids(games.take(n)) <= possible_ids(games),
    decreases games.len() - n,
{
    if n < games.len() {
        lemma_possible_ids_prefix(games, n + 1);
        assert(games.take(n + 1).drop_last() =~= games.take(n));
    } else {
        assert(games.take(n) =~= games);
    }
}

fn is_possible(rounds: &Vec<Round>) -> (r: bool)
    ensures
        r == possible(rounds@),
{
    let mut k: usize = 0;
    while k < rounds.len()
        invariant
            k <= rounds@.len(),
            forall|q: int|
                0 <= q < k ==> #[trigger] rounds@[q].red <= MAX_RED && rounds@[q].green <= MAX_GREEN
                    && rounds@[q].blue <= MAX_BLUE,
        decreases rounds.len() - k,
    {
        let r = rounds[k];
        if r.red > MAX_RED || r.green > MAX_GREEN || r.blue > MAX_BLUE {
            return false;
        }
        k = k + 1;
    }
    true
}

/// The sum of the ids of the games that the bag allows; `None` when it does not fit in
/// a `u32`.
pub fn puzzle1(input: &Vec<Game>) -> (r: Option<u32>)
    ensures
        match r {
            Some(t) => t == possible_ids(input@),
            None => possible_ids(input@) > u32::MAX,
        },
{
    let mut acc: u32 = 0;
    let mut i: usize = 0;
    proof {
        assert(input@.take(0) =~= Seq::<Game>::empty());
    }
    while i < input.len()
        invariant
            i <= input@.len(),
            acc == possible_ids(input@.take(i as int)),
        decreases input.len() - i,
    {
        proof {
            assert(input@.take(i + 1).drop_last() =~= input@.take(i as int));
            lemma_possible_ids_prefix(input@, i + 1);
        }
        if is_possible(&input[i].rounds) {
            acc = match acc.checked_add(input[i].id) {
                Some(t) => t,
                None => {
                    return None;
                },
            };
        }
        i = i + 1;
    }
    proof {
        assert(input@.take(i as int) =~= input@);
    }
    Some(acc)
}

/// The most red cubes shown in any round (none: `0`).
pub open spec fn most_red(rounds: Seq<Round>) -> nat
    decreases rounds.len(),
{
    if rounds.len() == 0 {
        0
    } else if rounds.last().red > most_red(rounds.drop_last()) {
        rounds.last().red as nat
    } else {
        most_red(rounds.drop_last())
    }
}

pub open spec fn most_green(rounds: Seq<Round>) -> nat
    decreases rounds.len(),
{
    if rounds.len() == 0 {
        0
    } else if rounds.last().green > most_green(rounds.drop_last()) {
        rounds.last().green as nat
    } else {
        most_green(rounds.drop_last())
    }
}

pub open spec fn most_blue(rounds: Seq<Round>) -> nat
    decreases rounds.len(),
{
    if rounds.len() == 0 {
        0
    } else if rounds.last().blue > most_blue(rounds.drop_last()) {
        rounds.last().blue as nat
    } else {
        most_blue(rounds.drop_last())
    }
}

/// The power of a game: the product of the fewest cubes of each colour it needs.
pub open spec fn power(rounds: Seq<Round>) -> nat {
    most_red(rounds) * most_green(rounds) * most_blue(rounds)
}

pub open spec fn powers(games: Seq<Game>) -> nat
    decreases games.len(),
{
    if games.len() == 0 {
        0
    } else {
        powers(games.drop_last()) + power(games.last().rounds@)
    }
}

proof fn lemma_powers_prefix(games: Seq<Game>, n: int)
    requires
        0 <= n <= games.len(),
    ensures
        powers(games.take(n)) <= powers(games),
    decreases games.len() - n,
{
    if n < games.len() {
        lemma_powers_prefix(games, n + 1);
        assert(games.take(n + 1).drop_last() =~= games.take(n));
    } else {
        assert(games.take(n) =~= games);
    }
}

/// The power of one game; `None` when it does not fit in a `u32`.
fn game_power(rounds: &Vec<Round>) -> (r: Option<u32>)
    ensures
        match r {
            Some(p) => p == power(rounds@),
            None => power(rounds@) > u32::MAX,
        },
{
    let mut min_red: u32 = 0;
    let mut min_green: u32 = 0;
    let mut min_blue: u32 = 0;
    let mut k: usize = 0;
    proof {
        assert(rounds@.take(0) =~= Seq::<Round>::empty());
    }
    while k < rounds.len()
        invariant
            k <= rounds@.len(),
            min_red == most_red(rounds@.take(k as int)),
            min_green == most_green(rounds@.take(k as int)),
            min_blue == most_blue(rounds@.take(k as int)),
        decreases rounds.len() - k,
    {
        proof {
            assert(rounds@.take(k + 1).drop_last() =~= rounds@.take(k as int));
        }
        let r = rounds[k];
        if r.red > min_red {
            min_red = r.red;
        }
        if r.green > min_green {
            min_green = r.green;
        }
        if r.blue > min_blue {
            min_blue = r.blue;
        }
        k = k + 1;
    }
    proof {
        assert(rounds@.take(k as int) =~= rounds@);
    }
    proof {
        assert(min_red as u128 * min_green as u128 <= 0xffff_ffff_ffff_ffffu128) by (nonlinear_arith)
            requires
                min_red <= u32::MAX,
                min_green <= u32::MAX,
        ;
    }
    let rg = min_red as u128 * min_green as u128;
    proof {
        assert(rg * min_blue <= 0xffff_ffff_ffff_ffff_ffff_ffff_ffff_ffffu128) by (nonlinear_arith)
            requires
                rg == min_red as u128 * min_green as u128,
                min_red <= u32::MAX,
                min_green <= u32::MAX,
                min_blue <= u32::MAX,
        ;
    }
    let p = rg * min_blue as u128;
    if p > u32::MAX as u128 {
        None
    } else {
        Some(p as u32)
    }
}

/// The sum of the powers of the games; `None` when it does not fit in a `u32`.
pub fn puzzle2(input: &Vec<Game>) -> (r: Option<u32>)
    ensures
        match r {
            Some(t) => t == powers(input@),
            None => powers(input@) > u32::MAX,
        },
{
    let mut acc: u32 = 0;
    let mut i: usize = 0;
    proof {
        assert(input@.take(0) =~= Seq::<Game>::empty());
    }
    while i < input.len()
        invariant
            i <= input@.len(),
            acc == powers(input@.take(i as int)),
        decreases input.len() - i,
    {
        proof {
            assert(input@.take(i + 1).drop_last() =~= input@.take(i as int));
            lemma_powers_prefix(input@, i + 1);
        }
        let p = match game_power(&input[i].rounds) {
            Some(p) => p,
            None => {
                return None;
            },
        };
        acc = match acc.checked_add(p) {
            Some(t) => t,
            None => {
                return None;
            },
        };
        i = i + 1;
    }
    proof {
        assert(input@.take(i as int) =~= input@);
    }
    Some(acc)
}

} // verus!
