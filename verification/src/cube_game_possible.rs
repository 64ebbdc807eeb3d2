//! Which games would have been possible with a bag of 12 red, 13 green
//! and 14 blue cubes: the answer is the sum of their identifiers.

use vstd::prelude::*;

verus! {

use crate::cube_game::{game_ok, spec_game_hands, spec_game_id, Game};
use crate::text::{lines_bytes, lemma_digits_val_nonneg, spec_split1, spec_split2};
use vstd::string::StringSliceAdditionalSpecFns;

/// A game stays within the bag when every hand does.
pub open spec fn game_within(hands: Seq<(int, int, int)>, red: int, green: int, blue: int) -> bool {
    forall|i: int|
        0 <= i < hands.len() ==> (#[trigger] hands[i]).0 <= red && hands[i].1 <= green
            && hands[i].2 <= blue
}

/// What one line contributes: its identifier if the game fits the bag,
/// nothing otherwise.
pub open spec fn line_value(line: Seq<u8>) -> int {
    if game_within(spec_game_hands(line), 12, 13, 14) {
        spec_game_id(line)
    } else {
        0
    }
}

/// The sum of the contributions of the lines from `i` on.
pub open spec fn spec_total(lb: Seq<Seq<u8>>, i: int) -> int
    decreases lb.len() - i,
{
    if i < 0 || i >= lb.len() {
        0
    } else {
        line_value(lb[i]) + spec_total(lb, i + 1)
    }
}

pub open spec fn all_games_ok(lb: Seq<Seq<u8>>) -> bool {
    forall|i: int| 0 <= i < lb.len() ==> game_ok(#[trigger] lb[i])
}

proof fn lemma_total_nonneg(lb: Seq<Seq<u8>>, i: int)
    requires
        all_games_ok(lb),
    ensures
        spec_total(lb, i) >= 0,
    decreases lb.len() - i,
{
    if 0 <= i < lb.len() {
        if game_within(spec_game_hands(lb[i]), 12, 13, 14) {
            lemma_digits_val_nonneg(spec_split1(spec_split2(lb[i], 58, 32)[0], 32)[1]);
        }
        lemma_total_nonneg(lb, i + 1);
    }
}

/// Sums the identifiers of the games a 12/13/14 bag allows.
pub fn compute(lines: &Vec<String>) -> (r: u32)
    requires
        all_games_ok(lines_bytes(lines@)),
        spec_total(lines_bytes(lines@), 0) <= u32::MAX,
    ensures
        r == spec_total(lines_bytes(lines@), 0),
{
    let ghost lb = lines_bytes(lines@);
    let red: u32 = 12;
    let green: u32 = 13;
    let blue: u32 = 14;
    let mut acc: u32 = 0;
    let mut i: usize = 0;
    let n = lines.len();
    while i < n
        invariant
            0 <= i <= n,
            n == lines@.len(),
            lb == lines_bytes(lines@),
            all_games_ok(lb),
            spec_total(lb, 0) <= u32::MAX,
            red == 12 && green == 13 && blue == 14,
            acc + spec_total(lb, i as int) == spec_total(lb, 0),
        decreases n - i,
    {
        proof {
            assert(lb[i as int] == crate::text::sbytes(lines@[i as int]@));
            lemma_total_nonneg(lb, i as int + 1);
            if game_within(spec_game_hands(lb[i as int]), 12, 13, 14) {
                lemma_digits_val_nonneg(spec_split1(spec_split2(lb[i as int], 58, 32)[0], 32)[1]);
            }
        }
        let line = lines[i].as_str();
        let game = Game::parse(line);
        let valid = game.validate(red, green, blue);
        proof {
            let hv = game.hands@.map_values(
                |h: crate::cube_game::Hand| crate::cube_game::hand_view(h),
            );
            assert(hv == spec_game_hands(lb[i as int]));
            assert(hv.len() == game.hands@.len());
            if valid {
                assert forall|k: int|
                    0 <= k < hv.len() implies (#[trigger] hv[k]).0 <= 12 && hv[k].1 <= 13
                    && hv[k].2 <= 14 by {
                    assert(hv[k] == crate::cube_game::hand_view(game.hands@[k]));
                    assert(game.hands@[k].red <= red && game.hands@[k].green <= green
                        && game.hands@[k].blue <= blue);
                }
                assert(game_within(hv, 12, 13, 14));
            } else {
                if game_within(hv, 12, 13, 14) {
                    assert forall|k: int|
                        0 <= k < game.hands@.len() implies (#[trigger] game.hands@[k]).red <= 12
                        && game.hands@[k].green <= 13 && game.hands@[k].blue <= 14 by {
                        assert(hv[k] == crate::cube_game::hand_view(game.hands@[k]));
                        assert(hv[k].0 <= 12 && hv[k].1 <= 13 && hv[k].2 <= 14);
                    }
                    assert(false);
                }
            }
        }
        if valid {
            acc = acc + game.id;
        }
        i = i + 1;
    }
    acc
}

} // verus!
