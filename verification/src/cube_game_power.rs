//! The power of each game's minimal bag — the product of the per-colour
//! maxima over its hands — summed over all games.

use vstd::prelude::*;

verus! {

use crate::cube_game::{game_ok, hand_view, spec_game_hands, spec_max_hand, Game, Hand};
use crate::text::lines_bytes;
use vstd::string::StringSliceAdditionalSpecFns;

/// What one line contributes: the product of the per-colour maxima of
/// its game.
pub open spec fn line_power(line: Seq<u8>) -> int {
    let m = spec_max_hand(spec_game_hands(line));
    m.0 * m.1 * m.2
}

/// The sum of the powers of the lines from `i` on.
pub open spec fn spec_power_total(lb: Seq<Seq<u8>>, i: int) -> int
    decreases lb.len() - i,
{
    if i < 0 || i >= lb.len() {
        0
    } else {
        line_power(lb[i]) + spec_power_total(lb, i + 1)
    }
}

/// Every line parses, and its power arithmetic stays within `u32`, so
/// the unchecked multiplications never wrap.
pub open spec fn all_powers_ok(lb: Seq<Seq<u8>>) -> bool {
    forall|i: int|
        0 <= i < lb.len() ==> game_ok(#[trigger] lb[i]) && {
            let m = spec_max_hand(spec_game_hands(lb[i]));
            m.0 * m.1 <= u32::MAX && m.0 * m.1 * m.2 <= u32::MAX && m.0 >= 0 && m.1 >= 0 && m.2
                >= 0 && m.0 * m.1 * m.2 >= 0
        }
}

proof fn lemma_power_total_nonneg(lb: Seq<Seq<u8>>, i: int)
    requires
        all_powers_ok(lb),
    ensures
        spec_power_total(lb, i) >= 0,
    decreases lb.len() - i,
{
    if 0 <= i < lb.len() {
        lemma_power_total_nonneg(lb, i + 1);
    }
}

/// Sums the powers of the minimal bags of all games.
pub fn compute(lines: &Vec<String>) -> (r: u32)
    requires
        all_powers_ok(lines_bytes(lines@)),
        spec_power_total(lines_bytes(lines@), 0) <= u32::MAX,
    ensures
        r == spec_power_total(lines_bytes(lines@), 0),
{
    let ghost lb = lines_bytes(lines@);
    let mut acc: u32 = 0;
    let mut i: usize = 0;
    let n = lines.len();
    while i < n
        invariant
            0 <= i <= n,
            n == lines@.len(),
            lb == lines_bytes(lines@),
            all_powers_ok(lb),
            spec_power_total(lb, 0) <= u32::MAX,
            acc + spec_power_total(lb, i as int) == spec_power_total(lb, 0),
        decreases n - i,
    {
        proof {
            assert(lb[i as int] == crate::text::sbytes(lines@[i as int]@));
            lemma_power_total_nonneg(lb, i as int + 1);
        }
        let line = lines[i].as_str();
        let game = Game::parse(line);
        let best = game.max_hand();
        proof {
            assert(game.hands@.map_values(|h: Hand| hand_view(h)) == spec_game_hands(
                lb[i as int],
            ));
            assert(hand_view(best) == spec_max_hand(spec_game_hands(lb[i as int])));
        }
        let p = best.power();
        acc = acc + p;
        i = i + 1;
    }
    acc
}

} // verus!
