//! The cube game: a line describes one game as several hands of red,
//! green and blue cube counts; a hand is valid when it stays within a
//! given bag, and a game's power is the product of the per-colour
//! maxima over its hands.

use vstd::prelude::*;

verus! {

use crate::text::{
    bytes_eq, digits_val, parse_u32, parses_to_u32, spec_split1, spec_split2, split1, split2,
    vecs_view,
};
use vstd::string::StringSliceAdditionalSpecFns;

/// One hand: how many cubes of each colour were shown at once.
#[derive(PartialEq, Eq, Structural, Debug)]
pub struct Hand {
    pub red: u32,
    pub green: u32,
    pub blue: u32,
}

pub open spec fn red_bytes() -> Seq<u8> {
    seq![114u8, 101u8, 100u8]  // "red"
}

pub open spec fn green_bytes() -> Seq<u8> {
    seq![103u8, 114u8, 101u8, 101u8, 110u8]  // "green"
}

pub open spec fn blue_bytes() -> Seq<u8> {
    seq![98u8, 108u8, 117u8, 101u8]  // "blue"
}

/// The colour counts of a hand, scanned left to right over its
/// comma-separated pieces; a later count of the same colour replaces an
/// earlier one, and malformed pieces are skipped.
pub open spec fn hand_scan(pieces: Seq<Seq<u8>>, acc: (int, int, int)) -> (int, int, int)
    decreases pieces.len(),
{
    if pieces.len() == 0 {
        acc
    } else {
        hand_scan(pieces.drop_first(), hand_step(acc, pieces[0]))
    }
}

pub open spec fn hand_step(acc: (int, int, int), piece: Seq<u8>) -> (int, int, int) {
    let qs = spec_split1(piece, 32);
    if qs.len() < 2 {
        acc
    } else if qs[1] == red_bytes() {
        (digits_val(qs[0]), acc.1, acc.2)
    } else if qs[1] == green_bytes() {
        (acc.0, digits_val(qs[0]), acc.2)
    } else if qs[1] == blue_bytes() {
        (acc.0, acc.1, digits_val(qs[0]))
    } else {
        acc
    }
}

/// The hand described by one `"n colour, n colour"` piece of a game line.
pub open spec fn spec_hand(input: Seq<u8>) -> (int, int, int) {
    hand_scan(spec_split2(input, 44, 32), (0, 0, 0))
}

/// Every counted colour token of the piece carries a `u32` numeral.
pub open spec fn hand_piece_ok(piece: Seq<u8>) -> bool {
    let qs = spec_split1(piece, 32);
    qs.len() >= 2 && (qs[1] == red_bytes() || qs[1] == green_bytes() || qs[1] == blue_bytes())
        ==> parses_to_u32(qs[0])
}

pub open spec fn hand_ok(input: Seq<u8>) -> bool {
    forall|j: int|
        0 <= j < spec_split2(input, 44, 32).len() ==> hand_piece_ok(
            #[trigger] spec_split2(input, 44, 32)[j],
        )
}

pub open spec fn hand_view(h: Hand) -> (int, int, int) {
    (h.red as int, h.green as int, h.blue as int)
}

impl Hand {
    /// Reads a hand from `"1 green, 2 blue, 3 red"`: colour words pick
    /// the field, anything unrecognised is ignored.
    pub fn parse(input: &str) -> (r: Hand)
        requires
            hand_ok(input.spec_bytes()),
        ensures
            hand_view(r) == spec_hand(input.spec_bytes()),
    {
        parse_hand_bytes(input.as_bytes())
    }

    /// A hand fits a bag holding the given counts of each colour.
    pub fn validate(&self, red: u32, green: u32, blue: u32) -> (r: bool)
        ensures
            r == (self.red <= red && self.green <= green && self.blue <= blue),
    {
        self.red <= red && self.green <= green && self.blue <= blue
    }

    /// The product of the three counts.
    pub fn power(&self) -> (r: u32)
        requires
            self.red * self.green <= u32::MAX,
            self.red * self.green * self.blue <= u32::MAX,
        ensures
            r == self.red * self.green * self.blue,
    {
        self.red * self.green * self.blue
    }
}

/// One game: its identifier and the hands shown in order.
#[derive(Debug)]
pub struct Game {
    pub id: u32,
    pub hands: Vec<Hand>,
}

impl PartialEq for Game {
    /// Two games are equal when their identifiers and hand lists are.
    fn eq(&self, other: &Game) -> (r: bool) {
        if self.id != other.id {
            return false;
        }
        if self.hands.len() != other.hands.len() {
            proof {
                assert(self.hands@ !~= other.hands@);
            }
            return false;
        }
        let mut i: usize = 0;
        while i < self.hands.len()
            invariant
                0 <= i <= self.hands@.len(),
                self.hands@.len() == other.hands@.len(),
                forall|k: int| 0 <= k < i ==> self.hands@[k] == other.hands@[k],
            decreases self.hands@.len() - i,
        {
            if !(self.hands[i] == other.hands[i]) {
                return false;
            }
            i = i + 1;
        }
        proof {
            assert(self.hands@ =~= other.hands@);
        }
        true
    }
}

impl vstd::std_specs::cmp::PartialEqSpecImpl for Game {
    open spec fn obeys_eq_spec() -> bool {
        true
    }

    open spec fn eq_spec(&self, other: &Game) -> bool {
        self.id == other.id && self.hands@ == other.hands@
    }
}

/// The identifier carried by the `"Game n"` prefix of a line.
pub open spec fn spec_game_id(input: Seq<u8>) -> int {
    digits_val(spec_split1(spec_split2(input, 58, 32)[0], 32)[1])
}

/// The hands carried by the body of a line, one per `"; "` piece.
pub open spec fn spec_game_hands(input: Seq<u8>) -> Seq<(int, int, int)> {
    spec_split2(spec_split2(input, 58, 32)[1], 59, 32).map_values(|p: Seq<u8>| spec_hand(p))
}

/// A game line is readable: a `"Game n: "` prefix and then well-formed
/// hand pieces.
pub open spec fn game_ok(input: Seq<u8>) -> bool {
    let ps = spec_split2(input, 58, 32);
    &&& ps.len() >= 2
    &&& spec_split1(ps[0], 32).len() >= 2
    &&& parses_to_u32(spec_split1(ps[0], 32)[1])
    &&& forall|j: int|
        0 <= j < spec_split2(ps[1], 59, 32).len() ==> hand_ok(
            #[trigger] spec_split2(ps[1], 59, 32)[j],
        )
}

impl Game {
    /// Reads a full game line: the identifier after `"Game "`, then the
    /// semicolon-separated hands.
    pub fn parse(input: &str) -> (r: Game)
        requires
            game_ok(input.spec_bytes()),
        ensures
            r.id == spec_game_id(input.spec_bytes()),
            r.hands@.map_values(|h: Hand| hand_view(h)) == spec_game_hands(input.spec_bytes()),
    {
        let pieces = split2(input.as_bytes(), 58, 32);
        proof {
            assert(vecs_view(pieces@)[0] == pieces@[0]@);
            assert(vecs_view(pieces@)[1] == pieces@[1]@);
        }
        let head = split1(pieces[0].as_slice(), 32);
        proof {
            assert(vecs_view(head@)[1] == head@[1]@);
        }
        proof {
            crate::text::lemma_digits_val_nonneg(head@[1]@);
        }
        let id = match parse_u32(head[1].as_slice()) {
            Some(v) => v,
            None => {
                proof {
                    assert(false);
                }
                0
            },
        };
        let ghost hs = spec_split2(spec_split2(input.spec_bytes(), 58, 32)[1], 59, 32);
        let hand_pieces = split2(pieces[1].as_slice(), 59, 32);
        let mut hands: Vec<Hand> = Vec::new();
        let mut j: usize = 0;
        proof {
            assert(hands@.map_values(|h: Hand| hand_view(h)) =~= hs.map_values(
                |p: Seq<u8>| spec_hand(p),
            ).take(0));
        }
        while j < hand_pieces.len()
            invariant
                0 <= j <= hand_pieces@.len(),
                vecs_view(hand_pieces@) == hs,
                hs == spec_split2(spec_split2(input.spec_bytes(), 58, 32)[1], 59, 32),
                game_ok(input.spec_bytes()),
                hands@.map_values(|h: Hand| hand_view(h)) == hs.map_values(
                    |p: Seq<u8>| spec_hand(p),
                ).take(j as int),
            decreases hand_pieces@.len() - j,
        {
            proof {
                assert(vecs_view(hand_pieces@)[j as int] == hand_pieces@[j as int]@);
                assert(hand_ok(hs[j as int]));
            }
            // the hand piece arrives as bytes; Hand::parse takes a &str,
            // so parse the piece with the same scan inline
            let ghost prev = hands@;
            let hand = parse_hand_bytes(hand_pieces[j].as_slice());
            hands.push(hand);
            proof {
                let f = |h: Hand| hand_view(h);
                let g = |p: Seq<u8>| spec_hand(p);
                assert(hands@.map_values(f) =~= prev.map_values(f) + seq![hand_view(hand)]);
                assert(hs.map_values(g).take(j as int + 1) =~= hs.map_values(g).take(j as int)
                    + seq![g(hs[j as int])]);
            }
            j = j + 1;
        }
        proof {
            let g = |p: Seq<u8>| spec_hand(p);
            assert(hs.map_values(g).take(hs.len() as int) =~= hs.map_values(g));
        }
        Game { id, hands }
    }

    /// Every hand of the game fits the given bag.
    pub fn validate(&self, red: u32, green: u32, blue: u32) -> (r: bool)
        ensures
            r == forall|i: int|
                0 <= i < self.hands@.len() ==> (#[trigger] self.hands@[i]).red <= red
                    && self.hands@[i].green <= green && self.hands@[i].blue <= blue,
    {
        let mut i: usize = 0;
        while i < self.hands.len()
            invariant
                0 <= i <= self.hands@.len(),
                forall|k: int|
                    0 <= k < i ==> (#[trigger] self.hands@[k]).red <= red && self.hands@[k].green
                        <= green && self.hands@[k].blue <= blue,
            decreases self.hands@.len() - i,
        {
            if !(self.hands[i].red <= red && self.hands[i].green <= green && self.hands[i].blue
                <= blue) {
                return false;
            }
            i = i + 1;
        }
        true
    }

    /// The smallest bag that covers every hand: the per-colour maximum,
    /// zero for a colour never shown.
    pub fn max_hand(&self) -> (r: Hand)
        ensures
            hand_view(r) == spec_max_hand(self.hands@.map_values(|h: Hand| hand_view(h))),
            forall|i: int|
                0 <= i < self.hands@.len() ==> (#[trigger] self.hands@[i]).red <= r.red
                    && self.hands@[i].green <= r.green && self.hands@[i].blue <= r.blue,
            r.red == 0 || exists|i: int|
                0 <= i < self.hands@.len() && (#[trigger] self.hands@[i]).red == r.red,
            r.green == 0 || exists|i: int|
                0 <= i < self.hands@.len() && (#[trigger] self.hands@[i]).green == r.green,
            r.blue == 0 || exists|i: int|
                0 <= i < self.hands@.len() && (#[trigger] self.hands@[i]).blue == r.blue,
    {
        let mut best = Hand { red: 0, green: 0, blue: 0 };
        let mut i: usize = 0;
        let ghost hv = self.hands@.map_values(|h: Hand| hand_view(h));
        proof {
            assert(hv.skip(0) =~= hv);
        }
        while i < self.hands.len()
            invariant
                0 <= i <= self.hands@.len(),
                hv == self.hands@.map_values(|h: Hand| hand_view(h)),
                spec_max_hand(hv) == max_scan(
                    hv.skip(i as int),
                    (best.red as int, best.green as int, best.blue as int),
                ),
                forall|k: int|
                    0 <= k < i ==> (#[trigger] self.hands@[k]).red <= best.red
                        && self.hands@[k].green <= best.green && self.hands@[k].blue <= best.blue,
                best.red == 0 || exists|k: int|
                    0 <= k < i && (#[trigger] self.hands@[k]).red == best.red,
                best.green == 0 || exists|k: int|
                    0 <= k < i && (#[trigger] self.hands@[k]).green == best.green,
                best.blue == 0 || exists|k: int|
                    0 <= k < i && (#[trigger] self.hands@[k]).blue == best.blue,
            decreases self.hands@.len() - i,
        {
            proof {
                assert(hv.skip(i as int)[0] == hv[i as int]);
                assert(hv[i as int] == hand_view(self.hands@[i as int]));
                assert(hv.skip(i as int).drop_first() =~= hv.skip(i as int + 1));
            }
            let h = &self.hands[i];
            let red = if h.red > best.red {
                h.red
            } else {
                best.red
            };
            let green = if h.green > best.green {
                h.green
            } else {
                best.green
            };
            let blue = if h.blue > best.blue {
                h.blue
            } else {
                best.blue
            };
            best = Hand { red, green, blue };
            i = i + 1;
        }
        proof {
            assert(hv.skip(hv.len() as int) =~= Seq::<(int, int, int)>::empty());
        }
        best
    }
}

/// The componentwise maximum, folded left to right from an initial bag.
pub open spec fn max_scan(hands: Seq<(int, int, int)>, acc: (int, int, int)) -> (int, int, int)
    decreases hands.len(),
{
    if hands.len() == 0 {
        acc
    } else {
        max_scan(
            hands.drop_first(),
            (
                if hands[0].0 > acc.0 {
                    hands[0].0
                } else {
                    acc.0
                },
                if hands[0].1 > acc.1 {
                    hands[0].1
                } else {
                    acc.1
                },
                if hands[0].2 > acc.2 {
                    hands[0].2
                } else {
                    acc.2
                },
            ),
        )
    }
}

/// The per-colour maximum over a game's hands, zero where a colour
/// never appears.
pub open spec fn spec_max_hand(hands: Seq<(int, int, int)>) -> (int, int, int) {
    max_scan(hands, (0, 0, 0))
}

/// The same scan as `Hand::parse`, over a byte piece of a game line.
fn parse_hand_bytes(input: &[u8]) -> (r: Hand)
    requires
        hand_ok(input@),
    ensures
        hand_view(r) == spec_hand(input@),
{
    let ghost ps = spec_split2(input@, 44, 32);
    let pieces = split2(input, 44, 32);
    let mut red: u32 = 0;
    let mut green: u32 = 0;
    let mut blue: u32 = 0;
    let mut i: usize = 0;
    proof {
        assert(ps.skip(0) =~= ps);
    }
    while i < pieces.len()
        invariant
            0 <= i <= pieces@.len(),
            vecs_view(pieces@) == ps,
            ps == spec_split2(input@, 44, 32),
            hand_ok(input@),
            spec_hand(input@) == hand_scan(
                ps.skip(i as int),
                (red as int, green as int, blue as int),
            ),
        decreases pieces@.len() - i,
    {
        proof {
            assert(ps.skip(i as int)[0] == ps[i as int]);
            assert(ps.skip(i as int).drop_first() =~= ps.skip(i as int + 1));
            assert(vecs_view(pieces@)[i as int] == pieces@[i as int]@);
            assert(hand_piece_ok(ps[i as int]));
        }
        let qs = split1(pieces[i].as_slice(), 32);
        if qs.len() >= 2 {
            proof {
                assert(vecs_view(qs@)[0] == qs@[0]@);
                assert(vecs_view(qs@)[1] == qs@[1]@);
                if crate::text::parses_to_u32(qs@[0]@) {
                    crate::text::lemma_digits_val_nonneg(qs@[0]@);
                }
            }
            let red_word: [u8; 3] = [114, 101, 100];
            let green_word: [u8; 5] = [103, 114, 101, 101, 110];
            let blue_word: [u8; 4] = [98, 108, 117, 101];
            proof {
                assert(red_word@ =~= red_bytes());
                assert(green_word@ =~= green_bytes());
                assert(blue_word@ =~= blue_bytes());
            }
            if bytes_eq(qs[1].as_slice(), red_word.as_slice()) {
                match parse_u32(qs[0].as_slice()) {
                    Some(v) => {
                        red = v;
                    },
                    None => {
                        proof {
                            assert(false);
                        }
                    },
                }
            } else if bytes_eq(qs[1].as_slice(), green_word.as_slice()) {
                match parse_u32(qs[0].as_slice()) {
                    Some(v) => {
                        green = v;
                    },
                    None => {
                        proof {
                            assert(false);
                        }
                    },
                }
            } else if bytes_eq(qs[1].as_slice(), blue_word.as_slice()) {
                match parse_u32(qs[0].as_slice()) {
                    Some(v) => {
                        blue = v;
                    },
                    None => {
                        proof {
                            assert(false);
                        }
                    },
                }
            }
        }
        i = i + 1;
    }
    proof {
        assert(ps.skip(ps.len() as int) =~= Seq::<Seq<u8>>::empty());
    }
    Hand { red, green, blue }
}

} // verus!
