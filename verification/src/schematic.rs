//! The engine schematic: a grid of part numbers and symbol markers. A
//! number counts when a marker touches its span; a `*` marker touching
//! exactly two numbers is a gear.

use vstd::prelude::*;

verus! {

use crate::text::{digits_val, parse_u32, parses_to_u32, sbytes};
use vstd::string::{StrSliceExecFns, StringSliceAdditionalSpecFns};

/// What `regex` finds: the start offset and text of every
/// non-overlapping match of `pattern` in `line`, left to right — `None`
/// when the pattern does not compile. A function of the pattern and the
/// line alone.
pub uninterp spec fn found_tokens(pattern: Seq<char>, line: Seq<char>) -> Option<
    Seq<(int, Seq<char>)>,
>;

/// Relies on regex::Regex::new and Regex::find_iter: each match's byte
/// offset and text, in order.
#[verifier::external_body]
pub(crate) fn find_tokens(pattern: &str, line: &str) -> (r: Option<Vec<(usize, String)>>)
    ensures
        (match r {
            Some(v) => found_tokens(pattern@, line@) == Some(
                v@.map_values(|t: (usize, String)| (t.0 as int, t.1@)),
            ),
            None => found_tokens(pattern@, line@) is None,
        }),
{
    let re = match regex::Regex::new(pattern) {
        Ok(re) => re,
        Err(_) => return None,
    };
    let mut out: Vec<(usize, String)> = Vec::new();
    for m in re.find_iter(line) {
        out.push((m.start(), m.as_str().to_string()));
    }
    Some(out)
}

/// A cell coordinate of the schematic.
#[derive(PartialEq, Eq, Structural, Hash, Debug, Clone, Copy)]
pub struct Position {
    pub x: usize,
    pub y: usize,
}

/// One token of the schematic: a number spanning some cells, or a
/// single symbol marker.
#[derive(PartialEq, Eq, Structural, Debug, Clone, Copy)]
pub enum MapItem {
    Number { pos: Position, length: usize, value: u32 },
    Marker { pos: Position, sign: char },
}

impl MapItem {
    /// The value of a number token; a marker carries none.
    pub fn num(&self) -> (r: Option<u32>)
        ensures
            (match *self {
                MapItem::Number { pos, length, value } => r == Some(value),
                MapItem::Marker { .. } => r is None,
            }),
    {
        match self {
            MapItem::Number { pos: _, length: _, value } => Some(*value),
            _ => None,
        }
    }

    pub open spec fn position(self) -> Position {
        match self {
            MapItem::Number { pos, .. } => pos,
            MapItem::Marker { pos, .. } => pos,
        }
    }

    pub open spec fn is_marker(self) -> bool {
        self matches MapItem::Marker { .. }
    }
}

/// The item one found token stands for: an all-digit text that fits
/// `u32` is a number; anything else is a marker carrying its first
/// character; a token the machine cannot even address is dropped.
pub open spec fn item_of(tok: (int, Seq<char>), y: int) -> Option<MapItem> {
    let tb = sbytes(tok.1);
    if tok.0 < 0 || tok.0 + tb.len() > usize::MAX || y < 0 || y > usize::MAX {
        None
    } else if parses_to_u32(tb) {
        Some(
            MapItem::Number {
                pos: Position { x: tok.0 as usize, y: y as usize },
                length: tb.len() as usize,
                value: digits_val(tb) as u32,
            },
        )
    } else if tok.1.len() >= 1 {
        Some(MapItem::Marker { pos: Position { x: tok.0 as usize, y: y as usize }, sign: tok.1[0] })
    } else {
        None
    }
}

/// The items of one line's found tokens, from `i` on.
pub open spec fn items_from(toks: Seq<(int, Seq<char>)>, y: int, i: int) -> Seq<MapItem>
    decreases toks.len() - i,
{
    if i < 0 || i >= toks.len() {
        Seq::empty()
    } else {
        (match item_of(toks[i], y) {
            Some(item) => seq![item],
            None => Seq::empty(),
        }) + items_from(toks, y, i + 1)
    }
}

/// The marker-or-number pattern of the schematic scan.
pub open spec fn token_pattern() -> Seq<char> {
    "([^.\\d]|\\d+)"@
}

/// The items of one line, or none when the scan yields nothing usable.
pub open spec fn line_items(line: Seq<char>, y: int) -> Seq<MapItem> {
    match found_tokens(token_pattern(), line) {
        Some(toks) => items_from(toks, y, 0),
        None => Seq::empty(),
    }
}

/// All items of the grid, line by line.
pub open spec fn spec_items(lines: Seq<String>, y: int) -> Seq<MapItem>
    decreases lines.len() - y,
{
    if y < 0 || y >= lines.len() {
        Seq::empty()
    } else {
        line_items(lines[y]@, y) + spec_items(lines, y + 1)
    }
}

/// The parsed schematic: its items in reading order.
#[derive(PartialEq, Eq, Debug)]
pub struct Schematic {
    pub map: Vec<MapItem>,
}

/// The last item sitting at `(x, y)`, the one a keyed store would keep.
pub open spec fn find_at(items: Seq<MapItem>, x: int, y: int) -> Option<MapItem>
    decreases items.len(),
{
    if items.len() == 0 {
        None
    } else if items.last().position().x == x && items.last().position().y == y {
        Some(items.last())
    } else {
        find_at(items.drop_last(), x, y)
    }
}

impl Schematic {
    /// Reads every line's tokens into items, in reading order.
    pub fn parse(input: Vec<String>) -> (r: Schematic)
        ensures
            r.map@ == spec_items(input@, 0),
    {
        let mut items: Vec<MapItem> = Vec::new();
        let mut y: usize = 0;
        let n = input.len();
        proof {
            assert(items@ + spec_items(input@, 0) =~= spec_items(input@, 0));
        }
        while y < n
            invariant
                0 <= y <= n,
                n == input@.len(),
                spec_items(input@, 0) == items@ + spec_items(input@, y as int),
            decreases n - y,
        {
            let line = input[y].as_str();
            match find_tokens("([^.\\d]|\\d+)", line) {
                Some(toks) => {
                    let ghost tv = toks@.map_values(|t: (usize, String)| (t.0 as int, t.1@));
                    let mut i: usize = 0;
                    proof {
                        assert(line_items(input@[y as int]@, y as int) == items_from(tv, y as int, 0));
                    }
                    while i < toks.len()
                        invariant
                            0 <= i <= toks@.len(),
                            y < n,
                            n == input@.len(),
                            tv == toks@.map_values(|t: (usize, String)| (t.0 as int, t.1@)),
                            tv.len() == toks@.len(),
                            spec_items(input@, 0) == items@ + (items_from(tv, y as int, i as int)
                                + spec_items(input@, y as int + 1)),
                        decreases toks@.len() - i,
                    {
                        proof {
                            assert(tv[i as int] == (toks@[i as int].0 as int, toks@[i as int].1@));
                        }
                        let x = toks[i].0;
                        let text = toks[i].1.as_str();
                        let bytes = text.as_bytes();
                        let tlen = bytes.len();
                        proof {
                            assert(bytes@ == sbytes(toks@[i as int].1@));
                        }
                        let ghost before = items@;
                        if x <= usize::MAX - tlen {
                            match parse_u32(bytes) {
                                Some(value) => {
                                    items.push(
                                        MapItem::Number {
                                            pos: Position { x, y },
                                            length: tlen,
                                            value,
                                        },
                                    );
                                },
                                None => {
                                    if text.unicode_len() >= 1 {
                                        let sign = text.get_char(0);
                                        items.push(
                                            MapItem::Marker { pos: Position { x, y }, sign },
                                        );
                                    }
                                },
                            }
                        }
                        proof {
                            match item_of(tv[i as int], y as int) {
                                Some(item) => {
                                    assert(items@ =~= before + seq![item]);
                                    assert(before + (items_from(tv, y as int, i as int)
                                        + spec_items(input@, y as int + 1)) =~= items@ + (
                                    items_from(tv, y as int, i as int + 1) + spec_items(
                                        input@,
                                        y as int + 1,
                                    )));
                                },
                                None => {
                                    assert(items@ =~= before);
                                    assert(items_from(tv, y as int, i as int) =~= items_from(
                                        tv,
                                        y as int,
                                        i as int + 1,
                                    ));
                                },
                            }
                        }
                        i = i + 1;
                    }
                    proof {
                        assert(items_from(tv, y as int, toks@.len() as int)
                            =~= Seq::<MapItem>::empty());
                        assert(items@ + (Seq::<MapItem>::empty() + spec_items(
                            input@,
                            y as int + 1,
                        )) =~= items@ + spec_items(input@, y as int + 1));
                    }
                },
                None => {
                    proof {
                        assert(line_items(input@[y as int]@, y as int)
                            =~= Seq::<MapItem>::empty());
                        assert(items@ + (Seq::<MapItem>::empty() + spec_items(
                            input@,
                            y as int + 1,
                        )) =~= items@ + spec_items(input@, y as int + 1));
                    }
                },
            }
            y = y + 1;
        }
        proof {
            assert(items@ + Seq::<MapItem>::empty() =~= items@);
        }
        Schematic { map: items }
    }
}

fn pos_of(item: &MapItem) -> (r: Position)
    ensures
        r == item.position(),
{
    match item {
        MapItem::Number { pos, .. } => *pos,
        MapItem::Marker { pos, .. } => *pos,
    }
}

fn find_at_exec(items: &Vec<MapItem>, x: usize, y: usize) -> (r: Option<MapItem>)
    ensures
        r == find_at(items@, x as int, y as int),
{
    let mut i: usize = items.len();
    proof {
        assert(items@.take(items@.len() as int) =~= items@);
    }
    while i > 0
        invariant
            0 <= i <= items@.len(),
            find_at(items@, x as int, y as int) == find_at(
                items@.take(i as int),
                x as int,
                y as int,
            ),
        decreases i,
    {
        proof {
            assert(items@.take(i as int).last() == items@[i as int - 1]);
            assert(items@.take(i as int).drop_last() =~= items@.take(i as int - 1));
        }
        let p = pos_of(&items[i - 1]);
        if p.x == x && p.y == y {
            return Some(items[i - 1]);
        }
        i = i - 1;
    }
    proof {
        assert(items@.take(0) =~= Seq::<MapItem>::empty());
    }
    None
}

/// The neighbourhood of a token: the window one cell around a
/// token's span, excluding the span itself, looking up tokens by their
/// starting cell; columns first, rows within.
pub open spec fn neigh_from(
    items: Seq<MapItem>,
    x: int,
    y: int,
    len: int,
    dx: int,
    dy: int,
) -> Seq<MapItem>
    decreases len + 2 - dx, 3 - dy,
{
    if dx < 0 || dy < 0 || len < 0 || dx >= len + 2 {
        Seq::empty()
    } else if dy >= 3 {
        neigh_from(items, x, y, len, dx + 1, 0)
    } else {
        let xi = x - 1 + dx;
        let yi = y - 1 + dy;
        (if xi >= 0 && yi >= 0 && !(yi == y && x <= xi < x + len) {
            match find_at(items, xi, yi) {
                Some(it) => seq![it],
                None => Seq::empty(),
            }
        } else {
            Seq::empty()
        }) + neigh_from(items, x, y, len, dx, dy + 1)
    }
}

pub open spec fn spec_neighbours(items: Seq<MapItem>, x: int, y: int, len: int) -> Seq<MapItem> {
    neigh_from(items, x, y, len, 0, 0)
}

/// A token's surroundings stay addressable: its window fits in `usize`
/// arithmetic.
pub open spec fn schematic_wf(items: Seq<MapItem>) -> bool {
    forall|i: int|
        0 <= i < items.len() ==> (match #[trigger] items[i] {
            MapItem::Number { pos, length, value } => pos.x + length + 1 <= usize::MAX && pos.y + 1
                <= usize::MAX && length + 2 <= usize::MAX,
            MapItem::Marker { .. } => true,
        })
}

pub open spec fn has_marker(s: Seq<MapItem>) -> bool {
    exists|i: int| 0 <= i < s.len() && (#[trigger] s[i]).is_marker()
}

/// The part numbers: the number tokens with a marker somewhere in their
/// window, in reading order.
pub open spec fn spec_part_numbers(items: Seq<MapItem>, i: int) -> Seq<MapItem>
    decreases items.len() - i,
{
    if i < 0 || i >= items.len() {
        Seq::empty()
    } else {
        (match items[i] {
            MapItem::Number { pos, length, value } => {
                if has_marker(spec_neighbours(items, pos.x as int, pos.y as int, length as int)) {
                    seq![items[i]]
                } else {
                    Seq::empty()
                }
            },
            MapItem::Marker { .. } => Seq::empty(),
        }) + spec_part_numbers(items, i + 1)
    }
}

fn any_marker(s: &Vec<MapItem>) -> (r: bool)
    ensures
        r == has_marker(s@),
{
    let mut i: usize = 0;
    while i < s.len()
        invariant
            0 <= i <= s@.len(),
            forall|k: int| 0 <= k < i ==> !(#[trigger] s@[k]).is_marker(),
        decreases s@.len() - i,
    {
        if matches!(s[i], MapItem::Marker { .. }) {
            return true;
        }
        i = i + 1;
    }
    false
}

impl Schematic {
    /// The tokens whose starting cell lies in the one-cell window around
    /// the span at `position`, excluding the span itself.
    pub fn neighbours(&self, position: &Position, len: usize) -> (r: Vec<MapItem>)
        requires
            position.x + len + 1 <= usize::MAX,
            position.y + 1 <= usize::MAX,
            len + 2 <= usize::MAX,
        ensures
            r@ == spec_neighbours(self.map@, position.x as int, position.y as int, len as int),
    {
        let x = position.x;
        let y = position.y;
        let mut out: Vec<MapItem> = Vec::new();
        let mut dx: usize = 0;
        proof {
            assert(out@ + neigh_from(self.map@, x as int, y as int, len as int, 0, 0)
                =~= neigh_from(self.map@, x as int, y as int, len as int, 0, 0));
        }
        while dx < len + 2
            invariant
                0 <= dx <= len + 2,
                x == position.x,
                y == position.y,
                x + len + 1 <= usize::MAX,
                y + 1 <= usize::MAX,
                len + 2 <= usize::MAX,
                spec_neighbours(self.map@, x as int, y as int, len as int) == out@ + neigh_from(
                    self.map@,
                    x as int,
                    y as int,
                    len as int,
                    dx as int,
                    0,
                ),
            decreases len + 2 - dx,
        {
            let mut dy: usize = 0;
            while dy < 3
                invariant
                    0 <= dy <= 3,
                    dx < len + 2,
                    x == position.x,
                    y == position.y,
                    x + len + 1 <= usize::MAX,
                    y + 1 <= usize::MAX,
                    len + 2 <= usize::MAX,
                    spec_neighbours(self.map@, x as int, y as int, len as int) == out@
                        + neigh_from(
                        self.map@,
                        x as int,
                        y as int,
                        len as int,
                        dx as int,
                        dy as int,
                    ),
                decreases 3 - dy,
            {
                let ghost prev = out@;
                if (dx > 0 || x > 0) && (dy > 0 || y > 0) {
                    let xi = x + dx - 1;
                    let yi = if y > 0 {
                        y - 1 + dy
                    } else {
                        dy - 1
                    };
                    if !(yi == y && x <= xi && xi < x + len) {
                        match find_at_exec(&self.map, xi, yi) {
                            Some(item) => {
                                out.push(item);
                                proof {
                                    assert(out@ =~= prev + seq![item]);
                                    assert(prev + (seq![item] + neigh_from(
                                        self.map@,
                                        x as int,
                                        y as int,
                                        len as int,
                                        dx as int,
                                        dy as int + 1,
                                    )) =~= out@ + neigh_from(
                                        self.map@,
                                        x as int,
                                        y as int,
                                        len as int,
                                        dx as int,
                                        dy as int + 1,
                                    ));
                                }
                            },
                            None => {},
                        }
                    }
                }
                proof {
                    assert(Seq::<MapItem>::empty() + neigh_from(
                        self.map@,
                        x as int,
                        y as int,
                        len as int,
                        dx as int,
                        dy as int + 1,
                    ) =~= neigh_from(
                        self.map@,
                        x as int,
                        y as int,
                        len as int,
                        dx as int,
                        dy as int + 1,
                    ));
                }
                dy = dy + 1;
            }
            dx = dx + 1;
        }
        proof {
            assert(out@ + Seq::<MapItem>::empty() =~= out@);
        }
        out
    }

    /// The numbers a marker touches, in reading order.
    pub fn part_numbers(&self) -> (r: Vec<MapItem>)
        requires
            schematic_wf(self.map@),
        ensures
            r@ == spec_part_numbers(self.map@, 0),
    {
        let mut out: Vec<MapItem> = Vec::new();
        let mut i: usize = 0;
        let n = self.map.len();
        proof {
            assert(out@ + spec_part_numbers(self.map@, 0) =~= spec_part_numbers(self.map@, 0));
        }
        while i < n
            invariant
                0 <= i <= n,
                n == self.map@.len(),
                schematic_wf(self.map@),
                spec_part_numbers(self.map@, 0) == out@ + spec_part_numbers(self.map@, i as int),
            decreases n - i,
        {
            let item = self.map[i];
            let ghost prev = out@;
            match item {
                MapItem::Number { pos, length, value } => {
                    let neighs = self.neighbours(&pos, length);
                    if any_marker(&neighs) {
                        out.push(item);
                        proof {
                            assert(out@ =~= prev + seq![item]);
                            assert(prev + (seq![item] + spec_part_numbers(
                                self.map@,
                                i as int + 1,
                            )) =~= out@ + spec_part_numbers(self.map@, i as int + 1));
                        }
                    }
                },
                MapItem::Marker { .. } => {},
            }
            proof {
                assert(Seq::<MapItem>::empty() + spec_part_numbers(self.map@, i as int + 1)
                    =~= spec_part_numbers(self.map@, i as int + 1));
            }
            i = i + 1;
        }
        proof {
            assert(out@ + Seq::<MapItem>::empty() =~= out@);
        }
        out
    }

    /// The part numbers' values, sorted ascending.
    pub fn part_number_values(&self) -> (r: Vec<u32>)
        requires
            schematic_wf(self.map@),
        ensures
            r@ == sort_vals(values_of(spec_part_numbers(self.map@, 0))),
    {
        let parts = self.part_numbers();
        let ghost vs = values_of(spec_part_numbers(self.map@, 0));
        let mut out: Vec<u32> = Vec::new();
        let mut k: usize = 0;
        proof {
            assert(vs.take(0) =~= Seq::<u32>::empty());
            assert(sort_vals(vs.take(0)) =~= Seq::<u32>::empty());
            assert(vs.len() == parts@.len());
        }
        while k < parts.len()
            invariant
                0 <= k <= parts@.len(),
                vs == values_of(parts@),
                vs.len() == parts@.len(),
                out@ == sort_vals(vs.take(k as int)),
            decreases parts@.len() - k,
        {
            proof {
                assert(vs[k as int] == value_of(parts@[k as int]));
            }
            let x = value_of_exec(&parts[k]);
            let mut j: usize = out.len();
            while j > 0 && out[j - 1] > x
                invariant
                    0 <= j <= out@.len(),
                    forall|m: int| j <= m < out@.len() ==> (#[trigger] out@[m]) > x,
                decreases j,
            {
                j = j - 1;
            }
            proof {
                lemma_insert_val_at(out@, x, j as int);
                assert(vs.take(k as int + 1).drop_last() =~= vs.take(k as int));
                assert(vs.take(k as int + 1).last() == vs[k as int]);
            }
            out.insert(j, x);
            k = k + 1;
        }
        proof {
            assert(vs.take(vs.len() as int) =~= vs);
        }
        out
    }

    /// Every `*` marker with the numbers whose windows touch it, in the
    /// order the numbers are read.
    pub fn get_gears(&self) -> (r: Vec<(Position, Vec<MapItem>)>)
        requires
            schematic_wf(self.map@),
        ensures
            gears_view(r@) == spec_gears(self.map@),
    {
        let mut out: Vec<(Position, Vec<MapItem>)> = Vec::new();
        let mut i: usize = 0;
        let n = self.map.len();
        proof {
            assert(gears_view(out@) =~= Seq::<(Position, Seq<MapItem>)>::empty());
        }
        while i < n
            invariant
                0 <= i <= n,
                n == self.map@.len(),
                schematic_wf(self.map@),
                spec_gears(self.map@) == gears_scan(self.map@, i as int, gears_view(out@)),
            decreases n - i,
        {
            let item = self.map[i];
            match item {
                MapItem::Number { pos, length, value } => {
                    let neighs = self.neighbours(&pos, length);
                    let ghost nv = neighs@;
                    let mut j: usize = 0;
                    while j < neighs.len()
                        invariant
                            0 <= j <= nv.len(),
                            nv == neighs@,
                            spec_gears(self.map@) == gears_scan_plus(
                                self.map@,
                                i as int,
                                nv,
                                j as int,
                                item,
                                gears_view(out@),
                            ),
                            n == self.map@.len(),
                            i < n,
                            schematic_wf(self.map@),
                            item == self.map@[i as int],
                            item matches MapItem::Number { .. },
                            nv == spec_neighbours(
                                self.map@,
                                item.position().x as int,
                                item.position().y as int,
                                item_length(item) as int,
                            ),
                        decreases nv.len() - j,
                    {
                        let neigh = neighs[j];
                        match neigh {
                            MapItem::Marker { pos: marker_pos, sign } => {
                                if sign == '*' {
                                    push_gear(&mut out, marker_pos, item);
                                }
                            },
                            MapItem::Number { .. } => {},
                        }
                        j = j + 1;
                    }
                },
                MapItem::Marker { .. } => {},
            }
            i = i + 1;
        }
        out
    }
}

/// A gear entry list as its positions and item views.
pub open spec fn gears_view(v: Seq<(Position, Vec<MapItem>)>) -> Seq<(Position, Seq<MapItem>)> {
    v.map_values(|e: (Position, Vec<MapItem>)| (e.0, e.1@))
}

pub open spec fn value_of(item: MapItem) -> u32 {
    match item {
        MapItem::Number { pos, length, value } => value,
        MapItem::Marker { .. } => 0,
    }
}

pub open spec fn item_length(item: MapItem) -> usize {
    match item {
        MapItem::Number { pos, length, value } => length,
        MapItem::Marker { .. } => 0,
    }
}

fn value_of_exec(item: &MapItem) -> (r: u32)
    ensures
        r == value_of(*item),
{
    match item {
        MapItem::Number { pos: _, length: _, value } => *value,
        MapItem::Marker { .. } => 0,
    }
}

pub open spec fn values_of(parts: Seq<MapItem>) -> Seq<u32> {
    parts.map_values(|it: MapItem| value_of(it))
}

/// Stable insertion of a value into an ascending run.
pub open spec fn insert_val(vs: Seq<u32>, x: u32) -> Seq<u32>
    decreases vs.len(),
{
    if vs.len() == 0 {
        seq![x]
    } else if vs.last() > x {
        insert_val(vs.drop_last(), x).push(vs.last())
    } else {
        vs.push(x)
    }
}

/// The values sorted ascending by repeated insertion.
pub open spec fn sort_vals(vs: Seq<u32>) -> Seq<u32>
    decreases vs.len(),
{
    if vs.len() == 0 {
        Seq::empty()
    } else {
        insert_val(sort_vals(vs.drop_last()), vs.last())
    }
}

proof fn lemma_insert_val_at(vs: Seq<u32>, x: u32, j: int)
    requires
        0 <= j <= vs.len(),
        forall|m: int| j <= m < vs.len() ==> (#[trigger] vs[m]) > x,
        j > 0 ==> vs[j - 1] <= x,
    ensures
        insert_val(vs, x) == vs.insert(j, x),
    decreases vs.len(),
{
    if vs.len() == 0 {
        assert(insert_val(vs, x) =~= vs.insert(0, x));
    } else if j == vs.len() {
        assert(insert_val(vs, x) =~= vs.insert(j, x));
    } else {
        assert(vs[vs.len() - 1] > x);
        lemma_insert_val_at(vs.drop_last(), x, j);
        assert(insert_val(vs.drop_last(), x).push(vs.last()) =~= vs.drop_last().insert(
            j,
            x,
        ).push(vs.last()));
        assert(vs.drop_last().insert(j, x).push(vs.last()) =~= vs.insert(j, x));
    }
}

/// A number joined to the gear entry of the marker at `p`: the first
/// entry with that position grows, or a new entry starts.
pub open spec fn add_gear(
    acc: Seq<(Position, Seq<MapItem>)>,
    p: Position,
    item: MapItem,
) -> Seq<(Position, Seq<MapItem>)>
    decreases acc.len(),
{
    if acc.len() == 0 {
        seq![(p, seq![item])]
    } else if acc.first().0 == p {
        seq![(acc.first().0, acc.first().1.push(item))] + acc.drop_first()
    } else {
        seq![acc.first()] + add_gear(acc.drop_first(), p, item)
    }
}

/// A number's window walked for `*` markers, each feeding its gear.
pub open spec fn gears_scan_neigh(
    acc: Seq<(Position, Seq<MapItem>)>,
    neighs: Seq<MapItem>,
    j: int,
    item: MapItem,
) -> Seq<(Position, Seq<MapItem>)>
    decreases neighs.len() - j,
{
    if j < 0 || j >= neighs.len() {
        acc
    } else {
        let acc2 = match neighs[j] {
            MapItem::Marker { pos, sign } => if sign == '*' {
                add_gear(acc, pos, item)
            } else {
                acc
            },
            MapItem::Number { .. } => acc,
        };
        gears_scan_neigh(acc2, neighs, j + 1, item)
    }
}

/// All gears of the schematic, numbers taken in reading order.
pub open spec fn gears_scan(
    items: Seq<MapItem>,
    i: int,
    acc: Seq<(Position, Seq<MapItem>)>,
) -> Seq<(Position, Seq<MapItem>)>
    decreases items.len() - i,
{
    if i < 0 || i >= items.len() {
        acc
    } else {
        let acc2 = match items[i] {
            MapItem::Number { pos, length, value } => gears_scan_neigh(
                acc,
                spec_neighbours(items, pos.x as int, pos.y as int, length as int),
                0,
                items[i],
            ),
            MapItem::Marker { .. } => acc,
        };
        gears_scan(items, i + 1, acc2)
    }
}

/// The inner scan spliced into the outer one: what the whole walk
/// yields once item `i`'s window has been read up to neighbour `j`.
pub open spec fn gears_scan_plus(
    items: Seq<MapItem>,
    i: int,
    neighs: Seq<MapItem>,
    j: int,
    item: MapItem,
    acc: Seq<(Position, Seq<MapItem>)>,
) -> Seq<(Position, Seq<MapItem>)> {
    gears_scan(items, i + 1, gears_scan_neigh(acc, neighs, j, item))
}

pub open spec fn spec_gears(items: Seq<MapItem>) -> Seq<(Position, Seq<MapItem>)> {
    gears_scan(items, 0, Seq::empty())
}

/// Joins `item` to the entry of the marker at `p`, keeping entries in
/// first-seen order.
fn push_gear(out: &mut Vec<(Position, Vec<MapItem>)>, p: Position, item: MapItem)
    ensures
        gears_view(final(out)@) == add_gear(gears_view(old(out)@), p, item),
{
    let mut k: usize = 0;
    let n = out.len();
    while k < n
        invariant
            0 <= k <= n,
            n == out@.len(),
            *out == *old(out),
            forall|m: int| 0 <= m < k ==> (#[trigger] gears_view(out@)[m]).0 != p,
        decreases n - k,
    {
        proof {
            assert(gears_view(out@)[k as int] == (out@[k as int].0, out@[k as int].1@));
        }
        if out[k].0.x == p.x && out[k].0.y == p.y {
            let (p0, mut v0) = out.remove(k);
            v0.push(item);
            let ghost updated = v0@;
            out.insert(k, (p0, v0));
            proof {
                assert(gears_view(out@) =~= gears_view(old(out)@).update(k as int, (
                    gears_view(old(out)@)[k as int].0,
                    gears_view(old(out)@)[k as int].1.push(item),
                )));
                lemma_add_gear_at(gears_view(old(out)@), p, item, k as int);
            }
            return ;
        }
        k = k + 1;
    }
    let ghost prev = gears_view(out@);
    let mut single: Vec<MapItem> = Vec::new();
    single.push(item);
    out.push((p, single));
    proof {
        assert(gears_view(out@) =~= prev + seq![(p, seq![item])]);
        lemma_add_gear_append(prev, p, item);
    }
}

proof fn lemma_add_gear_at(acc: Seq<(Position, Seq<MapItem>)>, p: Position, item: MapItem, k: int)
    requires
        0 <= k < acc.len(),
        forall|m: int| 0 <= m < k ==> (#[trigger] acc[m]).0 != p,
        acc[k].0 == p,
    ensures
        add_gear(acc, p, item) == acc.update(k, (acc[k].0, acc[k].1.push(item))),
    decreases acc.len(),
{
    if k == 0 {
        assert(add_gear(acc, p, item) =~= acc.update(0, (acc[0].0, acc[0].1.push(item))));
    } else {
        assert(acc.first().0 != p);
        assert(forall|m: int|
            0 <= m < k - 1 ==> (#[trigger] acc.drop_first()[m]) == acc[m + 1]);
        lemma_add_gear_at(acc.drop_first(), p, item, k - 1);
        assert(seq![acc.first()] + acc.drop_first().update(k - 1, (
            acc.drop_first()[k - 1].0,
            acc.drop_first()[k - 1].1.push(item),
        )) =~= acc.update(k, (acc[k].0, acc[k].1.push(item))));
    }
}

proof fn lemma_add_gear_append(acc: Seq<(Position, Seq<MapItem>)>, p: Position, item: MapItem)
    requires
        forall|m: int| 0 <= m < acc.len() ==> (#[trigger] acc[m]).0 != p,
    ensures
        add_gear(acc, p, item) == acc + seq![(p, seq![item])],
    decreases acc.len(),
{
    if acc.len() == 0 {
        assert(add_gear(acc, p, item) =~= acc + seq![(p, seq![item])]);
    } else {
        assert(forall|m: int|
            0 <= m < acc.drop_first().len() ==> (#[trigger] acc.drop_first()[m]) == acc[m + 1]);
        lemma_add_gear_append(acc.drop_first(), p, item);
        assert(seq![acc.first()] + (acc.drop_first() + seq![(p, seq![item])]) =~= acc + seq![
            (p, seq![item]),
        ]);
    }
}

} // verus!
