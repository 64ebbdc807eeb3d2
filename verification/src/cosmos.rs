//! The expanding cosmos: galaxies sit in a character grid, every empty
//! row and column stretches by the expansion speed, and the answer sums
//! the Manhattan distances of all galaxy pairs after expansion.

use vstd::prelude::*;

verus! {

use crate::text::lines_bytes;
use vstd::string::StringSliceAdditionalSpecFns;

/// The galaxies of one row, left to right.
pub open spec fn row_galaxies(row: Seq<u8>, y: int, x: int) -> Seq<(int, int)>
    decreases row.len() - x,
{
    if x < 0 || x >= row.len() {
        Seq::empty()
    } else if row[x] == 35 {
        seq![(x, y)] + row_galaxies(row, y, x + 1)
    } else {
        row_galaxies(row, y, x + 1)
    }
}

/// All galaxies of the grid, row by row.
pub open spec fn galaxies_from(lb: Seq<Seq<u8>>, y: int) -> Seq<(int, int)>
    decreases lb.len() - y,
{
    if y < 0 || y >= lb.len() {
        Seq::empty()
    } else {
        row_galaxies(lb[y], y, 0) + galaxies_from(lb, y + 1)
    }
}

pub open spec fn pairs_view(v: Seq<(usize, usize)>) -> Seq<(int, int)> {
    v.map_values(|p: (usize, usize)| (p.0 as int, p.1 as int))
}

/// Finds every `#` cell of the grid, row by row, left to right.
pub fn get_galaxies(star_map: &Vec<String>) -> (r: Vec<(usize, usize)>)
    ensures
        pairs_view(r@) == galaxies_from(lines_bytes(star_map@), 0),
{
    let ghost lb = lines_bytes(star_map@);
    let mut out: Vec<(usize, usize)> = Vec::new();
    let mut y: usize = 0;
    let n = star_map.len();
    proof {
        assert(pairs_view(out@) + galaxies_from(lb, 0) =~= galaxies_from(lb, 0));
    }
    while y < n
        invariant
            0 <= y <= n,
            n == star_map@.len(),
            lb == lines_bytes(star_map@),
            galaxies_from(lb, 0) == pairs_view(out@) + galaxies_from(lb, y as int),
        decreases n - y,
    {
        proof {
            assert(lb[y as int] == crate::text::sbytes(star_map@[y as int]@));
        }
        let row = star_map[y].as_str().as_bytes();
        let ghost rv = lb[y as int];
        let mut x: usize = 0;
        proof {
            assert(row@ == rv);
            assert(galaxies_from(lb, y as int) == row_galaxies(rv, y as int, 0) + galaxies_from(
                lb,
                y as int + 1,
            ));
        }
        while x < row.len()
            invariant
                0 <= x <= rv.len(),
                rv == row@,
                lb == lines_bytes(star_map@),
                y < n,
                n == star_map@.len(),
                galaxies_from(lb, 0) == pairs_view(out@) + (row_galaxies(rv, y as int, x as int)
                    + galaxies_from(lb, y as int + 1)),
            decreases rv.len() - x,
        {
            if row[x] == 35 {
                let ghost prev = out@;
                out.push((x, y));
                proof {
                    assert(pairs_view(out@) =~= pairs_view(prev) + seq![(x as int, y as int)]);
                    assert(pairs_view(prev) + (row_galaxies(rv, y as int, x as int)
                        + galaxies_from(lb, y as int + 1)) =~= pairs_view(out@) + (row_galaxies(
                        rv,
                        y as int,
                        x as int + 1,
                    ) + galaxies_from(lb, y as int + 1)));
                }
            }
            x = x + 1;
        }
        y = y + 1;
        proof {
            assert(galaxies_from(lb, 0) == pairs_view(out@) + galaxies_from(lb, y as int));
        }
    }
    proof {
        assert(pairs_view(out@) + Seq::<(int, int)>::empty() =~= pairs_view(out@));
    }
    out
}

/// Some galaxy occupies coordinate `v` of the chosen axis.
pub open spec fn occupied(gs: Seq<(int, int)>, xaxis: bool, v: int) -> bool {
    exists|i: int|
        0 <= i < gs.len() && (if xaxis {
            (#[trigger] gs[i]).0
        } else {
            gs[i].1
        }) == v
}

/// The accumulated expansion offset at coordinate `v`: every empty
/// coordinate before and including `v` adds the expansion speed.
pub open spec fn off_val(gs: Seq<(int, int)>, xaxis: bool, speed: int, v: int) -> int
    decreases v + 1,
{
    if v < 0 {
        0
    } else if occupied(gs, xaxis, v) {
        off_val(gs, xaxis, speed, v - 1)
    } else {
        off_val(gs, xaxis, speed, v - 1) + speed
    }
}

/// The largest axis coordinate from `i` on, folded with an accumulator —
/// the shape the scanning loop computes.
pub open spec fn max_from(gs: Seq<(int, int)>, xaxis: bool, i: int, acc: int) -> int
    decreases gs.len() - i,
{
    if i < 0 || i >= gs.len() {
        acc
    } else {
        let c = if xaxis {
            gs[i].0
        } else {
            gs[i].1
        };
        max_from(gs, xaxis, i + 1, if c > acc {
            c
        } else {
            acc
        })
    }
}

/// The largest coordinate of the chosen axis, zero when none is larger.
pub open spec fn max_coord(gs: Seq<(int, int)>, xaxis: bool) -> int {
    max_from(gs, xaxis, 0, 0)
}

proof fn lemma_off_val_bound(gs: Seq<(int, int)>, xaxis: bool, speed: int, v: int)
    requires
        speed >= 0,
        v >= -1,
    ensures
        0 <= off_val(gs, xaxis, speed, v) <= (v + 1) * speed,
    decreases v + 1,
{
    if v >= 0 {
        lemma_off_val_bound(gs, xaxis, speed, v - 1);
        assert((v + 1) * speed == v * speed + speed) by (nonlinear_arith);
        assert(v * speed >= 0) by (nonlinear_arith)
            requires
                v >= 0,
                speed >= 0,
        ;
    }
}

fn occupied_exec(gs: &Vec<(usize, usize)>, xaxis: bool, v: usize) -> (r: bool)
    ensures
        r == occupied(pairs_view(gs@), xaxis, v as int),
{
    let mut i: usize = 0;
    while i < gs.len()
        invariant
            0 <= i <= gs@.len(),
            forall|k: int|
                0 <= k < i ==> (if xaxis {
                    (#[trigger] pairs_view(gs@)[k]).0
                } else {
                    pairs_view(gs@)[k].1
                }) != v as int,
        decreases gs@.len() - i,
    {
        proof {
            assert(pairs_view(gs@)[i as int] == (gs@[i as int].0 as int, gs@[i as int].1 as int));
        }
        let c = if xaxis {
            gs[i].0
        } else {
            gs[i].1
        };
        if c == v {
            return true;
        }
        i = i + 1;
    }
    false
}

fn max_coord_exec(gs: &Vec<(usize, usize)>, xaxis: bool) -> (r: usize)
    ensures
        r == max_coord(pairs_view(gs@), xaxis),
{
    let ghost gv = pairs_view(gs@);
    let mut best: usize = 0;
    let mut i: usize = 0;
    while i < gs.len()
        invariant
            0 <= i <= gs@.len(),
            gv == pairs_view(gs@),
            max_coord(gv, xaxis) == max_from(gv, xaxis, i as int, best as int),
        decreases gs@.len() - i,
    {
        proof {
            assert(gv[i as int] == (gs@[i as int].0 as int, gs@[i as int].1 as int));
        }
        let c = if xaxis {
            gs[i].0
        } else {
            gs[i].1
        };
        if c > best {
            best = c;
        }
        i = i + 1;
    }
    best
}

/// One axis of offsets: index `v` holds the accumulated expansion at
/// coordinate `v`, up to and including the largest occupied coordinate.
fn offsets_for_axis(galaxies: &Vec<(usize, usize)>, xaxis: bool, speed: usize) -> (r: Vec<usize>)
    requires
        galaxies@.len() >= 1,
        max_coord(pairs_view(galaxies@), xaxis) < usize::MAX,
        (max_coord(pairs_view(galaxies@), xaxis) + 1) * speed <= usize::MAX,
    ensures
        r@.len() == max_coord(pairs_view(galaxies@), xaxis) + 1,
        forall|v: int|
            0 <= v < r@.len() ==> r@[v] as int == off_val(pairs_view(galaxies@), xaxis, speed as int, v),
{
    let ghost gv = pairs_view(galaxies@);
    let maxc = max_coord_exec(galaxies, xaxis);
    let mut out: Vec<usize> = Vec::new();
    let mut v: usize = 0;
    while v <= maxc
        invariant
            0 <= v <= maxc + 1,
            gv == pairs_view(galaxies@),
            maxc == max_coord(gv, xaxis),
            maxc < usize::MAX,
            (maxc + 1) * speed <= usize::MAX,
            out@.len() == v,
            forall|k: int| 0 <= k < v ==> out@[k] as int == off_val(gv, xaxis, speed as int, k),
        decreases maxc + 1 - v,
    {
        proof {
            lemma_off_val_bound(gv, xaxis, speed as int, v as int - 1);
            assert((v as int + 1) * speed <= (maxc as int + 1) * speed) by (nonlinear_arith)
                requires
                    0 <= v as int + 1 <= maxc as int + 1,
                    speed >= 0,
            ;
            assert((v as int + 1) * speed == (v as int) * speed + speed) by (nonlinear_arith);
        }
        let prev: usize = if v == 0 {
            0
        } else {
            out[v - 1]
        };
        let occ = occupied_exec(galaxies, xaxis, v);
        let next: usize = if occ {
            prev
        } else {
            prev + speed
        };
        out.push(next);
        v = v + 1;
    }
    out
}

/// The expansion offsets of both axes: how far each column and each row
/// shifts outward at the given expansion speed.
pub fn get_expansion_offsets(galaxies: &Vec<(usize, usize)>, expansion_speed: usize) -> (r: (
    Vec<usize>,
    Vec<usize>,
))
    requires
        galaxies@.len() >= 1,
        max_coord(pairs_view(galaxies@), true) < usize::MAX,
        max_coord(pairs_view(galaxies@), false) < usize::MAX,
        (max_coord(pairs_view(galaxies@), true) + 1) * expansion_speed <= usize::MAX,
        (max_coord(pairs_view(galaxies@), false) + 1) * expansion_speed <= usize::MAX,
    ensures
        r.0@.len() == max_coord(pairs_view(galaxies@), true) + 1,
        r.1@.len() == max_coord(pairs_view(galaxies@), false) + 1,
        forall|v: int|
            0 <= v < r.0@.len() ==> r.0@[v] as int == off_val(
                pairs_view(galaxies@),
                true,
                expansion_speed as int,
                v,
            ),
        forall|v: int|
            0 <= v < r.1@.len() ==> r.1@[v] as int == off_val(
                pairs_view(galaxies@),
                false,
                expansion_speed as int,
                v,
            ),
{
    let xs = offsets_for_axis(galaxies, true, expansion_speed);
    let ys = offsets_for_axis(galaxies, false, expansion_speed);
    (xs, ys)
}

/// No coordinate exceeds the axis maximum.
proof fn lemma_max_from_ge(gs: Seq<(int, int)>, xaxis: bool, i: int, acc: int)
    requires
        i >= 0,
    ensures
        max_from(gs, xaxis, i, acc) >= acc,
        forall|k: int|
            i <= k < gs.len() ==> (if xaxis {
                (#[trigger] gs[k]).0
            } else {
                gs[k].1
            }) <= max_from(gs, xaxis, i, acc),
    decreases gs.len() - i,
{
    if 0 <= i < gs.len() {
        let c = if xaxis {
            gs[i].0
        } else {
            gs[i].1
        };
        let acc2 = if c > acc {
            c
        } else {
            acc
        };
        lemma_max_from_ge(gs, xaxis, i + 1, acc2);
        assert forall|k: int|
            i <= k < gs.len() implies (if xaxis {
            (#[trigger] gs[k]).0
        } else {
            gs[k].1
        }) <= max_from(gs, xaxis, i, acc) by {
            if k == i {
                assert(max_from(gs, xaxis, i + 1, acc2) >= acc2);
            }
        }
    }
}

/// Manhattan distance between two expanded galaxies.
pub open spec fn dist(a: (int, int), b: (int, int)) -> int {
    (if a.0 >= b.0 {
        a.0 - b.0
    } else {
        b.0 - a.0
    }) + (if a.1 >= b.1 {
        a.1 - b.1
    } else {
        b.1 - a.1
    })
}

/// The distances from galaxy `i` to every galaxy after `j`, summed.
pub open spec fn row_sum(gs: Seq<(int, int)>, i: int, j: int) -> int
    decreases gs.len() - j,
{
    if j < 0 || j >= gs.len() || i < 0 || i >= gs.len() {
        0
    } else {
        dist(gs[i], gs[j]) + row_sum(gs, i, j + 1)
    }
}

/// The sum of the distances of all unordered galaxy pairs.
pub open spec fn pairs_sum(gs: Seq<(int, int)>, i: int) -> int
    decreases gs.len() - i,
{
    if i < 0 || i >= gs.len() {
        0
    } else {
        row_sum(gs, i, i + 1) + pairs_sum(gs, i + 1)
    }
}

proof fn lemma_row_sum_nonneg(gs: Seq<(int, int)>, i: int, j: int)
    ensures
        row_sum(gs, i, j) >= 0,
    decreases gs.len() - j,
{
    if 0 <= j < gs.len() && 0 <= i < gs.len() {
        lemma_row_sum_nonneg(gs, i, j + 1);
    }
}

proof fn lemma_pairs_sum_nonneg(gs: Seq<(int, int)>, i: int)
    ensures
        pairs_sum(gs, i) >= 0,
    decreases gs.len() - i,
{
    if 0 <= i < gs.len() {
        lemma_row_sum_nonneg(gs, i, i + 1);
        lemma_pairs_sum_nonneg(gs, i + 1);
    }
}

/// Where the galaxies sit after expansion: each coordinate moves out by
/// its axis offset.
pub open spec fn expanded_view(gs: Seq<(int, int)>, speed: int) -> Seq<(int, int)> {
    gs.map_values(
        |g: (int, int)| (g.0 + off_val(gs, true, speed, g.0), g.1 + off_val(gs, false, speed, g.1)),
    )
}

/// Moves every galaxy out by the offsets of its row and column.
pub fn expand(galaxies: Vec<(usize, usize)>, expansion_offsets: (Vec<usize>, Vec<usize>)) -> (r:
    Vec<(usize, usize)>)
    requires
        forall|i: int|
            0 <= i < galaxies@.len() ==> (#[trigger] galaxies@[i]).0 < expansion_offsets.0@.len()
                && galaxies@[i].1 < expansion_offsets.1@.len(),
        forall|i: int|
            0 <= i < galaxies@.len() ==> (#[trigger] galaxies@[i]).0 + expansion_offsets.0@[galaxies@[i].0 as int] <= usize::MAX
                && galaxies@[i].1 + expansion_offsets.1@[galaxies@[i].1 as int] <= usize::MAX,
    ensures
        r@.len() == galaxies@.len(),
        forall|i: int|
            0 <= i < r@.len() ==> (#[trigger] r@[i]).0 as int == galaxies@[i].0
                + expansion_offsets.0@[galaxies@[i].0 as int] && r@[i].1 as int == galaxies@[i].1
                + expansion_offsets.1@[galaxies@[i].1 as int],
{
    let (x_offsets, y_offsets) = expansion_offsets;
    let mut out: Vec<(usize, usize)> = Vec::new();
    let mut i: usize = 0;
    while i < galaxies.len()
        invariant
            0 <= i <= galaxies@.len(),
            forall|k: int|
                0 <= k < galaxies@.len() ==> (#[trigger] galaxies@[k]).0 < x_offsets@.len()
                    && galaxies@[k].1 < y_offsets@.len(),
            forall|k: int|
                0 <= k < galaxies@.len() ==> (#[trigger] galaxies@[k]).0 + x_offsets@[galaxies@[k].0 as int] <= usize::MAX
                    && galaxies@[k].1 + y_offsets@[galaxies@[k].1 as int] <= usize::MAX,
            out@.len() == i,
            forall|k: int|
                0 <= k < i ==> (#[trigger] out@[k]).0 as int == galaxies@[k].0
                    + x_offsets@[galaxies@[k].0 as int] && out@[k].1 as int == galaxies@[k].1
                    + y_offsets@[galaxies@[k].1 as int],
        decreases galaxies@.len() - i,
    {
        let (x, y) = galaxies[i];
        out.push((x + x_offsets[x], y + y_offsets[y]));
        i = i + 1;
    }
    out
}


/// The grid's galaxies and every expansion step stay within `usize`.
pub open spec fn cosmos_ok(lb: Seq<Seq<u8>>, speed: int) -> bool {
    let gs = galaxies_from(lb, 0);
    &&& gs.len() >= 1
    &&& max_coord(gs, true) < usize::MAX
    &&& max_coord(gs, false) < usize::MAX
    &&& (max_coord(gs, true) + 1) * speed <= usize::MAX
    &&& (max_coord(gs, false) + 1) * speed <= usize::MAX
    &&& forall|i: int|
        0 <= i < gs.len() ==> (#[trigger] gs[i]).0 + off_val(gs, true, speed, gs[i].0)
            <= usize::MAX && gs[i].1 + off_val(gs, false, speed, gs[i].1) <= usize::MAX
    &&& pairs_sum(expanded_view(gs, speed), 0) <= usize::MAX
}

/// Finds the galaxies, expands the grid at the given speed, and sums
/// the Manhattan distances of all galaxy pairs.
pub fn calculate(lines: &Vec<String>, expansion_speed: usize) -> (r: usize)
    requires
        cosmos_ok(lines_bytes(lines@), expansion_speed as int),
    ensures
        r == pairs_sum(expanded_view(galaxies_from(lines_bytes(lines@), 0), expansion_speed as int), 0),
{
    let ghost lb = lines_bytes(lines@);
    let ghost gs = galaxies_from(lb, 0);
    let ghost speed = expansion_speed as int;
    let galaxies = get_galaxies(lines);
    proof {
        assert(pairs_view(galaxies@) == gs);
        lemma_max_from_ge(gs, true, 0, 0);
        lemma_max_from_ge(gs, false, 0, 0);
        assert(forall|i: int|
            0 <= i < galaxies@.len() ==> pairs_view(galaxies@)[i] == ((#[trigger] galaxies@[i]).0 as int, galaxies@[i].1 as int));
    }
    let offsets = get_expansion_offsets(&galaxies, expansion_speed);
    proof {
        assert(forall|i: int|
            0 <= i < galaxies@.len() ==> ((#[trigger] galaxies@[i]).0 as int) <= max_coord(gs, true)
                && (galaxies@[i].1 as int) <= max_coord(gs, false));
    }
    let expanded = expand(galaxies, offsets);
    let ghost ev = expanded_view(gs, speed);
    proof {
        assert(pairs_view(expanded@) =~= ev) by {
            assert(forall|i: int|
                0 <= i < expanded@.len() ==> #[trigger] pairs_view(expanded@)[i]
                    == (expanded@[i].0 as int, expanded@[i].1 as int));
            assert(forall|i: int|
                0 <= i < ev.len() ==> #[trigger] ev[i] == (gs[i].0 + off_val(gs, true, speed, gs[i].0),
                    gs[i].1 + off_val(gs, false, speed, gs[i].1)));
        }
    }
    let n = expanded.len();
    let mut acc: usize = 0;
    let mut i: usize = 0;
    while i < n
        invariant
            0 <= i <= n,
            n == expanded@.len(),
            ev == pairs_view(expanded@),
            ev == expanded_view(gs, speed),
            pairs_sum(ev, 0) <= usize::MAX,
            pairs_sum(ev, 0) == acc + pairs_sum(ev, i as int),
        decreases n - i,
    {
        let mut j: usize = i + 1;
        proof {
            lemma_pairs_sum_nonneg(ev, i as int + 1);
            lemma_row_sum_nonneg(ev, i as int, j as int);
        }
        while j < n
            invariant
                i < j <= n || j == i + 1,
                i < n,
                n == expanded@.len(),
                ev == pairs_view(expanded@),
                pairs_sum(ev, 0) <= usize::MAX,
                pairs_sum(ev, 0) == acc + row_sum(ev, i as int, j as int) + pairs_sum(
                    ev,
                    i as int + 1,
                ),
            decreases n - j,
        {
            proof {
                assert(ev[i as int] == (expanded@[i as int].0 as int, expanded@[i as int].1 as int));
                assert(ev[j as int] == (expanded@[j as int].0 as int, expanded@[j as int].1 as int));
                lemma_row_sum_nonneg(ev, i as int, j as int + 1);
                lemma_pairs_sum_nonneg(ev, i as int + 1);
            }
            let a = expanded[i];
            let b = expanded[j];
            let dx = if a.0 >= b.0 {
                a.0 - b.0
            } else {
                b.0 - a.0
            };
            let dy = if a.1 >= b.1 {
                a.1 - b.1
            } else {
                b.1 - a.1
            };
            acc = acc + (dx + dy);
            j = j + 1;
        }
        i = i + 1;
    }
    acc
}

} // verus!
