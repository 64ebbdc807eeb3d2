//! Toy boat races: holding the button for `t` of the `time` available
//! travels `t * (time - t)`; a hold time wins when that beats the record
//! distance. The answer multiplies each race's count of winning hold
//! times, bounded by its first and last winning hold.

use vstd::prelude::*;

verus! {

/// One race: the time available and the record distance to beat.
#[derive(PartialEq, Eq, Structural, Debug, Clone, Copy)]
pub struct Race {
    pub time: usize,
    pub distance: usize,
}

impl Race {
    pub fn new(time: usize, distance: usize) -> (r: Race)
        ensures
            r == (Race { time, distance }),
    {
        Race { time, distance }
    }
}

/// Holding for `t` beats the record.
pub open spec fn is_win(time: int, distance: int, t: int) -> bool {
    0 <= t <= time && t * (time - t) > distance
}

pub open spec fn has_win(time: int, distance: int) -> bool {
    exists|t: int| is_win(time, distance, #[trigger] (t * (time - t)))
}

/// The earliest winning hold time at or after `t`; past `time` when
/// none is left.
pub open spec fn first_win_from(time: int, distance: int, t: int) -> int
    decreases time - t + 1,
{
    if t < 0 || t > time {
        time + 1
    } else if t * (time - t) > distance {
        t
    } else {
        first_win_from(time, distance, t + 1)
    }
}

/// The latest winning hold time at or before `t`; below zero when none
/// is left.
pub open spec fn last_win_from(time: int, distance: int, t: int) -> int
    decreases t + 1,
{
    if t < 0 || t > time {
        -1
    } else if t * (time - t) > distance {
        t
    } else {
        last_win_from(time, distance, t - 1)
    }
}

/// Whether holding for `t` beats the record, computed wide enough that
/// no intermediate product can overflow.
fn beats(time: usize, distance: usize, t: usize) -> (r: bool)
    requires
        t <= time,
    ensures
        r == ((t as int) * (time as int - t as int) > distance as int),
{
    let a: u128 = t as u128;
    let b: u128 = (time - t) as u128;
    proof {
        assert(a * b <= 0xffffffffffffffff * 0xffffffffffffffff) by (nonlinear_arith)
            requires
                0 <= a <= 0xffffffffffffffff,
                0 <= b <= 0xffffffffffffffff,
        ;
    }
    a * b > distance as u128
}

/// The first and last winning hold times of a race.
pub fn solve_race(race: &Race) -> (r: (usize, usize))
    requires
        has_win(race.time as int, race.distance as int),
    ensures
        r.0 == first_win_from(race.time as int, race.distance as int, 0),
        r.1 == last_win_from(race.time as int, race.distance as int, race.time as int),
        r.0 <= r.1 <= race.time,
        is_win(race.time as int, race.distance as int, r.0 as int),
        is_win(race.time as int, race.distance as int, r.1 as int),
{
    let time = race.time;
    let distance = race.distance;
    let ghost ti = time as int;
    let ghost di = distance as int;
    let mut lo: usize = 0;
    while !beats(time, distance, lo)
        invariant
            0 <= lo <= time,
            has_win(ti, di),
            ti == time as int,
            di == distance as int,
            first_win_from(ti, di, 0) == first_win_from(ti, di, lo as int),
            forall|s: int| 0 <= s < lo ==> !(#[trigger] (s * (ti - s)) > di),
        decreases time - lo,
    {
        proof {
            if lo as int == ti {
                let w = choose|t: int| is_win(ti, di, #[trigger] (t * (ti - t)));
                assert(w * (ti - w) > di);
                assert(false);
            }
        }
        lo = lo + 1;
    }
    let mut hi: usize = time;
    while !beats(time, distance, hi)
        invariant
            0 <= hi <= time,
            has_win(ti, di),
            ti == time as int,
            di == distance as int,
            last_win_from(ti, di, ti) == last_win_from(ti, di, hi as int),
            forall|s: int| hi < s <= ti ==> !(#[trigger] (s * (ti - s)) > di),
        decreases hi,
    {
        proof {
            if hi == 0 {
                let w = choose|t: int| is_win(ti, di, #[trigger] (t * (ti - t)));
                assert(w * (ti - w) > di);
                assert(false);
            }
        }
        hi = hi - 1;
    }
    proof {
        assert(first_win_from(ti, di, lo as int) == lo as int);
        assert(last_win_from(ti, di, hi as int) == hi as int);
        if hi < lo {
            assert(!((lo as int) * (ti - lo as int) > di));
            assert(false);
        }
    }
    (lo, hi)
}

/// What one race contributes: how many hold times win, as the span from
/// the first to the last winning hold.
pub open spec fn race_ways(time: int, distance: int) -> int {
    last_win_from(time, distance, time) - first_win_from(time, distance, 0) + 1
}

/// The product of the ways of the races from `i` on, starting from `acc`.
pub open spec fn ways_product(races: Seq<Race>, i: int, acc: int) -> int
    decreases races.len() - i,
{
    if i < 0 || i >= races.len() {
        acc
    } else {
        ways_product(races, i + 1, acc * race_ways(races[i].time as int, races[i].distance as int))
    }
}

/// Every race has a winning hold, and the running product stays within
/// `usize`, so the unchecked multiplication never wraps.
pub open spec fn races_ok(races: Seq<Race>, i: int, acc: int) -> bool
    decreases races.len() - i,
{
    if i < 0 || i >= races.len() {
        true
    } else {
        &&& has_win(races[i].time as int, races[i].distance as int)
        &&& 0 <= acc * race_ways(races[i].time as int, races[i].distance as int) <= usize::MAX
        &&& races_ok(races, i + 1, acc * race_ways(races[i].time as int, races[i].distance as int))
    }
}

/// Multiplies the number of winning hold times over all races.
pub fn compute(races: Vec<Race>) -> (r: usize)
    requires
        races_ok(races@, 0, 1),
    ensures
        r == ways_product(races@, 0, 1),
{
    let mut acc: usize = 1;
    let mut i: usize = 0;
    let n = races.len();
    while i < n
        invariant
            0 <= i <= n,
            n == races@.len(),
            races_ok(races@, i as int, acc as int),
            ways_product(races@, 0, 1) == ways_product(races@, i as int, acc as int),
        decreases n - i,
    {
        let race = races[i];
        let (lo, hi) = solve_race(&race);
        acc = acc * (hi - lo + 1);
        i = i + 1;
    }
    acc
}

} // verus!
