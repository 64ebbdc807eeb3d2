//! Oasis readings: a history extrapolates by taking successive
//! difference sequences until they vanish, then summing the edges —
//! forwards for the next value, alternating for the value before the
//! first.

use vstd::prelude::*;

verus! {

use crate::text::{
    lines_bytes, parse_i32, parses_to_i32, signed_val, spec_tokens, tokenize, vecs_view,
};
use vstd::string::StringSliceAdditionalSpecFns;

pub open spec fn int_view(v: Seq<i32>) -> Seq<int> {
    v.map_values(|x: i32| x as int)
}

/// The successive differences of a history.
pub open spec fn diffs(s: Seq<int>) -> Seq<int> {
    if s.len() <= 1 {
        Seq::empty()
    } else {
        Seq::new((s.len() - 1) as nat, |i: int| s[i + 1] - s[i])
    }
}

/// Every adjacent difference stays within `i32`.
pub open spec fn diffs_fit(s: Seq<int>) -> bool {
    forall|i: int|
        0 <= i < s.len() - 1 ==> i32::MIN <= #[trigger] (s[i + 1] - s[i]) <= i32::MAX
}

/// A non-empty sequence of zeroes: the state that stops the repeated
/// differencing.
pub open spec fn is_zero_seq(s: Seq<int>) -> bool {
    s.len() >= 1 && forall|i: int| 0 <= i < s.len() ==> #[trigger] s[i] == 0
}

/// One layer of differences: the windows of the history, each right
/// minus left.
pub fn transform(history: Vec<i32>) -> (r: Vec<i32>)
    requires
        diffs_fit(int_view(history@)),
    ensures
        int_view(r@) == diffs(int_view(history@)),
{
    let ghost hv = int_view(history@);
    let mut out: Vec<i32> = Vec::new();
    if history.len() <= 1 {
        proof {
            assert(int_view(out@) =~= diffs(hv));
        }
        return out;
    }
    let mut i: usize = 0;
    let n = history.len() - 1;
    while i < n
        invariant
            0 <= i <= n,
            n == hv.len() - 1,
            hv == int_view(history@),
            hv.len() == history@.len(),
            hv.len() >= 2,
            diffs_fit(hv),
            out@.len() == i,
            forall|k: int| 0 <= k < i ==> int_view(out@)[k] == hv[k + 1] - hv[k],
        decreases history@.len() - i,
    {
        proof {
            assert(hv[i as int] == history@[i as int] as int);
            assert(hv[i as int + 1] == history@[i as int + 1] as int);
            assert(i32::MIN <= hv[i as int + 1] - hv[i as int] <= i32::MAX);
        }
        let d = history[i + 1] - history[i];
        let ghost prev = out@;
        out.push(d);
        proof {
            assert(int_view(out@) =~= int_view(prev).push(d as int));
            assert(forall|k: int|
                0 <= k < prev.len() ==> #[trigger] int_view(prev).push(d as int)[k] == int_view(
                    prev,
                )[k]);
            assert(int_view(out@)[i as int] == d as int);
        }
        i = i + 1;
    }
    proof {
        assert(int_view(out@) =~= diffs(hv));
    }
    out
}

/// The running total of the forward extrapolation: add the last entry,
/// take differences, stop once they are all zero.
pub open spec fn ef_from(s: Seq<int>, acc: int) -> int
    decreases s.len(),
{
    if s.len() == 0 {
        acc
    } else {
        let acc2 = acc + s.last();
        if is_zero_seq(diffs(s)) {
            acc2
        } else {
            ef_from(diffs(s), acc2)
        }
    }
}

/// The forward extrapolation runs to completion within `i32`: each
/// layer is non-empty and bounded, its differences fit, the running
/// total fits, and some layer of differences is all zero before the
/// history runs out.
pub open spec fn front_ok(s: Seq<int>, acc: int) -> bool
    decreases s.len(),
{
    &&& s.len() >= 1
    &&& diffs_fit(s)
    &&& i32::MIN <= acc + s.last() <= i32::MAX
    &&& (is_zero_seq(diffs(s)) || front_ok(diffs(s), acc + s.last()))
}

fn is_all_zero(v: &Vec<i32>) -> (r: bool)
    ensures
        r == is_zero_seq(int_view(v@)),
{
    if v.len() == 0 {
        return false;
    }
    let mut i: usize = 0;
    while i < v.len()
        invariant
            0 <= i <= v@.len(),
            forall|k: int| 0 <= k < i ==> #[trigger] int_view(v@)[k] == 0,
        decreases v@.len() - i,
    {
        if v[i] != 0 {
            proof {
                assert(int_view(v@)[i as int] == v@[i as int] as int);
            }
            return false;
        }
        proof {
            assert(int_view(v@)[i as int] == v@[i as int] as int);
        }
        i = i + 1;
    }
    true
}

/// Extrapolates the value after the history's end.
pub fn extrapolate_front(history: Vec<i32>) -> (r: i32)
    requires
        front_ok(int_view(history@), 0),
    ensures
        r == ef_from(int_view(history@), 0),
{
    let ghost start = int_view(history@);
    let mut h = history;
    let mut acc: i32 = 0;
    let mut go: bool = true;
    while go
        invariant
            go ==> front_ok(int_view(h@), acc as int),
            go ==> ef_from(start, 0) == ef_from(int_view(h@), acc as int),
            !go ==> acc as int == ef_from(start, 0),
        decreases h@.len() + (if go { 1int } else { 0int }),
    {
        let ghost hv = int_view(h@);
        proof {
            assert(hv.last() == h@[h@.len() - 1] as int);
        }
        let last = h[h.len() - 1];
        acc = acc + last;
        let ghost before_len = h@.len();
        h = transform(h);
        proof {
            assert(h@.len() < before_len);
        }
        if is_all_zero(&h) {
            go = false;
        }
    }
    acc
}

/// The running total of the backward extrapolation: each layer of
/// differences contributes its first entry with alternating sign.
pub open spec fn eb_from(s: Seq<int>, acc: int, sign: int) -> int
    decreases s.len(),
{
    if s.len() <= 1 {
        acc
    } else {
        let d = diffs(s);
        let acc2 = acc + sign * d.first();
        if is_zero_seq(d) {
            acc2
        } else {
            eb_from(d, acc2, -sign)
        }
    }
}

/// The backward extrapolation runs to completion within `i32`.
pub open spec fn back_ok(s: Seq<int>, acc: int, sign: int) -> bool
    decreases s.len(),
{
    &&& s.len() >= 2
    &&& diffs_fit(s)
    &&& i32::MIN <= sign * diffs(s).first() <= i32::MAX
    &&& i32::MIN <= acc + sign * diffs(s).first() <= i32::MAX
    &&& (is_zero_seq(diffs(s)) || back_ok(diffs(s), acc + sign * diffs(s).first(), -sign))
}

/// Extrapolates the value before the history's start.
pub fn extrapolate_back(history: Vec<i32>) -> (r: i32)
    requires
        history@.len() >= 1,
        back_ok(int_view(history@), int_view(history@)[0], -1),
    ensures
        r == eb_from(int_view(history@), int_view(history@)[0], -1),
{
    let ghost start = int_view(history@);
    let mut h = history;
    proof {
        assert(start[0] == h@[0] as int);
    }
    let mut acc: i32 = h[0];
    let mut sign: i32 = -1;
    let mut go: bool = true;
    while go
        invariant
            start.len() >= 1,
            go ==> sign == 1 || sign == -1,
            go ==> back_ok(int_view(h@), acc as int, sign as int),
            go ==> eb_from(start, start[0], -1) == eb_from(int_view(h@), acc as int, sign as int),
            !go ==> acc as int == eb_from(start, start[0], -1),
        decreases h@.len() + (if go { 1int } else { 0int }),
    {
        let ghost hv = int_view(h@);
        let ghost before_len = h@.len();
        h = transform(h);
        proof {
            assert(int_view(h@) == diffs(hv));
            assert(h@.len() < before_len);
            assert(int_view(h@).first() == h@[0] as int);
        }
        let first = h[0];
        acc = acc + sign * first;
        sign = 0 - sign;
        if is_all_zero(&h) {
            go = false;
        }
    }
    acc
}

/// The numbers of one reading line.
pub open spec fn line_vals(line: Seq<u8>) -> Seq<int> {
    spec_tokens(line).map_values(|t: Seq<u8>| signed_val(t))
}

/// What one line contributes to the answer.
pub open spec fn line_extrapolated(line: Seq<u8>, backward: bool) -> int {
    if backward {
        eb_from(line_vals(line), line_vals(line)[0], -1)
    } else {
        ef_from(line_vals(line), 0)
    }
}

/// The whole run stays within `i32`: every line parses, extrapolates
/// to completion, and the running sum fits at every step.
pub open spec fn readings_ok(lb: Seq<Seq<u8>>, i: int, acc: int, backward: bool) -> bool
    decreases lb.len() - i,
{
    if i < 0 || i >= lb.len() {
        true
    } else {
        let line = lb[i];
        &&& forall|j: int|
            0 <= j < spec_tokens(line).len() ==> parses_to_i32(#[trigger] spec_tokens(line)[j])
        &&& (if backward {
            line_vals(line).len() >= 1 && back_ok(line_vals(line), line_vals(line)[0], -1)
        } else {
            front_ok(line_vals(line), 0)
        })
        &&& i32::MIN <= acc + line_extrapolated(line, backward) <= i32::MAX
        &&& readings_ok(lb, i + 1, acc + line_extrapolated(line, backward), backward)
    }
}

/// The answer: the sum of each line's extrapolated value.
pub open spec fn spec_readings_sum(lb: Seq<Seq<u8>>, i: int, acc: int, backward: bool) -> int
    decreases lb.len() - i,
{
    if i < 0 || i >= lb.len() {
        acc
    } else {
        spec_readings_sum(lb, i + 1, acc + line_extrapolated(lb[i], backward), backward)
    }
}

/// Reads every history line and sums its forward or backward
/// extrapolation.
pub fn calculate(lines: &Vec<String>, backward: bool) -> (r: i32)
    requires
        readings_ok(lines_bytes(lines@), 0, 0, backward),
    ensures
        r == spec_readings_sum(lines_bytes(lines@), 0, 0, backward),
{
    let ghost lb = lines_bytes(lines@);
    let mut acc: i32 = 0;
    let mut i: usize = 0;
    let n = lines.len();
    while i < n
        invariant
            0 <= i <= n,
            n == lines@.len(),
            lb == lines_bytes(lines@),
            readings_ok(lb, i as int, acc as int, backward),
            spec_readings_sum(lb, 0, 0, backward) == spec_readings_sum(
                lb,
                i as int,
                acc as int,
                backward,
            ),
        decreases n - i,
    {
        proof {
            assert(lb[i as int] == crate::text::sbytes(lines@[i as int]@));
        }
        let line = lines[i].as_str();
        let toks = tokenize(line.as_bytes());
        let ghost lv = line_vals(lb[i as int]);
        let mut history: Vec<i32> = Vec::new();
        let mut j: usize = 0;
        proof {
            assert(int_view(history@) =~= lv.take(0));
            assert(lv.len() == toks@.len());
        }
        while j < toks.len()
            invariant
                0 <= j <= toks@.len(),
                vecs_view(toks@) == spec_tokens(lb[i as int]),
                lv == line_vals(lb[i as int]),
                lv.len() == toks@.len(),
                forall|m: int|
                    0 <= m < spec_tokens(lb[i as int]).len() ==> parses_to_i32(
                        #[trigger] spec_tokens(lb[i as int])[m],
                    ),
                int_view(history@) == lv.take(j as int),
            decreases toks@.len() - j,
        {
            proof {
                assert(vecs_view(toks@)[j as int] == toks@[j as int]@);
                assert(parses_to_i32(toks@[j as int]@));
                assert(lv[j as int] == signed_val(toks@[j as int]@));
            }
            let ghost prev = history@;
            match parse_i32(toks[j].as_slice()) {
                Some(v) => {
                    history.push(v);
                },
                None => {
                    proof {
                        assert(false);
                    }
                },
            }
            proof {
                assert(int_view(history@) =~= int_view(prev) + seq![lv[j as int]]);
                assert(lv.take(j as int + 1) =~= lv.take(j as int) + seq![lv[j as int]]);
            }
            j = j + 1;
        }
        proof {
            assert(lv.take(lv.len() as int) =~= lv);
            assert(int_view(history@) == lv);
        }
        let v = if backward {
            extrapolate_back(history)
        } else {
            extrapolate_front(history)
        };
        acc = acc + v;
        i = i + 1;
    }
    acc
}

} // verus!
