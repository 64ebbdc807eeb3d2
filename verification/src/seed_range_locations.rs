//! The range-based reduction: the seed numbers pair up into ranges,
//! the whole collection runs through every stage, and the smallest
//! start of the final collection wins.

use vstd::prelude::*;

verus! {

use crate::garden::{
    all_bounded, all_positive, lemma_stage_ranges_props, lemma_sum_lengths_nonneg, merged,
    min_start, parse_pipeline, pipeline_ranges, pipeline_view, pipeline_wf, spec_pipeline,
    spec_pipeline_ok, stage_ranges, stage_split_from, sum_lengths, GardenMap, GardenRange,
};
use crate::seed_locations::{parse_seeds, seeds_ok, spec_seeds};
use crate::text::lines_bytes;
use vstd::string::StringSliceAdditionalSpecFns;

/// Flattens one range's split back into a single collection: the
/// resolved pieces, then whatever remainder was left at the stage's end,
/// passed through unchanged.
pub fn to_vec(map_result: (Vec<GardenRange>, Option<GardenRange>)) -> (r: Vec<GardenRange>)
    ensures
        r@ == merged((map_result.0@, map_result.1)),
{
    let (mut result, rem) = map_result;
    match rem {
        Some(t) => {
            result.push(t);
            proof {
                assert(result@ =~= result@.drop_last() + seq![t]);
            }
            result
        },
        None => result,
    }
}

/// One stage applied to the whole collection: every range is split and
/// the pieces are gathered in order. The collection may grow in count,
/// but its total covered length never changes.
pub fn map_ranges(ranges: Vec<GardenRange>, map: &GardenMap) -> (r: Vec<GardenRange>)
    requires
        map.wf(),
        all_bounded(ranges@),
    ensures
        r@ == stage_ranges(map.rules@, ranges@),
        sum_lengths(r@) == sum_lengths(ranges@),
        all_bounded(r@),
        all_positive(ranges@) ==> all_positive(r@),
{
    let n = ranges.len();
    let mut out: Vec<GardenRange> = Vec::new();
    let mut i: usize = 0;
    proof {
        assert(ranges@.skip(0) =~= ranges@);
        assert(out@ + stage_ranges(map.rules@, ranges@) =~= stage_ranges(map.rules@, ranges@));
    }
    while i < n
        invariant
            0 <= i <= n,
            n == ranges@.len(),
            map.wf(),
            all_bounded(ranges@),
            stage_ranges(map.rules@, ranges@) == out@ + stage_ranges(
                map.rules@,
                ranges@.skip(i as int),
            ),
        decreases n - i,
    {
        proof {
            assert(ranges@.skip(i as int)[0] == ranges@[i as int]);
            assert(ranges@.skip(i as int).drop_first() =~= ranges@.skip(i as int + 1));
        }
        let cur = ranges[i];
        let mut pieces = to_vec(map.map_range(&cur));
        proof {
            assert(pieces@ == merged(stage_split_from(map.rules@, Some(cur))));
            assert((out@ + pieces@) + stage_ranges(map.rules@, ranges@.skip(i as int + 1))
                =~= out@ + (pieces@ + stage_ranges(map.rules@, ranges@.skip(i as int + 1))));
        }
        out.append(&mut pieces);
        i = i + 1;
    }
    proof {
        assert(ranges@.skip(n as int) =~= Seq::<GardenRange>::empty());
        assert(out@ + Seq::<GardenRange>::empty() =~= out@);
        lemma_stage_ranges_props(map.rules@, ranges@);
    }
    out
}

/// The seed numbers read two at a time: a start and a length.
pub open spec fn spec_seed_ranges(l0: Seq<u8>) -> Seq<GardenRange> {
    Seq::new(
        (spec_seeds(l0).len() / 2) as nat,
        |k: int|
            GardenRange {
                start: spec_seeds(l0)[2 * k] as usize,
                length: spec_seeds(l0)[2 * k + 1] as usize,
            },
    )
}

/// The header line pairs up into usable seed ranges: an even, positive
/// count of numbers, each pair a non-empty range that fits in `usize`.
pub open spec fn seed_ranges_ok(l0: Seq<u8>) -> bool {
    &&& seeds_ok(l0)
    &&& spec_seeds(l0).len() >= 2
    &&& spec_seeds(l0).len() % 2 == 0
    &&& forall|k: int|
        0 <= k < spec_seeds(l0).len() / 2 ==> #[trigger] spec_seeds(l0)[2 * k] + spec_seeds(
            l0,
        )[2 * k + 1] <= usize::MAX && spec_seeds(l0)[2 * k + 1] >= 1
}

/// Parses the seed ranges and the pipeline, drives the collection
/// through every stage in order, and returns the smallest start among
/// the final ranges.
pub fn calculate(lines: &Vec<String>) -> (r: usize)
    requires
        lines@.len() >= 1,
        seed_ranges_ok(lines_bytes(lines@)[0]),
        spec_pipeline_ok(lines@, 2),
    ensures
        ({
            let fin = pipeline_ranges(
                spec_pipeline(lines@, 2),
                spec_seed_ranges(lines_bytes(lines@)[0]),
            );
            &&& exists|k: int| 0 <= k < fin.len() && r == (#[trigger] fin[k]).start
            &&& forall|k: int| 0 <= k < fin.len() ==> r <= (#[trigger] fin[k]).start
        }),
{
    let header = lines[0].as_str();
    proof {
        assert(lines_bytes(lines@)[0] == crate::text::sbytes(lines@[0]@));
        assert(header.spec_bytes() == lines_bytes(lines@)[0]);
    }
    let ghost l0 = lines_bytes(lines@)[0];
    let seeds = parse_seeds(header);
    let ghost seed_vals = spec_seeds(l0);
    let mut ranges: Vec<GardenRange> = Vec::new();
    let mut k: usize = 0;
    proof {
        assert(seeds@.len() == seed_vals.len());
        assert(ranges@ =~= spec_seed_ranges(l0).take(0));
    }
    while k + 1 < seeds.len()
        invariant
            0 <= k <= seeds@.len(),
            k % 2 == 0,
            seeds@.map_values(|x: usize| x as int) == seed_vals,
            seed_vals == spec_seeds(l0),
            seed_ranges_ok(l0),
            ranges@ == spec_seed_ranges(l0).take(k as int / 2),
        decreases seeds@.len() - k,
    {
        proof {
            assert(seeds@.map_values(|x: usize| x as int)[k as int] == seeds@[k as int] as int);
            assert(seeds@.map_values(|x: usize| x as int)[k as int + 1]
                == seeds@[k as int + 1] as int);
            assert(spec_seed_ranges(l0)[k as int / 2] == (GardenRange {
                start: seeds@[k as int],
                length: seeds@[k as int + 1],
            }));
        }
        let ghost prev = ranges@;
        ranges.push(GardenRange { start: seeds[k], length: seeds[k + 1] });
        proof {
            assert(spec_seed_ranges(l0).take(k as int / 2 + 1) =~= prev + seq![
                spec_seed_ranges(l0)[k as int / 2],
            ]);
        }
        k = k + 2;
    }
    proof {
        assert(spec_seed_ranges(l0).take((seed_vals.len() / 2) as int) =~= spec_seed_ranges(l0));
        assert(ranges@ == spec_seed_ranges(l0));
        assert(all_bounded(ranges@) && all_positive(ranges@)) by {
            assert(forall|m: int|
                0 <= m < spec_seed_ranges(l0).len() ==> (#[trigger] spec_seed_ranges(l0)[m])
                    == (GardenRange {
                    start: seed_vals[2 * m] as usize,
                    length: seed_vals[2 * m + 1] as usize,
                }));
        }
    }
    let maps = parse_pipeline(lines, 2);
    let ghost stages = spec_pipeline(lines@, 2);
    let ghost seeds0 = spec_seed_ranges(l0);
    let nmaps = maps.len();
    let mut m: usize = 0;
    proof {
        assert(stages.skip(0) =~= stages);
    }
    while m < nmaps
        invariant
            0 <= m <= nmaps,
            nmaps == maps@.len(),
            pipeline_wf(maps@),
            pipeline_view(maps@) == stages,
            all_bounded(ranges@),
            all_positive(ranges@),
            sum_lengths(ranges@) == sum_lengths(seeds0),
            pipeline_ranges(stages, seeds0) == pipeline_ranges(
                stages.skip(m as int),
                ranges@,
            ),
        decreases nmaps - m,
    {
        proof {
            assert(stages.skip(m as int)[0] == stages[m as int]);
            assert(stages[m as int] == pipeline_view(maps@)[m as int]);
            assert(stages.skip(m as int).drop_first() =~= stages.skip(m as int + 1));
        }
        let map: &GardenMap = &maps[m];
        ranges = map_ranges(ranges, map);
        m = m + 1;
    }
    proof {
        assert(stages.skip(nmaps as int) =~= Seq::<Seq<crate::garden::GardenRule>>::empty());
        assert(pipeline_ranges(stages, seeds0) == ranges@);
        // a positive total length means the final collection is not empty
        assert(sum_lengths(seeds0) >= 1) by {
            assert(seeds0.len() >= 1);
            assert(seeds0[0].length >= 1);
            lemma_sum_lengths_nonneg(seeds0.drop_first());
        }
        assert(ranges@.len() >= 1);
    }
    match min_start(&ranges) {
        Some(v) => v,
        None => {
            proof {
                assert(false);
            }
            0
        },
    }
}

} // verus!
