//! The point-based reduction: every seed is sent through the whole
//! pipeline and the smallest final location wins.

use vstd::prelude::*;

verus! {

use crate::garden::{
    map_point, parse_pipeline, pipeline_point, pipeline_view, spec_pipeline, spec_pipeline_ok,
};
use crate::text::{
    digits_val, lines_bytes, parse_usize, parses_to_usize, spec_split2, spec_tokens, split2,
    tokenize, vecs_view,
};
use vstd::string::StringSliceAdditionalSpecFns;

/// The numbers after `seeds: ` on the first line.
pub open spec fn spec_seeds(l0: Seq<u8>) -> Seq<int> {
    spec_tokens(spec_split2(l0, 58, 32)[1]).map_values(|t: Seq<u8>| digits_val(t))
}

/// The first line carries a `seeds: ` prefix and then numerals.
pub open spec fn seeds_ok(l0: Seq<u8>) -> bool {
    let pieces = spec_split2(l0, 58, 32);
    &&& pieces.len() >= 2
    &&& forall|j: int|
        0 <= j < spec_tokens(pieces[1]).len() ==> parses_to_usize(
            #[trigger] spec_tokens(pieces[1])[j],
        )
}

/// Reads the seed numbers of the header line.
pub(crate) fn parse_seeds(line: &str) -> (r: Vec<usize>)
    requires
        seeds_ok(line.spec_bytes()),
    ensures
        r@.map_values(|x: usize| x as int) == spec_seeds(line.spec_bytes()),
{
    let pieces = split2(line.as_bytes(), 58, 32);
    proof {
        assert(vecs_view(pieces@)[1] == pieces@[1]@);
    }
    let toks = tokenize(pieces[1].as_slice());
    let ghost spec_toks = spec_tokens(line.spec_bytes());
    let mut seeds: Vec<usize> = Vec::new();
    let mut j: usize = 0;
    let ghost target = spec_seeds(line.spec_bytes());
    proof {
        assert(seeds@.map_values(|x: usize| x as int) =~= target.take(0));
    }
    while j < toks.len()
        invariant
            0 <= j <= toks@.len(),
            seeds_ok(line.spec_bytes()),
            vecs_view(toks@) == spec_tokens(spec_split2(line.spec_bytes(), 58, 32)[1]),
            target == spec_seeds(line.spec_bytes()),
            target.len() == toks@.len(),
            seeds@.map_values(|x: usize| x as int) == target.take(j as int),
        decreases toks@.len() - j,
    {
        proof {
            assert(vecs_view(toks@)[j as int] == toks@[j as int]@);
            assert(parses_to_usize(toks@[j as int]@));
            crate::text::lemma_digits_val_nonneg(toks@[j as int]@);
            assert(target[j as int] == digits_val(toks@[j as int]@));
        }
        let ghost prev = seeds@;
        match parse_usize(toks[j].as_slice()) {
            Some(v) => {
                seeds.push(v);
            },
            None => {
                proof {
                    assert(false);
                }
            },
        }
        proof {
            assert(seeds@.map_values(|x: usize| x as int) =~= prev.map_values(|x: usize| x as int)
                + seq![target[j as int]]);
            assert(target.take(j as int + 1) =~= target.take(j as int) + seq![target[j as int]]);
        }
        j = j + 1;
    }
    proof {
        assert(target.take(target.len() as int) =~= target);
    }
    seeds
}

/// Parses the seed list and the pipeline, sends each seed through every
/// stage in order, and returns the smallest final location.
pub fn calculate(lines: &Vec<String>) -> (r: usize)
    requires
        lines@.len() >= 1,
        seeds_ok(lines_bytes(lines@)[0]),
        spec_seeds(lines_bytes(lines@)[0]).len() >= 1,
        spec_pipeline_ok(lines@, 2),
    ensures
        ({
            let stages = spec_pipeline(lines@, 2);
            let seeds = spec_seeds(lines_bytes(lines@)[0]);
            &&& exists|k: int|
                0 <= k < seeds.len() && r == pipeline_point(stages, #[trigger] seeds[k])
            &&& forall|k: int|
                0 <= k < seeds.len() ==> r <= pipeline_point(stages, #[trigger] seeds[k])
        }),
{
    let header = lines[0].as_str();
    proof {
        assert(lines_bytes(lines@)[0] == crate::text::sbytes(lines@[0]@));
        assert(header.spec_bytes() == lines_bytes(lines@)[0]);
    }
    let seeds = parse_seeds(header);
    let maps = parse_pipeline(lines, 2);
    let ghost stages = spec_pipeline(lines@, 2);
    let ghost seed_vals = spec_seeds(lines_bytes(lines@)[0]);
    let first = map_point(&maps, seeds[0]);
    let mut best: usize = first;
    let mut k: usize = 1;
    proof {
        assert(seeds@.map_values(|x: usize| x as int)[0] == seeds@[0] as int);
    }
    while k < seeds.len()
        invariant
            1 <= k <= seeds@.len(),
            crate::garden::pipeline_wf(maps@),
            pipeline_view(maps@) == stages,
            seeds@.map_values(|x: usize| x as int) == seed_vals,
            exists|m: int| 0 <= m < k && best == pipeline_point(stages, #[trigger] seed_vals[m]),
            forall|m: int| 0 <= m < k ==> best <= pipeline_point(stages, #[trigger] seed_vals[m]),
        decreases seeds@.len() - k,
    {
        proof {
            assert(seeds@.map_values(|x: usize| x as int)[k as int] == seeds@[k as int] as int);
        }
        let v = map_point(&maps, seeds[k]);
        if v < best {
            best = v;
        }
        k = k + 1;
    }
    best
}

} // verus!
