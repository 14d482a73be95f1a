//! The almanac and the pipeline that drives seeds, or whole seed ranges, through its
//! seven stages.
use vstd::prelude::*;
use crate::rules::{Rule, stage_wf, next_step};
use crate::interval::{
    Interval,
    total_len,
    through,
    shifts_onto,
    piecewise,
    lemma_through_push,
    lemma_piece_at,
    lemma_piece_of,
    lemma_piecewise_append,
    lemma_piecewise_compose,
    lemma_total_len_prefix,
    lemma_pieces_wf,
};
use crate::remap::remap_interval;

verus! {

/// How many stages an almanac has.
pub const STAGE_COUNT: usize = 7;

/// The seven stages, in the order in which a seed goes through them.
#[derive(Clone, Copy, Debug, PartialEq, Eq, Structural)]
pub enum MapperType {
    SeedSoil,
    SoilFertilizer,
    FertilizerWater,
    WaterLight,
    LightTemperature,
    TemperatureHumidity,
    HumidityLocation,
}

/// The stage at position `k` of the pipeline (the last one for any `k` past it).
pub open spec fn stage_kind(k: int) -> MapperType {
    if k == 0 {
        MapperType::SeedSoil
    } else if k == 1 {
        MapperType::SoilFertilizer
    } else if k == 2 {
        MapperType::FertilizerWater
    } else if k == 3 {
        MapperType::WaterLight
    } else if k == 4 {
        MapperType::LightTemperature
    } else if k == 5 {
        MapperType::TemperatureHumidity
    } else {
        MapperType::HumidityLocation
    }
}

impl MapperType {
    /// Position of the stage in the pipeline.
    pub open spec fn spec_index(self) -> int {
        match self {
            MapperType::SeedSoil => 0,
            MapperType::SoilFertilizer => 1,
            MapperType::FertilizerWater => 2,
            MapperType::WaterLight => 3,
            MapperType::LightTemperature => 4,
            MapperType::TemperatureHumidity => 5,
            MapperType::HumidityLocation => 6,
        }
    }

    /// The stage at position `k`.
    pub fn from_index(k: usize) -> (r: MapperType)
        requires
            k < STAGE_COUNT,
        ensures
            r == stage_kind(k as int),
            r.spec_index() == k,
    {
        if k == 0 {
            MapperType::SeedSoil
        } else if k == 1 {
            MapperType::SoilFertilizer
        } else if k == 2 {
            MapperType::FertilizerWater
        } else if k == 3 {
            MapperType::WaterLight
        } else if k == 4 {
            MapperType::LightTemperature
        } else if k == 5 {
            MapperType::TemperatureHumidity
        } else {
            MapperType::HumidityLocation
        }
    }

    pub fn index(self) -> (r: usize)
        ensures
            r == self.spec_index(),
            r < STAGE_COUNT,
    {
        match self {
            MapperType::SeedSoil => 0,
            MapperType::SoilFertilizer => 1,
            MapperType::FertilizerWater => 2,
            MapperType::WaterLight => 3,
            MapperType::LightTemperature => 4,
            MapperType::TemperatureHumidity => 5,
            MapperType::HumidityLocation => 6,
        }
    }
}

/// The seed listing and the rules of each stage, stage `k` being the one whose
/// `MapperType::index` is `k`.
#[derive(Debug)]
pub struct Almanac {
    pub seeds: Vec<u64>,
    pub stages: Vec<Vec<Rule>>,
}

impl Almanac {
    /// Seven stages of well-formed rules.
    pub open spec fn wf(&self) -> bool {
        &&& self.stages@.len() == STAGE_COUNT
        &&& forall|k: int| 0 <= k < self.stages@.len() ==> stage_wf(#[trigger] self.stages@[k]@)
    }

    /// The rules of every stage, in pipeline order.
    pub open spec fn chain(&self) -> Seq<Seq<Rule>> {
        self.stages@.map_values(|s: Vec<Rule>| s@)
    }

    /// The location that the almanac gives to `seed`.
    pub open spec fn location(&self, seed: int) -> int {
        through(self.chain(), seed)
    }

    /// Builds an almanac from its seeds and its stages, if they make a well-formed one.
    pub fn new(seeds: Vec<u64>, stages: Vec<Vec<Rule>>) -> (r: Option<Almanac>)
        ensures
            r.is_some() <==> (Almanac { seeds, stages }).wf(),
            r.is_some() ==> r.unwrap().seeds == seeds && r.unwrap().stages == stages,
    {
        if stages.len() != STAGE_COUNT {
            return None;
        }
        let mut k: usize = 0;
        while k < stages.len()
            invariant
                k <= stages.len(),
                forall|q: int| 0 <= q < k ==> stage_wf(#[trigger] stages@[q]@),
            decreases stages.len() - k,
        {
            let rules = &stages[k];
            let mut i: usize = 0;
            while i < rules.len()
                invariant
                    k < stages.len(),
                    rules@ == stages@[k as int]@,
                    i <= rules.len(),
                    forall|q: int| 0 <= q < i ==> (#[trigger] rules@[q]).wf(),
                decreases rules.len() - i,
            {
                let rule = rules[i];
                if rule.source > u64::MAX - rule.len || rule.dest > u64::MAX - rule.len {
                    proof {
                        assert(!rules@[i as int].wf());
                        assert(!stage_wf(stages@[k as int]@));
                    }
                    return None;
                }
                i = i + 1;
            }
            k = k + 1;
        }
        Some(Almanac { seeds, stages })
    }
}

/// The location of one seed: its value after each of the seven stages in turn.
pub fn get_seed_location(input: &Almanac, seed: u64) -> (r: u64)
    requires
        input.wf(),
    ensures
        r == input.location(seed as int),
{
    let ghost chain = input.chain();
    let mut value = seed;
    let mut k: usize = 0;
    proof {
        assert(chain.take(0) =~= Seq::<Seq<Rule>>::empty());
    }
    while k < input.stages.len()
        invariant
            input.wf(),
            chain == input.chain(),
            k <= input.stages.len(),
            value == through(chain.take(k as int), seed as int),
        decreases input.stages.len() - k,
    {
        value = next_step(&input.stages[k], value);
        proof {
            assert(chain.take(k + 1) =~= chain.take(k as int).push(chain[k as int]));
            lemma_through_push(chain.take(k as int), chain[k as int], seed as int);
        }
        k = k + 1;
    }
    proof {
        assert(chain.take(k as int) =~= chain);
    }
    value
}

/// Pushes the whole interval `iv` through the seven stages, splitting it wherever a
/// stage's rules cut it. The result is where the pieces of `iv`, in order, end up.
pub fn locate_range(input: &Almanac, iv: Interval) -> (r: Vec<Interval>)
    requires
        input.wf(),
        iv.wf(),
    ensures
        total_len(r@) == iv.len,
        piecewise(input.chain(), iv.start as int, r@),
{
    let ghost chain = input.chain();
    let ghost base = iv.start as int;
    let mut ws: Vec<Interval> = Vec::new();
    ws.push(iv);
    proof {
        let none = Seq::<Seq<Rule>>::empty();
        assert(ws@.drop_last() =~= Seq::<Interval>::empty());
        assert(chain.take(0) =~= none);
        assert(total_len(ws@) == total_len(ws@.drop_last()) + iv.len);
        assert forall|v: int| base <= v < base + iv.len implies #[trigger] through(none, v) == iv.start
            + (v - base) by {}
        assert(shifts_onto(none, base, iv));
        assert(piecewise(none, base, ws@.drop_last()));
        assert(piecewise(none, base, ws@));
    }
    let mut k: usize = 0;
    while k < input.stages.len()
        invariant
            input.wf(),
            chain == input.chain(),
            base == iv.start,
            k <= input.stages.len(),
            total_len(ws@) == iv.len,
            piecewise(chain.take(k as int), base, ws@),
        decreases input.stages.len() - k,
    {
        let rules = &input.stages[k];
        let ghost done = chain.take(k as int);
        let ghost upto = done.push(rules@);
        proof {
            lemma_pieces_wf(done, base, ws@);
            assert(ws@.take(0) =~= Seq::<Interval>::empty());
        }
        let mut next: Vec<Interval> = Vec::new();
        let mut i: usize = 0;
        while i < ws.len()
            invariant
                stage_wf(rules@),
                done == chain.take(k as int),
                upto == done.push(rules@),
                i <= ws.len(),
                piecewise(done, base, ws@),
                forall|q: int| 0 <= q < ws@.len() ==> (#[trigger] ws@[q]).wf(),
                total_len(next@) == total_len(ws@.take(i as int)),
                piecewise(upto, base, next@),
            decreases ws.len() - i,
        {
            let w = ws[i];
            let mut pieces = remap_interval(rules, w);
            proof {
                let at = base + total_len(ws@.take(i as int));
                lemma_piece_at(done, base, ws@, i as int);
                lemma_piecewise_compose(done, rules@, at, w, pieces@);
                lemma_piecewise_append(upto, base, next@, pieces@);
                assert(ws@.take(i + 1).drop_last() =~= ws@.take(i as int));
            }
            next.append(&mut pieces);
            i = i + 1;
        }
        proof {
            assert(ws@.take(ws@.len() as int) =~= ws@);
            assert(chain.take(k + 1) =~= upto);
        }
        ws = next;
        k = k + 1;
    }
    proof {
        assert(chain.take(k as int) =~= chain);
    }
    ws
}

/// The smallest start among `ivs`.
fn min_start(ivs: &Vec<Interval>) -> (r: u64)
    requires
        ivs.len() > 0,
    ensures
        exists|i: int| 0 <= i < ivs@.len() && r == (#[trigger] ivs@[i]).start,
        forall|i: int| 0 <= i < ivs@.len() ==> r <= (#[trigger] ivs@[i]).start,
{
    let mut m = ivs[0].start;
    let mut i: usize = 1;
    while i < ivs.len()
        invariant
            1 <= i <= ivs.len(),
            exists|q: int| 0 <= q < ivs@.len() && m == (#[trigger] ivs@[q]).start,
            forall|q: int| 0 <= q < i ==> m <= (#[trigger] ivs@[q]).start,
        decreases ivs.len() - i,
    {
        if ivs[i].start < m {
            m = ivs[i].start;
        }
        i = i + 1;
    }
    m
}

/// The lowest location of any seed in `iv`, found from the interval's pieces rather
/// than from its values one by one.
pub fn lowest_location_in(input: &Almanac, iv: Interval) -> (r: u64)
    requires
        input.wf(),
        iv.wf(),
    ensures
        forall|v: int| iv.contains(v) ==> r <= #[trigger] input.location(v),
        exists|v: int| iv.contains(v) && #[trigger] input.location(v) == r,
{
    let outs = locate_range(input, iv);
    let ghost chain = input.chain();
    let ghost base = iv.start as int;
    if outs.len() == 0 {
        proof {
            assert(total_len(outs@) == 0);
        }
    }
    let m = min_start(&outs);
    proof {
        assert forall|v: int| iv.contains(v) implies m <= #[trigger] input.location(v) by {
            let i = lemma_piece_of(chain, base, outs@, v);
            lemma_piece_at(chain, base, outs@, i);
            assert(m <= outs@[i].start);
        }
        let j = choose|j: int| 0 <= j < outs@.len() && m == (#[trigger] outs@[j]).start;
        lemma_pieces_wf(chain, base, outs@);
        lemma_piece_at(chain, base, outs@, j);
        lemma_total_len_prefix(outs@, j);
        let v = base + total_len(outs@.take(j));
        assert(through(chain, v) == m);
        assert(iv.contains(v));
        assert(input.location(v) == m);
    }
    m
}

/// Mode A: the lowest location of the listed seeds, `None` when there are none.
pub fn puzzle1(input: &Almanac) -> (r: Option<u64>)
    requires
        input.wf(),
    ensures
        r.is_none() <==> input.seeds@.len() == 0,
        r matches Some(m) ==> {
            &&& exists|i: int|
                0 <= i < input.seeds@.len() && m == input.location(#[trigger] input.seeds@[i] as int)
            &&& forall|i: int|
                0 <= i < input.seeds@.len() ==> m <= input.location(#[trigger] input.seeds@[i] as int)
        },
{
    let mut best: Option<u64> = None;
    let mut i: usize = 0;
    while i < input.seeds.len()
        invariant
            input.wf(),
            i <= input.seeds.len(),
            best.is_none() <==> i == 0,
            best matches Some(m) ==> {
                &&& exists|q: int|
                    0 <= q < i && m == input.location(#[trigger] input.seeds@[q] as int)
                &&& forall|q: int|
                    0 <= q < i ==> m <= input.location(#[trigger] input.seeds@[q] as int)
            },
        decreases input.seeds.len() - i,
    {
        let loc = get_seed_location(input, input.seeds[i]);
        best = match best {
            Some(m) if m <= loc => Some(m),
            _ => Some(loc),
        };
        i = i + 1;
    }
    best
}

/// Seed range `p` of a listing read two numbers at a time: a start, then a length.
pub open spec fn seed_range(seeds: Seq<u64>, p: int) -> Interval {
    Interval { start: seeds[2 * p], len: seeds[2 * p + 1] }
}

/// The listing is a non-empty sequence of well-formed `(start, length)` pairs.
pub open spec fn seed_ranges_ok(seeds: Seq<u64>) -> bool {
    &&& seeds.len() > 0
    &&& seeds.len() % 2 == 0
    &&& forall|p: int| 0 <= p < seeds.len() / 2 ==> (#[trigger] seed_range(seeds, p)).wf()
}

/// Mode B: the lowest location of any seed of any range of the listing; `None` when
/// the listing is not a non-empty sequence of `(start, length)` pairs whose ranges are
/// non-empty and end within `u64`.
pub fn puzzle2(input: &Almanac) -> (r: Option<u64>)
    requires
        input.wf(),
    ensures
        r.is_some() <==> seed_ranges_ok(input.seeds@),
        r matches Some(m) ==> {
            &&& forall|p: int, v: int|
                0 <= p < input.seeds@.len() / 2 && (#[trigger] seed_range(input.seeds@, p)).contains(v)
                    ==> m <= #[trigger] input.location(v)
            &&& exists|p: int, v: int|
                0 <= p < input.seeds@.len() / 2 && (#[trigger] seed_range(input.seeds@, p)).contains(v)
                    && #[trigger] input.location(v) == m
        },
{
    let seeds = &input.seeds;
    if seeds.len() == 0 || seeds.len() % 2 != 0 {
        return None;
    }
    let total = seeds.len();
    let n = total / 2;
    let mut best: u64 = 0;
    let mut p: usize = 0;
    while p < n
        invariant
            input.wf(),
            seeds == &input.seeds,
            seeds@.len() == total,
            total == 2 * n,
            p <= n,
            forall|q: int| 0 <= q < p ==> (#[trigger] seed_range(seeds@, q)).wf(),
            p > 0 ==> {
                &&& forall|q: int, v: int|
                    0 <= q < p && (#[trigger] seed_range(seeds@, q)).contains(v) ==> best
                        <= #[trigger] input.location(v)
                &&& exists|q: int, v: int|
                    0 <= q < p && (#[trigger] seed_range(seeds@, q)).contains(v)
                        && #[trigger] input.location(v) == best
            },
        decreases n - p,
    {
        let at: usize = 2 * p;
        let iv = Interval { start: seeds[at], len: seeds[at + 1] };
        assert(iv == seed_range(seeds@, p as int));
        if iv.len == 0 || iv.start > u64::MAX - iv.len {
            return None;
        }
        let low = lowest_location_in(input, iv);
        if p == 0 || low < best {
            best = low;
        }
        p = p + 1;
    }
    Some(best)
}

} // verus!
