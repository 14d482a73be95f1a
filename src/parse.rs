//! Reading an almanac from its text.
use vstd::prelude::*;
use crate::text::{chars_of, same_text};
use crate::rules::{Rule, stage_disjoint, stage_is_disjoint};
use crate::pipeline::{Almanac, MapperType, STAGE_COUNT, stage_kind};

verus! {

pub open spec fn is_digit(c: char) -> bool {
    '0' <= c <= '9'
}

/// Characters that separate numbers on a line.
pub open spec fn is_blank(c: char) -> bool {
    c == ' ' || c == '\t'
}

/// Characters that end a line; a `\r\n` pair gives an extra empty line, which is ignored.
pub open spec fn is_line_end(c: char) -> bool {
    c == '\n' || c == '\r'
}

pub open spec fn digit_value(c: char) -> int {
    (c as u32) - ('0' as u32)
}

/// What reading a list of numbers has seen: the numbers finished, the one being read,
/// and whether all was well formed so far.
pub struct NumbersRead {
    pub done: Seq<u64>,
    pub cur: Option<u64>,
    pub ok: bool,
}

pub open spec fn numbers_step(st: NumbersRead, c: char) -> NumbersRead {
    if !st.ok {
        st
    } else if is_digit(c) {
        let v = match st.cur {
            Some(x) => x * 10 + digit_value(c),
            None => digit_value(c),
        };
        if v > u64::MAX {
            NumbersRead { ok: false, ..st }
        } else {
            NumbersRead { cur: Some(v as u64), ..st }
        }
    } else if is_blank(c) {
        match st.cur {
            Some(x) => NumbersRead { done: st.done.push(x), cur: None, ok: true },
            None => st,
        }
    } else {
        NumbersRead { ok: false, ..st }
    }
}

pub open spec fn numbers_scan(line: Seq<char>) -> NumbersRead
    decreases line.len(),
{
    if line.len() == 0 {
        NumbersRead { done: Seq::empty(), cur: None, ok: true }
    } else {
        numbers_step(numbers_scan(line.drop_last()), line.last())
    }
}

/// The decimal numbers of a line, separated by blanks; `None` if the line holds
/// anything else or a number that does not fit in a `u64`.
pub open spec fn numbers_of(line: Seq<char>) -> Option<Seq<u64>> {
    let st = numbers_scan(line);
    if !st.ok {
        None
    } else {
        match st.cur {
            Some(x) => Some(st.done.push(x)),
            None => Some(st.done),
        }
    }
}

/// Reads the numbers of `chars[from..to]`.
pub fn parse_numbers(chars: &Vec<char>, from: usize, to: usize) -> (r: Option<Vec<u64>>)
    requires
        from <= to <= chars@.len(),
    ensures
        match numbers_of(chars@.subrange(from as int, to as int)) {
            Some(ns) => r is Some && r->0@ == ns,
            None => r is None,
        },
{
    let ghost line = chars@.subrange(from as int, to as int);
    let mut done: Vec<u64> = Vec::new();
    let mut cur: Option<u64> = None;
    let mut i: usize = from;
    proof {
        assert(line.take(0) =~= Seq::<char>::empty());
    }
    while i < to
        invariant
            from <= i <= to <= chars@.len(),
            line == chars@.subrange(from as int, to as int),
            numbers_scan(line.take(i - from)) == (NumbersRead { done: done@, cur, ok: true }),
        decreases to - i,
    {
        let c = chars[i];
        proof {
            assert(line.take(i - from + 1).drop_last() =~= line.take(i - from));
            assert(line.take(i - from + 1).last() == c);
        }
        if '0' <= c && c <= '9' {
            let d = (c as u32 - '0' as u32) as u64;
            match cur {
                Some(x) => {
                    if x > (u64::MAX - d) / 10 {
                        proof {
                            assert(x * 10 + d > u64::MAX) by (nonlinear_arith)
                                requires
                                    x > (u64::MAX - d) / 10,
                                    d <= 9,
                            ;
                            assert(numbers_scan(line.take(i - from + 1)).ok == false);
                            lemma_numbers_fail(line, i - from + 1);
                        }
                        return None;
                    }
                    proof {
                        assert(x * 10 + d <= u64::MAX) by (nonlinear_arith)
                            requires
                                x <= (u64::MAX - d) / 10,
                                d <= 9,
                        ;
                    }
                    cur = Some(x * 10 + d);
                },
                None => {
                    cur = Some(d);
                },
            }
        } else if c == ' ' || c == '\t' {
            if let Some(x) = cur {
                done.push(x);
                cur = None;
            }
        } else {
            proof {
                lemma_numbers_fail(line, i - from + 1);
            }
            return None;
        }
        i = i + 1;
    }
    proof {
        assert(line.take(to - from) =~= line);
    }
    if let Some(x) = cur {
        done.push(x);
    }
    Some(done)
}

/// Once reading numbers has failed, the rest of the line cannot mend it.
pub proof fn lemma_numbers_fail(line: Seq<char>, n: int)
    requires
        0 <= n <= line.len(),
        !numbers_scan(line.take(n)).ok,
    ensures
        numbers_of(line) is None,
    decreases line.len() - n,
{
    if n == line.len() {
        assert(line.take(n) =~= line);
    } else {
        assert(line.take(n + 1).drop_last() =~= line.take(n));
        lemma_numbers_fail(line, n + 1);
    }
}

/// `prefix` begins `line`.
pub open spec fn begins_with(line: Seq<char>, prefix: Seq<char>) -> bool {
    prefix.len() <= line.len() && line.take(prefix.len() as int) == prefix
}

/// `chars[from..to]` begins with the text `lit`.
fn begins_with_text(chars: &Vec<char>, from: usize, to: usize, lit: &str) -> (r: bool)
    requires
        from <= to <= chars@.len(),
    ensures
        r == begins_with(chars@.subrange(from as int, to as int), lit@),
        r ==> from + lit@.len() <= to,
{
    let n = lit.unicode_len();
    if to - from < n {
        return false;
    }
    let r = same_text(chars, from, from + n, lit);
    proof {
        assert(chars@.subrange(from as int, to as int).take(n as int) =~= chars@.subrange(
            from as int,
            from + n,
        ));
    }
    r
}

impl MapperType {
    /// The header line that opens the stage's table.
    pub open spec fn header_text(self) -> Seq<char> {
        match self {
            MapperType::SeedSoil => "seed-to-soil map:"@,
            MapperType::SoilFertilizer => "soil-to-fertilizer map:"@,
            MapperType::FertilizerWater => "fertilizer-to-water map:"@,
            MapperType::WaterLight => "water-to-light map:"@,
            MapperType::LightTemperature => "light-to-temperature map:"@,
            MapperType::TemperatureHumidity => "temperature-to-humidity map:"@,
            MapperType::HumidityLocation => "humidity-to-location map:"@,
        }
    }

    pub fn header(self) -> (r: &'static str)
        ensures
            r@ == self.header_text(),
    {
        match self {
            MapperType::SeedSoil => "seed-to-soil map:",
            MapperType::SoilFertilizer => "soil-to-fertilizer map:",
            MapperType::FertilizerWater => "fertilizer-to-water map:",
            MapperType::WaterLight => "water-to-light map:",
            MapperType::LightTemperature => "light-to-temperature map:",
            MapperType::TemperatureHumidity => "temperature-to-humidity map:",
            MapperType::HumidityLocation => "humidity-to-location map:",
        }
    }
}

/// The stage whose header `line` is, if any.
pub open spec fn header_of(line: Seq<char>) -> Option<MapperType> {
    if line == MapperType::SeedSoil.header_text() {
        Some(MapperType::SeedSoil)
    } else if line == MapperType::SoilFertilizer.header_text() {
        Some(MapperType::SoilFertilizer)
    } else if line == MapperType::FertilizerWater.header_text() {
        Some(MapperType::FertilizerWater)
    } else if line == MapperType::WaterLight.header_text() {
        Some(MapperType::WaterLight)
    } else if line == MapperType::LightTemperature.header_text() {
        Some(MapperType::LightTemperature)
    } else if line == MapperType::TemperatureHumidity.header_text() {
        Some(MapperType::TemperatureHumidity)
    } else if line == MapperType::HumidityLocation.header_text() {
        Some(MapperType::HumidityLocation)
    } else {
        None
    }
}

fn header_of_line(chars: &Vec<char>, from: usize, to: usize) -> (r: Option<MapperType>)
    requires
        from <= to <= chars@.len(),
    ensures
        r == header_of(chars@.subrange(from as int, to as int)),
{
    if same_text(chars, from, to, MapperType::SeedSoil.header()) {
        Some(MapperType::SeedSoil)
    } else if same_text(chars, from, to, MapperType::SoilFertilizer.header()) {
        Some(MapperType::SoilFertilizer)
    } else if same_text(chars, from, to, MapperType::FertilizerWater.header()) {
        Some(MapperType::FertilizerWater)
    } else if same_text(chars, from, to, MapperType::WaterLight.header()) {
        Some(MapperType::WaterLight)
    } else if same_text(chars, from, to, MapperType::LightTemperature.header()) {
        Some(MapperType::LightTemperature)
    } else if same_text(chars, from, to, MapperType::TemperatureHumidity.header()) {
        Some(MapperType::TemperatureHumidity)
    } else if same_text(chars, from, to, MapperType::HumidityLocation.header()) {
        Some(MapperType::HumidityLocation)
    } else {
        None
    }
}

/// The text that opens the seed line.
pub open spec fn seeds_label() -> Seq<char> {
    "seeds:"@
}

/// The rule of a table line `dest source len`.
pub open spec fn rule_of(ns: Seq<u64>) -> Rule {
    Rule { source: ns[1], dest: ns[0], len: ns[2] }
}

/// What reading the almanac's lines has gathered so far.
pub struct AlmanacRead {
    pub seeds: Option<Seq<u64>>,
    pub stages: Seq<Seq<Rule>>,
    pub current: Option<MapperType>,
    pub seen: Seq<bool>,
    pub ok: bool,
}

/// One line read: empty lines are skipped, a header opens its stage, the seed line
/// gives the seeds, and any other line must be a well-formed rule of the open stage.
pub open spec fn line_step(st: AlmanacRead, line: Seq<char>) -> AlmanacRead {
    if !st.ok || line.len() == 0 {
        st
    } else {
        match header_of(line) {
            Some(k) => AlmanacRead {
                current: Some(k),
                seen: st.seen.update(k.spec_index(), true),
                ..st
            },
            None => if begins_with(line, seeds_label()) {
                match numbers_of(line.skip(seeds_label().len() as int)) {
                    Some(ns) => AlmanacRead { seeds: Some(ns), ..st },
                    None => AlmanacRead { ok: false, ..st },
                }
            } else {
                match (numbers_of(line), st.current) {
                    (Some(ns), Some(k)) => if ns.len() == 3 && rule_of(ns).wf() {
                        AlmanacRead {
                            stages: st.stages.update(
                                k.spec_index(),
                                st.stages[k.spec_index()].push(rule_of(ns)),
                            ),
                            ..st
                        }
                    } else {
                        AlmanacRead { ok: false, ..st }
                    },
                    _ => AlmanacRead { ok: false, ..st },
                }
            },
        }
    }
}

pub open spec fn read_start() -> AlmanacRead {
    AlmanacRead {
        seeds: None,
        stages: Seq::new(STAGE_COUNT as nat, |k: int| Seq::<Rule>::empty()),
        current: None,
        seen: Seq::new(STAGE_COUNT as nat, |k: int| false),
        ok: true,
    }
}

pub open spec fn read_lines(lines: Seq<Seq<char>>) -> AlmanacRead
    decreases lines.len(),
{
    if lines.len() == 0 {
        read_start()
    } else {
        line_step(read_lines(lines.drop_last()), lines.last())
    }
}

/// The lines finished so far, and the one being read.
pub struct LinesRead {
    pub done: Seq<Seq<char>>,
    pub cur: Seq<char>,
}

pub open spec fn lines_scan(text: Seq<char>) -> LinesRead
    decreases text.len(),
{
    if text.len() == 0 {
        LinesRead { done: Seq::empty(), cur: Seq::empty() }
    } else {
        let st = lines_scan(text.drop_last());
        if is_line_end(text.last()) {
            LinesRead { done: st.done.push(st.cur), cur: Seq::empty() }
        } else {
            LinesRead { cur: st.cur.push(text.last()), ..st }
        }
    }
}

/// The lines of `text`; a last line without its line end counts too.
pub open spec fn lines_of(text: Seq<char>) -> Seq<Seq<char>> {
    let st = lines_scan(text);
    st.done.push(st.cur)
}

/// Why a text is not an almanac.
#[derive(Clone, Copy, Debug, PartialEq, Eq, Structural)]
pub enum ParseError {
    /// A line is neither empty, a header, the seed line, nor three numbers of a rule
    /// that fits in `u64` under an open header.
    BadLine,
    /// There is no seed line.
    MissingSeeds,
    /// The header of this stage (the first one missing) does not occur.
    MissingSection(MapperType),
    /// Two rules of this stage (the first such stage) share a source value.
    OverlappingRules(MapperType),
}

/// The first position from `k` on whose header was not seen.
pub open spec fn first_unseen(seen: Seq<bool>, k: int) -> Option<int>
    decreases STAGE_COUNT - k,
{
    if k < 0 || k >= STAGE_COUNT {
        None
    } else if !seen[k] {
        Some(k)
    } else {
        first_unseen(seen, k + 1)
    }
}

/// The first position from `k` on whose stage has overlapping rules.
pub open spec fn first_overlapping(stages: Seq<Seq<Rule>>, k: int) -> Option<int>
    decreases STAGE_COUNT - k,
{
    if k < 0 || k >= STAGE_COUNT {
        None
    } else if !stage_disjoint(stages[k]) {
        Some(k)
    } else {
        first_overlapping(stages, k + 1)
    }
}

/// The seeds and the stages that `text` gives, or the first thing wrong with it:
/// a bad line, then a missing seed line, then a missing header, then a stage whose
/// rules overlap.
pub open spec fn almanac_of(text: Seq<char>) -> Result<(Seq<u64>, Seq<Seq<Rule>>), ParseError> {
    let st = read_lines(lines_of(text));
    if !st.ok {
        Err(ParseError::BadLine)
    } else if st.seeds is None {
        Err(ParseError::MissingSeeds)
    } else if first_unseen(st.seen, 0) is Some {
        Err(ParseError::MissingSection(stage_kind(first_unseen(st.seen, 0)->0)))
    } else if first_overlapping(st.stages, 0) is Some {
        Err(ParseError::OverlappingRules(stage_kind(first_overlapping(st.stages, 0)->0)))
    } else {
        Ok((st.seeds->0, st.stages))
    }
}

/// The reader's state as the grammar sees it.
struct Reader {
    seeds: Option<Vec<u64>>,
    stages: Vec<Vec<Rule>>,
    current: Option<MapperType>,
    seen: Vec<bool>,
    ok: bool,
}

impl Reader {
    spec fn state(&self) -> AlmanacRead {
        AlmanacRead {
            seeds: match self.seeds {
                Some(v) => Some(v@),
                None => None,
            },
            stages: self.stages@.map_values(|s: Vec<Rule>| s@),
            current: self.current,
            seen: self.seen@,
            ok: self.ok,
        }
    }

    spec fn shaped(&self) -> bool {
        self.stages@.len() == STAGE_COUNT && self.seen@.len() == STAGE_COUNT
    }

    fn start() -> (r: Reader)
        ensures
            r.shaped(),
            r.state() == read_start(),
    {
        let mut stages: Vec<Vec<Rule>> = Vec::new();
        let mut seen: Vec<bool> = Vec::new();
        let mut k: usize = 0;
        while k < STAGE_COUNT
            invariant
                k <= STAGE_COUNT,
                stages@.len() == k,
                seen@.len() == k,
                forall|q: int| 0 <= q < k ==> (#[trigger] stages@[q])@ == Seq::<Rule>::empty(),
                forall|q: int| 0 <= q < k ==> !(#[trigger] seen@[q]),
            decreases STAGE_COUNT - k,
        {
            stages.push(Vec::new());
            seen.push(false);
            k = k + 1;
        }
        let r = Reader { seeds: None, stages, current: None, seen, ok: true };
        proof {
            assert(r.state().stages =~= read_start().stages);
            assert(r.state().seen =~= read_start().seen);
        }
        r
    }

    fn fail(&mut self)
        ensures
            final(self).state() == (AlmanacRead { ok: false, ..old(self).state() }),
            final(self).shaped() == old(self).shaped(),
    {
        self.ok = false;
    }

    /// Reads the line `chars[from..to]`.
    fn read_line(&mut self, chars: &Vec<char>, from: usize, to: usize)
        requires
            old(self).shaped(),
            from <= to <= chars@.len(),
        ensures
            final(self).shaped(),
            final(self).state() == line_step(old(self).state(), chars@.subrange(from as int, to as int)),
    {
        let ghost line = chars@.subrange(from as int, to as int);
        if !self.ok || from == to {
            return;
        }
        match header_of_line(chars, from, to) {
            Some(k) => {
                self.current = Some(k);
                let i = k.index();
                self.seen.set(i, true);
            },
            None => {
                if begins_with_text(chars, from, to, "seeds:") {
                    let n = "seeds:".unicode_len();
                    proof {
                        assert(chars@.subrange(from + n, to as int) =~= line.skip(n as int));
                    }
                    match parse_numbers(chars, from + n, to) {
                        Some(ns) => {
                            self.seeds = Some(ns);
                        },
                        None => {
                            self.fail();
                        },
                    }
                } else {
                    match (parse_numbers(chars, from, to), self.current) {
                        (Some(ns), Some(k)) => {
                            if ns.len() == 3 && ns[1] <= u64::MAX - ns[2] && ns[0] <= u64::MAX
                                - ns[2] {
                                let rule = Rule { source: ns[1], dest: ns[0], len: ns[2] };
                                let i = k.index();
                                let ghost before = self.stages@;
                                self.stages[i].push(rule);
                                proof {
                                    assert(self.stages@.map_values(|s: Vec<Rule>| s@) =~= before.map_values(
                                        |s: Vec<Rule>| s@,
                                    ).update(i as int, before[i as int]@.push(rule)));
                                }
                            } else {
                                self.fail();
                            }
                        },
                        _ => {
                            self.fail();
                        },
                    }
                }
            },
        }
    }
}

/// Every stage of what reading lines gathers has seven stages of well-formed rules.
pub proof fn lemma_read_lines_wf(lines: Seq<Seq<char>>)
    ensures
        read_lines(lines).stages.len() == STAGE_COUNT,
        read_lines(lines).seen.len() == STAGE_COUNT,
        forall|k: int|
            0 <= k < STAGE_COUNT ==> crate::rules::stage_wf(#[trigger] read_lines(lines).stages[k]),
    decreases lines.len(),
{
    if lines.len() > 0 {
        lemma_read_lines_wf(lines.drop_last());
        let st = read_lines(lines.drop_last());
        let line = lines.last();
        if st.ok && line.len() > 0 && header_of(line) is None && !begins_with(line, seeds_label()) {
            if let (Some(ns), Some(k)) = (numbers_of(line), st.current) {
                if ns.len() == 3 && rule_of(ns).wf() {
                    let i = k.spec_index();
                    assert forall|j: int| 0 <= j < STAGE_COUNT implies crate::rules::stage_wf(
                        #[trigger] read_lines(lines).stages[j],
                    ) by {
                        if j == i {
                            let s = read_lines(lines).stages[j];
                            assert forall|q: int| 0 <= q < s.len() implies (#[trigger] s[q]).wf() by {
                                if q < s.len() - 1 {
                                    assert(s[q] == st.stages[i][q]);
                                }
                            }
                        }
                    }
                }
            }
        }
    }
}

/// Reads an almanac from its text: the seed line, the seven headers each followed by
/// lines of three numbers `dest source len`, and empty lines anywhere.
pub fn parse_almanac(text: &str) -> (r: Result<Almanac, ParseError>)
    ensures
        match almanac_of(text@) {
            Ok((seeds, stages)) => {
                &&& r is Ok
                &&& r->Ok_0.wf()
                &&& r->Ok_0.seeds@ == seeds
                &&& r->Ok_0.chain() == stages
                &&& forall|k: int| 0 <= k < stages.len() ==> stage_disjoint(#[trigger] stages[k])
            },
            Err(e) => r == Err::<Almanac, ParseError>(e),
        },
{
    let chars = chars_of(text);
    let mut reader = Reader::start();
    let mut start: usize = 0;
    let mut i: usize = 0;
    proof {
        assert(chars@.take(0) =~= Seq::<char>::empty());
        assert(lines_scan(chars@.take(0)).done =~= Seq::<Seq<char>>::empty());
    }
    while i < chars.len()
        invariant
            chars@ == text@,
            start <= i <= chars@.len(),
            reader.shaped(),
            lines_scan(chars@.take(i as int)).cur == chars@.subrange(start as int, i as int),
            reader.state() == read_lines(lines_scan(chars@.take(i as int)).done),
        decreases chars.len() - i,
    {
        let c = chars[i];
        let ghost before = lines_scan(chars@.take(i as int));
        proof {
            assert(chars@.take(i + 1).drop_last() =~= chars@.take(i as int));
        }
        if c == '\n' || c == '\r' {
            reader.read_line(&chars, start, i);
            proof {
                assert(before.done.push(before.cur).drop_last() =~= before.done);
                assert(chars@.subrange(i + 1, i + 1) =~= Seq::<char>::empty());
            }
            start = i + 1;
        } else {
            proof {
                assert(chars@.subrange(start as int, i + 1) =~= before.cur.push(c));
            }
        }
        i = i + 1;
    }
    reader.read_line(&chars, start, i);
    proof {
        let sc = lines_scan(chars@.take(i as int));
        assert(chars@.take(i as int) =~= chars@);
        assert(sc.done.push(sc.cur).drop_last() =~= sc.done);
        lemma_read_lines_wf(lines_of(text@));
    }
    let ghost st = reader.state();
    let Reader { seeds, stages, current: _, seen, ok } = reader;
    if !ok {
        return Err(ParseError::BadLine);
    }
    let seeds = match seeds {
        Some(seeds) => seeds,
        None => {
            return Err(ParseError::MissingSeeds);
        },
    };
    let mut k: usize = 0;
    proof {
        assert(st.seeds == Some(seeds@));
    }
    while k < STAGE_COUNT
        invariant
            seen@.len() == STAGE_COUNT,
            st == read_lines(lines_of(text@)),
            seen@ == st.seen,
            st.ok,
            st.seeds == Some(seeds@),
            k <= STAGE_COUNT,
            first_unseen(st.seen, 0) == first_unseen(st.seen, k as int),
        decreases STAGE_COUNT - k,
    {
        if !seen[k] {
            assert(first_unseen(st.seen, k as int) == Some(k as int));
            return Err(ParseError::MissingSection(MapperType::from_index(k)));
        }
        k = k + 1;
    }
    let a = Almanac { seeds, stages };
    proof {
        assert(a.chain() == st.stages);
        assert forall|q: int| 0 <= q < a.stages@.len() implies crate::rules::stage_wf(
            #[trigger] a.stages@[q]@,
        ) by {
            assert(a.stages@[q]@ == a.chain()[q]);
        }
    }
    let mut k: usize = 0;
    while k < STAGE_COUNT
        invariant
            a.wf(),
            a.chain() == st.stages,
            st == read_lines(lines_of(text@)),
            st.ok,
            st.seeds == Some(a.seeds@),
            first_unseen(st.seen, 0) is None,
            k <= STAGE_COUNT,
            first_overlapping(st.stages, 0) == first_overlapping(st.stages, k as int),
            forall|q: int| 0 <= q < k ==> stage_disjoint(#[trigger] st.stages[q]),
        decreases STAGE_COUNT - k,
    {
        assert(a.stages@[k as int]@ == a.chain()[k as int]);
        if !stage_is_disjoint(&a.stages[k]) {
            assert(first_overlapping(st.stages, k as int) == Some(k as int));
            return Err(ParseError::OverlappingRules(MapperType::from_index(k)));
        }
        k = k + 1;
    }
    Ok(a)
}

} // verus!
