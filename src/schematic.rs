//! The engine schematic: numbers next to a symbol are part numbers, and a `*` next
//! to exactly two numbers is a gear.
use vstd::prelude::*;
use crate::text::chars_of;
use crate::parse::is_digit;
use crate::cube_game::{single_u32, parse_u32_text};

verus! {

#[derive(Debug)]
pub enum EnginePartType {
    Number(String),
    Part(char),
}

/// A number or a symbol of the schematic, with the row and column where it starts.
#[derive(Debug)]
pub struct EnginePart {
    pub part_type: EnginePartType,
    pub row: usize,
    pub start_index: usize,
}

/// What a part is, as plain values.
pub enum PartKind {
    Number(Seq<char>),
    Symbol(char),
}

pub struct PartAt {
    pub kind: PartKind,
    pub row: int,
    pub start: int,
}

impl View for EnginePart {
    type V = PartAt;

    open spec fn view(&self) -> PartAt {
        PartAt {
            kind: match self.part_type {
                EnginePartType::Number(s) => PartKind::Number(s@),
                EnginePartType::Part(c) => PartKind::Symbol(c),
            },
            row: self.row as int,
            start: self.start_index as int,
        }
    }
}

pub open spec fn parts_view(parts: Seq<EnginePart>) -> Seq<PartAt> {
    parts.map_values(|p: EnginePart| p@)
}

/// The parts read so far from a line, the digits of the number being read, and the
/// column where it starts.
pub struct RowRead {
    pub parts: Seq<PartAt>,
    pub digits: Seq<char>,
    pub start: int,
}

/// `st` with the number being read, if any, added as a part.
pub open spec fn flush(st: RowRead, row: int) -> Seq<PartAt> {
    if st.digits.len() > 0 {
        st.parts.push(PartAt { kind: PartKind::Number(st.digits), row, start: st.start })
    } else {
        st.parts
    }
}

pub open spec fn row_scan(line: Seq<char>, row: int) -> RowRead
    decreases line.len(),
{
    if line.len() == 0 {
        RowRead { parts: Seq::empty(), digits: Seq::empty(), start: 0 }
    } else {
        let st = row_scan(line.drop_last(), row);
        let c = line.last();
        let col = line.len() - 1;
        if is_digit(c) {
            RowRead {
                digits: st.digits.push(c),
                start: if st.digits.len() == 0 {
                    col
                } else {
                    st.start
                },
                ..st
            }
        } else {
            let done = flush(st, row);
            RowRead {
                parts: if c == '.' {
                    done
                } else {
                    done.push(PartAt { kind: PartKind::Symbol(c), row, start: col })
                },
                digits: Seq::empty(),
                start: 0,
            }
        }
    }
}

/// The parts of line `row`: each run of digits is a number starting at its first
/// column, and each character that is neither a digit nor `.` is a symbol.
pub open spec fn row_parts(line: Seq<char>, row: int) -> Seq<PartAt> {
    flush(row_scan(line, row), row)
}

fn push_part(engine_row: &mut Vec<EnginePart>, part: EnginePart)
    ensures
        parts_view(final(engine_row)@) == parts_view(old(engine_row)@).push(part@),
{
    let ghost before = engine_row@;
    engine_row.push(part);
    proof {
        assert(parts_view(engine_row@) =~= parts_view(before).push(part@)) by {
            assert(engine_row@ == before.push(part));
        }
    }
}

/// Adds the number whose digits are in `number_buffer`, if any, to `engine_row`, and
/// empties the buffer.
pub fn add_number_part(
    engine_row: &mut Vec<EnginePart>,
    number_buffer: &mut String,
    row_index: usize,
    column_index: usize,
)
    ensures
        final(number_buffer)@.len() == 0,
        parts_view(final(engine_row)@) == flush(
            RowRead { parts: parts_view(old(engine_row)@), digits: old(number_buffer)@, start: column_index as int },
            row_index as int,
        ),
{
    if number_buffer.as_str().unicode_len() > 0 {
        let part = EnginePart {
            row: row_index,
            start_index: column_index,
            part_type: EnginePartType::Number(number_buffer.clone()),
        };
        push_part(engine_row, part);
    }
    *number_buffer = String::new();
}

/// Reads line `row_index` of the schematic.
pub fn read_row(line: &str, row_index: usize) -> (r: Vec<EnginePart>)
    ensures
        parts_view(r@) == row_parts(line@, row_index as int),
{
    let chars = chars_of(line);
    let mut engine_row: Vec<EnginePart> = Vec::new();
    let mut number_buffer = String::new();
    let mut start_index: usize = 0;
    let mut i: usize = 0;
    proof {
        assert(chars@.take(0) =~= Seq::<char>::empty());
        assert(parts_view(engine_row@) =~= Seq::<PartAt>::empty());
    }
    while i < chars.len()
        invariant
            chars@ == line@,
            i <= chars@.len(),
            row_scan(chars@.take(i as int), row_index as int) == (RowRead {
                parts: parts_view(engine_row@),
                digits: number_buffer@,
                start: start_index as int,
            }),
        decreases chars.len() - i,
    {
        let c = chars[i];
        proof {
            assert(chars@.take(i + 1).drop_last() =~= chars@.take(i as int));
            assert(chars@.take(i + 1).last() == c);
        }
        if '0' <= c && c <= '9' {
            let ghost before = number_buffer@;
            if number_buffer.as_str().unicode_len() == 0 {
                start_index = i;
            }
            let one = line.substring_char(i, i + 1);
            proof {
                assert(one@ =~= seq![c]);
            }
            number_buffer.append(one);
            proof {
                assert(number_buffer@ =~= before.push(c));
            }
        } else {
            let ghost st = row_scan(chars@.take(i as int), row_index as int);
            add_number_part(&mut engine_row, &mut number_buffer, row_index, start_index);
            assert(parts_view(engine_row@) == flush(st, row_index as int));
            start_index = 0;
            if c != '.' {
                let part = EnginePart {
                    row: row_index,
                    start_index: i,
                    part_type: EnginePartType::Part(c),
                };
                push_part(&mut engine_row, part);
            }
            proof {
                assert(number_buffer@ =~= Seq::<char>::empty());
            }
        }
        i = i + 1;
    }
    proof {
        assert(chars@.take(i as int) =~= chars@);
    }
    add_number_part(&mut engine_row, &mut number_buffer, row_index, start_index);
    engine_row
}

/// The parts of every row.
pub open spec fn grid(input: Seq<Vec<EnginePart>>) -> Seq<Seq<PartAt>> {
    input.map_values(|r: Vec<EnginePart>| parts_view(r@))
}

/// Every part sits in the row that holds it, its end fits in a `usize`, and every
/// number fits in a `u32`: what reading rows with `read_row` and checking the numbers
/// gives.
pub open spec fn schematic_wf(g: Seq<Seq<PartAt>>) -> bool {
    forall|r: int, k: int|
        0 <= r < g.len() && 0 <= k < g[r].len() ==> {
            let p = #[trigger] g[r][k];
            &&& p.row == r
            &&& 0 <= p.start
            &&& match p.kind {
                PartKind::Number(s) => p.start + s.len() < usize::MAX && single_u32(s) is Some,
                PartKind::Symbol(_) => p.start < usize::MAX,
            }
        }
}

/// A symbol of `row` starts in columns `lo..=hi`.
pub open spec fn symbol_between(row: Seq<PartAt>, lo: int, hi: int) -> bool {
    exists|k: int|
        0 <= k < row.len() && (#[trigger] row[k]).kind is Symbol && lo <= row[k].start <= hi
}

pub open spec fn window_lo(start: int) -> int {
    if start == 0 {
        0
    } else {
        start - 1
    }
}

/// A symbol touches the `len` columns from `start` of `row`, diagonals included.
pub open spec fn touches_symbol(g: Seq<Seq<PartAt>>, row: int, start: int, len: int) -> bool {
    let lo = window_lo(start);
    let hi = start + len;
    ||| symbol_between(g[row], lo, hi)
    ||| (row > 0 && symbol_between(g[row - 1], lo, hi))
    ||| (row + 1 < g.len() && symbol_between(g[row + 1], lo, hi))
}

fn symbol_within(row: &Vec<EnginePart>, lo: usize, hi: usize) -> (r: bool)
    ensures
        r == symbol_between(parts_view(row@), lo as int, hi as int),
{
    let ghost v = parts_view(row@);
    let mut k: usize = 0;
    while k < row.len()
        invariant
            k <= row@.len(),
            v == parts_view(row@),
            forall|q: int|
                0 <= q < k ==> !((#[trigger] v[q]).kind is Symbol && lo <= v[q].start <= hi),
        decreases row.len() - k,
    {
        let p = &row[k];
        proof {
            assert(v[k as int] == p@);
        }
        if let EnginePartType::Part(_) = p.part_type {
            if lo <= p.start_index && p.start_index <= hi {
                return true;
            }
        }
        k = k + 1;
    }
    false
}

/// Whether a symbol touches the number `number` that `part` places.
pub fn check_if_adjacent(input: &Vec<Vec<EnginePart>>, part: &EnginePart, number: &String) -> (r:
    bool)
    requires
        part.row < input@.len(),
        part.start_index + number@.len() <= usize::MAX,
    ensures
        r == touches_symbol(grid(input@), part.row as int, part.start_index as int, number@.len() as int),
{
    let ghost g = grid(input@);
    let row = part.row;
    let start_index = part.start_index;
    let min = if start_index == 0 {
        0
    } else {
        start_index - 1
    };
    let max = start_index + number.as_str().unicode_len();
    assert(g[row as int] == parts_view(input@[row as int]@));
    if symbol_within(&input[row], min, max) {
        return true;
    }
    if row > 0 {
        assert(g[row - 1] == parts_view(input@[row - 1]@));
        if symbol_within(&input[row - 1], min, max) {
            return true;
        }
    }
    if row < input.len() - 1 {
        assert(g[row + 1] == parts_view(input@[row + 1]@));
        if symbol_within(&input[row + 1], min, max) {
            return true;
        }
    }
    false
}

/// The numbers of `row` whose first or last column lies in `lo..=hi`, in order.
pub open spec fn numbers_near(row: Seq<PartAt>, lo: int, hi: int) -> Seq<Seq<char>>
    decreases row.len(),
{
    if row.len() == 0 {
        Seq::empty()
    } else {
        let before = numbers_near(row.drop_last(), lo, hi);
        let p = row.last();
        match p.kind {
            PartKind::Number(s) => if (lo <= p.start <= hi) || (lo <= p.start + s.len() - 1
                <= hi) {
                before.push(s)
            } else {
                before
            },
            PartKind::Symbol(_) => before,
        }
    }
}

/// The numbers touching column `col` of `row`: those of the row itself, then of the
/// row above, then of the row below.
pub open spec fn gear_numbers(g: Seq<Seq<PartAt>>, row: int, col: int) -> Seq<Seq<char>> {
    let lo = window_lo(col);
    let hi = col + 1;
    let here = numbers_near(g[row], lo, hi);
    let top = if row > 0 {
        here + numbers_near(g[row - 1], lo, hi)
    } else {
        here
    };
    if row + 1 < g.len() {
        top + numbers_near(g[row + 1], lo, hi)
    } else {
        top
    }
}

/// Appends to `numbers` the numbers of `row` whose first or last column lies in
/// `min..=max`.
pub fn add_valid_numbers(row: &Vec<EnginePart>, numbers: &mut Vec<String>, min: usize, max: usize)
    requires
        forall|k: int|
            0 <= k < row@.len() ==> match (#[trigger] parts_view(row@)[k]).kind {
                PartKind::Number(s) => row@[k].start_index + s.len() <= usize::MAX,
                PartKind::Symbol(_) => true,
            },
    ensures
        final(numbers)@.map_values(|s: String| s@) == old(numbers)@.map_values(|s: String| s@)
            + numbers_near(parts_view(row@), min as int, max as int),
{
    let ghost v = parts_view(row@);
    let ghost base = numbers@.map_values(|s: String| s@);
    let mut k: usize = 0;
    proof {
        assert(v.take(0) =~= Seq::<PartAt>::empty());
        assert(base + numbers_near(v.take(0), min as int, max as int) =~= base);
    }
    while k < row.len()
        invariant
            k <= row@.len(),
            v == parts_view(row@),
            forall|q: int|
                0 <= q < row@.len() ==> match (#[trigger] parts_view(row@)[q]).kind {
                    PartKind::Number(s) => row@[q].start_index + s.len() <= usize::MAX,
                    PartKind::Symbol(_) => true,
                },
            numbers@.map_values(|s: String| s@) == base + numbers_near(v.take(k as int), min as int, max as int),
        decreases row.len() - k,
    {
        let p = &row[k];
        proof {
            assert(v[k as int] == p@);
            assert(v.take(k + 1).drop_last() =~= v.take(k as int));
            assert(v.take(k + 1).last() == p@);
        }
        match &p.part_type {
            EnginePartType::Part(_) => {},
            EnginePartType::Number(number) => {
                let len = number.as_str().unicode_len();
                let start = p.start_index;
                let near = if min <= start && start <= max {
                    true
                } else if len > 0 {
                    let end_index = start + len - 1;
                    min <= end_index && end_index <= max
                } else {
                    start > 0 && min <= start - 1 && start - 1 <= max
                };
                assert(near == ((min <= start <= max) || (min <= start + len - 1 <= max)));
                if near {
                    let ghost before = numbers@;
                    numbers.push(number.clone());
                    proof {
                        assert(numbers@.map_values(|s: String| s@) =~= before.map_values(
                            |s: String| s@,
                        ).push(number@));
                    }
                }
            },
        }
        proof {
            assert(base + numbers_near(v.take(k + 1), min as int, max as int) =~= numbers@.map_values(
                |s: String| s@,
            ));
        }
        k = k + 1;
    }
    proof {
        assert(v.take(k as int) =~= v);
    }
}

/// The value of a number's digits (`0` for digits that do not fit in a `u32`).
pub open spec fn value_of(s: Seq<char>) -> nat {
    match single_u32(s) {
        Some(v) => v as nat,
        None => 0,
    }
}

fn number_value(s: &String) -> (r: u32)
    ensures
        r == value_of(s@),
{
    match parse_u32_text(s.as_str()) {
        Some(v) => v,
        None => 0,
    }
}

/// The gear ratio at column `col` of `row`: the product of the two numbers that touch
/// it, when exactly two do.
pub open spec fn gear_ratio_of(g: Seq<Seq<PartAt>>, row: int, col: int) -> Option<nat> {
    let ns = gear_numbers(g, row, col);
    if ns.len() == 2 {
        Some(value_of(ns[0]) * value_of(ns[1]))
    } else {
        None
    }
}

/// The ratio of the gear that `part` places, or `None` when it touches other than
/// exactly two numbers.
pub fn get_gear_ratio(input: &Vec<Vec<EnginePart>>, part: &EnginePart) -> (r: Option<u64>)
    requires
        schematic_wf(grid(input@)),
        part.row < input@.len(),
        part.start_index < usize::MAX,
    ensures
        match r {
            Some(x) => gear_ratio_of(grid(input@), part.row as int, part.start_index as int) == Some(
                x as nat,
            ),
            None => gear_ratio_of(grid(input@), part.row as int, part.start_index as int) is None,
        },
{
    let ghost g = grid(input@);
    let row = part.row;
    let start_index = part.start_index;
    let mut numbers: Vec<String> = Vec::new();
    let min = if start_index == 0 {
        0
    } else {
        start_index - 1
    };
    let max = start_index + 1;
    proof {
        lemma_row_bounds(input@, row as int);
        assert(numbers@.map_values(|s: String| s@) =~= Seq::<Seq<char>>::empty());
    }
    add_valid_numbers(&input[row], &mut numbers, min, max);
    if row > 0 {
        proof {
            lemma_row_bounds(input@, row - 1);
        }
        add_valid_numbers(&input[row - 1], &mut numbers, min, max);
    }
    if row < input.len() - 1 {
        proof {
            lemma_row_bounds(input@, row + 1);
        }
        add_valid_numbers(&input[row + 1], &mut numbers, min, max);
    }
    proof {
        assert(numbers@.map_values(|s: String| s@) =~= gear_numbers(g, row as int, start_index as int));
    }
    if numbers.len() == 2 {
        proof {
            assert(numbers@.map_values(|s: String| s@)[0] == numbers@[0]@);
            assert(numbers@.map_values(|s: String| s@)[1] == numbers@[1]@);
        }
        let a = number_value(&numbers[0]) as u64;
        let b = number_value(&numbers[1]) as u64;
        proof {
            assert(a * b <= 0xffff_ffff_ffff_ffffu64) by (nonlinear_arith)
                requires
                    a <= u32::MAX,
                    b <= u32::MAX,
            ;
        }
        return Some(a * b);
    }
    None
}

/// What a well-formed schematic gives of row `r`.
proof fn lemma_row_bounds(input: Seq<Vec<EnginePart>>, r: int)
    requires
        schematic_wf(grid(input)),
        0 <= r < input.len(),
    ensures
        grid(input)[r] == parts_view(input[r]@),
        forall|k: int|
            0 <= k < input[r]@.len() ==> match (#[trigger] parts_view(input[r]@)[k]).kind {
                PartKind::Number(s) => input[r]@[k].start_index + s.len() <= usize::MAX,
                PartKind::Symbol(_) => true,
            },
{
    assert forall|k: int| 0 <= k < input[r]@.len() implies match (#[trigger] parts_view(
        input[r]@,
    )[k]).kind {
        PartKind::Number(s) => input[r]@[k].start_index + s.len() <= usize::MAX,
        PartKind::Symbol(_) => true,
    } by {
        assert(grid(input)[r][k] == parts_view(input[r]@)[k]);
    }
}

/// What a part adds to the first sum (the part numbers) or to the second (the gear
/// ratios).
pub open spec fn contribution(g: Seq<Seq<PartAt>>, p: PartAt, gears: bool) -> nat {
    match p.kind {
        PartKind::Number(s) => if !gears && touches_symbol(g, p.row, p.start, s.len() as int) {
            value_of(s)
        } else {
            0
        },
        PartKind::Symbol(c) => if gears && c == '*' {
            match gear_ratio_of(g, p.row, p.start) {
                Some(x) => x,
                None => 0,
            }
        } else {
            0
        },
    }
}

pub open spec fn row_total(g: Seq<Seq<PartAt>>, parts: Seq<PartAt>, gears: bool) -> nat
    decreases parts.len(),
{
    if parts.len() == 0 {
        0
    } else {
        row_total(g, parts.drop_last(), gears) + contribution(g, parts.last(), gears)
    }
}

pub open spec fn grid_total(g: Seq<Seq<PartAt>>, rows: Seq<Seq<PartAt>>, gears: bool) -> nat
    decreases rows.len(),
{
    if rows.len() == 0 {
        0
    } else {
        grid_total(g, rows.drop_last(), gears) + row_total(g, rows.last(), gears)
    }
}

proof fn lemma_row_total_prefix(g: Seq<Seq<PartAt>>, parts: Seq<PartAt>, n: int, gears: bool)
    requires
        0 <= n <= parts.len(),
    ensures
        row_total(g, parts.take(n), gears) <= row_total(g, parts, gears),
    decreases parts.len() - n,
{
    if n < parts.len() {
        lemma_row_total_prefix(g, parts, n + 1, gears);
        assert(parts.take(n + 1).drop_last() =~= parts.take(n));
    } else {
        assert(parts.take(n) =~= parts);
    }
}

proof fn lemma_grid_total_prefix(g: Seq<Seq<PartAt>>, rows: Seq<Seq<PartAt>>, n: int, gears: bool)
    requires
        0 <= n <= rows.len(),
    ensures
        grid_total(g, rows.take(n), gears) <= grid_total(g, rows, gears),
    decreases rows.len() - n,
{
    if n < rows.len() {
        lemma_grid_total_prefix(g, rows, n + 1, gears);
        assert(rows.take(n + 1).drop_last() =~= rows.take(n));
    } else {
        assert(rows.take(n) =~= rows);
    }
}

fn part_contribution(input: &Vec<Vec<EnginePart>>, r: usize, k: usize, gears: bool) -> (v: u64)
    requires
        schematic_wf(grid(input@)),
        r < input@.len(),
        k < input@[r as int]@.len(),
    ensures
        v == contribution(grid(input@), input@[r as int]@[k as int]@, gears),
{
    let ghost g = grid(input@);
    let p = &input[r][k];
    proof {
        assert(g[r as int][k as int] == p@);
    }
    match &p.part_type {
        EnginePartType::Number(number) => {
            if !gears && check_if_adjacent(input, p, number) {
                number_value(number) as u64
            } else {
                0
            }
        },
        EnginePartType::Part(c) => {
            if gears && *c == '*' {
                match get_gear_ratio(input, p) {
                    Some(x) => x,
                    None => 0,
                }
            } else {
                0
            }
        },
    }
}

fn total(input: &Vec<Vec<EnginePart>>, gears: bool) -> (t: Option<u64>)
    requires
        schematic_wf(grid(input@)),
    ensures
        match t {
            Some(x) => x == grid_total(grid(input@), grid(input@), gears),
            None => grid_total(grid(input@), grid(input@), gears) > u64::MAX,
        },
{
    let ghost g = grid(input@);
    let mut acc: u64 = 0;
    let mut r: usize = 0;
    proof {
        assert(g.take(0) =~= Seq::<Seq<PartAt>>::empty());
    }
    while r < input.len()
        invariant
            g == grid(input@),
            g.len() == input@.len(),
            schematic_wf(g),
            r <= input@.len(),
            acc == grid_total(g, g.take(r as int), gears),
        decreases input.len() - r,
    {
        let ghost row = g[r as int];
        let ghost before = acc as nat;
        let mut k: usize = 0;
        proof {
            assert(row.take(0) =~= Seq::<PartAt>::empty());
            assert(g.take(r + 1).drop_last() =~= g.take(r as int));
            assert(g.take(r + 1).last() == row);
            lemma_grid_total_prefix(g, g, r + 1, gears);
            lemma_row_total_prefix(g, row, 0, gears);
        }
        while k < input[r].len()
            invariant
                g == grid(input@),
                g.len() == input@.len(),
                schematic_wf(g),
                r < input@.len(),
                row == g[r as int],
                row.len() == input@[r as int]@.len(),
                k <= row.len(),
                before == grid_total(g, g.take(r as int), gears),
                before + row_total(g, row, gears) <= grid_total(g, g, gears),
                acc == before + row_total(g, row.take(k as int), gears),
            decreases input@[r as int]@.len() - k,
        {
            let v = part_contribution(input, r, k, gears);
            proof {
                assert(row[k as int] == input@[r as int]@[k as int]@);
                assert(row.take(k + 1).drop_last() =~= row.take(k as int));
                lemma_row_total_prefix(g, row, k + 1, gears);
            }
            acc = match acc.checked_add(v) {
                Some(x) => x,
                None => {
                    return None;
                },
            };
            k = k + 1;
        }
        proof {
            assert(row.take(k as int) =~= row);
        }
        r = r + 1;
    }
    proof {
        assert(g.take(r as int) =~= g);
    }
    Some(acc)
}

/// The sum of the part numbers: the numbers that a symbol touches.
pub fn puzzle1(input: &Vec<Vec<EnginePart>>) -> (r: Option<u64>)
    requires
        schematic_wf(grid(input@)),
    ensures
        match r {
            Some(x) => x == grid_total(grid(input@), grid(input@), false),
            None => grid_total(grid(input@), grid(input@), false) > u64::MAX,
        },
{
    total(input, false)
}

/// The sum of the gear ratios: each `*` touching exactly two numbers adds their product.
pub fn puzzle2(input: &Vec<Vec<EnginePart>>) -> (r: Option<u64>)
    requires
        schematic_wf(grid(input@)),
    ensures
        match r {
            Some(x) => x == grid_total(grid(input@), grid(input@), true),
            None => grid_total(grid(input@), grid(input@), true) > u64::MAX,
        },
{
    total(input, true)
}

/// Whether `input` is a well-formed schematic.
pub fn schematic_ok(input: &Vec<Vec<EnginePart>>) -> (r: bool)
    ensures
        r == schematic_wf(grid(input@)),
{
    let ghost g = grid(input@);
    let mut r: usize = 0;
    while r < input.len()
        invariant
            g == grid(input@),
            r <= input@.len(),
            forall|q: int, k: int|
                0 <= q < r && 0 <= k < g[q].len() ==> {
                    let p = #[trigger] g[q][k];
                    &&& p.row == q
                    &&& 0 <= p.start
                    &&& match p.kind {
                        PartKind::Number(s) => p.start + s.len() < usize::MAX && single_u32(s) is Some,
                        PartKind::Symbol(_) => p.start < usize::MAX,
                    }
                },
        decreases input.len() - r,
    {
        let mut k: usize = 0;
        while k < input[r].len()
            invariant
                g == grid(input@),
                r < input@.len(),
                k <= input@[r as int]@.len(),
                forall|q: int, j: int|
                    0 <= q < r && 0 <= j < g[q].len() ==> {
                        let p = #[trigger] g[q][j];
                        &&& p.row == q
                        &&& 0 <= p.start
                        &&& match p.kind {
                            PartKind::Number(s) => p.start + s.len() < usize::MAX && single_u32(s) is Some,
                            PartKind::Symbol(_) => p.start < usize::MAX,
                        }
                    },
                forall|j: int|
                    0 <= j < k ==> {
                        let p = #[trigger] g[r as int][j];
                        &&& p.row == r
                        &&& 0 <= p.start
                        &&& match p.kind {
                            PartKind::Number(s) => p.start + s.len() < usize::MAX && single_u32(s) is Some,
                            PartKind::Symbol(_) => p.start < usize::MAX,
                        }
                    },
            decreases input@[r as int]@.len() - k,
        {
            let p = &input[r][k];
            proof {
                assert(g[r as int][k as int] == p@);
            }
            if p.row != r {
                return false;
            }
            match &p.part_type {
                EnginePartType::Number(number) => {
                    let len = number.as_str().unicode_len();
                    if p.start_index >= usize::MAX - len {
                        return false;
                    }
                    if parse_u32_text(number.as_str()).is_none() {
                        return false;
                    }
                },
                EnginePartType::Part(_) => {
                    if p.start_index == usize::MAX {
                        return false;
                    }
                },
            }
            k = k + 1;
        }
        proof {
            assert(g[r as int].len() == input@[r as int]@.len());
        }
        r = r + 1;
    }
    true
}

/// The parts of each line, line `r` being row `r`.
pub open spec fn schematic_of(lines: Seq<String>) -> Seq<Seq<PartAt>> {
    Seq::new(lines.len(), |r: int| row_parts(lines[r]@, r))
}

/// Reads the schematic from its lines; `None` when it is not well formed (a position
/// or a number too large).
pub fn read_schematic(lines: &Vec<String>) -> (r: Option<Vec<Vec<EnginePart>>>)
    ensures
        match r {
            Some(s) => grid(s@) == schematic_of(lines@) && schematic_wf(grid(s@)),
            None => !schematic_wf(schematic_of(lines@)),
        },
{
    let mut parts: Vec<Vec<EnginePart>> = Vec::new();
    let mut r: usize = 0;
    while r < lines.len()
        invariant
            r <= lines@.len(),
            parts@.len() == r,
            forall|q: int| 0 <= q < r ==> #[trigger] grid(parts@)[q] == row_parts(lines@[q]@, q),
        decreases lines.len() - r,
    {
        let row = read_row(lines[r].as_str(), r);
        let ghost before = parts@;
        parts.push(row);
        proof {
            assert forall|q: int| 0 <= q < r + 1 implies #[trigger] grid(parts@)[q] == row_parts(
                lines@[q]@,
                q,
            ) by {
                if q < r {
                    assert(grid(parts@)[q] == grid(before)[q]);
                }
            }
        }
        r = r + 1;
    }
    proof {
        assert(grid(parts@) =~= schematic_of(lines@));
    }
    if schematic_ok(&parts) {
        Some(parts)
    } else {
        None
    }
}

} // verus!
