//! Boat races: how many ways there are to beat each record.
use vstd::prelude::*;
use crate::text::chars_of;
use crate::parse::{parse_numbers, numbers_of};

verus! {

/// Holding the button `hold` ms of a race of `time` ms goes farther than `record`.
pub open spec fn beats(time: int, record: int, hold: int) -> bool {
    hold * (time - hold) > record
}

/// How many holds `h < n` beat the record.
pub open spec fn wins_below(time: int, record: int, n: int) -> nat
    decreases n,
{
    if n <= 0 {
        0
    } else {
        wins_below(time, record, n - 1) + if beats(time, record, n - 1) {
            1nat
        } else {
            0nat
        }
    }
}

/// How many holds from `0` to `time` inclusive beat the record.
pub open spec fn ways_to_win(time: int, record: int) -> nat {
    wins_below(time, record, time + 1)
}

/// Counts the holds from `0` to `time` that beat `record`.
pub fn count_wins(time: u64, record: u64) -> (r: u64)
    requires
        time < u64::MAX,
    ensures
        r == ways_to_win(time as int, record as int),
{
    let mut count: u64 = 0;
    let mut h: u64 = 0;
    while h <= time
        invariant
            h <= time + 1,
            time < u64::MAX,
            count == wins_below(time as int, record as int, h as int),
            count <= h,
        decreases time + 1 - h,
    {
        let hw = h as u128;
        let rest = (time - h) as u128;
        proof {
            assert(hw * rest <= u64::MAX as u128 * u64::MAX as u128) by (nonlinear_arith)
                requires
                    hw <= u64::MAX,
                    rest <= u64::MAX,
            ;
        }
        if hw * rest > record as u128 {
            count = count + 1;
        }
        h = h + 1;
    }
    count
}

/// Product of the first `n` numbers of `ws`.
pub open spec fn product_prefix(ws: Seq<int>, n: int) -> int
    decreases n,
{
    if n <= 0 {
        1
    } else {
        product_prefix(ws, n - 1) * ws[n - 1]
    }
}

/// The ways to win of each race, races paired up in order (extra entries of the longer
/// list have no partner and are left out).
pub open spec fn race_wins(times: Seq<u32>, records: Seq<u32>) -> Seq<int> {
    let n = if times.len() <= records.len() {
        times.len()
    } else {
        records.len()
    };
    Seq::new(n, |i: int| ways_to_win(times[i] as int, records[i] as int) as int)
}

/// Every partial product of `ws` fits in a `u64`.
pub open spec fn products_fit(ws: Seq<int>) -> bool {
    forall|n: int| 0 <= n <= ws.len() ==> #[trigger] product_prefix(ws, n) <= u64::MAX
}

/// The product of the ways to win of every race; `None` when there is no race or a
/// partial product runs past `u64::MAX`.
pub fn puzzle1(race_times: &Vec<u32>, record_times: &Vec<u32>) -> (r: Option<u64>)
    ensures
        ({
            let ws = race_wins(race_times@, record_times@);
            &&& r is Some <==> ws.len() > 0 && products_fit(ws)
            &&& r matches Some(p) ==> p == product_prefix(ws, ws.len() as int)
        }),
{
    let ghost ws = race_wins(race_times@, record_times@);
    let n = if race_times.len() <= record_times.len() {
        race_times.len()
    } else {
        record_times.len()
    };
    if n == 0 {
        return None;
    }
    let mut acc: u64 = 1;
    let mut i: usize = 0;
    while i < n
        invariant
            ws == race_wins(race_times@, record_times@),
            ws.len() == n,
            n <= race_times@.len(),
            n <= record_times@.len(),
            i <= n,
            acc == product_prefix(ws, i as int),
            forall|k: int| 0 <= k <= i ==> #[trigger] product_prefix(ws, k) <= u64::MAX,
        decreases n - i,
    {
        let w = count_wins(race_times[i] as u64, record_times[i] as u64);
        assert(w == ws[i as int]);
        match acc.checked_mul(w) {
            Some(p) => {
                acc = p;
            },
            None => {
                assert(product_prefix(ws, i + 1) > u64::MAX);
                return None;
            },
        }
        i = i + 1;
    }
    Some(acc)
}

/// `10` to the number of decimal digits of `t` (`0` has one digit): what a number
/// written after `t` is scaled by.
pub open spec fn digit_scale_of(t: nat) -> nat
    decreases t,
{
    if t < 10 {
        10
    } else {
        10 * digit_scale_of(t / 10)
    }
}

/// The number written by the decimal forms of `ts`, one after another.
pub open spec fn joined_value(ts: Seq<u32>) -> nat
    decreases ts.len(),
{
    if ts.len() == 0 {
        0
    } else {
        joined_value(ts.drop_last()) * digit_scale_of(ts.last() as nat) + ts.last() as nat
    }
}

proof fn lemma_scale_bounds(t: nat)
    ensures
        digit_scale_of(t) >= 10,
        t >= 1 ==> digit_scale_of(t) <= 10 * t,
        t < 10 ==> digit_scale_of(t) == 10,
    decreases t,
{
    if t >= 10 {
        lemma_scale_bounds(t / 10);
        let s = digit_scale_of(t / 10);
        assert(10 * s <= 10 * t) by (nonlinear_arith)
            requires
                s <= 10 * (t / 10),
                t >= 10,
        ;
    }
}

/// `digit_scale_of(t)`, computed.
fn digit_scale(t: u32) -> (r: u64)
    ensures
        r == digit_scale_of(t as nat),
        10 <= r <= 10 * (u32::MAX as nat),
{
    let mut scale: u64 = 1;
    let mut rest: u32 = t;
    proof {
        lemma_scale_bounds(t as nat);
        lemma_scale_bounds(rest as nat);
    }
    while rest >= 10
        invariant
            scale * digit_scale_of(rest as nat) == digit_scale_of(t as nat),
            digit_scale_of(t as nat) <= 10 * (u32::MAX as nat),
            digit_scale_of(rest as nat) >= 10,
            scale >= 1,
        decreases rest,
    {
        proof {
            lemma_scale_bounds((rest / 10) as nat);
            let d = digit_scale_of((rest / 10) as nat);
            assert(scale * (10 * d) == (scale * 10) * d) by (nonlinear_arith);
            assert(scale * 10 <= scale * (10 * d)) by (nonlinear_arith)
                requires
                    d >= 10,
            ;
        }
        rest = rest / 10;
        scale = scale * 10;
    }
    proof {
        lemma_scale_bounds(rest as nat);
    }
    scale * 10
}

/// Joins the decimal forms of `times` into one number; `None` when there are none or
/// the number runs past `u64::MAX`.
pub fn fold_to_one_time(times: &Vec<u32>) -> (r: Option<u64>)
    ensures
        r is Some <==> times@.len() > 0 && joined_value(times@) <= u64::MAX,
        r matches Some(v) ==> v == joined_value(times@),
{
    if times.len() == 0 {
        return None;
    }
    let mut acc: u64 = 0;
    let mut i: usize = 0;
    proof {
        assert(times@.take(0) =~= Seq::<u32>::empty());
    }
    while i < times.len()
        invariant
            i <= times@.len(),
            acc == joined_value(times@.take(i as int)),
        decreases times.len() - i,
    {
        let t = times[i];
        let scale = digit_scale(t);
        proof {
            assert(times@.take(i + 1).drop_last() =~= times@.take(i as int));
        }
        let grown = match acc.checked_mul(scale) {
            Some(x) => x.checked_add(t as u64),
            None => None,
        };
        match grown {
            Some(x) => {
                acc = x;
            },
            None => {
                proof {
                    lemma_joined_grows(times@, i + 1);
                }
                return None;
            },
        }
        i = i + 1;
    }
    proof {
        assert(times@.take(i as int) =~= times@);
    }
    Some(acc)
}

/// Writing more numbers after a prefix never gives a smaller number.
proof fn lemma_joined_grows(ts: Seq<u32>, n: int)
    requires
        0 <= n <= ts.len(),
    ensures
        joined_value(ts.take(n)) <= joined_value(ts),
    decreases ts.len() - n,
{
    if n < ts.len() {
        lemma_joined_grows(ts, n + 1);
        let pre = ts.take(n + 1);
        assert(pre.drop_last() =~= ts.take(n));
        lemma_scale_bounds(pre.last() as nat);
        let j = joined_value(ts.take(n));
        let d = digit_scale_of(pre.last() as nat);
        assert(j <= j * d) by (nonlinear_arith)
            requires
                d >= 1,
        ;
        assert(joined_value(pre) == j * d + pre.last());
    } else {
        assert(ts.take(n) =~= ts);
    }
}

/// What follows the first `:` of `line`, if it has one.
pub open spec fn after_colon(line: Seq<char>) -> Option<Seq<char>>
    decreases line.len(),
{
    if line.len() == 0 {
        None
    } else if line[0] == ':' {
        Some(line.drop_first())
    } else {
        after_colon(line.drop_first())
    }
}

/// The numbers after the first `:` of `line`, if there is a `:`, the numbers are well
/// formed, and each fits in a `u32`.
pub open spec fn numbers_after_colon(line: Seq<char>) -> Option<Seq<u32>> {
    match after_colon(line) {
        None => None,
        Some(rest) => match numbers_of(rest) {
            None => None,
            Some(ns) => if forall|k: int| 0 <= k < ns.len() ==> #[trigger] ns[k] <= u32::MAX {
                Some(ns.map_values(|x: u64| x as u32))
            } else {
                None
            },
        },
    }
}

/// Reads the numbers after the first `:` of `line`.
pub fn parse_next_line(line: &str) -> (r: Option<Vec<u32>>)
    ensures
        match r {
            Some(v) => numbers_after_colon(line@) == Some(v@),
            None => numbers_after_colon(line@) is None,
        },
{
    let chars = chars_of(line);
    let mut i: usize = 0;
    proof {
        assert(line@.skip(0) =~= line@);
    }
    while i < chars.len() && chars[i] != ':'
        invariant
            i <= chars@.len(),
            chars@ == line@,
            after_colon(line@) == after_colon(line@.skip(i as int)),
        decreases chars.len() - i,
    {
        proof {
            assert(line@.skip(i as int).drop_first() =~= line@.skip(i + 1));
        }
        i = i + 1;
    }
    if i == chars.len() {
        proof {
            assert(line@.skip(i as int) =~= Seq::<char>::empty());
        }
        return None;
    }
    proof {
        assert(line@.skip(i as int).drop_first() =~= chars@.subrange(i + 1, chars@.len() as int));
        assert(line@.skip(i as int)[0] == ':');
        assert(after_colon(line@) == Some(chars@.subrange(i + 1, chars@.len() as int)));
    }
    let ns = match parse_numbers(&chars, i + 1, chars.len()) {
        Some(ns) => ns,
        None => {
            return None;
        },
    };
    let ghost rest = chars@.subrange(i + 1, chars@.len() as int);
    let mut out: Vec<u32> = Vec::new();
    let mut k: usize = 0;
    while k < ns.len()
        invariant
            after_colon(line@) == Some(rest),
            numbers_of(rest) == Some(ns@),
            k <= ns@.len(),
            out@.len() == k,
            forall|q: int| 0 <= q < k ==> ns@[q] <= u32::MAX && out@[q] == ns@[q],
        decreases ns.len() - k,
    {
        if ns[k] > u32::MAX as u64 {
            assert(!(ns@[k as int] <= u32::MAX));
            return None;
        }
        out.push(ns[k] as u32);
        k = k + 1;
    }
    proof {
        assert(out@ =~= ns@.map_values(|x: u64| x as u32));
    }
    Some(out)
}

/// The ways to win the one long race that the joined digits of the times and of the
/// records make; `None` when a list is empty or a joined number does not fit in a
/// `u64` (the time must stay below `u64::MAX`).
pub fn puzzle2(race_times: &Vec<u32>, record_times: &Vec<u32>) -> (r: Option<u64>)
    ensures
        r is Some <==> {
            &&& race_times@.len() > 0
            &&& record_times@.len() > 0
            &&& joined_value(race_times@) < u64::MAX
            &&& joined_value(record_times@) <= u64::MAX
        },
        r matches Some(w) ==> w == ways_to_win(
            joined_value(race_times@) as int,
            joined_value(record_times@) as int,
        ),
{
    let race = match fold_to_one_time(race_times) {
        Some(t) => t,
        None => {
            return None;
        },
    };
    let record = match fold_to_one_time(record_times) {
        Some(t) => t,
        None => {
            return None;
        },
    };
    if race == u64::MAX {
        return None;
    }
    Some(count_wins(race, record))
}

} // verus!
