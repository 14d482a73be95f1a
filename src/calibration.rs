//! Calibration values: the first and last digit of each line, as a two-digit number.
use vstd::prelude::*;
use crate::text::{chars_of, same_text};
use crate::parse::{is_digit, digit_value};

verus! {

/// `suffix` ends `s`.
pub open spec fn ends_with(s: Seq<char>, suffix: Seq<char>) -> bool {
    suffix.len() <= s.len() && s.skip(s.len() - suffix.len()) == suffix
}

/// The digit that `s` ends by spelling out, checked from `one` to `nine`.
pub open spec fn spelled_digit(s: Seq<char>) -> Option<u32> {
    if ends_with(s, "one"@) {
        Some(1)
    } else if ends_with(s, "two"@) {
        Some(2)
    } else if ends_with(s, "three"@) {
        Some(3)
    } else if ends_with(s, "four"@) {
        Some(4)
    } else if ends_with(s, "five"@) {
        Some(5)
    } else if ends_with(s, "six"@) {
        Some(6)
    } else if ends_with(s, "seven"@) {
        Some(7)
    } else if ends_with(s, "eight"@) {
        Some(8)
    } else if ends_with(s, "nine"@) {
        Some(9)
    } else {
        None
    }
}

fn ends_with_text(chars: &Vec<char>, lit: &str) -> (r: bool)
    ensures
        r == ends_with(chars@, lit@),
{
    let n = lit.unicode_len();
    if n > chars.len() {
        return false;
    }
    let r = same_text(chars, chars.len() - n, chars.len(), lit);
    proof {
        assert(chars@.subrange(chars@.len() - n, chars@.len() as int) =~= chars@.skip(
            chars@.len() - n,
        ));
    }
    r
}

/// The digit that `letter_digit` ends by spelling out, if any.
pub fn read_letter_digit(letter_digit: &str) -> (r: Option<u32>)
    ensures
        r == spelled_digit(letter_digit@),
{
    let chars = chars_of(letter_digit);
    if ends_with_text(&chars, "one") {
        return Some(1);
    }
    if ends_with_text(&chars, "two") {
        return Some(2);
    }
    if ends_with_text(&chars, "three") {
        return Some(3);
    }
    if ends_with_text(&chars, "four") {
        return Some(4);
    }
    if ends_with_text(&chars, "five") {
        return Some(5);
    }
    if ends_with_text(&chars, "six") {
        return Some(6);
    }
    if ends_with_text(&chars, "seven") {
        return Some(7);
    }
    if ends_with_text(&chars, "eight") {
        return Some(8);
    }
    if ends_with_text(&chars, "nine") {
        return Some(9);
    }
    None
}

/// The digits of `line`, in order.
pub open spec fn plain_digits(line: Seq<char>) -> Seq<u32>
    decreases line.len(),
{
    if line.len() == 0 {
        Seq::empty()
    } else if is_digit(line.last()) {
        plain_digits(line.drop_last()).push(digit_value(line.last()) as u32)
    } else {
        plain_digits(line.drop_last())
    }
}

/// The letters read so far (every character that is not a digit) and the digits found,
/// written or spelled out.
pub struct DigitsRead {
    pub letters: Seq<char>,
    pub found: Seq<u32>,
}

pub open spec fn all_digits_scan(line: Seq<char>) -> DigitsRead
    decreases line.len(),
{
    if line.len() == 0 {
        DigitsRead { letters: Seq::empty(), found: Seq::empty() }
    } else {
        let st = all_digits_scan(line.drop_last());
        let c = line.last();
        if is_digit(c) {
            DigitsRead { found: st.found.push(digit_value(c) as u32), ..st }
        } else {
            let letters = st.letters.push(c);
            match spelled_digit(letters) {
                Some(d) => DigitsRead { letters, found: st.found.push(d) },
                None => DigitsRead { letters, ..st },
            }
        }
    }
}

/// The digits of `line`, written or spelled out, in the order in which they end.
pub open spec fn all_digits(line: Seq<char>) -> Seq<u32> {
    all_digits_scan(line).found
}

/// The digits that count for a line.
pub open spec fn digits_for(line: Seq<char>, spelled: bool) -> Seq<u32> {
    if spelled {
        all_digits(line)
    } else {
        plain_digits(line)
    }
}

/// First digit times ten plus last digit, when there is a digit.
pub open spec fn two_digit(ds: Seq<u32>) -> Option<int> {
    if ds.len() == 0 {
        None
    } else {
        Some(ds[0] * 10 + ds.last())
    }
}

/// The calibration value of a line: from its written digits, or also from the digits
/// it spells out.
pub open spec fn line_value_of(line: Seq<char>, spelled: bool) -> Option<int> {
    two_digit(digits_for(line, spelled))
}

/// The calibration value of every line, if each has one.
pub open spec fn line_values(lines: Seq<String>, spelled: bool) -> Option<Seq<int>>
    decreases lines.len(),
{
    if lines.len() == 0 {
        Some(Seq::empty())
    } else {
        let l = lines.last()@;
        match (line_values(lines.drop_last(), spelled), line_value_of(l, spelled)) {
            (Some(vs), Some(x)) => Some(vs.push(x)),
            _ => None,
        }
    }
}

pub open spec fn sum_of(vs: Seq<int>) -> int
    decreases vs.len(),
{
    if vs.len() == 0 {
        0
    } else {
        sum_of(vs.drop_last()) + vs.last()
    }
}

/// Digit values are below ten.
proof fn lemma_digit_small(c: char)
    requires
        is_digit(c),
    ensures
        0 <= digit_value(c) <= 9,
{
}

/// The calibration value of one line: from its written digits, or also from the
/// digits it spells out.
fn line_value(line: &String, spelled: bool) -> (r: Option<u32>)
    ensures
        match r {
            Some(x) => line_value_of(line@, spelled) == Some(x as int) && x <= 99,
            None => line_value_of(line@, spelled) is None,
        },
{
    let chars = chars_of(line.as_str());
    let mut first: Option<u32> = None;
    let mut last: u32 = 0;
    let mut letters = String::new();
    let mut i: usize = 0;
    proof {
        assert(chars@.take(0) =~= Seq::<char>::empty());
    }
    while i < chars.len()
        invariant
            i <= chars@.len(),
            chars@ == line@,
            first is None <==> digits_for(chars@.take(i as int), spelled).len() == 0,
            first matches Some(f) ==> {
                &&& f == digits_for(chars@.take(i as int), spelled)[0]
                &&& last == digits_for(chars@.take(i as int), spelled).last()
                &&& f <= 9
                &&& last <= 9
            },
            spelled ==> letters@ == all_digits_scan(chars@.take(i as int)).letters,
        decreases chars.len() - i,
    {
        let c = chars[i];
        let ghost pre = chars@.take(i as int);
        proof {
            assert(chars@.take(i + 1).drop_last() =~= pre);
        }
        let mut digit: Option<u32> = None;
        if '0' <= c && c <= '9' {
            proof {
                lemma_digit_small(c);
            }
            digit = Some((c as u32) - ('0' as u32));
        } else if spelled {
            let one = line.as_str().substring_char(i, i + 1);
            proof {
                assert(one@ =~= seq![c]);
            }
            letters.append(one);
            digit = read_letter_digit(letters.as_str());
        }
        proof {
            let ds = digits_for(pre, spelled);
            let whole = chars@.take(i + 1);
            let next = digits_for(whole, spelled);
            let st = all_digits_scan(pre);
            assert(whole.last() == c);
            if is_digit(c) {
                assert(plain_digits(whole) == plain_digits(pre).push(digit_value(c) as u32));
                assert(all_digits_scan(whole).found == st.found.push(digit_value(c) as u32));
            } else {
                assert(plain_digits(whole) == plain_digits(pre));
                if spelled {
                    assert(letters@ == st.letters.push(c));
                    assert(all_digits_scan(whole).letters == letters@);
                }
            }
            match digit {
                Some(d) => {
                    assert(next == ds.push(d));
                    assert(d <= 9);
                },
                None => {
                    assert(next == ds);
                },
            }
        }
        if let Some(d) = digit {
            if first.is_none() {
                first = Some(d);
            }
            last = d;
        }
        i = i + 1;
    }
    proof {
        assert(chars@.take(i as int) =~= chars@);
    }
    match first {
        Some(f) => Some(f * 10 + last),
        None => None,
    }
}

/// The sum of the calibration values of all lines, if every line has one.
pub open spec fn calibration_total(lines: Seq<String>, spelled: bool) -> Option<int> {
    match line_values(lines, spelled) {
        Some(vs) => Some(sum_of(vs)),
        None => None,
    }
}

/// Reading more lines never mends a missing value nor lowers the sum.
proof fn lemma_values_prefix(lines: Seq<String>, n: int, spelled: bool)
    requires
        0 <= n <= lines.len(),
    ensures
        line_values(lines.take(n), spelled) is None ==> line_values(lines, spelled) is None,
        line_values(lines.take(n), spelled) matches Some(vs) ==> (line_values(lines, spelled) matches Some(ws)
            ==> sum_of(vs) <= sum_of(ws)),
    decreases lines.len() - n,
{
    if n == lines.len() {
        assert(lines.take(n) =~= lines);
    } else {
        lemma_values_prefix(lines, n + 1, spelled);
        assert(lines.take(n + 1).drop_last() =~= lines.take(n));
        if let Some(vs) = line_values(lines.take(n), spelled) {
            if let Some(x) = line_value_of(lines[n]@, spelled) {
                lemma_value_nonneg(lines[n]@, spelled);
                assert(sum_of(vs.push(x)) == sum_of(vs) + x) by {
                    assert(vs.push(x).drop_last() =~= vs);
                }
            }
        }
    }
}

proof fn lemma_value_nonneg(line: Seq<char>, spelled: bool)
    ensures
        line_value_of(line, spelled) matches Some(x) ==> x >= 0,
{
}

/// Adds up the calibration values of `input`; `None` when a line has no digit or the
/// sum does not fit in a `u32`.
fn total(input: &Vec<String>, spelled: bool) -> (r: Option<u32>)
    ensures
        match r {
            Some(t) => calibration_total(input@, spelled) == Some(t as int),
            None => calibration_total(input@, spelled) is None || calibration_total(input@, spelled)->0 > u32::MAX,
        },
{
    let mut acc: u32 = 0;
    let mut i: usize = 0;
    let ghost mut vs: Seq<int> = Seq::empty();
    proof {
        assert(input@.take(0) =~= Seq::<String>::empty());
    }
    while i < input.len()
        invariant
            i <= input@.len(),
            line_values(input@.take(i as int), spelled) == Some(vs),
            acc == sum_of(vs),
        decreases input.len() - i,
    {
        proof {
            assert(input@.take(i + 1).drop_last() =~= input@.take(i as int));
            lemma_values_prefix(input@, i + 1, spelled);
        }
        match line_value(&input[i], spelled) {
            Some(x) => {
                proof {
                    assert(vs.push(x as int).drop_last() =~= vs);
                    vs = vs.push(x as int);
                }
                match acc.checked_add(x) {
                    Some(t) => {
                        acc = t;
                    },
                    None => {
                        return None;
                    },
                }
            },
            None => {
                return None;
            },
        }
        i = i + 1;
    }
    proof {
        assert(input@.take(i as int) =~= input@);
    }
    Some(acc)
}

/// Sum of the lines' values, each from the line's first and last written digit.
pub fn puzzle1(input: &Vec<String>) -> (r: Option<u32>)
    ensures
        match r {
            Some(t) => calibration_total(input@, false) == Some(t as int),
            None => calibration_total(input@, false) is None || calibration_total(input@, false)->0 > u32::MAX,
        },
{
    total(input, false)
}

/// Sum of the lines' values, digits spelled out as words counting too.
pub fn puzzle2(input: &Vec<String>) -> (r: Option<u32>)
    ensures
        match r {
            Some(t) => calibration_total(input@, true) == Some(t as int),
            None => calibration_total(input@, true) is None || calibration_total(input@, true)->0 > u32::MAX,
        },
{
    total(input, true)
}

} // verus!
