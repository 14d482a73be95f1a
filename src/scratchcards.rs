//! Scratchcards: winning numbers, points, and the copies that winning cards hand out.
use vstd::prelude::*;
use crate::text::{chars_of, split_words, words_of, texts};

verus! {

/// What the named group `group` of the leftmost match of the regular expression
/// `pattern` in `text` captured; `None` when the pattern does not compile, nothing
/// matches, or the group took no part in the match.
pub uninterp spec fn named_capture(pattern: Seq<char>, text: Seq<char>, group: Seq<char>) -> Option<
    Seq<char>,
>;

/// Relies on regex's `Regex::new`, `Regex::captures` and `Captures::name`: the text
/// captured by `group` in the leftmost match of `pattern` in `text`, which depends on
/// the three strings alone.
#[verifier::external_body]
fn capture_named(pattern: &str, text: &str, group: &str) -> (r: Option<String>)
    ensures
        named_capture(pattern@, text@, group@) == match r {
            Some(s) => Some(s@),
            None => None,
        },
{
    let re = regex::Regex::new(pattern).ok()?;
    let caps = re.captures(text)?;
    caps.name(group).map(|m| m.as_str().to_string())
}

/// The line layout of a card: its number, a `:`, then the results.
pub open spec fn card_pattern() -> Seq<char> {
    "Card\\s+(?<card>\\d+):(?<results>.*)"@
}

pub open spec fn results_group() -> Seq<char> {
    "results"@
}

/// The numbers of one half of a card, as written.
pub fn build_card(card_str: &str) -> (r: Vec<String>)
    ensures
        texts(r@) == words_of(card_str@),
{
    split_words(card_str)
}

/// `s` split at its first `|`, if it has one.
pub open spec fn split_bar(s: Seq<char>) -> Option<(Seq<char>, Seq<char>)>
    decreases s.len(),
{
    if s.len() == 0 {
        None
    } else if s[0] == '|' {
        Some((Seq::empty(), s.drop_first()))
    } else {
        match split_bar(s.drop_first()) {
            Some((a, b)) => Some((seq![s[0]] + a, b)),
            None => None,
        }
    }
}

proof fn lemma_split_bar(s: Seq<char>, i: int)
    requires
        0 <= i <= s.len(),
        forall|k: int| 0 <= k < i ==> s[k] != '|',
    ensures
        i < s.len() && s[i] == '|' ==> split_bar(s) == Some((s.take(i), s.skip(i + 1))),
        i == s.len() ==> split_bar(s) is None,
    decreases i,
{
    if i > 0 {
        let t = s.drop_first();
        lemma_split_bar(t, i - 1);
        assert(seq![s[0]] + t.take(i - 1) =~= s.take(i));
        if i < s.len() {
            assert(t.skip(i) =~= s.skip(i + 1));
        }
    } else if s.len() > 0 {
        assert(s.take(0) =~= Seq::<char>::empty());
        assert(s.drop_first() =~= s.skip(1));
    }
}

/// The winning numbers and the numbers of the card that `line` describes.
pub open spec fn card_of(line: Seq<char>) -> Option<(Seq<Seq<char>>, Seq<Seq<char>>)> {
    match named_capture(card_pattern(), line, results_group()) {
        None => None,
        Some(results) => match split_bar(results) {
            None => None,
            Some((w, c)) => Some((words_of(w), words_of(c))),
        },
    }
}

/// Reads one card line: `Card <n>: <winning numbers> | <numbers>`.
pub fn parse_card(line: &str) -> (r: Option<(Vec<String>, Vec<String>)>)
    ensures
        match r {
            Some((w, c)) => card_of(line@) == Some((texts(w@), texts(c@))),
            None => card_of(line@) is None,
        },
{
    let results = match capture_named("Card\\s+(?<card>\\d+):(?<results>.*)", line, "results") {
        Some(s) => s,
        None => {
            return None;
        },
    };
    let chars = chars_of(results.as_str());
    let mut i: usize = 0;
    while i < chars.len() && chars[i] != '|'
        invariant
            i <= chars@.len(),
            forall|k: int| 0 <= k < i ==> chars@[k] != '|',
        decreases chars.len() - i,
    {
        i = i + 1;
    }
    proof {
        lemma_split_bar(results@, i as int);
    }
    if i == chars.len() {
        return None;
    }
    let winners = build_card(results.as_str().substring_char(0, i));
    let card = build_card(results.as_str().substring_char(i + 1, chars.len()));
    proof {
        assert(results@.subrange(0, i as int) =~= results@.take(i as int));
        assert(results@.subrange(i + 1, chars@.len() as int) =~= results@.skip(i + 1));
    }
    Some((winners, card))
}

/// How many numbers of `card` are among the winning numbers.
pub open spec fn card_wins(winners: Seq<Seq<char>>, card: Seq<Seq<char>>) -> nat
    decreases card.len(),
{
    if card.len() == 0 {
        0
    } else {
        card_wins(winners, card.drop_last()) + if winners.contains(card.last()) {
            1nat
        } else {
            0nat
        }
    }
}

/// The wins of every card.
pub open spec fn wins_of(input: Seq<(Vec<String>, Vec<String>)>) -> Seq<nat> {
    Seq::new(input.len(), |i: int| card_wins(texts(input[i].0@), texts(input[i].1@)))
}

pub open spec fn sum_nat(s: Seq<nat>) -> nat
    decreases s.len(),
{
    if s.len() == 0 {
        0
    } else {
        sum_nat(s.drop_last()) + s.last()
    }
}

/// A prefix never sums to more than the whole.
proof fn lemma_sum_prefix(s: Seq<nat>, n: int)
    requires
        0 <= n <= s.len(),
    ensures
        sum_nat(s.take(n)) <= sum_nat(s),
    decreases s.len() - n,
{
    if n < s.len() {
        lemma_sum_prefix(s, n + 1);
        assert(s.take(n + 1).drop_last() =~= s.take(n));
    } else {
        assert(s.take(n) =~= s);
    }
}

/// One element never exceeds the sum.
proof fn lemma_sum_element(s: Seq<nat>, k: int)
    requires
        0 <= k < s.len(),
    ensures
        s[k] <= sum_nat(s),
{
    lemma_sum_prefix(s, k + 1);
    assert(s.take(k + 1).last() == s[k]);
}

pub open spec fn two_to(n: nat) -> nat
    decreases n,
{
    if n == 0 {
        1
    } else {
        2 * two_to((n - 1) as nat)
    }
}

/// A card's points: one for its first win, doubled for each further one.
pub open spec fn points(w: nat) -> nat {
    if w == 0 {
        0
    } else {
        two_to((w - 1) as nat)
    }
}

/// Counts the numbers of `card` that are winning numbers.
pub fn count_card_wins(winners: &Vec<String>, card: &Vec<String>) -> (r: u64)
    ensures
        r == card_wins(texts(winners@), texts(card@)),
{
    let ghost ws = texts(winners@);
    let ghost cs = texts(card@);
    let mut count: u64 = 0;
    let mut j: usize = 0;
    proof {
        assert(cs.take(0) =~= Seq::<Seq<char>>::empty());
    }
    while j < card.len()
        invariant
            j <= card@.len(),
            ws == texts(winners@),
            cs == texts(card@),
            count == card_wins(ws, cs.take(j as int)),
            count <= j,
        decreases card.len() - j,
    {
        let mut found = false;
        let mut k: usize = 0;
        while k < winners.len()
            invariant
                k <= winners@.len(),
                j < card@.len(),
                ws == texts(winners@),
                cs == texts(card@),
                found <==> exists|q: int| 0 <= q < k && ws[q] == cs[j as int],
            decreases winners.len() - k,
        {
            let same = winners[k] == card[j];
            proof {
                assert(ws[k as int] == winners@[k as int]@);
                assert(cs[j as int] == card@[j as int]@);
                if same {
                    assert(ws[k as int] == cs[j as int]);
                } else {
                    assert(ws[k as int] != cs[j as int]);
                }
            }
            if same {
                found = true;
            }
            k = k + 1;
        }
        proof {
            assert(cs.take(j + 1).drop_last() =~= cs.take(j as int));
            assert(cs.take(j + 1).last() == cs[j as int]);
            if found {
                let q = choose|q: int| 0 <= q < k && ws[q] == cs[j as int];
                assert(ws.contains(cs[j as int]));
            } else {
                assert forall|q: int| 0 <= q < ws.len() implies ws[q] != cs[j as int] by {}
            }
        }
        if found {
            count = count + 1;
        }
        j = j + 1;
    }
    proof {
        assert(cs.take(j as int) =~= cs);
    }
    count
}

/// `points(w)`, when it fits in a `u64`.
fn card_points(w: u64) -> (r: Option<u64>)
    ensures
        match r {
            Some(p) => p == points(w as nat),
            None => points(w as nat) > u64::MAX,
        },
{
    if w == 0 {
        return Some(0);
    }
    let mut p: u64 = 1;
    let mut k: u64 = 0;
    while k < w - 1
        invariant
            k <= w - 1,
            w > 0,
            p == two_to(k as nat),
        decreases w - 1 - k,
    {
        match p.checked_mul(2) {
            Some(q) => {
                p = q;
            },
            None => {
                proof {
                    lemma_two_to_grows(k as nat + 1, (w - 1) as nat);
                }
                return None;
            },
        }
        k = k + 1;
    }
    Some(p)
}

proof fn lemma_two_to_grows(a: nat, b: nat)
    requires
        a <= b,
    ensures
        two_to(a) <= two_to(b),
    decreases b,
{
    if a < b {
        lemma_two_to_grows(a, (b - 1) as nat);
    }
}

/// Total points of the cards; `None` when the total does not fit in a `u64`.
pub fn puzzle1(input: &Vec<(Vec<String>, Vec<String>)>) -> (r: Option<u64>)
    ensures
        ({
            let pts = wins_of(input@).map_values(|w: nat| points(w));
            match r {
                Some(t) => t == sum_nat(pts),
                None => sum_nat(pts) > u64::MAX,
            }
        }),
{
    let ghost pts = wins_of(input@).map_values(|w: nat| points(w));
    let mut acc: u64 = 0;
    let mut i: usize = 0;
    proof {
        assert(pts.take(0) =~= Seq::<nat>::empty());
    }
    while i < input.len()
        invariant
            i <= input@.len(),
            pts == wins_of(input@).map_values(|w: nat| points(w)),
            pts.len() == input@.len(),
            acc == sum_nat(pts.take(i as int)),
        decreases input.len() - i,
    {
        let w = count_card_wins(&input[i].0, &input[i].1);
        proof {
            assert(pts[i as int] == points(w as nat));
            assert(pts.take(i + 1).drop_last() =~= pts.take(i as int));
            lemma_sum_prefix(pts, i + 1);
            lemma_sum_element(pts, i as int);
        }
        match card_points(w) {
            Some(p) => match acc.checked_add(p) {
                Some(t) => {
                    acc = t;
                },
                None => {
                    return None;
                },
            },
            None => {
                return None;
            },
        }
        i = i + 1;
    }
    proof {
        assert(pts.take(i as int) =~= pts);
    }
    Some(acc)
}

/// The copies that card `i` receives from the cards before `k`: a card `j < i` that
/// wins `ws[j]` times hands one copy of each of the next `ws[j]` cards to every copy it
/// holds (`cs[j]` of them).
pub open spec fn pulled(ws: Seq<nat>, cs: Seq<nat>, i: int, k: int) -> nat
    decreases k,
{
    if k <= 0 {
        0
    } else {
        pulled(ws, cs, i, k - 1) + if k - 1 < i <= (k - 1) + ws[k - 1] {
            cs[k - 1]
        } else {
            0nat
        }
    }
}

/// How many copies of each of the first `n` cards are held in the end, first copies
/// included.
pub open spec fn copies_upto(ws: Seq<nat>, n: int) -> Seq<nat>
    decreases n,
{
    if n <= 0 {
        Seq::empty()
    } else {
        let cs = copies_upto(ws, n - 1);
        cs.push(1 + pulled(ws, cs, n - 1, n - 1))
    }
}

/// No card hands out copies past the end of the table.
pub open spec fn copies_stay_inside(ws: Seq<nat>) -> bool {
    forall|i: int| 0 <= i < ws.len() ==> i + #[trigger] ws[i] < ws.len()
}

proof fn lemma_copies_len(ws: Seq<nat>, n: int)
    requires
        n >= 0,
    ensures
        copies_upto(ws, n).len() == n,
    decreases n,
{
    if n > 0 {
        lemma_copies_len(ws, n - 1);
    }
}

/// Only the copies of the cards before `k` matter to `pulled`.
proof fn lemma_pulled_prefix(ws: Seq<nat>, a: Seq<nat>, b: Seq<nat>, i: int, k: int)
    requires
        0 <= k <= a.len(),
        k <= b.len(),
        forall|q: int| 0 <= q < k ==> a[q] == b[q],
    ensures
        pulled(ws, a, i, k) == pulled(ws, b, i, k),
    decreases k,
{
    if k > 0 {
        lemma_pulled_prefix(ws, a, b, i, k - 1);
    }
}

/// The copies of the first `m` cards do not change as more cards follow.
proof fn lemma_copies_prefix(ws: Seq<nat>, m: int, n: int)
    requires
        0 <= m <= n,
    ensures
        forall|q: int| 0 <= q < m ==> copies_upto(ws, n)[q] == #[trigger] copies_upto(ws, m)[q],
    decreases n - m,
{
    if m < n {
        lemma_copies_prefix(ws, m, n - 1);
        lemma_copies_len(ws, n - 1);
    }
}

/// Card `i` holds one copy more than it was handed.
proof fn lemma_copies_at(ws: Seq<nat>, n: int, i: int)
    requires
        0 <= i < n,
    ensures
        copies_upto(ws, n)[i] == 1 + pulled(ws, copies_upto(ws, n), i, i),
{
    lemma_copies_prefix(ws, i + 1, n);
    lemma_copies_len(ws, n);
    lemma_copies_len(ws, i);
    let pre = copies_upto(ws, i);
    lemma_copies_prefix(ws, i, n);
    lemma_pulled_prefix(ws, pre, copies_upto(ws, n), i, i);
    assert(copies_upto(ws, i + 1)[i] == 1 + pulled(ws, pre, i, i));
}

/// What has been handed so far never exceeds the copies held in the end.
proof fn lemma_pulled_grows(ws: Seq<nat>, cs: Seq<nat>, i: int, k: int, l: int)
    requires
        0 <= k <= l,
    ensures
        pulled(ws, cs, i, k) <= pulled(ws, cs, i, l),
    decreases l - k,
{
    if k < l {
        lemma_pulled_grows(ws, cs, i, k, l - 1);
    }
}

/// The number of cards held in the end, first copies and won copies together.
pub open spec fn total_cards(ws: Seq<nat>) -> nat {
    sum_nat(copies_upto(ws, ws.len() as int))
}

/// Counts every card held once the winning cards have handed out their copies;
/// `None` when the count does not fit in a `u64`.
pub fn puzzle2(input: &Vec<(Vec<String>, Vec<String>)>) -> (r: Option<u64>)
    requires
        copies_stay_inside(wins_of(input@)),
    ensures
        match r {
            Some(t) => t == total_cards(wins_of(input@)),
            None => total_cards(wins_of(input@)) > u64::MAX,
        },
{
    let ghost ws = wins_of(input@);
    let n = input.len();
    let ghost cs = copies_upto(ws, n as int);
    proof {
        lemma_copies_len(ws, n as int);
    }
    let mut wins: Vec<u64> = Vec::new();
    let mut extra: Vec<u64> = Vec::new();
    let mut i: usize = 0;
    while i < n
        invariant
            n == input@.len(),
            ws == wins_of(input@),
            i <= n,
            wins@.len() == i,
            extra@.len() == i,
            forall|q: int| 0 <= q < i ==> #[trigger] wins@[q] == ws[q],
            forall|q: int| 0 <= q < i ==> #[trigger] extra@[q] == 0,
        decreases n - i,
    {
        let w = count_card_wins(&input[i].0, &input[i].1);
        wins.push(w);
        extra.push(0);
        i = i + 1;
    }
    let mut i: usize = 0;
    while i < n
        invariant
            n == input@.len(),
            ws == wins_of(input@),
            copies_stay_inside(ws),
            cs == copies_upto(ws, n as int),
            cs.len() == n,
            i <= n,
            wins@.len() == n,
            extra@.len() == n,
            forall|q: int| 0 <= q < n ==> #[trigger] wins@[q] == ws[q],
            forall|q: int| 0 <= q < i ==> #[trigger] extra@[q] == cs[q],
            forall|q: int| i <= q < n ==> #[trigger] extra@[q] == pulled(ws, cs, q, i as int),
        decreases n - i,
    {
        proof {
            lemma_copies_at(ws, n as int, i as int);
            lemma_sum_element(cs, i as int);
        }
        let held = match extra[i].checked_add(1) {
            Some(h) => h,
            None => {
                return None;
            },
        };
        extra.set(i, held);
        let w = wins[i];
        assert(i + w < n);
        let mut j: usize = i + 1;
        while j <= i + w as usize
            invariant
                n == input@.len(),
                ws == wins_of(input@),
                ws.len() == n,
                cs == copies_upto(ws, n as int),
                cs.len() == n,
                i < n,
                w == ws[i as int],
                i + w < n,
                i + 1 <= j <= i + w + 1,
                held == cs[i as int],
                extra@.len() == n,
                forall|q: int| 0 <= q <= i ==> #[trigger] extra@[q] == cs[q],
                forall|q: int| i < q < j ==> #[trigger] extra@[q] == pulled(ws, cs, q, i + 1),
                forall|q: int| j <= q < n ==> #[trigger] extra@[q] == pulled(ws, cs, q, i as int),
            decreases i + w + 1 - j,
        {
            proof {
                assert(pulled(ws, cs, j as int, i + 1) == pulled(ws, cs, j as int, i as int) + cs[i as int]);
                lemma_copies_at(ws, n as int, j as int);
                lemma_pulled_grows(ws, cs, j as int, i + 1, j as int);
                lemma_sum_element(cs, j as int);
            }
            let v = match extra[j].checked_add(held) {
                Some(v) => v,
                None => {
                    return None;
                },
            };
            extra.set(j, v);
            j = j + 1;
        }
        proof {
            assert forall|q: int| i + 1 <= q < n implies #[trigger] extra@[q] == pulled(ws, cs, q, i + 1) by {
                if q > i + w {
                    assert(pulled(ws, cs, q, i + 1) == pulled(ws, cs, q, i as int));
                }
            }
        }
        i = i + 1;
    }
    let mut total: u64 = 0;
    let mut k: usize = 0;
    proof {
        assert(cs.take(0) =~= Seq::<nat>::empty());
    }
    while k < n
        invariant
            cs.len() == n,
            ws == wins_of(input@),
            cs == copies_upto(ws, n as int),
            n == ws.len(),
            extra@.len() == n,
            k <= n,
            forall|q: int| 0 <= q < n ==> #[trigger] extra@[q] == cs[q],
            total == sum_nat(cs.take(k as int)),
        decreases n - k,
    {
        proof {
            assert(cs.take(k + 1).drop_last() =~= cs.take(k as int));
            lemma_sum_prefix(cs, k + 1);
        }
        total = match total.checked_add(extra[k]) {
            Some(t) => t,
            None => {
                return None;
            },
        };
        k = k + 1;
    }
    proof {
        assert(cs.take(k as int) =~= cs);
    }
    Some(total)
}

} // verus!
