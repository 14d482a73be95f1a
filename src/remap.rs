//! The range remapper: one stage applied to a whole interval at once, by splitting it
//! at the rule boundaries instead of walking its values.
use vstd::prelude::*;
use crate::rules::{Rule, lookup, stage_wf, lemma_lookup_first, lemma_lookup_uncovered};
use crate::interval::{
    Interval,
    total_len,
    through,
    shifts_onto,
    piecewise,
    lemma_through_single,
};

verus! {

/// The longest piece `[cur, cur + r.len)` of `[cur, end)` on which the stage acts as one
/// shift, and where it goes.
fn next_piece(rules: &Vec<Rule>, cur: u64, end: u64) -> (r: Interval)
    requires
        stage_wf(rules@),
        cur < end,
    ensures
        cur + r.len <= end,
        shifts_onto(seq![rules@], cur as int, r),
{
    // `next` is the nearest rule start above `cur`, capped by `end`.
    let mut next: u64 = end;
    let mut matched: Option<usize> = None;
    let mut i: usize = 0;
    while i < rules.len()
        invariant
            i <= rules.len(),
            stage_wf(rules@),
            cur < next <= end,
            forall|k: int|
                0 <= k < i && (#[trigger] rules@[k]).source > cur ==> rules@[k].source >= next,
            match matched {
                None => forall|k: int| 0 <= k < i ==> !(#[trigger] rules@[k].covers(cur as int)),
                Some(j) => {
                    &&& j < i
                    &&& rules@[j as int].covers(cur as int)
                    &&& forall|k: int| 0 <= k < j ==> !(#[trigger] rules@[k].covers(cur as int))
                },
            },
        decreases rules.len() - i,
    {
        let rule = rules[i];
        if rule.source > cur {
            if rule.source < next {
                next = rule.source;
            }
        } else if matched.is_none() && cur - rule.source < rule.len {
            matched = Some(i);
        }
        i = i + 1;
    }
    match matched {
        Some(j) => {
            let rule = rules[j];
            proof {
                assert(rules@[j as int].wf());
            }
            let rule_end = rule.source + rule.len;
            let stop = if rule_end < next {
                rule_end
            } else {
                next
            };
            let out = Interval { start: rule.dest + (cur - rule.source), len: stop - cur };
            proof {
                assert forall|v: int| cur <= v < cur + out.len implies #[trigger] through(
                    seq![rules@],
                    v,
                ) == out.start + (v - cur) by {
                    assert forall|k: int| 0 <= k < j implies !(#[trigger] rules@[k].covers(v)) by {
                        assert(!rules@[k].covers(cur as int));
                    }
                    lemma_lookup_first(rules@, j as int, v);
                    lemma_through_single(rules@, v);
                }
            }
            out
        },
        None => {
            let out = Interval { start: cur, len: next - cur };
            proof {
                assert forall|v: int| cur <= v < cur + out.len implies #[trigger] through(
                    seq![rules@],
                    v,
                ) == out.start + (v - cur) by {
                    assert forall|k: int| 0 <= k < rules@.len() implies !(
                    #[trigger] rules@[k].covers(v)) by {
                        assert(!rules@[k].covers(cur as int));
                    }
                    lemma_lookup_uncovered(rules@, v);
                    lemma_through_single(rules@, v);
                }
            }
            out
        },
    }
}

/// Applies one stage to every value of `iv` at once. The result lists, in the order of
/// their sources, intervals whose lengths add up to `iv.len`: the first piece of `iv`
/// goes onto the first interval, the next piece onto the next one, and so on, each by
/// the shift that the stage gives its values.
pub fn remap_interval(rules: &Vec<Rule>, iv: Interval) -> (r: Vec<Interval>)
    requires
        stage_wf(rules@),
        iv.wf(),
    ensures
        total_len(r@) == iv.len,
        piecewise(seq![rules@], iv.start as int, r@),
{
    let end = iv.start + iv.len;
    let mut cur = iv.start;
    let mut out: Vec<Interval> = Vec::new();
    while cur < end
        invariant
            stage_wf(rules@),
            iv.start <= cur <= end,
            end == iv.start + iv.len,
            total_len(out@) == cur - iv.start,
            piecewise(seq![rules@], iv.start as int, out@),
        decreases end - cur,
    {
        let piece = next_piece(rules, cur, end);
        proof {
            assert(out@.push(piece).drop_last() =~= out@);
        }
        out.push(piece);
        cur = cur + piece.len;
    }
    out
}

} // verus!
