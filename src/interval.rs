//! Half-open intervals, and the splitting of an interval at the rule boundaries of a stage.
use vstd::prelude::*;
use crate::rules::{Rule, lookup, stage_wf, lemma_lookup_first, lemma_lookup_uncovered};

verus! {

/// The values `[start, start + len)`.
#[derive(Clone, Copy, Debug, PartialEq, Eq, Structural)]
pub struct Interval {
    pub start: u64,
    pub len: u64,
}

impl Interval {
    /// Non-empty, and its end fits in a `u64`.
    pub open spec fn wf(self) -> bool {
        self.len > 0 && self.start + self.len <= u64::MAX
    }

    pub open spec fn contains(self, v: int) -> bool {
        self.start <= v < self.start + self.len
    }

    pub fn new(start: u64, len: u64) -> (r: Interval)
        ensures
            r == (Interval { start, len }),
    {
        Interval { start, len }
    }
}

/// The lengths of `ivs`, added up.
pub open spec fn total_len(ivs: Seq<Interval>) -> int
    decreases ivs.len(),
{
    if ivs.len() == 0 {
        0
    } else {
        total_len(ivs.drop_last()) + ivs.last().len
    }
}

/// The value that the stages, applied in order, give to `v`.
pub open spec fn through(stages: Seq<Seq<Rule>>, v: int) -> int
    decreases stages.len(),
{
    if stages.len() == 0 {
        v
    } else {
        lookup(stages.last(), through(stages.drop_last(), v))
    }
}

/// On `[base, base + out.len)` the stages act as a shift onto `out`.
pub open spec fn shifts_onto(stages: Seq<Seq<Rule>>, base: int, out: Interval) -> bool {
    &&& out.wf()
    &&& forall|v: int|
        base <= v < base + out.len ==> #[trigger] through(stages, v) == out.start + (v - base)
}

/// Laid end to end from `base`, the source pieces of `outs` cover
/// `[base, base + total_len(outs))`, and the stages send each piece onto its interval.
pub open spec fn piecewise(stages: Seq<Seq<Rule>>, base: int, outs: Seq<Interval>) -> bool
    decreases outs.len(),
{
    if outs.len() == 0 {
        true
    } else {
        &&& piecewise(stages, base, outs.drop_last())
        &&& shifts_onto(stages, base + total_len(outs.drop_last()), outs.last())
    }
}

/// A single stage, seen as a chain of one.
pub proof fn lemma_through_single(rules: Seq<Rule>, v: int)
    ensures
        through(seq![rules], v) == lookup(rules, v),
{
    let one = seq![rules];
    assert(one.drop_last() =~= Seq::<Seq<Rule>>::empty());
    assert(through(one.drop_last(), v) == v);
    assert(one.last() == rules);
}

/// One stage more at the end of the chain.
pub proof fn lemma_through_push(stages: Seq<Seq<Rule>>, rules: Seq<Rule>, v: int)
    ensures
        through(stages.push(rules), v) == lookup(rules, through(stages, v)),
{
    assert(stages.push(rules).drop_last() =~= stages);
}

/// A total length is never negative.
pub proof fn lemma_total_len_nonneg(ivs: Seq<Interval>)
    ensures
        total_len(ivs) >= 0,
    decreases ivs.len(),
{
    if ivs.len() > 0 {
        lemma_total_len_nonneg(ivs.drop_last());
    }
}

/// The pieces of a sequence of non-empty intervals add up to at least each prefix.
pub proof fn lemma_total_len_prefix(ivs: Seq<Interval>, i: int)
    requires
        0 <= i <= ivs.len(),
        forall|k: int| 0 <= k < ivs.len() ==> (#[trigger] ivs[k]).len > 0,
    ensures
        0 <= total_len(ivs.take(i)) <= total_len(ivs),
        i < ivs.len() ==> total_len(ivs.take(i)) + ivs[i].len <= total_len(ivs),
    decreases ivs.len(),
{
    if ivs.len() > 0 {
        let init = ivs.drop_last();
        if i == ivs.len() {
            assert(ivs.take(i) =~= ivs);
            lemma_total_len_prefix(init, 0);
        } else {
            assert(ivs.take(i) =~= init.take(i));
            lemma_total_len_prefix(init, i);
            if i + 1 < ivs.len() {
                lemma_total_len_prefix(init, i + 1);
                assert(init.take(i + 1).drop_last() =~= init.take(i));
            } else {
                assert(init.take(i) =~= init);
            }
        }
    }
}

/// Piece `i` of a piecewise description starts after the pieces before it.
pub proof fn lemma_piece_at(stages: Seq<Seq<Rule>>, base: int, outs: Seq<Interval>, i: int)
    requires
        piecewise(stages, base, outs),
        0 <= i < outs.len(),
    ensures
        shifts_onto(stages, base + total_len(outs.take(i)), outs[i]),
    decreases outs.len(),
{
    let init = outs.drop_last();
    if i == outs.len() - 1 {
        assert(outs.take(i) =~= init);
    } else {
        lemma_piece_at(stages, base, init, i);
        assert(outs.take(i) =~= init.take(i));
    }
}

/// Every pieces of a piecewise description is well formed.
pub proof fn lemma_pieces_wf(stages: Seq<Seq<Rule>>, base: int, outs: Seq<Interval>)
    requires
        piecewise(stages, base, outs),
    ensures
        forall|k: int| 0 <= k < outs.len() ==> (#[trigger] outs[k]).wf(),
{
    assert forall|k: int| 0 <= k < outs.len() implies (#[trigger] outs[k]).wf() by {
        lemma_piece_at(stages, base, outs, k);
    }
}

/// A value of `[base, base + total_len(outs))` lies in the source of some piece.
pub proof fn lemma_piece_of(stages: Seq<Seq<Rule>>, base: int, outs: Seq<Interval>, v: int) -> (i:
    int)
    requires
        piecewise(stages, base, outs),
        base <= v < base + total_len(outs),
    ensures
        0 <= i < outs.len(),
        base + total_len(outs.take(i)) <= v < base + total_len(outs.take(i)) + outs[i].len,
    decreases outs.len(),
{
    let init = outs.drop_last();
    if v < base + total_len(init) {
        let i = lemma_piece_of(stages, base, init, v);
        assert(outs.take(i) =~= init.take(i));
        i
    } else {
        assert(outs.take(outs.len() - 1) =~= init);
        outs.len() - 1
    }
}

/// Two piecewise descriptions, the second starting where the first ends, join into one.
pub proof fn lemma_piecewise_append(
    stages: Seq<Seq<Rule>>,
    base: int,
    a: Seq<Interval>,
    b: Seq<Interval>,
)
    requires
        piecewise(stages, base, a),
        piecewise(stages, base + total_len(a), b),
    ensures
        piecewise(stages, base, a + b),
        total_len(a + b) == total_len(a) + total_len(b),
    decreases b.len(),
{
    if b.len() == 0 {
        assert(a + b =~= a);
    } else {
        lemma_piecewise_append(stages, base, a, b.drop_last());
        assert((a + b).drop_last() =~= a + b.drop_last());
    }
}

/// Following an interval `w` that the stages reach by a shift, a further stage that
/// splits `w` into `outs` splits the source of `w` the same way.
pub proof fn lemma_piecewise_compose(
    stages: Seq<Seq<Rule>>,
    rules: Seq<Rule>,
    base: int,
    w: Interval,
    outs: Seq<Interval>,
)
    requires
        shifts_onto(stages, base, w),
        piecewise(seq![rules], w.start as int, outs),
        total_len(outs) <= w.len,
    ensures
        piecewise(stages.push(rules), base, outs),
    decreases outs.len(),
{
    if outs.len() > 0 {
        let init = outs.drop_last();
        let o = outs.last();
        let off = total_len(init);
        lemma_piece_at(seq![rules], w.start as int, outs, outs.len() - 1);
        assert(outs.take(outs.len() - 1) =~= init);
        lemma_piecewise_compose(stages, rules, base, w, init);
        lemma_total_len_nonneg(init);
        assert forall|v: int| base + off <= v < base + off + o.len implies #[trigger] through(
            stages.push(rules),
            v,
        ) == o.start + (v - (base + off)) by {
            lemma_through_push(stages, rules, v);
            let u = w.start + (v - base);
            assert(through(stages, v) == u);
            lemma_through_single(rules, u);
            assert(through(seq![rules], u) == o.start + (u - (w.start + off)));
        }
    }
}

/// A single value pushed through any sequence of stages as an interval of length one
/// comes out as exactly one interval of length one, which starts where the stages,
/// applied value by value, send it.
pub proof fn lemma_single_value(stages: Seq<Seq<Rule>>, v: int, outs: Seq<Interval>)
    requires
        piecewise(stages, v, outs),
        total_len(outs) == 1,
    ensures
        outs.len() == 1,
        outs[0] == (Interval { start: through(stages, v) as u64, len: 1 }),
{
    lemma_pieces_wf(stages, v, outs);
    let init = outs.drop_last();
    if init.len() > 0 {
        assert(init.last() == outs[init.len() - 1]);
        lemma_total_len_nonneg(init.drop_last());
        assert(false);
    }
    assert(init =~= Seq::<Interval>::empty());
    assert(outs.last() == outs[0]);
}

} // verus!
