//! Mapping rules and the scalar lookup of one stage.
use vstd::prelude::*;

verus! {

/// One mapping rule: `[source, source + len)` is shifted onto `[dest, dest + len)`.
#[derive(Clone, Copy, Debug, PartialEq, Eq, Structural)]
pub struct Rule {
    pub source: u64,
    pub dest: u64,
    pub len: u64,
}

impl Rule {
    /// Both ends of the rule fit in a `u64`.
    pub open spec fn wf(self) -> bool {
        self.source + self.len <= u64::MAX && self.dest + self.len <= u64::MAX
    }

    /// The half-open source interval of the rule contains `v`.
    pub open spec fn covers(self, v: int) -> bool {
        self.source <= v < self.source + self.len
    }

    /// Where the rule sends `v`.
    pub open spec fn shift(self, v: int) -> int {
        self.dest + (v - self.source)
    }

    pub fn new(source: u64, dest: u64, len: u64) -> (r: Rule)
        ensures
            r == (Rule { source, dest, len }),
    {
        Rule { source, dest, len }
    }
}

/// Every rule of a stage is well formed.
pub open spec fn stage_wf(rules: Seq<Rule>) -> bool {
    forall|k: int| 0 <= k < rules.len() ==> #[trigger] rules[k].wf()
}

/// Lookup starting at rule `i`: the first rule from `i` on that covers `v` decides,
/// and a value that no rule covers is left as it is.
pub open spec fn lookup_from(rules: Seq<Rule>, i: int, v: int) -> int
    decreases rules.len() - i,
{
    if i < 0 || i >= rules.len() {
        v
    } else if rules[i].covers(v) {
        rules[i].shift(v)
    } else {
        lookup_from(rules, i + 1, v)
    }
}

/// The value that one stage gives to `v`.
pub open spec fn lookup(rules: Seq<Rule>, v: int) -> int {
    lookup_from(rules, 0, v)
}

/// Starting at `i`, the first rule at or after `i` that covers `v` decides.
pub proof fn lemma_lookup_from_first(rules: Seq<Rule>, i: int, j: int, v: int)
    requires
        0 <= i <= j < rules.len(),
        rules[j].covers(v),
        forall|k: int| i <= k < j ==> !(#[trigger] rules[k].covers(v)),
    ensures
        lookup_from(rules, i, v) == rules[j].shift(v),
    decreases j - i,
{
    if i < j {
        lemma_lookup_from_first(rules, i + 1, j, v);
    }
}

/// Starting at `i`, a value that no later rule covers is left unchanged.
pub proof fn lemma_lookup_from_uncovered(rules: Seq<Rule>, i: int, v: int)
    requires
        0 <= i <= rules.len(),
        forall|k: int| i <= k < rules.len() ==> !(#[trigger] rules[k].covers(v)),
    ensures
        lookup_from(rules, i, v) == v,
    decreases rules.len() - i,
{
    if i < rules.len() {
        lemma_lookup_from_uncovered(rules, i + 1, v);
    }
}

/// The first rule that covers `v` decides the lookup.
pub proof fn lemma_lookup_first(rules: Seq<Rule>, j: int, v: int)
    requires
        0 <= j < rules.len(),
        rules[j].covers(v),
        forall|k: int| 0 <= k < j ==> !(#[trigger] rules[k].covers(v)),
    ensures
        lookup(rules, v) == rules[j].shift(v),
{
    lemma_lookup_from_first(rules, 0, j, v);
}

/// A value that no rule of the stage covers is left unchanged by the stage.
pub proof fn lemma_lookup_uncovered(rules: Seq<Rule>, v: int)
    requires
        forall|k: int| 0 <= k < rules.len() ==> !(#[trigger] rules[k].covers(v)),
    ensures
        lookup(rules, v) == v,
{
    lemma_lookup_from_uncovered(rules, 0, v);
}

/// No two rules of the stage share a source value.
pub open spec fn stage_disjoint(rules: Seq<Rule>) -> bool {
    forall|j: int, k: int|
        0 <= j < k < rules.len() ==> #[trigger] rules[j].source + rules[j].len <= #[trigger] rules[k].source
            || rules[k].source + rules[k].len <= rules[j].source
}

/// Whether no two rules of the stage share a source value.
pub fn stage_is_disjoint(rules: &Vec<Rule>) -> (r: bool)
    requires
        stage_wf(rules@),
    ensures
        r == stage_disjoint(rules@),
{
    let mut k: usize = 0;
    while k < rules.len()
        invariant
            k <= rules.len(),
            stage_wf(rules@),
            forall|a: int, b: int|
                0 <= a < b < k ==> #[trigger] rules@[a].source + rules@[a].len <= #[trigger] rules@[b].source
                    || rules@[b].source + rules@[b].len <= rules@[a].source,
        decreases rules.len() - k,
    {
        let rk = rules[k];
        let mut j: usize = 0;
        while j < k
            invariant
                j <= k < rules.len(),
                stage_wf(rules@),
                rk == rules@[k as int],
                forall|a: int, b: int|
                    0 <= a < b < k ==> #[trigger] rules@[a].source + rules@[a].len <= #[trigger] rules@[b].source
                        || rules@[b].source + rules@[b].len <= rules@[a].source,
                forall|a: int|
                    0 <= a < j ==> #[trigger] rules@[a].source + rules@[a].len <= rk.source
                        || rk.source + rk.len <= rules@[a].source,
            decreases k - j,
        {
            let rj = rules[j];
            proof {
                assert(rules@[j as int].wf());
                assert(rules@[k as int].wf());
            }
            if !(rj.source + rj.len <= rk.source || rk.source + rk.len <= rj.source) {
                assert(!(rules@[j as int].source + rules@[j as int].len <= rules@[k as int].source
                    || rules@[k as int].source + rules@[k as int].len <= rules@[j as int].source));
                return false;
            }
            j = j + 1;
        }
        k = k + 1;
    }
    true
}

/// In a stage whose rules do not overlap, a value inside the source interval of a rule
/// is moved by that rule's offset: it goes to `dest + (v - source)`.
pub proof fn lemma_lookup_offset(rules: Seq<Rule>, j: int, v: int)
    requires
        stage_disjoint(rules),
        0 <= j < rules.len(),
        rules[j].covers(v),
    ensures
        lookup(rules, v) == rules[j].dest + (v - rules[j].source),
{
    assert forall|k: int| 0 <= k < j implies !(#[trigger] rules[k].covers(v)) by {
        assert(rules[k].source + rules[k].len <= rules[j].source || rules[j].source + rules[j].len
            <= rules[k].source);
    }
    lemma_lookup_first(rules, j, v);
}

/// Scalar lookup of one stage: the first rule whose source interval holds `value`
/// shifts it, and a value outside every rule is returned unchanged.
pub fn next_step(rules: &Vec<Rule>, value: u64) -> (r: u64)
    requires
        stage_wf(rules@),
    ensures
        r == lookup(rules@, value as int),
{
    let mut i: usize = 0;
    while i < rules.len()
        invariant
            i <= rules.len(),
            stage_wf(rules@),
            forall|k: int| 0 <= k < i ==> !(#[trigger] rules@[k].covers(value as int)),
        decreases rules.len() - i,
    {
        let rule = rules[i];
        if rule.source <= value && value - rule.source < rule.len {
            proof {
                assert(rules@[i as int].wf());
                lemma_lookup_first(rules@, i as int, value as int);
            }
            return rule.dest + (value - rule.source);
        }
        i = i + 1;
    }
    proof {
        lemma_lookup_uncovered(rules@, value as int);
    }
    value
}

} // verus!
