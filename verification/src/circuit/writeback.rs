//! Choosing what a row writes back from what its families propose.
use crate::circuit::assembly::{BasicAssembly, OutsideValues, TableContents};
use crate::circuit::expression;
use crate::circuit::expression::{Constraint, Register, Variable};
use crate::circuit::ops::{CommonDiffs, NextPcValue, RdCandidate};
use crate::field;
use vstd::prelude::*;

verus! {

/// Every candidate for the destination register is linear, so that it can be multiplied by a flag.
pub open spec fn candidates_are_linear(results: Seq<CommonDiffs>) -> bool {
    forall|i: int, k: int|
        0 <= i < results.len() && 0 <= k < results[i].rd_value@.len() ==> {
            &&& (#[trigger] results[i].rd_value@[k]).low.is_linear()
            &&& results[i].rd_value@[k].high.is_linear()
        }
}

pub open spec fn candidate_limb(c: RdCandidate, high: bool, w: spec_fn(Variable) -> int) -> int {
    if high {
        c.high.value(w)
    } else {
        c.low.value(w)
    }
}

/// The sum of one family's candidates, each times its flag.
pub open spec fn candidates_sum(
    candidates: Seq<RdCandidate>,
    high: bool,
    w: spec_fn(Variable) -> int,
) -> int
    decreases candidates.len(),
{
    if candidates.len() == 0 {
        0
    } else {
        candidates_sum(candidates.drop_last(), high, w) + candidates.last().flag.value(w)
            * candidate_limb(candidates.last(), high, w)
    }
}

/// The sum of all candidates for the destination register, each times its flag.
pub open spec fn rd_sum(
    results: Seq<CommonDiffs>,
    high: bool,
    w: spec_fn(Variable) -> int,
) -> int
    decreases results.len(),
{
    if results.len() == 0 {
        0
    } else {
        rd_sum(results.drop_last(), high, w) + candidates_sum(
            results.last().rd_value@,
            high,
            w,
        )
    }
}

fn add_candidates(
    sum: Constraint,
    candidates: &Vec<RdCandidate>,
    high: bool,
    Ghost(s): Ghost<spec_fn(spec_fn(Variable) -> int) -> int>,
) -> (r: Constraint)
    requires
        forall|k: int|
            0 <= k < candidates@.len() ==> (#[trigger] candidates@[k]).low.is_linear()
                && candidates@[k].high.is_linear(),
        forall|w: spec_fn(Variable) -> int| #[trigger] sum.value(w) == field::residue(s(w)),
    ensures
        forall|w: spec_fn(Variable) -> int| #[trigger]
            r.value(w) == field::residue(s(w) + candidates_sum(candidates@, high, w)),
{
    let mut total = sum;
    let mut k: usize = 0;
    while k < candidates.len()
        invariant
            k <= candidates@.len(),
            forall|j: int|
                0 <= j < candidates@.len() ==> (#[trigger] candidates@[j]).low.is_linear()
                    && candidates@[j].high.is_linear(),
            forall|w: spec_fn(Variable) -> int| #[trigger]
                total.value(w) == field::residue(
                    s(w) + candidates_sum(candidates@.take(k as int), high, w),
                ),
        decreases candidates@.len() - k,
    {
        let candidate = &candidates[k];
        assert(candidates@[k as int] == *candidate);
        let flag = Constraint::weighted_boolean(candidate.flag, 1);
        let limb = if high {
            candidate.high.duplicate()
        } else {
            candidate.low.duplicate()
        };
        assert(limb.is_linear());
        let product = flag.times(&limb);
        let ghost before = total;
        total = total.plus(&product);
        proof {
            assert(candidates@.take(k + 1).drop_last() =~= candidates@.take(k as int));
            assert forall|w: spec_fn(Variable) -> int| #[trigger]
                total.value(w) == field::residue(
                    s(w) + candidates_sum(candidates@.take(k + 1), high, w),
                ) by {
                let f = candidate.flag.value(w);
                let v = candidate_limb(*candidate, high, w);
                let rest = s(w) + candidates_sum(candidates@.take(k as int), high, w);
                assert(1 * f == f);
                assert(limb.value(w) == v);
                field::lemma_residue_absorb(f, v);
                assert(product.value(w) == field::residue(f * v));
                assert(before.value(w) == field::residue(rest));
                expression::lemma_combine(rest, f * v);
            }
        }
        k = k + 1;
    }
    assert(candidates@.take(k as int) =~= candidates@);
    total
}

fn rd_expression(results: &Vec<CommonDiffs>, high: bool) -> (r: Constraint)
    requires
        candidates_are_linear(results@),
    ensures
        forall|w: spec_fn(Variable) -> int| #[trigger]
            r.value(w) == field::residue(rd_sum(results@, high, w)),
{
    let mut total = Constraint::empty();
    let mut i: usize = 0;
    while i < results.len()
        invariant
            i <= results@.len(),
            candidates_are_linear(results@),
            forall|w: spec_fn(Variable) -> int| #[trigger]
                total.value(w) == field::residue(rd_sum(results@.take(i as int), high, w)),
        decreases results@.len() - i,
    {
        let ghost so_far = |w: spec_fn(Variable) -> int| rd_sum(results@.take(i as int), high, w);
        proof {
            assert forall|k: int| 0 <= k < results@[i as int].rd_value@.len() implies (
            #[trigger] results@[i as int].rd_value@[k]).low.is_linear()
                && results@[i as int].rd_value@[k].high.is_linear() by {}
            assert forall|w: spec_fn(Variable) -> int| #[trigger]
                total.value(w) == field::residue(so_far(w)) by {}
        }
        total = add_candidates(total, &results[i].rd_value, high, Ghost(so_far));
        assert(results@.take(i + 1).drop_last() =~= results@.take(i as int));
        i = i + 1;
    }
    assert(results@.take(i as int) =~= results@);
    total
}

/// The value that the destination register gets: the sum of all candidates, each times its flag.
pub fn select_final_rd_value(cs: &mut BasicAssembly, results: &Vec<CommonDiffs>) -> (r: Register)
    requires
        candidates_are_linear(results@),
        old(cs).next() + 2 <= usize::MAX,
    ensures
        r.low == Variable(old(cs).next() as usize),
        r.high == Variable((old(cs).next() + 1) as usize),
        final(cs).next() == old(cs).next() + 2,
        forall|w: spec_fn(Variable) -> int, t: TableContents| #[trigger]
            final(cs).satisfied(w, t) <==> old(cs).satisfied(w, t) && field::residue(w(r.low))
                == field::residue(rd_sum(results@, false, w)) && field::residue(w(r.high))
                == field::residue(rd_sum(results@, true, w)),
        forall|w: spec_fn(Variable) -> int, t: TableContents, x: OutsideValues| #[trigger]
            final(cs).computed(w, t, x) <==> old(cs).computed(w, t, x) && w(r.low)
                == field::residue(rd_sum(results@, false, w)) && w(r.high) == field::residue(
                rd_sum(results@, true, w),
            ),
{
    let low_expression = rd_expression(results, false);
    let low = cs.add_variable_from_constraint(low_expression);
    let ghost middle = *cs;
    let high_expression = rd_expression(results, true);
    let high = cs.add_variable_from_constraint(high_expression);
    proof {
        assert forall|w: spec_fn(Variable) -> int, t: TableContents| #[trigger]
            cs.satisfied(w, t) <==> old(cs).satisfied(w, t) && field::residue(w(low))
                == field::residue(rd_sum(results@, false, w)) && field::residue(w(high))
                == field::residue(rd_sum(results@, true, w)) by {
            assert(middle.satisfied(w, t) <==> old(cs).satisfied(w, t) && field::residue(w(low))
                == low_expression.value(w));
        }
        assert forall|w: spec_fn(Variable) -> int, t: TableContents, x: OutsideValues| #[trigger]
            cs.computed(w, t, x) <==> old(cs).computed(w, t, x) && w(low) == field::residue(
                rd_sum(results@, false, w),
            ) && w(high) == field::residue(rd_sum(results@, true, w)) by {
            assert(middle.computed(w, t, x) <==> old(cs).computed(w, t, x) && w(low)
                == low_expression.value(w));
        }
    }
    Register { low, high }
}

/// How much a family moves the program counter off its default, limb by limb, times its flag.
pub open spec fn pc_shift(
    diffs: CommonDiffs,
    default_limb: Variable,
    high: bool,
    w: spec_fn(Variable) -> int,
) -> int {
    match diffs.new_pc_value {
        NextPcValue::Default => 0,
        NextPcValue::Custom(pc) => diffs.exec_flag.value(w) * ((if high {
            w(pc.high)
        } else {
            w(pc.low)
        }) - w(default_limb)),
    }
}

pub open spec fn pc_sum(
    results: Seq<CommonDiffs>,
    default_limb: Variable,
    high: bool,
    w: spec_fn(Variable) -> int,
) -> int
    decreases results.len(),
{
    if results.len() == 0 {
        w(default_limb)
    } else {
        pc_sum(results.drop_last(), default_limb, high, w) + pc_shift(
            results.last(),
            default_limb,
            high,
            w,
        )
    }
}

fn pc_expression(results: &Vec<CommonDiffs>, default_limb: Variable, high: bool) -> (r: Constraint)
    ensures
        forall|w: spec_fn(Variable) -> int| #[trigger]
            r.value(w) == field::residue(pc_sum(results@, default_limb, high, w)),
{
    let mut total = Constraint::weighted(default_limb, 1);
    proof {
        assert forall|w: spec_fn(Variable) -> int| #[trigger]
            total.value(w) == field::residue(
                pc_sum(results@.take(0), default_limb, high, w),
            ) by {
            assert(1 * w(default_limb) == w(default_limb));
        }
    }
    let mut i: usize = 0;
    while i < results.len()
        invariant
            i <= results@.len(),
            forall|w: spec_fn(Variable) -> int| #[trigger]
                total.value(w) == field::residue(
                    pc_sum(results@.take(i as int), default_limb, high, w),
                ),
        decreases results@.len() - i,
    {
        let diffs = &results[i];
        assert(results@.take(i + 1).drop_last() =~= results@.take(i as int));
        match &diffs.new_pc_value {
            NextPcValue::Default => {},
            NextPcValue::Custom(pc) => {
                let limb = if high {
                    pc.high
                } else {
                    pc.low
                };
                let flag = Constraint::weighted_boolean(diffs.exec_flag, 1);
                let difference = Constraint::weighted(limb, 1).minus(
                    &Constraint::weighted(default_limb, 1),
                );
                let product = flag.times(&difference);
                let ghost before = total;
                total = total.plus(&product);
                proof {
                    assert forall|w: spec_fn(Variable) -> int| #[trigger]
                        total.value(w) == field::residue(
                            pc_sum(results@.take(i + 1), default_limb, high, w),
                        ) by {
                        let (f, x, y) = (diffs.exec_flag.value(w), w(limb), w(default_limb));
                        let rest = pc_sum(results@.take(i as int), default_limb, high, w);
                        assert(1 * f == f && 1 * x == x && 1 * y == y);
                        expression::lemma_combine(x, y);
                        assert(difference.value(w) == field::residue(x - y));
                        expression::lemma_combine(f, x - y);
                        assert(product.value(w) == field::residue(f * (x - y)));
                        assert(before.value(w) == field::residue(rest));
                        expression::lemma_combine(rest, f * (x - y));
                    }
                }
            },
        }
        i = i + 1;
    }
    assert(results@.take(i as int) =~= results@);
    total
}

/// The program counter of the next cycle: the default, unless a family with its flag set brings
/// its own.
pub fn select_final_pc_value(
    cs: &mut BasicAssembly,
    results: &Vec<CommonDiffs>,
    pc_next: Register,
) -> (r: Register)
    requires
        old(cs).next() + 2 <= usize::MAX,
    ensures
        r.low == Variable(old(cs).next() as usize),
        r.high == Variable((old(cs).next() + 1) as usize),
        final(cs).next() == old(cs).next() + 2,
        forall|w: spec_fn(Variable) -> int, t: TableContents| #[trigger]
            final(cs).satisfied(w, t) <==> old(cs).satisfied(w, t) && field::residue(w(r.low))
                == field::residue(pc_sum(results@, pc_next.low, false, w)) && field::residue(
                w(r.high),
            ) == field::residue(pc_sum(results@, pc_next.high, true, w)),
        forall|w: spec_fn(Variable) -> int, t: TableContents, x: OutsideValues| #[trigger]
            final(cs).computed(w, t, x) <==> old(cs).computed(w, t, x) && w(r.low)
                == field::residue(pc_sum(results@, pc_next.low, false, w)) && w(r.high)
                == field::residue(pc_sum(results@, pc_next.high, true, w)),
{
    let low_expression = pc_expression(results, pc_next.low, false);
    let low = cs.add_variable_from_constraint(low_expression);
    let ghost middle = *cs;
    let high_expression = pc_expression(results, pc_next.high, true);
    let high = cs.add_variable_from_constraint(high_expression);
    proof {
        assert forall|w: spec_fn(Variable) -> int, t: TableContents| #[trigger]
            cs.satisfied(w, t) <==> old(cs).satisfied(w, t) && field::residue(w(low))
                == field::residue(pc_sum(results@, pc_next.low, false, w)) && field::residue(
                w(high),
            ) == field::residue(pc_sum(results@, pc_next.high, true, w)) by {
            assert(middle.satisfied(w, t) <==> old(cs).satisfied(w, t) && field::residue(w(low))
                == low_expression.value(w));
        }
        assert forall|w: spec_fn(Variable) -> int, t: TableContents, x: OutsideValues| #[trigger]
            cs.computed(w, t, x) <==> old(cs).computed(w, t, x) && w(low) == field::residue(
                pc_sum(results@, pc_next.low, false, w),
            ) && w(high) == field::residue(pc_sum(results@, pc_next.high, true, w)) by {
            assert(middle.computed(w, t, x) <==> old(cs).computed(w, t, x) && w(low)
                == low_expression.value(w));
        }
    }
    Register { low, high }
}

/// Exactly the family at `active` has its flag set.
pub open spec fn one_family(
    results: Seq<CommonDiffs>,
    active: int,
    w: spec_fn(Variable) -> int,
) -> bool {
    forall|i: int|
        0 <= i < results.len() ==> (#[trigger] results[i]).exec_flag.value(w) == if i == active {
            1int
        } else {
            0
        }
}

/// With one family active, the next program counter is the one that it brings, or the default.
pub proof fn law_next_pc_is_the_active_one(
    results: Seq<CommonDiffs>,
    active: int,
    default_limb: Variable,
    high: bool,
    w: spec_fn(Variable) -> int,
)
    requires
        one_family(results, active, w),
    ensures
        pc_sum(results, default_limb, high, w) == if 0 <= active < results.len() {
            match results[active].new_pc_value {
                NextPcValue::Default => w(default_limb),
                NextPcValue::Custom(pc) => if high {
                    w(pc.high)
                } else {
                    w(pc.low)
                },
            }
        } else {
            w(default_limb)
        },
    decreases results.len(),
{
    if results.len() > 0 {
        let shorter = results.drop_last();
        let last = results.len() - 1;
        assert forall|i: int| 0 <= i < shorter.len() implies (
        #[trigger] shorter[i]).exec_flag.value(w) == if i == active {
            1int
        } else {
            0
        } by {
            assert(shorter[i] == results[i]);
        }
        law_next_pc_is_the_active_one(shorter, active, default_limb, high, w);
        assert(results[last].exec_flag.value(w) == if last == active {
            1int
        } else {
            0
        });
        match results[last].new_pc_value {
            NextPcValue::Default => {},
            NextPcValue::Custom(pc) => {
                let limb = if high {
                    w(pc.high)
                } else {
                    w(pc.low)
                };
                assert(0 * (limb - w(default_limb)) == 0);
                assert(1 * (limb - w(default_limb)) == limb - w(default_limb));
            },
        }
    }
}

/// All candidates of a family have their flags off.
pub open spec fn is_silent(diffs: CommonDiffs, w: spec_fn(Variable) -> int) -> bool {
    forall|k: int|
        0 <= k < diffs.rd_value@.len() ==> (#[trigger] diffs.rd_value@[k]).flag.value(w) == 0
}

proof fn lemma_silent_sum(
    candidates: Seq<RdCandidate>,
    high: bool,
    w: spec_fn(Variable) -> int,
)
    requires
        forall|k: int|
            0 <= k < candidates.len() ==> (#[trigger] candidates[k]).flag.value(w) == 0,
    ensures
        candidates_sum(candidates, high, w) == 0,
    decreases candidates.len(),
{
    if candidates.len() > 0 {
        let shorter = candidates.drop_last();
        assert forall|k: int| 0 <= k < shorter.len() implies (
        #[trigger] shorter[k]).flag.value(w) == 0 by {
            assert(shorter[k] == candidates[k]);
        }
        lemma_silent_sum(shorter, high, w);
        let last = candidates.len() - 1;
        assert(candidates[last].flag.value(w) == 0);
        assert(0 * candidate_limb(candidates.last(), high, w) == 0);
    }
}

/// With one family speaking, the destination register gets what that family proposes.
pub proof fn law_rd_is_the_active_one(
    results: Seq<CommonDiffs>,
    active: int,
    high: bool,
    w: spec_fn(Variable) -> int,
)
    requires
        0 <= active < results.len(),
        forall|i: int|
            0 <= i < results.len() && i != active ==> is_silent(#[trigger] results[i], w),
    ensures
        rd_sum(results, high, w) == candidates_sum(results[active].rd_value@, high, w),
{
    lemma_rd_sum(results, active, high, w);
}

proof fn lemma_rd_sum(
    results: Seq<CommonDiffs>,
    active: int,
    high: bool,
    w: spec_fn(Variable) -> int,
)
    requires
        forall|i: int|
            0 <= i < results.len() && i != active ==> is_silent(#[trigger] results[i], w),
    ensures
        rd_sum(results, high, w) == if 0 <= active < results.len() {
            candidates_sum(results[active].rd_value@, high, w)
        } else {
            0
        },
    decreases results.len(),
{
    if results.len() > 0 {
        let shorter = results.drop_last();
        let last = results.len() - 1;
        assert forall|i: int| 0 <= i < shorter.len() && i != active implies is_silent(
            #[trigger] shorter[i],
            w,
        ) by {
            assert(shorter[i] == results[i]);
        }
        lemma_rd_sum(shorter, active, high, w);
        if last != active {
            assert(is_silent(results[last], w));
            lemma_silent_sum(results[last].rd_value@, high, w);
        }
    }
}

/// With the flag of one candidate set and all others zero, the sum of the candidates is that one.
pub proof fn law_candidates_select(
    candidates: Seq<RdCandidate>,
    chosen: int,
    w: spec_fn(Variable) -> int,
)
    requires
        0 <= chosen < candidates.len(),
        forall|k: int|
            0 <= k < candidates.len() ==> (#[trigger] candidates[k]).flag.value(w) == if k
                == chosen {
                1int
            } else {
                0int
            },
    ensures
        candidates_sum(candidates, false, w) == candidates[chosen].low.value(w),
        candidates_sum(candidates, true, w) == candidates[chosen].high.value(w),
    decreases candidates.len(),
{
    let shorter = candidates.drop_last();
    let last = candidates.len() - 1;
    assert forall|k: int| 0 <= k < shorter.len() implies (
    #[trigger] shorter[k]).flag.value(w) == if k == chosen {
        1int
    } else {
        0int
    } by {
        assert(shorter[k] == candidates[k]);
    }
    let (low, high) = (candidates[last].low.value(w), candidates[last].high.value(w));
    assert(1 * low == low && 0 * low == 0 && 1 * high == high && 0 * high == 0);
    assert(candidates[last].flag.value(w) == if last == chosen {
        1int
    } else {
        0int
    });
    if chosen == last {
        lemma_silent_sum(shorter, false, w);
        lemma_silent_sum(shorter, true, w);
    } else {
        law_candidates_select(shorter, chosen, w);
    }
}

} // verus!
