//! Laws of the state machine and of the derivation engine, stated over the
//! mathematical models and proved once and for all.

use vstd::prelude::*;
use crate::amount::{parse_micro, MICRO_PER_UNIT};
use crate::model::{lemma_transition_preserves_wf, transition, Column, ModelView, Msg,
    DEFAULT_RATE_MICRO};
use crate::rational::{rat_add, rat_div, rat_eq, rat_mul, RationalModel};
use crate::derived::spec_convert;

verus! {

/// The state reached from `m` by a whole sequence of messages.
pub open spec fn run(m: ModelView, msgs: Seq<Msg>) -> ModelView
    decreases msgs.len(),
{
    if msgs.len() == 0 {
        m
    } else {
        run(transition(m, msgs[0]), msgs.drop_first())
    }
}

/// Any sequence of messages keeps the state well formed; in particular no two
/// entries ever come to share an id.
pub proof fn lemma_run_preserves_wf(m: ModelView, msgs: Seq<Msg>)
    requires
        m.wf(),
    ensures
        run(m, msgs).wf(),
    decreases msgs.len(),
{
    if msgs.len() > 0 {
        lemma_transition_preserves_wf(m, msgs[0]);
        lemma_run_preserves_wf(transition(m, msgs[0]), msgs.drop_first());
    }
}

/// In a well-formed state no two entries share an id.
pub proof fn lemma_wf_ids_unique(m: ModelView)
    requires
        m.wf(),
    ensures
        forall|i: int, j: int|
            0 <= i < m.entries.len() && 0 <= j < m.entries.len() && i != j
                ==> #[trigger] m.entries[i].id != #[trigger] m.entries[j].id,
{
}

/// Along a sequence made of `Add` messages alone, the id counter grows by one
/// per message, so it strictly increases at every step.
pub proof fn lemma_adds_increase_uid(m: ModelView, msgs: Seq<Msg>)
    requires
        forall|k: int| 0 <= k < msgs.len() ==> msgs[k] is Add,
    ensures
        run(m, msgs).uid == m.uid + msgs.len(),
    decreases msgs.len(),
{
    if msgs.len() > 0 {
        assert(msgs[0] is Add);
        lemma_adds_increase_uid(transition(m, msgs[0]), msgs.drop_first());
    }
}

/// An `Add` appends exactly one entry and advances the counter by one, even
/// when the pending value is empty.
pub proof fn lemma_add_empty_pending(m: ModelView)
    requires
        m.value.len() == 0,
    ensures
        transition(m, Msg::Add).entries.len() == m.entries.len() + 1,
        transition(m, Msg::Add).uid == m.uid + 1,
{
}

/// A rate text that does not parse resets the rate to the default, whatever
/// the rate was before.
pub proof fn lemma_update_rate_fallback(m: ModelView, text: String)
    requires
        parse_micro(text@) is None,
    ensures
        transition(m, Msg::UpdateRate(text)).l2r_rate == DEFAULT_RATE_MICRO as int,
        transition(m, Msg::UpdateRate(text)).entries == m.entries,
{
}

/// A rate text that parses sets the rate to exactly the parsed value.
pub proof fn lemma_update_rate_parsed(m: ModelView, text: String, v: int)
    requires
        parse_micro(text@) == Some(v),
    ensures
        transition(m, Msg::UpdateRate(text)).l2r_rate == v,
{
}

/// Conversion round trip: a left amount `a` shows `a * rate` on the right;
/// any right amount worth exactly that shows `a` again on the left.
pub proof fn lemma_convert_round_trip(a: int, b: int, rate: int)
    requires
        rate > 0,
        rat_eq(
            RationalModel { num: b, den: MICRO_PER_UNIT as int },
            spec_convert(a, Column::Left, rate).1,
        ),
    ensures
        rat_eq(
            spec_convert(b, Column::Right, rate).0,
            RationalModel { num: a, den: MICRO_PER_UNIT as int },
        ),
{
    let u = MICRO_PER_UNIT as int;
    assert(b * (u * u) == a * rate * u);
    assert(b * u == a * rate) by (nonlinear_arith)
        requires
            b * (u * u) == (a * rate) * u,
            u == 1_000_000,
    ;
}

/// A right-column amount's left display value is the amount divided by the
/// rate: `spec_convert` returns exactly that quotient of rationals.
pub proof fn lemma_convert_right_is_division(a: int, rate: int)
    requires
        rate > 0,
    ensures
        rat_eq(
            spec_convert(a, Column::Right, rate).0,
            rat_div(
                RationalModel { num: a, den: MICRO_PER_UNIT as int },
                RationalModel { num: rate, den: MICRO_PER_UNIT as int },
            ),
        ),
{
    let u = MICRO_PER_UNIT as int;
    assert(a * (u * rate) == (a * u) * rate) by (nonlinear_arith);
}

/// The left grand total is the left sum plus the right sum divided by the
/// rate: the fraction the engine returns is that sum of rationals.
pub proof fn lemma_left_total_formula(ls: int, rs: int, rate: int)
    requires
        rate > 0,
    ensures
        rat_eq(
            RationalModel {
                num: ls * rate + rs * (MICRO_PER_UNIT as int),
                den: (MICRO_PER_UNIT as int) * rate,
            },
            rat_add(
                RationalModel { num: ls, den: MICRO_PER_UNIT as int },
                RationalModel { num: rs, den: rate },
            ),
        ),
{
}

/// The right grand total is the left sum times the rate plus the right sum:
/// the fraction the engine returns is that combination of rationals.
pub proof fn lemma_right_total_formula(ls: int, rs: int, rate: int)
    requires
        rate > 0,
    ensures
        rat_eq(
            RationalModel {
                num: ls * rate + rs * (MICRO_PER_UNIT as int),
                den: (MICRO_PER_UNIT as int) * (MICRO_PER_UNIT as int),
            },
            rat_add(
                rat_mul(
                    RationalModel { num: ls, den: MICRO_PER_UNIT as int },
                    RationalModel { num: rate, den: MICRO_PER_UNIT as int },
                ),
                RationalModel { num: rs, den: MICRO_PER_UNIT as int },
            ),
        ),
{
    let u = MICRO_PER_UNIT as int;
    assert((ls * rate + rs * u) * ((u * u) * u) == ((ls * rate) * u + rs * (u * u)) * (u * u))
        by (nonlinear_arith);
}

/// Updating an id that no entry has leaves the state unchanged.
pub proof fn lemma_update_entry_missing_id(m: ModelView, id: usize, col: Column, text: String)
    requires
        forall|i: int| 0 <= i < m.entries.len() ==> #[trigger] m.entries[i].id != id as int,
    ensures
        transition(m, Msg::UpdateEntry(id, col, text)) == m,
{
    let t = transition(m, Msg::UpdateEntry(id, col, text));
    assert(t.entries =~= m.entries);
    assert(t =~= m);
}

} // verus!
