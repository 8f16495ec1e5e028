//! The derivation engine: pure functions over the state that compute each
//! entry's value in both currencies, the per-column sums, and the grand
//! totals, all as exact values in micro-units or exact rationals.

use vstd::prelude::*;
use crate::amount::{amount_micro, lemma_amount_bound, parse_amount, MAX_AMOUNT_MICRO,
    MICRO_PER_UNIT};
use crate::model::{Column, Entry, EntryModel, Model};
use crate::rational::{Rational, RationalModel, RATIONAL_BOUND};

verus! {

/// Sum, in micro-units, of the parsed amounts of the entries in a column;
/// a description that does not parse contributes zero.
pub open spec fn spec_column_sum(entries: Seq<EntryModel>, col: Column) -> int
    decreases entries.len(),
{
    if entries.len() == 0 {
        0
    } else {
        spec_column_sum(entries.drop_last(), col) + if entries.last().column == col {
            amount_micro(entries.last().description)
        } else {
            0
        }
    }
}

/// The left and right display values of one entry: a left amount is itself on
/// the left and `amount * rate` on the right; a right amount is
/// `amount / rate` on the left and itself on the right.
pub open spec fn spec_convert(amount: int, column: Column, rate: int) -> (RationalModel, RationalModel) {
    match column {
        Column::Left => (
            RationalModel { num: amount, den: MICRO_PER_UNIT as int },
            RationalModel { num: amount * rate, den: (MICRO_PER_UNIT as int) * (MICRO_PER_UNIT as int) },
        ),
        Column::Right => (
            RationalModel { num: amount, den: rate },
            RationalModel { num: amount, den: MICRO_PER_UNIT as int },
        ),
    }
}

/// Whether the shared grand-total numerator and its two addends stay within
/// the representable range.
pub open spec fn totals_fit(ls: int, rs: int, rate: int) -> bool {
    &&& -(RATIONAL_BOUND as int) <= ls * rate <= RATIONAL_BOUND as int
    &&& -(RATIONAL_BOUND as int) <= rs * (MICRO_PER_UNIT as int) <= RATIONAL_BOUND as int
    &&& -(RATIONAL_BOUND as int) <= ls * rate + rs * (MICRO_PER_UNIT as int)
        <= RATIONAL_BOUND as int
}

/// Both display values of an entry under a positive rate, as exact rationals.
pub fn convert(entry: &Entry, rate_micro: i64) -> (r: (Rational, Rational))
    requires
        0 < rate_micro <= MAX_AMOUNT_MICRO,
    ensures
        r.0@ == spec_convert(amount_micro(entry@.description), entry@.column, rate_micro as int).0,
        r.1@ == spec_convert(amount_micro(entry@.description), entry@.column, rate_micro as int).1,
        r.0.wf(),
        r.1.wf(),
{
    let a: i64 = match parse_amount(entry.description.as_str()) {
        Some(v) => v,
        None => 0,
    };
    proof {
        lemma_amount_bound(entry.description@);
        assert(a as int == amount_micro(entry@.description));
    }
    match entry.column {
        Column::Left => {
            proof {
                assert(-(RATIONAL_BOUND as int) <= (a as int) * (rate_micro as int)
                    <= RATIONAL_BOUND as int) by (nonlinear_arith)
                    requires
                        -(MAX_AMOUNT_MICRO as int) <= a as int <= MAX_AMOUNT_MICRO as int,
                        0 < rate_micro as int <= MAX_AMOUNT_MICRO as int,
                ;
            }
            let num_right: i128 = (a as i128) * (rate_micro as i128);
            (Rational::new(a as i128, 1_000_000), Rational::new(num_right, 1_000_000_000_000))
        },
        Column::Right => {
            (Rational::new(a as i128, rate_micro as i128), Rational::new(a as i128, 1_000_000))
        },
    }
}

impl Model {
    /// Sum of the numeric values of the entries in `col`, in micro-units.
    #[verifier::loop_isolation(false)]
    pub fn get_sum_one_column(&self, col: Column) -> (s: i128)
        ensures
            s as int == spec_column_sum(self@.entries, col),
    {
        let n = self.entries.len();
        let mut s: i128 = 0;
        let mut i: usize = 0;
        while i < n
            invariant
                0 <= i <= n,
                s as int == spec_column_sum(self@.entries.subrange(0, i as int), col),
                -(i as int) * (MAX_AMOUNT_MICRO as int) <= s as int <= (i as int) * (
                MAX_AMOUNT_MICRO as int),
            decreases n - i,
        {
            let e = &self.entries[i];
            let a: i64 = match parse_amount(e.description.as_str()) {
                Some(v) => v,
                None => 0,
            };
            proof {
                lemma_amount_bound(e.description@);
                assert(e@ == self@.entries[i as int]);
                assert(a as int == amount_micro(self@.entries[i as int].description));
                assert(self@.entries.subrange(0, i as int + 1).drop_last() =~= self@.entries.subrange(
                    0,
                    i as int,
                ));
                assert(self@.entries.subrange(0, i as int + 1).last() == self@.entries[i as int]);
            }
            if e.column == col {
                s = s + a as i128;
            }
            i += 1;
        }
        proof {
            assert(self@.entries.subrange(0, n as int) =~= self@.entries);
        }
        s
    }

    /// Sum of the left-column entries, in micro-units.
    pub fn get_sum_left(&self) -> (s: i128)
        ensures
            s as int == spec_column_sum(self@.entries, Column::Left),
    {
        self.get_sum_one_column(Column::Left)
    }

    /// Sum of the right-column entries, in micro-units.
    pub fn get_sum_right(&self) -> (s: i128)
        ensures
            s as int == spec_column_sum(self@.entries, Column::Right),
    {
        self.get_sum_one_column(Column::Right)
    }

    /// Grand totals (left, right): each entry counted once in its own
    /// currency and once converted, so `left = leftSum + rightSum / rate` and
    /// `right = leftSum * rate + rightSum`. Both share the numerator
    /// `leftSum * rate + rightSum * 10^6`; the result is `None` exactly when
    /// that numerator or one of its addends leaves the representable range.
    pub fn totals(&self) -> (r: Option<(Rational, Rational)>)
        requires
            self.wf(),
            self@.l2r_rate > 0,
        ensures
            ({
                let ls = spec_column_sum(self@.entries, Column::Left);
                let rs = spec_column_sum(self@.entries, Column::Right);
                let rate = self@.l2r_rate;
                let n = ls * rate + rs * (MICRO_PER_UNIT as int);
                match r {
                    Some(t) => {
                        &&& totals_fit(ls, rs, rate)
                        &&& t.0@ == (RationalModel { num: n, den: (MICRO_PER_UNIT as int) * rate })
                        &&& t.1@ == (RationalModel {
                            num: n,
                            den: (MICRO_PER_UNIT as int) * (MICRO_PER_UNIT as int),
                        })
                        &&& t.0.wf()
                        &&& t.1.wf()
                    },
                    None => !totals_fit(ls, rs, rate),
                }
            }),
    {
        let ls = self.get_sum_one_column(Column::Left);
        let rs = self.get_sum_one_column(Column::Right);
        let rate = self.l2r_rate as i128;
        let a = match ls.checked_mul(rate) {
            Some(x) => x,
            None => {
                return None;
            },
        };
        if a > RATIONAL_BOUND || a < -RATIONAL_BOUND {
            return None;
        }
        let b = match rs.checked_mul(1_000_000) {
            Some(x) => x,
            None => {
                return None;
            },
        };
        if b > RATIONAL_BOUND || b < -RATIONAL_BOUND {
            return None;
        }
        let n = match a.checked_add(b) {
            Some(x) => x,
            None => {
                return None;
            },
        };
        if n > RATIONAL_BOUND || n < -RATIONAL_BOUND {
            return None;
        }
        let den_left = 1_000_000i128 * rate;
        Some((Rational::new(n, den_left), Rational::new(n, 1_000_000_000_000)))
    }
}

} // verus!
