//! Witness assignment: the value on the anchor row and its digits on the rows
//! below, with the selectors that switch the constraints on.

use crate::config::{lemma_pow_step, DecomposeRangeCheckConfig};
use vstd::arithmetic::div_mod::*;
use vstd::arithmetic::power::*;
use vstd::prelude::*;

verus! {

/// The digit at position `i` of `v` written in base `base` with `windows`
/// digits: `floor(v / base^i) mod base`, except that the last digit keeps all
/// of `floor(v / base^(windows - 1))`, so that a value too large for the
/// windows shows up as a last digit outside the table.
pub open spec fn digit_of(v: int, base: int, windows: nat, i: nat) -> int {
    if i + 1 < windows {
        (v / pow(base, i)) % base
    } else {
        v / pow(base, i)
    }
}

/// The `windows` digits of `v` in base `base`.
pub open spec fn digits_of(v: int, base: int, windows: nat) -> Seq<int> {
    Seq::new(windows, |i: int| digit_of(v, base, windows, i as nat))
}

/// `digits[0] * base^0 + ... + digits[k - 1] * base^(k - 1)`.
pub open spec fn weighted_sum(digits: Seq<int>, base: int, k: nat) -> int
    decreases k,
{
    if k == 0 {
        0
    } else {
        weighted_sum(digits, base, (k - 1) as nat) + digits[k - 1] * pow(base, (k - 1) as nat)
    }
}

/// The value that a sequence of digits stands for in base `base`.
pub open spec fn recompose(digits: Seq<int>, base: int) -> int {
    weighted_sum(digits, base, digits.len())
}

/// The first `k` digits sum to `v mod base^k`, as long as none of them is the last.
proof fn lemma_prefix_sum(v: int, base: int, windows: nat, k: nat)
    requires
        v >= 0,
        base >= 2,
        k < windows,
    ensures
        weighted_sum(digits_of(v, base, windows), base, k) == v % pow(base, k),
    decreases k,
{
    let d = digits_of(v, base, windows);
    if k == 0 {
        lemma_pow0(base);
    } else {
        let j = (k - 1) as nat;
        lemma_prefix_sum(v, base, windows, j);
        lemma_pow_positive(base, j);
        lemma_pow_step(base, j);
        lemma_mod_breakdown(v, pow(base, j), base);
        assert(d[j as int] == (v / pow(base, j)) % base);
        assert(pow(base, j) * base == base * pow(base, j)) by (nonlinear_arith);
        assert(d[j as int] * pow(base, j) == pow(base, j) * ((v / pow(base, j)) % base))
            by (nonlinear_arith)
            requires
                d[j as int] == (v / pow(base, j)) % base,
        ;
    }
}

/// Recomposing the digits of any value gives the value back.
pub proof fn lemma_round_trip(v: int, base: int, windows: nat)
    requires
        v >= 0,
        base >= 2,
        windows >= 1,
    ensures
        recompose(digits_of(v, base, windows), base) == v,
{
    let d = digits_of(v, base, windows);
    let j = (windows - 1) as nat;
    lemma_prefix_sum(v, base, windows, j);
    lemma_pow_positive(base, j);
    lemma_fundamental_div_mod(v, pow(base, j));
    assert(d[j as int] == v / pow(base, j));
    assert(d[j as int] * pow(base, j) == pow(base, j) * (v / pow(base, j))) by (nonlinear_arith)
        requires
            d[j as int] == v / pow(base, j),
    ;
}

/// The anchor row: the value under check and the selector of the
/// recomposition identity.
#[derive(Clone, Copy, Debug, PartialEq, Eq, Structural)]
pub struct ValueCell {
    pub value: u128,
    pub q_decompose: bool,
}

/// One digit row: the digit and the selector of its table lookup.
#[derive(Clone, Copy, Debug, PartialEq, Eq, Structural)]
pub struct DigitCell {
    pub digit: u128,
    pub q_lookup: bool,
}

/// The cells of one check: the anchor row and the digit rows `0..windows`.
#[derive(Clone, Debug)]
pub struct Witness {
    pub anchor: ValueCell,
    pub digits: Vec<DigitCell>,
}

/// The digits that a witness holds, as integers.
pub open spec fn digit_values(cells: Seq<DigitCell>) -> Seq<int> {
    Seq::new(cells.len(), |i: int| cells[i].digit as int)
}

impl DecomposeRangeCheckConfig {
    /// Digit rows for `value`: digit `i` as `digit_of` gives it, with its
    /// lookup switched on.
    pub open spec fn digit_rows_spec(&self, value: int) -> Seq<DigitCell> {
        Seq::new(
            self.windows as nat,
            |i: int|
                DigitCell {
                    digit: digit_of(value, self.base(), self.windows as nat, i as nat) as u128,
                    q_lookup: true,
                },
        )
    }

    /// The witness that the assigner writes for `value`.
    pub open spec fn assignment_of(&self, value: u128) -> (ValueCell, Seq<DigitCell>) {
        (ValueCell { value, q_decompose: true }, self.digit_rows_spec(value as int))
    }

    /// Writes the value to the anchor row and enables the recomposition identity there.
    pub fn assign_value(&self, value: u128) -> (r: ValueCell)
        ensures
            r == self.assignment_of(value).0,
    {
        ValueCell { value, q_decompose: true }
    }

    /// Writes the digits of `value` to the digit rows and enables the lookup on each.
    pub fn assign_decomposed_values(&self, value: u128) -> (r: Vec<DigitCell>)
        requires
            self.wf(),
        ensures
            r@ == self.assignment_of(value).1,
            digit_values(r@) == digits_of(value as int, self.base(), self.windows as nat),
    {
        let base: u128 = self.table.lookup_range as u128;
        let windows = self.windows;
        let mut rows: Vec<DigitCell> = Vec::new();
        let mut rest: u128 = value;
        let mut i: u32 = 0;
        proof {
            lemma_pow0(base as int);
            self.lemma_base_at_least_two();
        }
        while i < windows
            invariant
                self.wf(),
                base == self.base(),
                windows == self.windows,
                base >= 2,
                i <= windows,
                i < windows ==> rest == value as int / pow(base as int, i as nat),
                rows@.len() == i,
                forall|j: int| 0 <= j < i ==> #[trigger] rows@[j] == self.digit_rows_spec(value as int)[j],
            decreases windows - i,
        {
            proof {
                lemma_pow_positive(base as int, i as nat);
                lemma_div_pos_is_pos(value as int, pow(base as int, i as nat));
            }
            if i + 1 < windows {
                rows.push(DigitCell { digit: rest % base, q_lookup: true });
                proof {
                    lemma_div_denominator(value as int, pow(base as int, i as nat), base as int);
                    lemma_pow_step(base as int, i as nat);
                    assert(pow(base as int, i as nat) * base == base * pow(base as int, i as nat))
                        by (nonlinear_arith);
                }
                rest = rest / base;
            } else {
                rows.push(DigitCell { digit: rest, q_lookup: true });
            }
            i = i + 1;
        }
        assert(rows@ =~= self.digit_rows_spec(value as int));
        proof {
            self.lemma_base_at_least_two();
            assert forall|j: int| 0 <= j < windows implies #[trigger] digit_values(rows@)[j]
                == digits_of(value as int, base as int, windows as nat)[j] by {
                let jn = j as nat;
                lemma_pow_positive(base as int, jn);
                lemma_div_pos_is_pos(value as int, pow(base as int, jn));
                lemma_div_is_ordered_by_denominator(value as int, 1, pow(base as int, jn));
                if jn + 1 < windows {
                    lemma_mod_bound(value as int / pow(base as int, jn), base as int);
                }
            }
            assert(digit_values(rows@) =~= digits_of(value as int, base as int, windows as nat));
        }
        rows
    }

    /// The whole witness for `value`: the anchor row and the digit rows.
    pub fn synthesize(&self, value: u128) -> (r: Witness)
        requires
            self.wf(),
        ensures
            (r.anchor, r.digits@) == self.assignment_of(value),
            digit_values(r.digits@) == digits_of(value as int, self.base(), self.windows as nat),
    {
        let anchor = self.assign_value(value);
        let digits = self.assign_decomposed_values(value);
        Witness { anchor, digits }
    }
}

} // verus!
