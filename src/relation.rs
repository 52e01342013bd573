//! Evaluation of the relation on a witness, and the range check built on it.

use crate::config::{lemma_pow_step, DecomposeRangeCheckConfig};
use crate::field::{field_add, field_from_u128, field_modulus, field_mul, field_sub, is_zero_repr, le_value};
use crate::witness::{digit_values, digits_of, lemma_round_trip, recompose, weighted_sum, DigitCell, ValueCell, Witness};
use vstd::arithmetic::div_mod::*;
use vstd::arithmetic::power::*;
use vstd::prelude::*;

verus! {

/// Where a witness breaks the relation.
#[derive(Clone, Copy, Debug, PartialEq, Eq, Structural)]
pub enum Failure {
    /// The recomposition identity fails on the anchor row.
    Recomposition,
    /// The lookup of the digit on this row finds no table entry.
    Lookup { row: usize },
}

/// The outcome of evaluating every identity and lookup of the relation.
#[derive(Clone, Copy, Debug, PartialEq, Eq, Structural)]
pub enum Verdict {
    Accepted,
    Rejected(Failure),
}

/// The field is larger than any `u128`.
proof fn lemma_modulus_exceeds_u128()
    ensures
        field_modulus() > 0xffff_ffff_ffff_ffff_ffff_ffff_ffff_ffff,
{
}

/// An integer strictly between `-m` and `m` that `m` divides is zero.
proof fn lemma_small_multiple_is_zero(x: int, m: int)
    requires
        m > 0,
        -m < x < m,
        x % m == 0,
    ensures
        x == 0,
{
    lemma_fundamental_div_mod(x, m);
    let q = x / m;
    assert(x == m * q);
    if q >= 1 {
        assert(m * q >= m) by (nonlinear_arith)
            requires
                q >= 1,
                m > 0,
        ;
    } else if q <= -1 {
        assert(m * q <= -m) by (nonlinear_arith)
            requires
                q <= -1,
                m > 0,
        ;
    } else {
        assert(m * q == 0) by (nonlinear_arith)
            requires
                q == 0,
        ;
    }
}

/// Digits below `base` have a weighted sum in `0..base^k`.
proof fn lemma_weighted_sum_bound(digits: Seq<int>, base: int, k: nat)
    requires
        base >= 2,
        k <= digits.len(),
        forall|i: int| 0 <= i < digits.len() ==> 0 <= #[trigger] digits[i] < base,
    ensures
        0 <= weighted_sum(digits, base, k) < pow(base, k),
    decreases k,
{
    if k == 0 {
        lemma_pow0(base);
    } else {
        let j = (k - 1) as nat;
        lemma_weighted_sum_bound(digits, base, j);
        lemma_pow_positive(base, j);
        lemma_pow_step(base, j);
        let d = digits[j as int];
        let p = pow(base, j);
        assert(0 <= d * p <= (base - 1) * p) by (nonlinear_arith)
            requires
                0 <= d < base,
                p > 0,
        ;
        assert((base - 1) * p + p == base * p) by (nonlinear_arith);
    }
}

/// The last digit of `v` lies below `base` exactly when `v` lies below `base^windows`.
proof fn lemma_top_digit(v: int, base: int, windows: nat)
    requires
        v >= 0,
        base >= 2,
        windows >= 1,
    ensures
        (v / pow(base, (windows - 1) as nat) < base) <==> (v < pow(base, windows)),
{
    let j = (windows - 1) as nat;
    let d = pow(base, j);
    lemma_pow_positive(base, j);
    lemma_pow_step(base, j);
    lemma_fundamental_div_mod(v, d);
    lemma_mod_bound(v, d);
    let q = v / d;
    let r = v % d;
    if q < base {
        assert(d * q + r < base * d) by (nonlinear_arith)
            requires
                q <= base - 1,
                0 <= r < d,
        ;
    } else {
        assert(d * q + r >= base * d) by (nonlinear_arith)
            requires
                q >= base,
                0 <= r,
                d > 0,
        ;
    }
}

impl DecomposeRangeCheckConfig {
    /// The recomposition identity on the anchor row: where `q_decompose` is
    /// set, the weighted digits less the value vanish in the field.
    pub open spec fn gate_holds(&self, anchor: ValueCell, digits: Seq<DigitCell>) -> bool {
        anchor.q_decompose ==> (recompose(digit_values(digits), self.base()) - anchor.value)
            % field_modulus() == 0
    }

    /// The lookup on a digit row: `q_lookup * digit` is a table entry.
    pub open spec fn lookup_holds(&self, cell: DigitCell) -> bool {
        (if cell.q_lookup {
            cell.digit as int
        } else {
            0
        }) < self.base()
    }

    /// The first digit row whose lookup fails.
    pub open spec fn first_failing_row(&self, digits: Seq<DigitCell>) -> int {
        choose|i: int|
            0 <= i < digits.len() && !self.lookup_holds(digits[i]) && forall|j: int|
                0 <= j < i ==> self.lookup_holds(#[trigger] digits[j])
    }

    /// The verdict on a witness: the identity is reported before the
    /// lookups, and of these the first row that fails.
    pub open spec fn verdict_of(&self, anchor: ValueCell, digits: Seq<DigitCell>) -> Verdict {
        if !self.gate_holds(anchor, digits) {
            Verdict::Rejected(Failure::Recomposition)
        } else if exists|i: int| 0 <= i < digits.len() && !self.lookup_holds(#[trigger] digits[i]) {
            Verdict::Rejected(Failure::Lookup { row: self.first_failing_row(digits) as usize })
        } else {
            Verdict::Accepted
        }
    }

    /// Evaluates the recomposition identity over the field.
    fn recomposition_holds(&self, anchor: &ValueCell, digits: &Vec<DigitCell>) -> (r: bool)
        requires
            self.wf(),
            digits@.len() == self.windows,
        ensures
            r == self.gate_holds(*anchor, digits@),
    {
        if !anchor.q_decompose {
            return true;
        }
        let ghost m = field_modulus();
        let ghost dv = digit_values(digits@);
        let ghost base = self.base();
        proof {
            lemma_modulus_exceeds_u128();
        }
        let mut acc = field_from_u128(0);
        let mut i: usize = 0;
        while i < digits.len()
            invariant
                self.wf(),
                m == field_modulus(),
                m > 0xffff_ffff_ffff_ffff_ffff_ffff_ffff_ffff,
                dv == digit_values(digits@),
                base == self.base(),
                digits@.len() == self.windows,
                i <= digits@.len(),
                le_value(acc@) < m,
                le_value(acc@) == weighted_sum(dv, base, i as nat) % m,
            decreases digits@.len() - i,
        {
            let d = field_from_u128(digits[i].digit);
            let w = field_from_u128(self.weights[i]);
            let t = field_mul(d, w);
            let next = field_add(acc, t);
            proof {
                assert(dv[i as int] == digits@[i as int].digit);
                assert(self.weights@[i as int] == pow(base, i as nat));
                lemma_add_mod_noop(weighted_sum(dv, base, i as nat), dv[i as int] * pow(base, i as nat), m);
                lemma_mod_bound(weighted_sum(dv, base, i as nat), m);
                lemma_mod_bound(dv[i as int] * pow(base, i as nat), m);
            }
            acc = next;
            i = i + 1;
            proof {
                lemma_mod_bound(weighted_sum(dv, base, i as nat), m);
            }
        }
        let v = field_from_u128(anchor.value);
        let diff = field_sub(acc, v);
        proof {
            lemma_small_mod(anchor.value as nat, m as nat);
            lemma_sub_mod_noop(weighted_sum(dv, base, i as nat), anchor.value as int, m);
            assert(recompose(dv, base) == weighted_sum(dv, base, i as nat));
        }
        is_zero_repr(&diff)
    }

    /// Evaluates the lookups row by row and reports the first that fails.
    fn first_failing_lookup(&self, digits: &Vec<DigitCell>) -> (r: Option<usize>)
        requires
            self.wf(),
        ensures
            r is None <==> forall|i: int|
                0 <= i < digits@.len() ==> self.lookup_holds(#[trigger] digits@[i]),
            r matches Some(row) ==> row < digits@.len() && !self.lookup_holds(digits@[row as int])
                && forall|j: int| 0 <= j < row ==> self.lookup_holds(#[trigger] digits@[j]),
    {
        let mut i: usize = 0;
        while i < digits.len()
            invariant
                self.wf(),
                i <= digits@.len(),
                forall|j: int| 0 <= j < i ==> self.lookup_holds(#[trigger] digits@[j]),
            decreases digits@.len() - i,
        {
            let cell = digits[i];
            let looked_up: u128 = if cell.q_lookup {
                cell.digit
            } else {
                0
            };
            if !self.table.contains(looked_up) {
                return Some(i);
            }
            i = i + 1;
        }
        None
    }

    /// Evaluates every identity and lookup of the relation on a witness.
    pub fn verify_witness(&self, witness: &Witness) -> (r: Verdict)
        requires
            self.wf(),
            witness.digits@.len() == self.windows,
        ensures
            r == self.verdict_of(witness.anchor, witness.digits@),
    {
        if !self.recomposition_holds(&witness.anchor, &witness.digits) {
            return Verdict::Rejected(Failure::Recomposition);
        }
        match self.first_failing_lookup(&witness.digits) {
            None => Verdict::Accepted,
            Some(row) => {
                proof {
                    let digits = witness.digits@;
                    let c = self.first_failing_row(digits);
                    assert(0 <= row < digits.len() && !self.lookup_holds(digits[row as int]));
                    if c < row {
                        assert(self.lookup_holds(digits[c]));
                    } else if c > row {
                        assert(self.lookup_holds(digits[row as int]));
                    }
                }
                Verdict::Rejected(Failure::Lookup { row })
            },
        }
    }

    /// Every value below the range is accepted.
    pub proof fn lemma_in_range_accepted(&self, value: u128)
        requires
            self.wf(),
            value < self.range,
        ensures
            self.verdict_of(self.assignment_of(value).0, self.assignment_of(value).1)
                == Verdict::Accepted,
    {
        self.lemma_verdict_of_assignment(value);
    }

    /// Every value from the range up is rejected, always at the lookup of the
    /// last digit row: the identity still holds, and no wraparound in the
    /// field can make the value pass.
    pub proof fn lemma_out_of_range_rejected(&self, value: u128)
        requires
            self.wf(),
            value >= self.range,
        ensures
            self.verdict_of(self.assignment_of(value).0, self.assignment_of(value).1)
                == Verdict::Rejected(Failure::Lookup { row: (self.windows - 1) as usize }),
    {
        self.lemma_verdict_of_assignment(value);
    }

    /// The verdict on the assigner's witness for `value`.
    proof fn lemma_verdict_of_assignment(&self, value: u128)
        requires
            self.wf(),
        ensures
            value < self.range ==> self.verdict_of(
                self.assignment_of(value).0,
                self.assignment_of(value).1,
            ) == Verdict::Accepted,
            value >= self.range ==> self.verdict_of(
                self.assignment_of(value).0,
                self.assignment_of(value).1,
            ) == Verdict::Rejected(Failure::Lookup { row: (self.windows - 1) as usize }),
    {
        let base = self.base();
        let w = self.windows as nat;
        let (anchor, digits) = self.assignment_of(value);
        self.lemma_base_at_least_two();
        lemma_round_trip(value as int, base, w);
        assert forall|i: int| 0 <= i < w implies #[trigger] digit_values(digits)[i] == digits_of(
            value as int,
            base,
            w,
        )[i] by {
            lemma_pow_positive(base, i as nat);
            lemma_div_pos_is_pos(value as int, pow(base, i as nat));
            lemma_div_is_ordered_by_denominator(value as int, 1, pow(base, i as nat));
            if i + 1 < w {
                lemma_mod_bound(value as int / pow(base, i as nat), base);
            }
        }
        assert(digit_values(digits) =~= digits_of(value as int, base, w));
        assert(recompose(digit_values(digits), base) == value);
        lemma_modulus_exceeds_u128();
        lemma_small_mod(0, field_modulus() as nat);
        assert(self.gate_holds(anchor, digits));
        assert forall|i: int| 0 <= i < w - 1 implies self.lookup_holds(#[trigger] digits[i]) by {
            lemma_pow_positive(base, i as nat);
            lemma_div_pos_is_pos(value as int, pow(base, i as nat));
            lemma_mod_bound(value as int / pow(base, i as nat), base);
            assert(digit_values(digits)[i] == digits[i].digit);
        }
        let top = w - 1;
        lemma_top_digit(value as int, base, w);
        assert(digit_values(digits)[top] == digits[top].digit);
        if value >= self.range {
            assert(!self.lookup_holds(digits[top]));
            let c = self.first_failing_row(digits);
            assert(forall|j: int| 0 <= j < top ==> self.lookup_holds(#[trigger] digits[j]));
            if c < top {
                assert(self.lookup_holds(digits[c]));
            } else if c > top {
                assert(self.lookup_holds(digits[top]));
            }
        } else {
            assert(self.lookup_holds(digits[top]));
            assert(forall|j: int| 0 <= j < digits.len() ==> self.lookup_holds(#[trigger] digits[j]));
        }
    }

    /// A witness with every selector on that the relation accepts holds a
    /// value below the range, whose digits sum to it exactly: the field
    /// never lets an out-of-range value through by wrapping around.
    pub proof fn lemma_accepted_witness_in_range(&self, anchor: ValueCell, digits: Seq<DigitCell>)
        requires
            self.wf(),
            digits.len() == self.windows,
            anchor.q_decompose,
            forall|i: int| 0 <= i < digits.len() ==> (#[trigger] digits[i]).q_lookup,
            self.verdict_of(anchor, digits) == Verdict::Accepted,
        ensures
            anchor.value < self.range,
            recompose(digit_values(digits), self.base()) == anchor.value,
    {
        let base = self.base();
        let dv = digit_values(digits);
        self.lemma_base_at_least_two();
        lemma_modulus_exceeds_u128();
        assert forall|i: int| 0 <= i < dv.len() implies 0 <= #[trigger] dv[i] < base by {
            assert(self.lookup_holds(digits[i]));
        }
        lemma_weighted_sum_bound(dv, base, dv.len());
        lemma_small_multiple_is_zero(recompose(dv, base) - anchor.value, field_modulus());
    }

    /// Two assignments of the same value meet the same verdict.
    pub proof fn lemma_verdict_deterministic(&self, value: u128, first: Witness, second: Witness)
        requires
            self.wf(),
            (first.anchor, first.digits@) == self.assignment_of(value),
            (second.anchor, second.digits@) == self.assignment_of(value),
        ensures
            self.verdict_of(first.anchor, first.digits@) == self.verdict_of(
                second.anchor,
                second.digits@,
            ),
    {
    }

    /// Assigns the cells for `value` and evaluates the relation on them:
    /// accepted exactly when `value < range`, and otherwise rejected at the
    /// lookup of the last digit row.
    pub fn check(&self, value: u128) -> (r: Verdict)
        requires
            self.wf(),
        ensures
            r == self.verdict_of(self.assignment_of(value).0, self.assignment_of(value).1),
            value < self.range ==> r == Verdict::Accepted,
            value >= self.range ==> r == Verdict::Rejected(
                Failure::Lookup { row: (self.windows - 1) as usize },
            ),
    {
        let witness = self.synthesize(value);
        proof {
            self.lemma_verdict_of_assignment(value);
        }
        self.verify_witness(&witness)
    }
}

} // verus!
