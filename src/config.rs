//! The shape of the relation: its parameters, checked once at setup, and the
//! positional weights that the recomposition identity uses.

use crate::table::{ConfigError, RangeTable};
use vstd::arithmetic::div_mod::*;
use vstd::arithmetic::power::*;
use vstd::arithmetic::power2::*;
use vstd::prelude::*;

verus! {

/// `pow(b, e + 1)` unfolds to `b * pow(b, e)`.
pub(crate) proof fn lemma_pow_step(b: int, e: nat)
    ensures
        pow(b, e + 1) == b * pow(b, e),
{
    reveal(pow);
}

/// For a base above one, each power is reached by one exponent only.
proof fn lemma_pow_injective(b: nat, e1: nat, e2: nat)
    requires
        b > 1,
        pow(b as int, e1) == pow(b as int, e2),
    ensures
        e1 == e2,
{
    if e1 < e2 {
        lemma_pow_strictly_increases(b, e1, e2);
    } else if e2 < e1 {
        lemma_pow_strictly_increases(b, e2, e1);
    }
}

/// `range` is `base` to some positive power.
pub open spec fn is_power_of(range: int, base: int) -> bool {
    exists|w: nat| w >= 1 && pow(base, w) == range
}

/// The positive exponent that takes `base` to `range`, where there is one.
pub open spec fn windows_for(range: int, base: int) -> nat {
    choose|w: nat| w >= 1 && pow(base, w) == range
}

/// The first rule, in the order below, that a choice of parameters breaks:
/// the table size must be two to the digit width, with a width in `1..=63`;
/// the table size must not exceed `max_degree - 1`; the range must be a
/// positive power of the table size; and the windows must span at most 64 bits.
pub open spec fn config_error(range: int, digit_width: nat, lookup_range: int, max_degree: int) -> Option<
    ConfigError,
> {
    if !(1 <= digit_width <= 63 && lookup_range == pow2(digit_width)) {
        Some(ConfigError::DigitWidthMismatch)
    } else if lookup_range > max_degree - 1 {
        Some(ConfigError::LookupExceedsDegree)
    } else if !is_power_of(range, lookup_range) {
        Some(ConfigError::RangeNotPower)
    } else if windows_for(range, lookup_range) * digit_width > 64 {
        Some(ConfigError::ExceedsNativeWidth)
    } else {
        None
    }
}

/// The layout of a range check of `0 <= v < range`: a value column used on the
/// anchor row, a digit column used on `windows` consecutive rows, the selectors
/// `q_decompose` and `q_lookup`, the lookup table, and the weight
/// `lookup_range^i` of the digit on row `i`.
#[derive(Clone, Debug)]
pub struct DecomposeRangeCheckConfig {
    pub range: u128,
    pub digit_width: u32,
    pub windows: u32,
    pub weights: Vec<u128>,
    pub table: RangeTable,
}

impl DecomposeRangeCheckConfig {
    /// The size of the lookup table, which is the base of the digits.
    pub open spec fn base(&self) -> int {
        self.table.lookup_range as int
    }

    pub open spec fn wf(&self) -> bool {
        &&& self.table.wf()
        &&& config_error(
            self.range as int,
            self.digit_width as nat,
            self.base(),
            self.base() + 1,
        ) is None
        &&& self.windows >= 1
        &&& pow(self.base(), self.windows as nat) == self.range
        &&& self.weights@.len() == self.windows
        &&& forall|i: int|
            0 <= i < self.windows ==> #[trigger] self.weights@[i] == pow(self.base(), i as nat)
    }

    /// A well-formed layout has a base of at least two.
    pub proof fn lemma_base_at_least_two(&self)
        requires
            self.wf(),
        ensures
            self.base() >= 2,
    {
        lemma_pow2_strictly_increases(0, self.digit_width as nat);
        lemma2_to64();
    }

    /// Declares the relation for `0 <= v < range`, with digits of `digit_width`
    /// bits checked against `table`, under a proving system whose constraints
    /// have degree at most `max_degree`.
    pub fn configure(range: u128, digit_width: u32, table: RangeTable, max_degree: u64) -> (r: Result<
        Self,
        ConfigError,
    >)
        requires
            table.wf(),
        ensures
            r matches Err(e) ==> config_error(
                range as int,
                digit_width as nat,
                table.lookup_range as int,
                max_degree as int,
            ) == Some(e),
            config_error(range as int, digit_width as nat, table.lookup_range as int, max_degree as int)
                is None ==> (r matches Ok(c) && c.wf() && c.range == range && c.digit_width
                == digit_width && c.table == table && c.windows == windows_for(
                range as int,
                table.lookup_range as int,
            )),
    {
        let lookup_range = table.lookup_range;
        if digit_width == 0 || digit_width > 63 {
            return Err(ConfigError::DigitWidthMismatch);
        }
        let mut two_pow: u64 = 1;
        let mut i: u32 = 0;
        proof {
            lemma2_to64();
        }
        while i < digit_width
            invariant
                1 <= digit_width <= 63,
                i <= digit_width,
                two_pow == pow2(i as nat),
            decreases digit_width - i,
        {
            proof {
                lemma_pow2_strictly_increases(i as nat + 1, 64);
                lemma2_to64();
                lemma_pow2_adds(i as nat, 1);
            }
            two_pow = two_pow * 2;
            i = i + 1;
        }
        if lookup_range != two_pow {
            return Err(ConfigError::DigitWidthMismatch);
        }
        if lookup_range >= max_degree {
            return Err(ConfigError::LookupExceedsDegree);
        }
        proof {
            lemma_pow2_strictly_increases(0, digit_width as nat);
            lemma2_to64();
        }
        let base: u128 = lookup_range as u128;
        let ghost target = windows_for(range as int, base as int);
        let mut rest: u128 = range;
        let mut windows: u128 = 0;
        proof {
            lemma_pow0(base as int);
        }
        while rest > 1 && rest % base == 0
            invariant
                base >= 2,
                rest as int * pow(base as int, windows as nat) == range as int,
                windows + rest <= range,
                is_power_of(range as int, base as int) ==> (windows <= target && rest == pow(
                    base as int,
                    (target - windows) as nat,
                )),
            decreases rest,
        {
            proof {
                lemma_fundamental_div_mod(rest as int, base as int);
                lemma_pow_step(base as int, windows as nat);
                assert((rest / base) as int * pow(base as int, windows as nat + 1) == range) by {
                    assert(rest as int == base * (rest / base));
                    assert(pow(base as int, windows as nat + 1) == base * pow(
                        base as int,
                        windows as nat,
                    ));
                    assert((rest / base) as int * (base * pow(base as int, windows as nat)) == (
                    base * (rest / base)) * pow(base as int, windows as nat)) by (nonlinear_arith);
                }
                assert(rest / base <= rest - 1) by {
                    lemma_div_is_ordered_by_denominator(rest as int, 2, base as int);
                }
                if is_power_of(range as int, base as int) {
                    let e = (target - windows) as nat;
                    if e == 0 {
                        reveal(pow);
                    }
                    lemma_pow_step(base as int, (e - 1) as nat);
                    lemma_div_multiples_vanish(pow(base as int, (e - 1) as nat), base as int);
                }
            }
            rest = rest / base;
            windows = windows + 1;
        }
        proof {
            if is_power_of(range as int, base as int) {
                let e = (target - windows) as nat;
                if e > 0 {
                    lemma_pow_step(base as int, (e - 1) as nat);
                    lemma_mod_multiples_basic(pow(base as int, (e - 1) as nat), base as int);
                    lemma_pow_positive(base as int, (e - 1) as nat);
                    assert(rest % base == 0);
                    assert(rest >= base) by (nonlinear_arith)
                        requires
                            rest == base * pow(base as int, (e - 1) as nat),
                            pow(base as int, (e - 1) as nat) >= 1,
                            base >= 2,
                    ;
                }
                reveal(pow);
            }
        }
        if rest != 1 || windows == 0 {
            return Err(ConfigError::RangeNotPower);
        }
        proof {
            assert(pow(base as int, windows as nat) == range);
            assert(is_power_of(range as int, base as int));
            lemma_pow_injective(base as nat, windows as nat, target);
        }
        proof {
            if windows <= 64 {
                assert(windows * digit_width <= 64 * 63) by (nonlinear_arith)
                    requires
                        windows <= 64,
                        digit_width <= 63,
                ;
            } else {
                assert(windows * digit_width > 64) by (nonlinear_arith)
                    requires
                        windows > 64,
                        digit_width >= 1,
                ;
            }
        }
        if windows > 64 || windows * (digit_width as u128) > 64 {
            return Err(ConfigError::ExceedsNativeWidth);
        }
        assert(windows <= 64) by (nonlinear_arith)
            requires
                windows * digit_width <= 64,
                digit_width >= 1,
        ;
        let windows: u32 = windows as u32;
        let mut weights: Vec<u128> = Vec::new();
        let mut weight: u128 = 1;
        let mut k: u32 = 0;
        proof {
            reveal(pow);
        }
        while k < windows
            invariant
                base >= 2,
                windows >= 1,
                pow(base as int, windows as nat) == range,
                k <= windows,
                weights@.len() == k,
                k < windows ==> weight == pow(base as int, k as nat),
                forall|j: int| 0 <= j < k ==> #[trigger] weights@[j] == pow(base as int, j as nat),
            decreases windows - k,
        {
            weights.push(weight);
            if k + 1 < windows {
                proof {
                    lemma_pow_step(base as int, k as nat);
                    lemma_pow_increases(base as nat, (k + 1) as nat, windows as nat);
                }
                weight = weight * base;
            }
            k = k + 1;
        }
        Ok(DecomposeRangeCheckConfig { range, digit_width, windows, weights, table })
    }

    /// Sets a range check up: loads the table of `lookup_range` entries into
    /// at most `max_rows` rows, then declares the relation on it.
    pub fn setup(
        range: u128,
        digit_width: u32,
        lookup_range: u64,
        max_degree: u64,
        max_rows: u64,
    ) -> (r: Result<Self, ConfigError>)
        ensures
            lookup_range > max_rows ==> r == Err::<Self, ConfigError>(
                ConfigError::TableExceedsRows,
            ),
            lookup_range <= max_rows ==> (r matches Err(e) ==> config_error(
                range as int,
                digit_width as nat,
                lookup_range as int,
                max_degree as int,
            ) == Some(e)),
            lookup_range <= max_rows && config_error(
                range as int,
                digit_width as nat,
                lookup_range as int,
                max_degree as int,
            ) is None ==> (r matches Ok(c) && c.wf() && c.range == range && c.digit_width
                == digit_width && c.base() == lookup_range && c.windows == windows_for(
                range as int,
                lookup_range as int,
            )),
    {
        let table = match RangeTable::load(lookup_range, max_rows) {
            Ok(t) => t,
            Err(e) => return Err(e),
        };
        Self::configure(range, digit_width, table, max_degree)
    }
}

} // verus!
