//! The fixed lookup table of admissible digits.

use vstd::prelude::*;

verus! {

/// The table `{0, ..., lookup_range - 1}` that every digit must belong to.
/// It is loaded once and only read afterwards.
#[derive(Clone, Debug)]
pub struct RangeTable {
    pub lookup_range: u64,
    pub entries: Vec<u64>,
}

/// Why a range check could not be set up.
#[derive(Clone, Copy, Debug, PartialEq, Eq, Structural)]
pub enum ConfigError {
    /// The table has more entries than the system has rows.
    TableExceedsRows,
    /// The digit width is not in `1..=63`, or the table size is not two to its power.
    DigitWidthMismatch,
    /// The table size exceeds the maximum constraint degree less one.
    LookupExceedsDegree,
    /// The range is not a positive power of the table size.
    RangeNotPower,
    /// The digit width times the number of windows exceeds 64 bits.
    ExceedsNativeWidth,
}

impl RangeTable {
    /// The table holds exactly `0, 1, ..., lookup_range - 1`, in that order.
    pub open spec fn wf(&self) -> bool {
        &&& self.entries@.len() == self.lookup_range
        &&& forall|i: int| 0 <= i < self.entries@.len() ==> self.entries@[i] == i
    }

    /// Builds the table of `lookup_range` entries; it must fit in `max_rows` rows.
    pub fn load(lookup_range: u64, max_rows: u64) -> (r: Result<RangeTable, ConfigError>)
        ensures
            lookup_range > max_rows ==> r == Err::<RangeTable, ConfigError>(
                ConfigError::TableExceedsRows,
            ),
            lookup_range <= max_rows ==> (r matches Ok(t) && t.wf() && t.lookup_range
                == lookup_range),
    {
        if lookup_range > max_rows {
            return Err(ConfigError::TableExceedsRows);
        }
        let mut entries: Vec<u64> = Vec::new();
        let mut i: u64 = 0;
        while i < lookup_range
            invariant
                i <= lookup_range,
                entries@.len() == i,
                forall|j: int| 0 <= j < i ==> entries@[j] == j,
            decreases lookup_range - i,
        {
            entries.push(i);
            i = i + 1;
        }
        Ok(RangeTable { lookup_range, entries })
    }

    /// Whether the field element with canonical value `x` is an entry of the table.
    pub fn contains(&self, x: u128) -> (r: bool)
        requires
            self.wf(),
        ensures
            r == (x < self.lookup_range),
    {
        let mut i: usize = 0;
        while i < self.entries.len()
            invariant
                self.wf(),
                i <= self.entries@.len(),
                forall|j: int| 0 <= j < i ==> self.entries@[j] != x,
            decreases self.entries@.len() - i,
        {
            if self.entries[i] as u128 == x {
                return true;
            }
            i = i + 1;
        }
        proof {
            if x < self.lookup_range {
                assert(self.entries@[x as int] == x);
            }
        }
        false
    }
}

} // verus!
