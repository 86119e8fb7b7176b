//! The columns that are fixed before a program runs.
use crate::tables::rom;
use vstd::prelude::*;

verus! {

/// The columns of a timestamp.
pub const NUM_TIMESTAMP_COLUMNS_FOR_RAM: usize = 2;

/// The columns of a lookup row: three values and the number of the table.
pub const NUM_COLUMNS_FOR_COMMON_TABLE_WIDTH_SETUP: usize = 4;

/// Some groups of `WIDTH` adjacent columns.
#[derive(Clone, Copy, Debug)]
pub struct ColumnSet<const WIDTH: usize> {
    pub start: usize,
    pub num_elements: usize,
}

impl<const WIDTH: usize> ColumnSet<WIDTH> {
    /// The first column behind the set.
    pub open spec fn end(self) -> int {
        self.start + WIDTH * self.num_elements
    }

    /// No columns.
    pub fn empty() -> (r: Self)
        ensures
            r.start == 0,
            r.num_elements == 0,
    {
        ColumnSet { start: 0, num_elements: 0 }
    }

    /// Takes `num_elements` groups from `offset` on, and moves it behind them.
    pub fn layout_at(offset: &mut usize, num_elements: usize) -> (r: Self)
        requires
            *old(offset) + WIDTH * num_elements <= usize::MAX,
        ensures
            r.start == *old(offset),
            r.num_elements == num_elements,
            *final(offset) == r.end(),
    {
        let start: usize = *offset;
        assert(0 <= WIDTH * num_elements) by (nonlinear_arith);
        *offset = start + WIDTH * num_elements;
        ColumnSet { start, num_elements }
    }
}

/// The columns of the setup trace.
#[derive(Clone, Copy, Debug)]
pub struct SetupLayout {
    pub timestamp_setup_columns: ColumnSet<NUM_TIMESTAMP_COLUMNS_FOR_RAM>,
    pub range_check_16_setup_column: ColumnSet<1>,
    pub timestamp_range_check_setup_column: ColumnSet<1>,
    pub generic_lookup_setup_columns: ColumnSet<NUM_COLUMNS_FOR_COMMON_TABLE_WIDTH_SETUP>,
    pub total_width: usize,
}

/// How many groups of columns hold `length` rows, if each holds `capacity`.
pub open spec fn groups_for(length: int, capacity: int) -> int {
    if length % capacity == 0 {
        length / capacity
    } else {
        length / capacity + 1
    }
}

impl SetupLayout {
    /// Lays out the setup trace one set of columns after the other: timestamps if they are needed,
    /// the two range checks, and as many groups of lookup columns as it takes to hold all tables,
    /// of which each holds one row less than the trace has.
    pub fn layout_for_lookup_size(
        lookups_total_table_len: usize,
        trace_len: usize,
        need_shuffle_ram_timestamps: bool,
    ) -> (r: Self)
        requires
            rom::is_power_of_two(trace_len as int),
            trace_len > 1,
            4 + 4 * groups_for(lookups_total_table_len as int, trace_len - 1) <= usize::MAX,
        ensures
            r.generic_lookup_setup_columns.num_elements == groups_for(
                lookups_total_table_len as int,
                trace_len - 1,
            ),
            r.timestamp_setup_columns.start == 0,
            r.timestamp_setup_columns.num_elements == if need_shuffle_ram_timestamps {
                1int
            } else {
                0
            },
            r.range_check_16_setup_column.start == r.timestamp_setup_columns.end(),
            r.range_check_16_setup_column.num_elements == 1,
            r.timestamp_range_check_setup_column.start == r.range_check_16_setup_column.end(),
            r.timestamp_range_check_setup_column.num_elements == 1,
            r.generic_lookup_setup_columns.start == r.timestamp_range_check_setup_column.end(),
            r.total_width == r.generic_lookup_setup_columns.end(),
    {
        let encoding_capacity: usize = trace_len - 1;
        let ghost (length, capacity) = (lookups_total_table_len as int, trace_len - 1);
        let mut num_required_setup_tuples: usize = lookups_total_table_len / encoding_capacity;
        if lookups_total_table_len % encoding_capacity != 0 {
            num_required_setup_tuples = num_required_setup_tuples + 1;
        }
        let mut offset: usize = 0;
        let timestamp_setup_columns = if need_shuffle_ram_timestamps {
            ColumnSet::layout_at(&mut offset, 1)
        } else {
            ColumnSet::empty()
        };
        let range_check_16_setup_column = ColumnSet::layout_at(&mut offset, 1);
        let timestamp_range_check_setup_column = ColumnSet::layout_at(&mut offset, 1);
        let generic_lookup_setup_columns = ColumnSet::layout_at(
            &mut offset,
            num_required_setup_tuples,
        );
        SetupLayout {
            timestamp_setup_columns,
            range_check_16_setup_column,
            timestamp_range_check_setup_column,
            generic_lookup_setup_columns,
            total_width: offset,
        }
    }
}

/// The lookup columns hold all rows, and one group less would not.
pub proof fn law_groups_are_just_enough(length: int, capacity: int)
    requires
        length >= 0,
        capacity > 0,
    ensures
        groups_for(length, capacity) * capacity >= length,
        (groups_for(length, capacity) - 1) * capacity < length || length == 0,
{
    vstd::arithmetic::div_mod::lemma_fundamental_div_mod(length, capacity);
    let (q, r) = (length / capacity, length % capacity);
    assert((q + 1) * capacity == q * capacity + capacity) by (nonlinear_arith);
    assert((q - 1) * capacity == q * capacity - capacity) by (nonlinear_arith);
    assert(capacity * q == q * capacity) by (nonlinear_arith);
    vstd::arithmetic::div_mod::lemma_mod_bound(length, capacity);
}

/// A set of columns ends as many columns behind its start as all of its groups have.
pub proof fn law_columns_of_a_set<const WIDTH: usize>(set: ColumnSet<WIDTH>)
    ensures
        set.end() - set.start == WIDTH * set.num_elements,
{
}

/// A timestamp takes two columns, and a lookup row takes one for each of its three values and one
/// for the number of its table.
pub proof fn law_widths_of_columns()
    ensures
        NUM_TIMESTAMP_COLUMNS_FOR_RAM == 2,
        NUM_COLUMNS_FOR_COMMON_TABLE_WIDTH_SETUP == 3 + 1,
{
}

} // verus!
