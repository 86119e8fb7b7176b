//! The columns that a witness fills.
use crate::layout::setup_tree::ColumnSet;
use vstd::prelude::*;

verus! {

/// A column, by the part of the trace that it lies in.
#[derive(Clone, Copy, PartialEq, Eq, Structural, Debug)]
pub enum ColumnAddress {
    WitnessSubtree(usize),
    MemorySubtree(usize),
    SetupSubtree(usize),
}

/// A linear expression over columns that is looked up: a constant and weighted columns.
pub struct LookupExpression {
    pub linear_terms: Vec<(u32, ColumnAddress)>,
    pub constant_term: u32,
}

/// A lookup of three expressions in the table that a fourth one names.
pub struct LookupSetDescription {
    pub input_columns: Vec<LookupExpression>,
    pub table_index: u32,
}

/// The columns of the witness part of a trace.
pub struct WitnessSubtree {
    pub multiplicities_columns_for_range_check_16: ColumnSet<1>,
    pub multiplicities_columns_for_timestamp_range_check: ColumnSet<1>,
    pub multiplicities_columns_for_generic_lookup: ColumnSet<1>,
    pub range_check_8_columns: ColumnSet<1>,
    pub range_check_16_columns: ColumnSet<1>,
    pub width_3_lookups: Vec<LookupSetDescription>,
    pub range_check_16_lookup_expressions: Vec<LookupExpression>,
    pub timestamp_range_check_lookup_expressions: Vec<LookupExpression>,
    pub offset_for_special_shuffle_ram_timestamps_range_check_expressions: usize,
    pub boolean_vars_columns_range: ColumnSet<1>,
    pub scratch_space_columns_range: ColumnSet<1>,
    pub total_width: usize,
}

/// The same columns in a form that borrows everything, for those who only read it.
pub struct CompiledWitnessSubtree<'a> {
    pub multiplicities_columns_for_range_check_16: ColumnSet<1>,
    pub multiplicities_columns_for_timestamp_range_check: ColumnSet<1>,
    pub multiplicities_columns_for_generic_lookup: ColumnSet<1>,
    pub range_check_16_columns: ColumnSet<1>,
    pub width_3_lookups: &'a [&'a LookupSetDescription],
    pub range_check_16_lookup_expressions: &'a [&'a LookupExpression],
    pub timestamp_range_check_lookup_expressions: &'a [&'a LookupExpression],
    pub offset_for_special_shuffle_ram_timestamps_range_check_expressions: usize,
    pub boolean_vars_columns_range: ColumnSet<1>,
    pub scratch_space_columns_range: ColumnSet<1>,
    pub total_width: usize,
}

/// A list of references to the elements of another list.
pub open spec fn refers_to<T>(references: Seq<&T>, values: Seq<T>) -> bool {
    &&& references.len() == values.len()
    &&& forall|i: int| 0 <= i < values.len() ==> *(#[trigger] references[i]) == values[i]
}

impl WitnessSubtree {
    /// The borrowed form. Both buffers receive references to the lookups; the first one must be
    /// empty, and what the second one already holds counts as range checks of 16 bits.
    pub fn as_compiled<'a>(
        &'a self,
        buffer: &'a mut Vec<&'a LookupSetDescription>,
        single_lookup_expressions_buffer: &'a mut Vec<&'a LookupExpression>,
    ) -> (r: CompiledWitnessSubtree<'a>)
        requires
            old(buffer)@.len() == 0,
        ensures
            r.multiplicities_columns_for_range_check_16
                == self.multiplicities_columns_for_range_check_16,
            r.multiplicities_columns_for_timestamp_range_check
                == self.multiplicities_columns_for_timestamp_range_check,
            r.multiplicities_columns_for_generic_lookup
                == self.multiplicities_columns_for_generic_lookup,
            r.range_check_16_columns == self.range_check_16_columns,
            r.offset_for_special_shuffle_ram_timestamps_range_check_expressions
                == self.offset_for_special_shuffle_ram_timestamps_range_check_expressions,
            r.boolean_vars_columns_range == self.boolean_vars_columns_range,
            r.scratch_space_columns_range == self.scratch_space_columns_range,
            r.total_width == self.total_width,
            refers_to(r.width_3_lookups@, self.width_3_lookups@),
            ({
                let already = old(single_lookup_expressions_buffer)@.len() as int;
                &&& r.range_check_16_lookup_expressions@.len() == already
                    + self.range_check_16_lookup_expressions@.len()
                &&& r.range_check_16_lookup_expressions@.take(already)
                    == old(single_lookup_expressions_buffer)@
                &&& refers_to(
                    r.range_check_16_lookup_expressions@.skip(already),
                    self.range_check_16_lookup_expressions@,
                )
            }),
            refers_to(
                r.timestamp_range_check_lookup_expressions@,
                self.timestamp_range_check_lookup_expressions@,
            ),
    {
        let ghost already = single_lookup_expressions_buffer@;
        let mut i: usize = 0;
        while i < self.width_3_lookups.len()
            invariant
                i <= self.width_3_lookups@.len(),
                refers_to(buffer@, self.width_3_lookups@.take(i as int)),
            decreases self.width_3_lookups@.len() - i,
        {
            buffer.push(&self.width_3_lookups[i]);
            i = i + 1;
        }
        assert(self.width_3_lookups@.take(i as int) =~= self.width_3_lookups@);

        append_references(
            single_lookup_expressions_buffer,
            &self.range_check_16_lookup_expressions,
        );
        let ghost with_range_checks = single_lookup_expressions_buffer@;
        let offset: usize = single_lookup_expressions_buffer.len();
        append_references(
            single_lookup_expressions_buffer,
            &self.timestamp_range_check_lookup_expressions,
        );
        let ghost all = single_lookup_expressions_buffer@;
        let total: usize = single_lookup_expressions_buffer.len();
        let expressions = single_lookup_expressions_buffer.as_slice();
        let range_check_16_lookup_expressions = vstd::slice::slice_subrange(
            expressions,
            0,
            offset,
        );
        let timestamp_range_check_lookup_expressions = vstd::slice::slice_subrange(
            expressions,
            offset,
            total,
        );
        proof {
            assert(range_check_16_lookup_expressions@ =~= with_range_checks);
            assert(timestamp_range_check_lookup_expressions@ =~= all.skip(offset as int));
            assert(with_range_checks.take(already.len() as int) =~= already);
        }
        CompiledWitnessSubtree {
            multiplicities_columns_for_range_check_16: self.multiplicities_columns_for_range_check_16,
            multiplicities_columns_for_timestamp_range_check: self.multiplicities_columns_for_timestamp_range_check,
            multiplicities_columns_for_generic_lookup: self.multiplicities_columns_for_generic_lookup,
            range_check_16_columns: self.range_check_16_columns,
            width_3_lookups: buffer.as_slice(),
            range_check_16_lookup_expressions,
            timestamp_range_check_lookup_expressions,
            offset_for_special_shuffle_ram_timestamps_range_check_expressions: self.offset_for_special_shuffle_ram_timestamps_range_check_expressions,
            boolean_vars_columns_range: self.boolean_vars_columns_range,
            scratch_space_columns_range: self.scratch_space_columns_range,
            total_width: self.total_width,
        }
    }
}

/// Appends references to all elements of a list.
fn append_references<'a>(
    buffer: &mut Vec<&'a LookupExpression>,
    values: &'a Vec<LookupExpression>,
)
    ensures
        final(buffer)@.len() == old(buffer)@.len() + values@.len(),
        final(buffer)@.take(old(buffer)@.len() as int) == old(buffer)@,
        refers_to(final(buffer)@.skip(old(buffer)@.len() as int), values@),
{
    let ghost n = buffer@.len() as int;
    let mut i: usize = 0;
    while i < values.len()
        invariant
            i <= values@.len(),
            n == old(buffer)@.len(),
            buffer@.len() == n + i,
            buffer@.take(n) == old(buffer)@,
            forall|k: int| 0 <= k < i ==> *(#[trigger] buffer@[n + k]) == values@[k],
        decreases values@.len() - i,
    {
        let ghost before = buffer@;
        buffer.push(&values[i]);
        proof {
            assert(buffer@.take(n) =~= before.take(n));
            assert forall|k: int| 0 <= k < i + 1 implies *(#[trigger] buffer@[n + k])
                == values@[k] by {
                if k < i {
                    assert(buffer@[n + k] == before[n + k]);
                }
            }
        }
        i = i + 1;
    }
    assert(buffer@.take(n) =~= old(buffer)@);
    assert forall|k: int| 0 <= k < values@.len() implies *(#[trigger] buffer@.skip(n)[k])
        == values@[k] by {
        assert(buffer@.skip(n)[k] == buffer@[n + k]);
    }
}

/// References are to the elements of a list if there are as many, and each is to the one at its
/// place.
pub proof fn law_references<T>(references: Seq<&T>, values: Seq<T>, i: int)
    requires
        refers_to(references, values),
        0 <= i < values.len(),
    ensures
        references.len() == values.len(),
        *references[i] == values[i],
{
}

} // verus!
