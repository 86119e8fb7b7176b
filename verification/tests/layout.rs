use airbender::field::Mersenne31Field;
use airbender::layout::setup_tree::{ColumnSet, SetupLayout};
use airbender::layout::witness_tree::{
    ColumnAddress, LookupExpression, LookupSetDescription, WitnessSubtree,
};

#[test]
fn setup_columns_follow_each_other() {
    let layout = SetupLayout::layout_for_lookup_size(10, 8, true);
    assert_eq!(layout.timestamp_setup_columns.num_elements, 1);
    assert_eq!(layout.range_check_16_setup_column.start, 2);
    assert_eq!(layout.timestamp_range_check_setup_column.start, 3);
    assert_eq!(layout.generic_lookup_setup_columns.start, 4);
    assert_eq!(layout.generic_lookup_setup_columns.num_elements, 2);
    assert_eq!(layout.total_width, 12);
}

#[test]
fn setup_columns_without_timestamps() {
    let layout = SetupLayout::layout_for_lookup_size(7, 8, false);
    assert_eq!(layout.timestamp_setup_columns.num_elements, 0);
    assert_eq!(layout.range_check_16_setup_column.start, 0);
    assert_eq!(layout.generic_lookup_setup_columns.num_elements, 1);
    assert_eq!(layout.total_width, 6);
    let layout = SetupLayout::layout_for_lookup_size(0, 8, false);
    assert_eq!(layout.generic_lookup_setup_columns.num_elements, 0);
}

fn expression(c: u32) -> LookupExpression {
    LookupExpression {
        linear_terms: vec![(1, ColumnAddress::WitnessSubtree(0))],
        constant_term: c,
    }
}

#[test]
fn compiled_form_borrows_everything() {
    let column = ColumnSet::<1> { start: 3, num_elements: 1 };
    let tree = WitnessSubtree {
        multiplicities_columns_for_range_check_16: column,
        multiplicities_columns_for_timestamp_range_check: column,
        multiplicities_columns_for_generic_lookup: column,
        range_check_8_columns: column,
        range_check_16_columns: column,
        width_3_lookups: vec![LookupSetDescription {
            input_columns: vec![expression(9)],
            table_index: 4,
        }],
        range_check_16_lookup_expressions: vec![expression(1), expression(2)],
        timestamp_range_check_lookup_expressions: vec![expression(3)],
        offset_for_special_shuffle_ram_timestamps_range_check_expressions: 1,
        boolean_vars_columns_range: column,
        scratch_space_columns_range: column,
        total_width: 17,
    };
    let mut lookups = Vec::new();
    let mut singles = Vec::new();
    let compiled = tree.as_compiled(&mut lookups, &mut singles);
    assert_eq!(compiled.total_width, 17);
    assert_eq!(compiled.width_3_lookups.len(), 1);
    assert_eq!(compiled.width_3_lookups[0].table_index, 4);
    assert_eq!(compiled.range_check_16_lookup_expressions.len(), 2);
    assert_eq!(compiled.range_check_16_lookup_expressions[1].constant_term, 2);
    assert_eq!(compiled.timestamp_range_check_lookup_expressions.len(), 1);
    assert_eq!(compiled.timestamp_range_check_lookup_expressions[0].constant_term, 3);
    assert_eq!(compiled.offset_for_special_shuffle_ram_timestamps_range_check_expressions, 1);
}

#[test]
fn field_arithmetic() {
    let mut a = Mersenne31Field::from_nonreduced_u32(u32::MAX);
    assert_eq!(a.to_reduced_u32(), 1);
    a.sub_assign(&Mersenne31Field::new(3));
    assert_eq!(a.to_reduced_u32(), 0x7fff_fffd);
    a.add_assign(&Mersenne31Field::new(4));
    assert_eq!(a.to_reduced_u32(), 2);
    let mut half = Mersenne31Field::inverse_of_power_of_two(1);
    half.mul_assign(&a);
    assert_eq!(half.to_reduced_u32(), 1);
    assert_eq!(Mersenne31Field::from_u64_unchecked(0x7fff_fffe).as_u64_reduced(), 0x7fff_fffe);
}
