//! The CSRs with a special meaning as a lookup table.
use crate::tables::lookup::{copy_of, LookupTable, TableContent, ORACLE_CSR};
use vstd::prelude::*;

verus! {

/// The table that says of every CSR number whether it is supported, and whether it requests a
/// delegation. The CSR of the oracle is supported where the flag says so, and requests none.
pub fn create_special_csr_properties_table(
    id: u32,
    support_non_determinism_csr: bool,
    supported_delegations: &[u32],
) -> (r: LookupTable)
    requires
        forall|i: int|
            0 <= i < supported_delegations@.len() ==> #[trigger] supported_delegations@[i] < 0x1000,
        !supported_delegations@.contains(ORACLE_CSR),
    ensures
        r.well_formed(),
        r.id == id,
        r.content is CsrProperties,
        r.content->CsrProperties_0 == support_non_determinism_csr,
        r.content->CsrProperties_1@ == supported_delegations@,
{
    LookupTable {
        content: TableContent::CsrProperties(
            support_non_determinism_csr,
            copy_of(supported_delegations),
        ),
        id,
    }
}

/// The same table, for a machine that may or may not have an oracle.
pub fn create_csr_table_for_delegation(
    allow_non_determinism: bool,
    allowed_delegation_csrs: &[u32],
    id: u32,
) -> (r: LookupTable)
    requires
        forall|i: int|
            0 <= i < allowed_delegation_csrs@.len() ==> #[trigger] allowed_delegation_csrs@[i]
                < 0x1000,
        !allowed_delegation_csrs@.contains(ORACLE_CSR),
    ensures
        r.well_formed(),
        r.id == id,
        r.content is CsrProperties,
        r.content->CsrProperties_0 == allow_non_determinism,
        r.content->CsrProperties_1@ == allowed_delegation_csrs@,
{
    create_special_csr_properties_table(id, allow_non_determinism, allowed_delegation_csrs)
}

/// Every CSR number has exactly one row, and what delegates is supported.
pub proof fn law_csr_table_answers_every_number(
    oracle: bool,
    delegations: Vec<u32>,
    csr: int,
    supported: int,
    delegates: int,
)
    ensures
        ({
            let table = TableContent::CsrProperties(oracle, delegations);
            &&& table.holds(csr, supported, delegates) ==> 0 <= csr < 0x1000
            &&& table.holds(csr, supported, delegates) && delegates == 1 ==> supported == 1
            &&& 0 <= csr < 0x1000 ==> exists|s: int, d: int| #[trigger] table.holds(csr, s, d)
            &&& forall|s: int, d: int|
                table.holds(csr, supported, delegates) && #[trigger] table.holds(csr, s, d) ==> s
                    == supported && d == delegates
        }),
{
    let table = TableContent::CsrProperties(oracle, delegations);
    if 0 <= csr < 0x1000 {
        let row = table.row_at(csr);
        assert(table.row_at(csr) == (csr, row.1, row.2));
        assert(table.holds(csr, row.1, row.2));
    }
}

/// A CSR is supported if it is the one of the oracle, number `0x7c0`, and there is an oracle, or if
/// it is that of a delegation; the latter ones alone request a delegation. The rows are in the order
/// of the numbers.
pub proof fn law_csr_table_in_order(oracle: bool, delegations: Vec<u32>, csr: u32)
    requires
        csr < 0x1000,
    ensures
        ({
            let table = TableContent::CsrProperties(oracle, delegations);
            let (number, supported, delegates) = table.row_at(csr as int);
            &&& table.rows() == 0x1000
            &&& number == csr
            &&& supported == 0 || supported == 1
            &&& delegates == 0 || delegates == 1
            &&& delegates == 1 <==> exists|i: int|
                0 <= i < delegations@.len() && #[trigger] delegations@[i] == csr
            &&& supported == 1 <==> delegates == 1 || (oracle && csr == 0x7c0)
        }),
{
    if delegations@.contains(csr) {
        let i = choose|i: int| 0 <= i < delegations@.len() && delegations@[i] == csr;
        assert(delegations@[i] == csr);
    }
}

} // verus!
