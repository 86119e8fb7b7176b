//! Which parts of the instruction set a machine supports.
use vstd::prelude::*;

verus! {

/// The CSR through which a program exchanges words with its oracle.
pub const NON_DETERMINISM_CSR: u32 = 0x7c0;

/// The CSR whose writes mark a point in the execution.
pub const MARKER_CSR: u32 = 0x7ff;

/// The CSR that requests the BLAKE2s round function.
pub const BLAKE2_ROUND_FUNCTION_WITH_EXTENDED_CONTROL_ACCESS_ID: u32 = 1991;

/// The CSR that requests a 256-bit integer operation.
pub const U256_OPS_WITH_CONTROL_ACCESS_ID: u32 = 1994;

/// The instruction-set options of a machine.
pub trait MachineConfig: Sized {
    const SUPPORT_SRA: bool;

    const SUPPORT_ROT: bool;

    const SUPPORT_MUL: bool;

    const SUPPORT_SIGNED_MUL: bool;

    const SUPPORT_DIV: bool;

    const SUPPORT_SIGNED_DIV: bool;

    const SUPPORT_SIGNED_LOAD: bool;

    const SUPPORT_MOPS: bool;

    const SUPPORT_STANDARD_CSRS: bool;

    const SUPPORT_ONLY_CSRRW: bool;

    /// Whether a program of this machine may request a delegation through `csr`.
    spec fn delegation_allowed(csr: u32) -> bool;

    /// Decides whether `csr` is on the machine's list of delegation CSRs.
    fn allows_delegation_csr(csr: u32) -> (r: bool)
        ensures
            r == Self::delegation_allowed(csr),
    ;
}

/// The full machine: signed multiplication and division, arithmetic shifts and sub-word signed
/// loads, with both delegations.
#[derive(Clone, Copy, Debug)]
pub struct IMStandardIsaConfig;

impl MachineConfig for IMStandardIsaConfig {
    const SUPPORT_SRA: bool = true;

    const SUPPORT_ROT: bool = false;

    const SUPPORT_MUL: bool = true;

    const SUPPORT_SIGNED_MUL: bool = true;

    const SUPPORT_DIV: bool = true;

    const SUPPORT_SIGNED_DIV: bool = true;

    const SUPPORT_SIGNED_LOAD: bool = true;

    const SUPPORT_MOPS: bool = false;

    const SUPPORT_STANDARD_CSRS: bool = false;

    const SUPPORT_ONLY_CSRRW: bool = true;

    open spec fn delegation_allowed(csr: u32) -> bool {
        csr == BLAKE2_ROUND_FUNCTION_WITH_EXTENDED_CONTROL_ACCESS_ID || csr
            == U256_OPS_WITH_CONTROL_ACCESS_ID
    }

    fn allows_delegation_csr(csr: u32) -> (r: bool) {
        csr == BLAKE2_ROUND_FUNCTION_WITH_EXTENDED_CONTROL_ACCESS_ID || csr
            == U256_OPS_WITH_CONTROL_ACCESS_ID
    }
}

/// The options of the full machine.
pub proof fn law_options_of_the_full_machine()
    ensures
        IMStandardIsaConfig::SUPPORT_SRA,
        !IMStandardIsaConfig::SUPPORT_ROT,
        IMStandardIsaConfig::SUPPORT_MUL,
        IMStandardIsaConfig::SUPPORT_SIGNED_MUL,
        IMStandardIsaConfig::SUPPORT_DIV,
        IMStandardIsaConfig::SUPPORT_SIGNED_DIV,
        IMStandardIsaConfig::SUPPORT_SIGNED_LOAD,
        !IMStandardIsaConfig::SUPPORT_MOPS,
        !IMStandardIsaConfig::SUPPORT_STANDARD_CSRS,
        IMStandardIsaConfig::SUPPORT_ONLY_CSRRW,
{
}

/// The full machine may request a delegation through CSR 1991 and through CSR 1994, and through no
/// other.
pub proof fn law_delegations_of_the_full_machine(csr: u32)
    ensures
        IMStandardIsaConfig::delegation_allowed(csr) <==> csr == 1991 || csr == 1994,
{
}

} // verus!
