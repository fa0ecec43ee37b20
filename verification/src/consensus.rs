//! The rules that all nodes of a chain agree on.

use vstd::prelude::*;

verus! {

/// A consensus rule that is broken.
#[derive(Clone, Copy, Debug, PartialEq, Eq)]
pub enum ConsensusError {
    /// A list is not in order.
    SortError,
}

/// The parameters of a chain.
#[derive(Clone, Copy, Debug, PartialEq, Eq)]
pub struct ChainParams {
    /// How many nonces a proof of work has.
    pub proof_size: usize,
    /// How many blocks later the output of a block reward can be spent.
    pub coinbase_maturity: u64,
    /// What a block creates, besides the fees that its miner keeps.
    pub subsidy: u64,
    /// The weight of an input.
    pub input_weight: u32,
    /// The weight of an output.
    pub output_weight: u32,
    /// The weight of a kernel.
    pub kernel_weight: u32,
    /// The greatest weight of a block.
    pub max_weight: u64,
}

/// What a miner may claim for a block whose kernels pay `fees`: half of the fees is burnt.
pub open spec fn reward_of(params: ChainParams, fees: nat) -> nat {
    params.subsidy as nat + fees / 2
}

/// What the commitments of a block do not balance by: half of the fees, less the subsidy.
pub open spec fn overage_of(params: ChainParams, fees: nat) -> int {
    fees / 2 - params.subsidy
}

impl ChainParams {
    /// Whether the subsidy fits a signed amount, which no chain comes near to.
    pub open spec fn wf(&self) -> bool {
        self.subsidy <= i64::MAX
    }

    /// The weight of a block.
    pub open spec fn weight(&self, inputs: nat, outputs: nat, kernels: nat) -> nat {
        inputs * self.input_weight as nat + outputs * self.output_weight as nat + kernels
            * self.kernel_weight as nat
    }

    /// Whether a block with so many inputs, outputs and kernels is too heavy.
    pub fn exceeds_weight(&self, input_len: usize, output_len: usize, kernel_len: usize) -> (r:
        bool)
        ensures
            r == (self.weight(input_len as nat, output_len as nat, kernel_len as nat)
                > self.max_weight),
            r == (input_len * self.input_weight + output_len * self.output_weight + kernel_len
                * self.kernel_weight > self.max_weight),
    {
        let inputs: u128 = weigh(input_len, self.input_weight);
        let outputs: u128 = weigh(output_len, self.output_weight);
        let kernels: u128 = weigh(kernel_len, self.kernel_weight);
        inputs + outputs + kernels > self.max_weight as u128
    }

    /// What a miner may claim for a block whose kernels pay `fees`.
    pub fn reward(&self, fees: u64) -> (r: u64)
        requires
            self.wf(),
        ensures
            r == reward_of(*self, fees as nat),
            r == self.subsidy + fees as int / 2,
            2 * (r - self.subsidy) <= fees < 2 * (r - self.subsidy) + 2,
    {
        self.subsidy + fees / 2
    }
}

fn weigh(count: usize, weight: u32) -> (r: u128)
    ensures
        r == count as nat * weight as nat,
        r <= 0xffff_ffff_0000_0000_0000_0000,
{
    assert(count * weight <= 0xffff_ffff_ffff_ffff * 0xffff_ffff) by (nonlinear_arith)
        requires
            0 <= count <= 0xffff_ffff_ffff_ffff,
            0 <= weight <= 0xffff_ffff,
    ;
    assert(count * weight >= 0) by (nonlinear_arith)
        requires
            0 <= count,
            0 <= weight,
    ;
    count as u128 * weight as u128
}

} // verus!
