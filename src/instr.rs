//! Decoded instructions, as plain values, and the decoder that yields them.
use crate::labels::{FEATURE_COUNT, MNEMONIC_COUNT, REGISTER_COUNT};
use vstd::prelude::*;

verus! {

/// One decoded instruction: what the classification reads of it.
pub struct Instr {
    /// False where the bytes did not decode to an instruction.
    pub valid: bool,
    pub mnemonic: usize,
    /// The CPU features the instruction requires, in the decoder's order.
    pub features: Vec<usize>,
    /// The register of each of the first four operands; 0 where there is none.
    pub registers: [usize; 4],
}

/// The model of an [`Instr`].
pub struct InstrView {
    pub valid: bool,
    pub mnemonic: usize,
    pub features: Seq<usize>,
    pub registers: Seq<usize>,
}

impl View for Instr {
    type V = InstrView;

    open spec fn view(&self) -> InstrView {
        InstrView {
            valid: self.valid,
            mnemonic: self.mnemonic,
            features: self.features@,
            registers: self.registers@,
        }
    }
}

impl InstrView {
    /// Every id lies in its label space.
    pub open spec fn wf(self) -> bool {
        &&& self.mnemonic < MNEMONIC_COUNT
        &&& self.registers.len() == 4
        &&& forall|j: int| 0 <= j < self.features.len() ==> self.features[j] < FEATURE_COUNT
        &&& forall|j: int| 0 <= j < 4 ==> self.registers[j] < REGISTER_COUNT
    }
}

/// Every instruction of `s` is well formed.
pub open spec fn all_wf(s: Seq<InstrView>) -> bool {
    forall|k: int| 0 <= k < s.len() ==> s[k].wf()
}

/// The instructions that `data` decodes to at the given bitness.
pub uninterp spec fn decoded(bitness: u32, data: Seq<u8>) -> Seq<InstrView>;

/// Relies on iced_x86's `Decoder` without the invalid-instruction check,
/// which steps over bytes that do not decode, and on each `Instruction`'s
/// validity, mnemonic, required CPUID features and operand 0 to 3
/// registers. What it yields depends on the bitness and the bytes alone;
/// each enum is taken as its index, which lies below the enum's variant
/// count. `Decoder::new` panics on a bitness other than 16, 32 or 64.
#[verifier::external_body]
pub(crate) fn decode(bitness: u32, data: &[u8]) -> (r: Vec<Instr>)
    requires
        bitness == 32 || bitness == 64,
    ensures
        r@.map_values(|i: Instr| i@) == decoded(bitness, data@),
        forall|k: int| 0 <= k < r.len() ==> (#[trigger] r@[k])@.wf(),
{
    let mut out = Vec::new();
    for i in iced_x86::Decoder::new(bitness, data, iced_x86::DecoderOptions::NO_INVALID_CHECK) {
        let features = i.cpuid_features().iter().map(|f| *f as usize).collect();
        let registers = [i.op0_register(), i.op1_register(), i.op2_register(), i.op3_register()];
        let registers = registers.map(|r| r as usize);
        out.push(Instr { valid: !i.is_invalid(), mnemonic: i.mnemonic() as usize, features, registers });
    }
    out
}

} // verus!
