//! The three label spaces: CPU features, mnemonics and registers.
use vstd::prelude::*;

verus! {

/// Number of CPU feature ids.
pub const FEATURE_COUNT: usize = 178;

/// Number of mnemonic ids.
pub const MNEMONIC_COUNT: usize = 1894;

/// Number of register ids; id 0 stands for "no register".
pub const REGISTER_COUNT: usize = 256;

/// Id of the feature that the `CPUID` instruction itself requires.
pub const CPUID_FEATURE: usize = 46;

/// Display name of the CPU feature with id `id`.
pub uninterp spec fn feature_label(id: usize) -> Seq<char>;

/// Display name of the mnemonic with id `id`.
pub uninterp spec fn mnemonic_label(id: usize) -> Seq<char>;

/// Display name of the register with id `id`.
pub uninterp spec fn register_label(id: usize) -> Seq<char>;

/// Relies on iced_x86's `TryFrom<usize>` and `Debug` for `CpuidFeature`: the
/// feature's name, which depends on the id alone.
#[verifier::external_body]
fn feature_name(id: usize) -> (r: String)
    requires
        id < FEATURE_COUNT,
    ensures
        r@ == feature_label(id),
{
    format!("{:?}", iced_x86::CpuidFeature::try_from(id).unwrap())
}

/// Relies on iced_x86's `TryFrom<usize>` and `Debug` for `Mnemonic`: the
/// mnemonic's name, which depends on the id alone.
#[verifier::external_body]
fn mnemonic_name(id: usize) -> (r: String)
    requires
        id < MNEMONIC_COUNT,
    ensures
        r@ == mnemonic_label(id),
{
    format!("{:?}", iced_x86::Mnemonic::try_from(id).unwrap())
}

/// Relies on iced_x86's `TryFrom<usize>` and `Debug` for `Register`: the
/// register's name, which depends on the id alone.
#[verifier::external_body]
fn register_name(id: usize) -> (r: String)
    requires
        id < REGISTER_COUNT,
    ensures
        r@ == register_label(id),
{
    format!("{:?}", iced_x86::Register::try_from(id).unwrap())
}

/// A label space: a dense range of ids, each with a display name.
pub trait Name {
    /// The display name of `id`; empty for an id outside the space.
    spec fn label(id: usize) -> Seq<char>;

    fn name(id: usize) -> (r: String)
        ensures
            r@ == Self::label(id),
    ;
}

/// The space of CPU features.
pub struct Feature;

/// The space of instruction mnemonics.
pub struct Mnemonic;

/// The space of registers.
pub struct Register;

impl Name for Feature {
    open spec fn label(id: usize) -> Seq<char> {
        if id < FEATURE_COUNT {
            feature_label(id)
        } else {
            Seq::empty()
        }
    }

    fn name(id: usize) -> (r: String) {
        if id < FEATURE_COUNT {
            feature_name(id)
        } else {
            String::new()
        }
    }
}

impl Name for Mnemonic {
    open spec fn label(id: usize) -> Seq<char> {
        if id < MNEMONIC_COUNT {
            mnemonic_label(id)
        } else {
            Seq::empty()
        }
    }

    fn name(id: usize) -> (r: String) {
        if id < MNEMONIC_COUNT {
            mnemonic_name(id)
        } else {
            String::new()
        }
    }
}

impl Name for Register {
    open spec fn label(id: usize) -> Seq<char> {
        if id < REGISTER_COUNT {
            register_label(id)
        } else {
            Seq::empty()
        }
    }

    fn name(id: usize) -> (r: String) {
        if id < REGISTER_COUNT {
            register_name(id)
        } else {
            String::new()
        }
    }
}

} // verus!
