//! The three delta-synchronization components: block signatures of a basis,
//! delta encoding of a target against a signature, and patch application.

pub mod delta;
pub mod patch;
pub mod signature;

pub use delta::Delta;
pub use delta::DeltaOp;
pub use delta::SpecOp;
pub use patch::patch_file;
pub use signature::BlockSig;
pub use signature::Signature;
