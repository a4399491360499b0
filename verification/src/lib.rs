pub mod instance;
pub mod candidates;
pub mod cliques;
pub mod keys;
pub mod mip_approach;
pub mod n_unique_roots;
pub mod w_max_coverage;

pub use instance::Attestation;
pub use instance::AttestationData;
pub use instance::EpochAttesterID;
pub use instance::Instance;
pub use instance::RawAttestation;
pub use instance::RawInstance;
pub use instance::RewardTable;
pub use instance::SlotID;
pub use w_max_coverage::WeightedMaximumCoverage;
