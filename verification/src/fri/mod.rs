pub mod coset_fri;
pub mod fri_commit;
pub mod fri_verify;
pub mod laws;

pub use coset_fri::CosetFri;
pub use fri_commit::{decommit_fri, decommit_fri_layers, fri_commit, FRIProof};
