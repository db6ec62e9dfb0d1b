//! Resource-ownership and authorization core: containers holding fungible or
//! non-fungible balances, reference-counted locks over them, proofs that
//! attest to locked value without moving it, and declarative authorization
//! rules evaluated against a caller's proofs.

pub mod container;
pub mod ids;
pub mod laws;
pub mod locked;
pub mod proofs;
pub mod rules;
pub mod sbor_path;
