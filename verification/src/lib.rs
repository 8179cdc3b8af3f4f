//! Client-side wire codec and command pipeline for a TPM 2.0 device.
//!
//! Values are encoded big-endian into a caller-supplied buffer at a cursor
//! position and decoded from the front of a shrinking input slice. The
//! encoder of a value writes all of it or nothing; every decoder names the
//! error it returns. A device is anything that implements `traits::Tpm`.
pub mod error;
pub mod marshal;
pub mod types;
pub mod commands;
pub mod traits;
