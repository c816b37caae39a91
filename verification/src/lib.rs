// quorum: threshold secret sharing engine
// implements Shamir's secret sharing over the secp256k1 scalar field

pub mod field;
pub mod math;
pub mod scheme;
pub mod storage;
pub mod service;

pub use crate::field::Scalar;
pub use crate::scheme::{split_secret, recover_secret, Share, FragmentError};
pub use crate::storage::{ShareStore, scalar_to_bytes, bytes_to_scalar};
pub use crate::service::CustodianService;
