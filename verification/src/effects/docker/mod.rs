//! Effects on containers.

pub mod converge;
pub mod observe;
pub mod policy;
pub mod volumes;
