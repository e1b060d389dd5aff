//! Dependency-ordered install plans for packages of a community package
//! repository, and the local package collection they are tested from.

pub mod aur;
pub mod batch;
pub mod index;
pub mod order;
pub mod package;
pub mod package_manager;
pub mod resolver;

pub use aur::{InfoResponse, PackageInfo, ResolveError};
