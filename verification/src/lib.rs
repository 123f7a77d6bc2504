//! Auditing of Composer lock files against security advisories.
pub mod audit;
pub mod cli;
pub mod error;
pub mod lock;
pub mod order;
pub mod overflow;
pub mod packagist;
pub mod report;
pub mod request;
pub mod semver;
pub mod text;
