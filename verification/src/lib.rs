//! A minimal update-distribution service's verified core.
//!
//! Client applications ask which build is the latest for their channel -
//! the (app_name, target, arch) triple - and whether something newer than
//! their installed version exists; a publishing workflow files new release
//! artifacts with an external artifact host and records the resulting
//! download URL.
//!
//! This crate holds the decisions of that service: semantic-version
//! precedence and the resolution of the latest (or latest newer) release
//! (`version`, `catalog`), the publishing pipeline's checks and choices
//! (`publish`), the error taxonomy (`errors`), and the mapping of outcomes
//! to HTTP status codes (`http`). Storage, the HTTP framework and the
//! artifact host stay outside; they hand the library plain values and take
//! plain values back.

pub mod catalog;
pub mod errors;
pub mod http;
pub mod publish;
pub mod version;
