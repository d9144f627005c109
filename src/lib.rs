//! Registry metadata, platform filtering, license accounting and migration
//! planning for third-party packages vendored into a monorepo.

pub mod cli;
pub mod license;
pub mod migration;
pub mod platform;
pub mod registry;
pub mod text;
pub mod version;
