//! Contributor bookkeeping for a project's releases: alias-map resolution of
//! commit identities, an identity cache, release assignment, commit ranges and
//! the ordering of contributor names.

pub mod text;
pub mod mailmap;
pub mod collate;
pub mod authors;
pub mod commits;
pub mod releases;
pub mod store;
pub mod scores;
pub mod versions;
