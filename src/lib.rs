//! Queries a mod repository for a list of projects and ranks the
//! (game version, loader) combinations by how many of them support each.

pub mod modrinth;
pub mod projects;
pub mod wanted;
