//! A structural model of a source repository.
//!
//! The library picks the dominant language of a repository, parses its
//! source files, reads the declared entities off the syntax trees, and links
//! the entities by the calls and references between them. References are
//! resolved by name, directory and import alone, so the resulting graph is
//! an approximation of what a compiler would find.
//!
//! Nothing here touches the disk: a repository comes in as a
//! [`repo::RepoSnapshot`], and everything else is computed from it.

pub mod extract;
pub mod imports;
pub mod language;
pub mod model;
pub mod paths;
pub mod query;
pub mod repo;
pub mod resolve;
pub mod syntax;
pub mod table;
pub mod text;
