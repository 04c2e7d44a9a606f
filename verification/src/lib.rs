//! Verified core of the Cabbage note vault: path resolution inside a vault,
//! the wiki-link backlinks index, note search, the note graph, and the
//! decisions taken around the vault's git repository.

pub mod text;
pub mod order;
pub mod path;
pub mod index;
pub mod fs;
pub mod search;
pub mod graph;
pub mod git;
pub mod state;
