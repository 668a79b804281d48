//! Operating-system interaction layer: search-path list codec, environment
//! table, working-directory retrieval and error descriptions.

pub mod bytes;
pub mod cwd;
pub mod environment;
pub mod error;
pub mod path_list;
