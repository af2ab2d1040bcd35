pub mod cli;
pub mod file_name;
pub mod manifest;
pub mod names;
pub mod order;
pub mod paths;
pub mod random;
pub mod renamer;
pub mod session;
pub mod text;
pub mod undo;
