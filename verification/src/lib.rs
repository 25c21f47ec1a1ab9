//! A directory-watching library: it models the persisted list of every file
//! path ever observed, classifies freshly scanned paths as new or known,
//! dispatches the configured command once per batch of new files, and writes
//! the list back in a deterministic, prefix-insensitive order.
pub mod cycle;
pub mod directory;
pub mod file_list;
pub mod processor;
pub mod settings;
pub mod text;
