//! An i18n language server: finds the quoted translation key under the cursor
//! and answers hovers, completions and inlay hints from the keys of the
//! project that the document belongs to.
pub mod completion;
pub mod init;
pub mod loaders;
pub mod lsp;
pub mod setup_project;
pub mod string_map;
pub mod text;
pub mod utils;
