//! Reorders the import section of Python source files: finds runs of import
//! statements, classifies each one, sorts them and rebuilds the text.

pub mod text;
pub mod imports;
pub mod rewrite;
pub mod stability;

pub use imports::{
    sort_imports_by_keys,
    determine_import_group, find_import_blocks, group_and_sort_imports, GroupedImport,
    ImportBlock, ImportGroup,
};
pub use rewrite::rebuild_content;
