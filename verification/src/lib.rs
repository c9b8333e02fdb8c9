//! Bulk replacement of tags in an Obsidian vault: the tag grammar of YAML
//! frontmatter lists and inline `#tags`, code-fence masking, and the
//! per-file search / preview / replace computations, with their contracts.

pub mod text;
pub mod boundary;
pub mod code_blocks;
pub mod frontmatter;
pub mod model;
pub mod inline;
pub mod yaml;
pub mod note;
pub mod search;
pub mod paths;
pub mod run;
pub mod laws;
