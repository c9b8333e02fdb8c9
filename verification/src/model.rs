//! The records that the search, preview and replace steps hand back.

use vstd::prelude::*;

verus! {

/// A note that holds the searched tag, with how often it holds it where.
#[derive(Debug, Clone)]
pub struct FileMatch {
    pub relative_path: String,
    pub yaml_tag_count: usize,
    pub inline_tag_count: usize,
}

/// The changes that a replacement would make to one note.
#[derive(Debug, Clone)]
pub struct FileDiff {
    pub relative_path: String,
    pub diffs: Vec<SingleDiff>,
}

/// One changed line: its 1-based number, `"yaml"` or `"inline"`, and the
/// line before and after the replacement.
#[derive(Debug, Clone)]
pub struct SingleDiff {
    pub line_number: usize,
    pub tag_type: String,
    pub old_line: String,
    pub new_line: String,
}

/// The outcome of a replacement run over a vault.
#[derive(Debug, Clone)]
pub struct ReplaceResult {
    pub files_modified: usize,
    pub total_yaml_replacements: usize,
    pub total_inline_replacements: usize,
    pub backup_path: String,
    pub errors: Vec<String>,
}

/// The settings that the application keeps between runs.
#[derive(Debug, Clone)]
pub struct AppSettings {
    pub vault_path: String,
}

impl ReplaceResult {
    /// A run that has changed nothing yet and keeps its backups under
    /// `backup_path` (empty when it makes none).
    pub fn new(backup_path: String) -> (r: Self)
        ensures
            r.files_modified == 0,
            r.total_yaml_replacements == 0,
            r.total_inline_replacements == 0,
            r.backup_path == backup_path,
            r.errors@.len() == 0,
    {
        ReplaceResult {
            files_modified: 0,
            total_yaml_replacements: 0,
            total_inline_replacements: 0,
            backup_path,
            errors: Vec::new(),
        }
    }

    /// Counts one more rewritten note with its replacements.
    pub fn record_file(&mut self, yaml_count: usize, inline_count: usize)
        requires
            old(self).files_modified < usize::MAX,
            old(self).total_yaml_replacements + yaml_count <= usize::MAX,
            old(self).total_inline_replacements + inline_count <= usize::MAX,
        ensures
            final(self).files_modified == old(self).files_modified + 1,
            final(self).total_yaml_replacements == old(self).total_yaml_replacements + yaml_count,
            final(self).total_inline_replacements == old(self).total_inline_replacements + inline_count,
            final(self).backup_path == old(self).backup_path,
            final(self).errors == old(self).errors,
    {
        self.files_modified = self.files_modified + 1;
        self.total_yaml_replacements = self.total_yaml_replacements + yaml_count;
        self.total_inline_replacements = self.total_inline_replacements + inline_count;
    }

    /// Records a note that could not be handled.
    pub fn record_error(&mut self, message: String)
        ensures
            final(self).errors@ == old(self).errors@.push(message),
            final(self).files_modified == old(self).files_modified,
            final(self).total_yaml_replacements == old(self).total_yaml_replacements,
            final(self).total_inline_replacements == old(self).total_inline_replacements,
            final(self).backup_path == old(self).backup_path,
    {
        self.errors.push(message);
    }
}

} // verus!
