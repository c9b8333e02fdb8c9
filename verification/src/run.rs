//! The per-note decisions of a replacement run. The caller does the file
//! work (reading a note, copying it to its backup place, writing it) and
//! reports each outcome as an event; the step records what it means in the
//! run's result and says what to do next with the note.

use vstd::prelude::*;
use vstd::string::*;
use vstd::utf8::*;
use crate::text::text_of;
use crate::note::{replaced_note, replace_in_file};
use crate::model::ReplaceResult;

verus! {

/// What the caller reports about the note in hand.
pub enum NoteEvent {
    /// The note was read; its text.
    Read(String),
    /// Reading the note failed; the system's words.
    ReadFailed(String),
    /// Creating the folder of the note's backup failed; the system's words.
    BackupDirFailed(String),
    /// Copying the note to its backup place failed; the system's words.
    BackupFailed(String),
    /// The note was copied to its backup place.
    BackedUp,
    /// Writing the note failed; the system's words.
    WriteFailed(String),
    /// The note was written.
    Written,
}

/// What to do next with the note in hand.
pub enum NoteAction {
    /// Nothing: go on with the next note.
    Next,
    /// Copy the note to its backup place and report how it went.
    Backup,
    /// Write this text over the note and report how it went.
    Write(String),
}

/// The note in hand: its path in the vault, whether backups are made, and
/// the rewrite that waits to be written, as the new text (until it is handed
/// out to be written) with its numbers of frontmatter and inline
/// replacements.
pub struct NoteRun {
    pub path: String,
    pub backup: bool,
    pub rewrite: Option<(String, usize, usize)>,
}

/// The message recorded for a note that could not be handled: what failed,
/// the note's path, `": "` and the system's words.
pub open spec fn failure_message(what: Seq<char>, path: Seq<char>, detail: Seq<char>) -> Seq<char> {
    what + path + ": "@ + detail
}

/// `after` is `before` with one more error recorded, whose text is `m`.
pub open spec fn error_recorded(before: ReplaceResult, after: ReplaceResult, m: Seq<char>) -> bool {
    &&& after.errors@.len() == before.errors@.len() + 1
    &&& forall|i: int| 0 <= i < before.errors@.len() ==> after.errors@[i] == before.errors@[i]
    &&& after.errors@[before.errors@.len() as int]@ == m
    &&& after.files_modified == before.files_modified
    &&& after.total_yaml_replacements == before.total_yaml_replacements
    &&& after.total_inline_replacements == before.total_inline_replacements
    &&& after.backup_path == before.backup_path
}

/// Counting one more rewritten note with these replacements does not
/// overflow the result's counters.
pub open spec fn counts_fit(r: ReplaceResult, yaml_count: usize, inline_count: usize) -> bool {
    &&& r.files_modified < usize::MAX
    &&& r.total_yaml_replacements + yaml_count <= usize::MAX
    &&& r.total_inline_replacements + inline_count <= usize::MAX
}

impl NoteRun {
    /// A note about to be read, with nothing to write yet.
    pub fn new(path: String, backup: bool) -> (r: Self)
        ensures
            r.path == path,
            r.backup == backup,
            r.rewrite is None,
    {
        NoteRun { path, backup, rewrite: None }
    }
}

/// `what`, the path, `": "` and `detail`, as one message.
fn failure_text(what: &str, path: &str, detail: &str) -> (m: String)
    ensures
        m@ == failure_message(what@, path@, detail@),
{
    let mut m = String::from_str(what);
    m.append(path);
    m.append(": ");
    m.append(detail);
    m
}

/// One step of a replacement run on the note in hand: records what `event`
/// means in `result` and says what to do next.
///
/// - A read note that holds the tag nowhere is left as it is; otherwise its
///   rewrite waits, and the note is first backed up when backups are made,
///   else written at once.
/// - A backed-up note is written next.
/// - A written note counts as modified, with its replacements.
/// - A failed read, backup or write records an error naming the note, and
///   the note is left.
pub fn note_step(
    run: NoteRun,
    result: &mut ReplaceResult,
    event: NoteEvent,
    old_tag: &str,
    new_tag: &str,
) -> (out: (NoteRun, NoteAction))
    requires
        old_tag.spec_bytes().len() < usize::MAX,
        new_tag.spec_bytes().len() < usize::MAX,
        event is Written ==> (run.rewrite matches Some(w) ==> counts_fit(*old(result), w.1, w.2)),
    ensures
        out.0.path == run.path,
        out.0.backup == run.backup,
        match event {
            NoteEvent::Read(content) => {
                let res = replaced_note(encode_utf8(content@), old_tag.spec_bytes(), new_tag.spec_bytes());
                &&& *final(result) == *old(result)
                &&& if res.1 == 0 && res.2 == 0 {
                    out.0.rewrite is None && out.1 is Next
                } else {
                    &&& out.0.rewrite matches Some(w) && w.1 == res.1 && w.2 == res.2 && (run.backup
                        ==> w.0@ == text_of(res.0))
                    &&& run.backup ==> out.1 is Backup
                    &&& !run.backup ==> (out.1 matches NoteAction::Write(t) && t@ == text_of(res.0))
                }
            },
            NoteEvent::ReadFailed(detail) => {
                &&& error_recorded(*old(result), *final(result), failure_message("Cannot read "@, run.path@, detail@))
                &&& out.0.rewrite is None
                &&& out.1 is Next
            },
            NoteEvent::BackupDirFailed(detail) => {
                &&& error_recorded(
                    *old(result),
                    *final(result),
                    failure_message("Cannot create backup dir for "@, run.path@, detail@),
                )
                &&& out.0.rewrite is None
                &&& out.1 is Next
            },
            NoteEvent::BackupFailed(detail) => {
                &&& error_recorded(*old(result), *final(result), failure_message("Backup failed for "@, run.path@, detail@))
                &&& out.0.rewrite is None
                &&& out.1 is Next
            },
            NoteEvent::BackedUp => {
                &&& *final(result) == *old(result)
                &&& match run.rewrite {
                    Some(w) => {
                        &&& out.1 matches NoteAction::Write(t) && t@ == w.0@
                        &&& out.0.rewrite matches Some(w2) && w2.1 == w.1 && w2.2 == w.2
                    },
                    None => out.0.rewrite is None && out.1 is Next,
                }
            },
            NoteEvent::WriteFailed(detail) => {
                &&& error_recorded(*old(result), *final(result), failure_message("Write failed for "@, run.path@, detail@))
                &&& out.0.rewrite is None
                &&& out.1 is Next
            },
            NoteEvent::Written => {
                &&& match run.rewrite {
                    Some(w) => {
                        &&& final(result).files_modified == old(result).files_modified + 1
                        &&& final(result).total_yaml_replacements == old(result).total_yaml_replacements + w.1
                        &&& final(result).total_inline_replacements == old(result).total_inline_replacements + w.2
                        &&& final(result).errors == old(result).errors
                        &&& final(result).backup_path == old(result).backup_path
                    },
                    None => *final(result) == *old(result),
                }
                &&& out.0.rewrite is None
                &&& out.1 is Next
            },
        },
{
    let NoteRun { path, backup, rewrite } = run;
    match event {
        NoteEvent::Read(content) => {
            let text_in = content.as_str();
            proof {
                assert(text_in.spec_bytes() == encode_utf8(content@));
            }
            match replace_in_file(text_in, old_tag, new_tag) {
                None => (NoteRun { path, backup, rewrite: None }, NoteAction::Next),
                Some((text, yaml_count, inline_count)) => {
                    if backup {
                        (NoteRun { path, backup, rewrite: Some((text, yaml_count, inline_count)) }, NoteAction::Backup)
                    } else {
                        (
                            NoteRun { path, backup, rewrite: Some((String::new(), yaml_count, inline_count)) },
                            NoteAction::Write(text),
                        )
                    }
                },
            }
        },
        NoteEvent::ReadFailed(detail) => {
            result.record_error(failure_text("Cannot read ", path.as_str(), detail.as_str()));
            (NoteRun { path, backup, rewrite: None }, NoteAction::Next)
        },
        NoteEvent::BackupDirFailed(detail) => {
            result.record_error(failure_text("Cannot create backup dir for ", path.as_str(), detail.as_str()));
            (NoteRun { path, backup, rewrite: None }, NoteAction::Next)
        },
        NoteEvent::BackupFailed(detail) => {
            result.record_error(failure_text("Backup failed for ", path.as_str(), detail.as_str()));
            (NoteRun { path, backup, rewrite: None }, NoteAction::Next)
        },
        NoteEvent::BackedUp => {
            match rewrite {
                Some((text, yaml_count, inline_count)) => (
                    NoteRun { path, backup, rewrite: Some((String::new(), yaml_count, inline_count)) },
                    NoteAction::Write(text),
                ),
                None => (NoteRun { path, backup, rewrite: None }, NoteAction::Next),
            }
        },
        NoteEvent::WriteFailed(detail) => {
            result.record_error(failure_text("Write failed for ", path.as_str(), detail.as_str()));
            (NoteRun { path, backup, rewrite: None }, NoteAction::Next)
        },
        NoteEvent::Written => {
            if let Some((_, yaml_count, inline_count)) = rewrite {
                result.record_file(yaml_count, inline_count);
            }
            (NoteRun { path, backup, rewrite: None }, NoteAction::Next)
        },
    }
}

} // verus!
