//! What the file-system scan decides for each directory entry, the rows it
//! records, and the progress it reports.
use vstd::prelude::*;
use crate::paths::{path_extension, path_file_name, split_name, file_name, name_extension};
use crate::storage::FileRow;
use crate::text::chars_of;

verus! {

/// Files larger than this are skipped by the indexer.
pub const MAX_FILE_SIZE_BYTES: u64 = 10485760;

/// A progress event goes out after every this many files scanned.
pub const EMIT_EVERY_N_FILES: u64 = 250;

/// The current stage of an index refresh.
#[derive(Debug, Clone)]
pub enum IndexPhase {
    Starting,
    Scanning,
    BuildingIndex,
    Complete { total_files: u64 },
    Failed { reason: String },
}

/// A point-in-time snapshot of indexing progress, sent to the frontend.
#[derive(Debug, Clone)]
pub struct IndexProgress {
    pub phase: IndexPhase,
    pub files_scanned: u64,
    pub current_dir: String,
    pub total_dirs: usize,
    pub dirs_done: usize,
}

/// What a directory entry is.
#[derive(Debug, Clone, Copy, PartialEq, Eq, Structural)]
pub enum EntryKind {
    Dir,
    File,
    Symlink,
    /// Anything else, or an entry whose type could not be read.
    Other,
}

/// What the scan does with an entry.
#[derive(Debug, Clone, Copy, PartialEq, Eq, Structural)]
pub enum EntryAction {
    Skip,
    /// Record the directory and scan inside it.
    IndexDir,
    /// Record the file.
    IndexFile,
}

/// Hidden entries are those whose name starts with '.'.
pub open spec fn is_hidden_name(name: Seq<char>) -> bool {
    name.len() > 0 && name[0] == '.'
}

/// The scan's decision: hidden entries only when asked for, never symbolic
/// links, directories always, files when their size is known and at most
/// the limit.
pub open spec fn entry_decision(name: Seq<char>, kind: EntryKind, size: Option<u64>, include_hidden: bool) -> EntryAction {
    if is_hidden_name(name) && !include_hidden {
        EntryAction::Skip
    } else {
        match kind {
            EntryKind::Dir => EntryAction::IndexDir,
            EntryKind::File => match size {
                Some(n) => if n > MAX_FILE_SIZE_BYTES { EntryAction::Skip } else { EntryAction::IndexFile },
                None => EntryAction::Skip,
            },
            _ => EntryAction::Skip,
        }
    }
}

/// Unless hidden entries are asked for, an entry whose name starts with '.'
/// is skipped whatever it is: a hidden directory is neither recorded nor
/// scanned, so nothing below it is indexed.
pub proof fn law_hidden_entries_skipped(name: Seq<char>, kind: EntryKind, size: Option<u64>)
    ensures
        name.len() > 0 && name[0] == '.' ==> entry_decision(name, kind, size, false) == EntryAction::Skip,
{
}

/// A visible entry (or any entry when hidden ones are asked for): directories
/// are recorded and scanned, files are recorded exactly when their size is
/// known and within the limit, links and anything else are skipped.
pub proof fn law_visible_entry_decision(name: Seq<char>, kind: EntryKind, size: Option<u64>, include_hidden: bool)
    requires
        !(name.len() > 0 && name[0] == '.' && !include_hidden),
    ensures
        kind is Dir ==> entry_decision(name, kind, size, include_hidden) == EntryAction::IndexDir,
        kind is File ==> (entry_decision(name, kind, size, include_hidden) == EntryAction::IndexFile
            <==> (size matches Some(n) && n <= MAX_FILE_SIZE_BYTES)),
        kind is File ==> (entry_decision(name, kind, size, include_hidden) == EntryAction::IndexFile
            || entry_decision(name, kind, size, include_hidden) == EntryAction::Skip),
        kind is Symlink || kind is Other ==> entry_decision(name, kind, size, include_hidden) == EntryAction::Skip,
{
}

/// Decide what to do with a directory entry. `size` is the file's length
/// when its metadata could be read.
pub fn entry_action(name: &str, kind: EntryKind, size: Option<u64>, include_hidden: bool) -> (a: EntryAction)
    ensures
        a == entry_decision(name@, kind, size, include_hidden),
        name@.len() > 0 && name@[0] == '.' && !include_hidden ==> a == EntryAction::Skip,
        !(name@.len() > 0 && name@[0] == '.' && !include_hidden) ==> {
            &&& (kind is Dir ==> a == EntryAction::IndexDir)
            &&& (kind is File ==> (a == EntryAction::IndexFile <==> (size matches Some(n) && n <= MAX_FILE_SIZE_BYTES)))
            &&& (kind is File ==> (a == EntryAction::IndexFile || a == EntryAction::Skip))
            &&& (kind is Symlink || kind is Other ==> a == EntryAction::Skip)
        },
{
    proof {
        law_hidden_entries_skipped(name@, kind, size);
        if !(name@.len() > 0 && name@[0] == '.' && !include_hidden) {
            law_visible_entry_decision(name@, kind, size, include_hidden);
        }
    }
    let chars = chars_of(name);
    let hidden = chars.len() > 0 && chars[0] == '.';
    if hidden && !include_hidden {
        return EntryAction::Skip;
    }
    match kind {
        EntryKind::Dir => EntryAction::IndexDir,
        EntryKind::File => match size {
            Some(n) => if n > MAX_FILE_SIZE_BYTES { EntryAction::Skip } else { EntryAction::IndexFile },
            None => EntryAction::Skip,
        },
        _ => EntryAction::Skip,
    }
}

/// The row recorded for a directory.
pub fn dir_row(name: String, path: String, parent_path: String) -> (r: FileRow)
    ensures
        r.name == name,
        r.path == path,
        r.parent_path == parent_path,
        r.file_type@ == "dir"@,
        r.size is None,
        r.last_modified is None,
        r.extension is None,
        r.is_hidden == if is_hidden_name(name@) { 1int } else { 0int },
{
    let hidden = {
        let chars = chars_of(name.as_str());
        chars.len() > 0 && chars[0] == '.'
    };
    proof {
        reveal_strlit("dir");
    }
    FileRow {
        name,
        path,
        parent_path,
        file_type: String::from_str("dir"),
        size: None,
        last_modified: None,
        extension: None,
        is_hidden: if hidden { 1 } else { 0 },
    }
}

/// The row recorded for a file: its size, modification time, and the
/// extension of its path.
pub fn file_row(name: String, path: String, parent_path: String, size: u64, last_modified: Option<i64>) -> (r: FileRow)
    requires
        size <= i64::MAX,
    ensures
        r.name == name,
        r.path == path,
        r.parent_path == parent_path,
        r.file_type@ == "file"@,
        r.size == Some(size as i64),
        r.last_modified == last_modified,
        match r.extension { Some(e) => path_extension(path@) == Some(e@), None => path_extension(path@) is None },
        r.is_hidden == if is_hidden_name(name@) { 1int } else { 0int },
{
    let hidden = {
        let chars = chars_of(name.as_str());
        chars.len() > 0 && chars[0] == '.'
    };
    let extension = match path_file_name(path.as_str()) {
        Some(n) => split_name(n.as_str()).1,
        None => None,
    };
    proof {
        reveal_strlit("file");
    }
    FileRow {
        name,
        path,
        parent_path,
        file_type: String::from_str("file"),
        size: Some(size as i64),
        last_modified,
        extension,
        is_hidden: if hidden { 1 } else { 0 },
    }
}

/// How many files an entry adds to a directory's count: one for a recorded
/// file, the count found inside for a directory (directories themselves are
/// not counted), none for a skipped entry.
pub fn entry_files(action: &EntryAction, nested: u64) -> (n: u64)
    ensures
        match action {
            EntryAction::IndexFile => n == 1,
            EntryAction::IndexDir => n == nested,
            EntryAction::Skip => n == 0,
        },
{
    match action {
        EntryAction::IndexFile => 1,
        EntryAction::IndexDir => nested,
        EntryAction::Skip => 0,
    }
}

/// Whether a progress event goes out after `scanned` files.
pub fn should_emit_progress(scanned: u64) -> (b: bool)
    ensures
        b == (scanned % EMIT_EVERY_N_FILES == 0),
{
    scanned % EMIT_EVERY_N_FILES == 0
}

/// The terminal event of a successful refresh: every file counted, no
/// directory in progress.
pub fn complete_progress(total_files: u64) -> (p: IndexProgress)
    ensures
        p.phase matches IndexPhase::Complete { total_files: t } && t == total_files,
        p.files_scanned == total_files,
        p.current_dir@.len() == 0,
        p.total_dirs == 0,
        p.dirs_done == 0,
{
    IndexProgress {
        phase: IndexPhase::Complete { total_files },
        files_scanned: total_files,
        current_dir: String::new(),
        total_dirs: 0,
        dirs_done: 0,
    }
}

/// An event that carries no scan counters, for terminal phases.
pub fn bare_progress(phase: IndexPhase) -> (p: IndexProgress)
    ensures
        p.phase == phase,
        p.files_scanned == 0,
        p.current_dir@.len() == 0,
        p.total_dirs == 0,
        p.dirs_done == 0,
{
    IndexProgress { phase, files_scanned: 0, current_dir: String::new(), total_dirs: 0, dirs_done: 0 }
}

} // verus!
