//! Bringing a destination text in line with a source text.

use vstd::prelude::*;
use crate::diff::{diff, script_of};
use crate::laws::law_reconstruction;
use crate::lines::{join, join_lines, lemma_join_lines_of, lines_of, tokenize};
use crate::patch::{apply, apply_spec, PatchConflict};

verus! {

/// Why the sync of one pair of files stopped.
#[derive(Clone, Debug)]
pub enum SyncError {
    /// A file could not be read.
    ReadFailure { path: String, cause: String },
    /// A file could not be written.
    WriteFailure { path: String, cause: String },
    /// The destination did not hold what the patch was built against.
    Conflict(PatchConflict),
    /// The configuration could not be found or understood.
    ConfigError(String),
}

/// The new destination text: the patch from the destination to the source,
/// applied to the destination's lines, joined back into a text.
pub open spec fn sync_spec(source: Seq<u8>, dest: Seq<u8>) -> Result<Seq<u8>, (nat, Seq<u8>, Option<Seq<u8>>)> {
    match apply_spec(lines_of(dest), script_of(dest, source)) {
        Ok(ls) => Ok(join(ls)),
        Err(e) => Err(e),
    }
}

/// Computes the new destination text by patching `dest` towards `source`.
/// The patch is built against `dest` itself, so it always applies, and the
/// result is the source text.
pub fn sync_text(source: &[u8], dest: &[u8]) -> (r: Result<Vec<u8>, PatchConflict>)
    ensures
        match r {
            Ok(t) => sync_spec(source@, dest@) == Ok::<_, (nat, Seq<u8>, Option<Seq<u8>>)>(t@) && t@ == source@,
            Err(_) => false,
        },
{
    let patch = diff(dest, source);
    let base = tokenize(dest);
    proof {
        law_reconstruction(dest@, source@);
        lemma_join_lines_of(source@);
    }
    match apply(&base, &patch) {
        Ok(lines) => {
            let text = join_lines(&lines);
            Ok(text)
        },
        Err(c) => Err(c),
    }
}

/// Syncs one pair from what reading its two files gave: the source is read
/// first, then the destination. A failed read stops the pair with
/// `ReadFailure` naming that file; otherwise the result is the text to write
/// to the destination.
pub fn sync_pair(
    source_path: String,
    dest_path: String,
    source: Result<Vec<u8>, String>,
    dest: Result<Vec<u8>, String>,
) -> (r: Result<Vec<u8>, SyncError>)
    ensures
        match (source, dest) {
            (Err(cause), _) => r == Err::<Vec<u8>, _>(SyncError::ReadFailure { path: source_path, cause }),
            (Ok(_), Err(cause)) => r == Err::<Vec<u8>, _>(SyncError::ReadFailure { path: dest_path, cause }),
            (Ok(s), Ok(d)) => r matches Ok(t) && t@ == s@ && sync_spec(s@, d@) == Ok::<_, (nat, Seq<u8>, Option<Seq<u8>>)>(t@),
        },
{
    let s = match source {
        Ok(s) => s,
        Err(cause) => {
            return Err(SyncError::ReadFailure { path: source_path, cause });
        },
    };
    let d = match dest {
        Ok(d) => d,
        Err(cause) => {
            return Err(SyncError::ReadFailure { path: dest_path, cause });
        },
    };
    match sync_text(s.as_slice(), d.as_slice()) {
        Ok(t) => Ok(t),
        Err(c) => Err(SyncError::Conflict(c)),
    }
}

/// Syncing a pair makes the destination equal to the source, and syncing it
/// again leaves the destination as it is.
pub proof fn law_sync_idempotent(source: Seq<u8>, dest: Seq<u8>)
    ensures
        sync_spec(source, dest) == Ok::<_, (nat, Seq<u8>, Option<Seq<u8>>)>(source),
        sync_spec(source, source) == Ok::<_, (nat, Seq<u8>, Option<Seq<u8>>)>(source),
{
    law_reconstruction(dest, source);
    law_reconstruction(source, source);
    lemma_join_lines_of(source);
}

} // verus!
