//! Media files: name collisions, and what a copy into Anki's media folder did.
use crate::doc_parser::types::{media_views, MediaReference};
use crate::text::{chars_eq, chars_of, push_str, string_of};
use crate::web_preview::url_rewriting::{join_path, unix_join};
use vstd::prelude::*;

verus! {

/// What a copy of media files did.
#[derive(Debug, PartialEq)]
pub struct CopyReport {
    /// Files copied to the destination.
    pub copied: usize,
    /// Files skipped because the destination already had them.
    pub skipped: usize,
    /// Source files that were not found.
    pub missing: Vec<String>,
}

impl Default for CopyReport {
    fn default() -> (r: CopyReport)
        ensures
            r.copied == 0,
            r.skipped == 0,
            r.missing@.len() == 0,
    {
        CopyReport { copied: 0, skipped: 0, missing: Vec::new() }
    }
}

/// Two references store different files under one name.
pub open spec fn collides(m: Seq<(Seq<char>, Seq<char>, Option<Seq<char>>)>, i: int, j: int) -> bool {
    &&& 0 <= i < j < m.len()
    &&& m[i].1 == m[j].1
    &&& m[i].0 != m[j].0
}

/// The message of a collision.
pub open spec fn collision_message(target: Seq<char>, first: Seq<char>, second: Seq<char>) -> Seq<char> {
    "'"@ + target + "' is used by both '"@ + first + "' and '"@ + second + "'"@
}

/// `m` reports the first collision: the reference `j` with the smallest
/// position that collides with an earlier one, and the earliest `i` it
/// collides with.
pub open spec fn reports_first_collision(mv: Seq<(Seq<char>, Seq<char>, Option<Seq<char>>)>, m: Seq<char>) -> bool {
    exists|i: int, j: int|
        #[trigger] collides(mv, i, j) && (forall|a: int, b: int| 0 <= a < b < j ==> !collides(mv, a, b))
            && (forall|a: int| 0 <= a < i ==> !collides(mv, a, j)) && m == collision_message(
            mv[j].1,
            mv[i].0,
            mv[j].0,
        )
}

/// Refuses references that would store different files under one name; the
/// message names the first such pair (by the second reference's position).
pub fn check_media_collisions(refs: &Vec<MediaReference>) -> (r: Result<(), String>)
    ensures
        r is Ok <==> !exists|i: int, j: int| collides(media_views(refs@), i, j),
        r matches Err(m) ==> reports_first_collision(media_views(refs@), m@),
{
    let ghost mv = media_views(refs@);
    let mut j: usize = 0;
    while j < refs.len()
        invariant
            0 <= j <= refs.len(),
            mv == media_views(refs@),
            forall|a: int, b: int| 0 <= a < b < j ==> !collides(mv, a, b),
        decreases refs.len() - j,
    {
        let tj = chars_of(refs[j].target_name.as_str());
        let sj = chars_of(refs[j].source_path.as_str());
        let mut i: usize = 0;
        while i < j
            invariant
                0 <= i <= j < refs.len(),
                mv == media_views(refs@),
                tj@ == mv[j as int].1,
                sj@ == mv[j as int].0,
                forall|a: int, b: int| 0 <= a < b < j ==> !collides(mv, a, b),
                forall|a: int| 0 <= a < i ==> !collides(mv, a, j as int),
            decreases j - i,
        {
            let ti = chars_of(refs[i].target_name.as_str());
            let si = chars_of(refs[i].source_path.as_str());
            if chars_eq(&ti, &tj) && !chars_eq(&si, &sj) {
                let mut m = chars_of("'");
                push_str(&mut m, refs[j].target_name.as_str());
                push_str(&mut m, "' is used by both '");
                push_str(&mut m, refs[i].source_path.as_str());
                push_str(&mut m, "' and '");
                push_str(&mut m, refs[j].source_path.as_str());
                push_str(&mut m, "'");
                assert(collides(mv, i as int, j as int));
                return Err(string_of(&m));
            }
            i = i + 1;
        }
        j = j + 1;
    }
    Ok(())
}

/// One file to copy: where it is read and where it is written.
pub struct MediaCopy {
    /// The reference's path resolved against the document's directory.
    pub source: String,
    /// The target name inside Anki's media folder.
    pub destination: String,
}

/// The copies of the references of a document: each source path resolved
/// against the document's directory, each target name put in the media
/// folder.
pub fn media_copies(document_dir: &str, refs: &Vec<MediaReference>, anki_media_dir: &str) -> (r: Vec<MediaCopy>)
    ensures
        r@.len() == refs@.len(),
        forall|i: int|
            0 <= i < refs@.len() ==> (#[trigger] r@[i]).source@ == unix_join(document_dir@, refs@[i].source_path@)
                && r@[i].destination@ == unix_join(anki_media_dir@, refs@[i].target_name@),
{
    let mut out: Vec<MediaCopy> = Vec::new();
    let mut i: usize = 0;
    while i < refs.len()
        invariant
            0 <= i <= refs.len(),
            out@.len() == i,
            forall|k: int|
                0 <= k < i ==> (#[trigger] out@[k]).source@ == unix_join(document_dir@, refs@[k].source_path@)
                    && out@[k].destination@ == unix_join(anki_media_dir@, refs@[k].target_name@),
        decreases refs.len() - i,
    {
        let source = join_path(document_dir, refs[i].source_path.as_str());
        let destination = join_path(anki_media_dir, refs[i].target_name.as_str());
        out.push(MediaCopy { source, destination });
        i = i + 1;
    }
    out
}

/// What to do with one file.
#[derive(Debug, Clone, Copy, PartialEq, Eq, Structural)]
pub enum MediaStep {
    /// The destination already has the file: leave it.
    Skip,
    /// The source file does not exist: warn and go on.
    Missing,
    /// Copy the file.
    Copy,
}

/// The step for a file: an existing destination is never overwritten; a
/// missing source is reported, not an error.
pub fn media_step(destination_exists: bool, source_exists: bool) -> (r: MediaStep)
    ensures
        destination_exists ==> r == MediaStep::Skip,
        !destination_exists && !source_exists ==> r == MediaStep::Missing,
        !destination_exists && source_exists ==> r == MediaStep::Copy,
{
    if destination_exists {
        MediaStep::Skip
    } else if !source_exists {
        MediaStep::Missing
    } else {
        MediaStep::Copy
    }
}

impl CopyReport {
    /// Counts a step that was carried out: a copy, a skip, or a missing
    /// source (recorded by its path).
    pub fn record(&mut self, step: MediaStep, source: &str)
        requires
            old(self).copied < usize::MAX,
            old(self).skipped < usize::MAX,
        ensures
            final(self).copied == old(self).copied + (if step == MediaStep::Copy { 1int } else { 0int }),
            final(self).skipped == old(self).skipped + (if step == MediaStep::Skip { 1int } else { 0int }),
            final(self).missing.deep_view() == (if step == MediaStep::Missing {
                old(self).missing.deep_view().push(source@)
            } else {
                old(self).missing.deep_view()
            }),
    {
        match step {
            MediaStep::Copy => {
                self.copied = self.copied + 1;
            },
            MediaStep::Skip => {
                self.skipped = self.skipped + 1;
            },
            MediaStep::Missing => {
                let ghost b = self.missing.deep_view();
                self.missing.push(string_of(&chars_of(source)));
                assert(self.missing.deep_view() =~= b.push(source@));
            },
        }
    }
}

} // verus!
