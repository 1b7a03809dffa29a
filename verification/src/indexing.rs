//! The decisions of an indexing run, one media file at a time.
//!
//! An indexing run walks the media files in order. For each one the library says
//! which actions to take; the run performs them. Extracting the subtitles embedded in
//! a media file can fail, so the actions for a file come in two parts: those up to the
//! extraction, and those that follow it, which depend on whether it succeeded.
use vstd::prelude::*;
use crate::index::MediaFile;

verus! {

/// One thing that an indexing run does for a media file.
#[derive(Debug, Clone, Copy, PartialEq, Eq, Structural)]
pub enum IndexAction {
    /// Report progress: the file's place in the run, the number of files, its path.
    ReportProgress,
    /// Record the file in the database (its path, modification time and size), with
    /// whether it has subtitles.
    Record { has_subtitles: bool },
    /// Extract the subtitles embedded in the media file.
    ExtractEmbedded,
    /// Store the extracted subtitles as the file's segments.
    StoreSegments,
    /// Add the file to the search index.
    AddToSearch,
}

/// The actions for a media file up to the extraction of its embedded subtitles.
/// Nothing where the file's entry is current. Otherwise progress is reported and the
/// file is recorded, as having subtitles where a subtitle file lies beside it; such a
/// file then has its embedded subtitles extracted, and nothing more is done with any
/// other file.
pub open spec fn spec_actions_for_file(has_subtitle_file: bool, up_to_date: bool) -> Seq<IndexAction> {
    if up_to_date {
        Seq::<IndexAction>::empty()
    } else if has_subtitle_file {
        seq![IndexAction::ReportProgress, IndexAction::Record { has_subtitles: true }, IndexAction::ExtractEmbedded]
    } else {
        seq![IndexAction::ReportProgress, IndexAction::Record { has_subtitles: false }]
    }
}

/// The actions after an extraction: the extracted subtitles are stored where it
/// succeeded (nothing is stored where it failed); then the file is recorded again, as
/// having subtitles, and added to the search index.
pub open spec fn spec_actions_after_extraction(extracted: bool) -> Seq<IndexAction> {
    if extracted {
        seq![IndexAction::StoreSegments, IndexAction::Record { has_subtitles: true }, IndexAction::AddToSearch]
    } else {
        seq![IndexAction::Record { has_subtitles: true }, IndexAction::AddToSearch]
    }
}

/// The actions for `file` up to the extraction of its embedded subtitles, given
/// whether its database entry is current.
pub fn actions_for_file(file: &MediaFile, up_to_date: bool) -> (res: Vec<IndexAction>)
    ensures
        res@ == spec_actions_for_file(file.subtitles is Some, up_to_date),
{
    let mut actions: Vec<IndexAction> = Vec::new();
    if up_to_date {
        return actions;
    }
    actions.push(IndexAction::ReportProgress);
    if file.subtitles.is_some() {
        actions.push(IndexAction::Record { has_subtitles: true });
        actions.push(IndexAction::ExtractEmbedded);
    } else {
        actions.push(IndexAction::Record { has_subtitles: false });
    }
    proof {
        assert(actions@ =~= spec_actions_for_file(file.subtitles is Some, up_to_date));
    }
    actions
}

/// The actions that follow an extraction of embedded subtitles, given whether it
/// succeeded.
pub fn actions_after_extraction(extracted: bool) -> (res: Vec<IndexAction>)
    ensures
        res@ == spec_actions_after_extraction(extracted),
{
    let mut actions: Vec<IndexAction> = Vec::new();
    if extracted {
        actions.push(IndexAction::StoreSegments);
    }
    actions.push(IndexAction::Record { has_subtitles: true });
    actions.push(IndexAction::AddToSearch);
    proof {
        assert(actions@ =~= spec_actions_after_extraction(extracted));
    }
    actions
}

/// What every indexing run does with a file whose entry is not current: it is
/// recorded first, before anything else is stored; only a file with a subtitle file
/// beside it has its embedded subtitles extracted, is recorded a second time and is
/// added to the search index; and segments are stored only where the extraction
/// succeeded.
pub proof fn lemma_index_actions(has_subtitle_file: bool, extracted: bool)
    ensures
        spec_actions_for_file(has_subtitle_file, false)[1]
            == (IndexAction::Record { has_subtitles: has_subtitle_file }),
        spec_actions_for_file(has_subtitle_file, false).contains(IndexAction::ExtractEmbedded) == has_subtitle_file,
        !spec_actions_for_file(has_subtitle_file, false).contains(IndexAction::AddToSearch),
        !spec_actions_for_file(has_subtitle_file, false).contains(IndexAction::StoreSegments),
        spec_actions_after_extraction(extracted).contains(IndexAction::StoreSegments) == extracted,
        spec_actions_after_extraction(extracted).last() == IndexAction::AddToSearch,
        spec_actions_after_extraction(extracted).contains(IndexAction::Record { has_subtitles: true }),
        spec_actions_for_file(has_subtitle_file, true).len() == 0,
{
    let before = spec_actions_for_file(has_subtitle_file, false);
    let after = spec_actions_after_extraction(extracted);
    if has_subtitle_file {
        assert(before[2] == IndexAction::ExtractEmbedded);
    } else {
        assert forall|i: int| 0 <= i < before.len() implies before[i] != IndexAction::ExtractEmbedded by {}
    }
    assert forall|i: int| 0 <= i < before.len() implies before[i] != IndexAction::AddToSearch
        && before[i] != IndexAction::StoreSegments by {}
    if extracted {
        assert(after[0] == IndexAction::StoreSegments);
        assert(after[1] == IndexAction::Record { has_subtitles: true });
    } else {
        assert forall|i: int| 0 <= i < after.len() implies after[i] != IndexAction::StoreSegments by {}
        assert(after[0] == IndexAction::Record { has_subtitles: true });
    }
}

} // verus!
