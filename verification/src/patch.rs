//! Patch series as review and synchronisation see them.

use crate::series_store;
use crate::series_store::PatchSubject;
use vstd::prelude::*;

verus! {

/// How far the patches of a series are there.
#[derive(Debug, Clone, Copy, PartialEq, Eq, Structural)]
pub enum SeriesIntegrity {
    /// Every announced patch is there.
    Complete,
    /// Some announced patch is not there.
    Partial,
    /// It is not known how many patches there should be.
    Ambiguous,
}

impl SeriesIntegrity {
    /// The word for an integrity.
    pub open spec fn word(self) -> Seq<char> {
        match self {
            SeriesIntegrity::Complete => "complete"@,
            SeriesIntegrity::Partial => "partial"@,
            SeriesIntegrity::Ambiguous => "ambiguous"@,
        }
    }

    /// The word for the integrity.
    pub fn short_label(self) -> (r: &'static str)
        ensures
            r@ == self.word(),
    {
        match self {
            SeriesIntegrity::Complete => "complete",
            SeriesIntegrity::Partial => "partial",
            SeriesIntegrity::Ambiguous => "ambiguous",
        }
    }
}

/// The patch series of one thread.
#[derive(Debug)]
pub struct SeriesSummary {
    pub subject: String,
    pub anchor_message_id: String,
    pub version: u32,
    pub present_count: usize,
    pub expected_total: u32,
    pub integrity: SeriesIntegrity,
}

/// What a subject says of its patch series, whether it is a reply or not. It is
/// an assumption that synchronisation reads subjects as the catalog does.
pub open spec fn signature(subject: Seq<char>) -> Option<PatchSubject> {
    match series_store::patch_subject(subject) {
        Some((parsed, _)) => Some(parsed),
        None => None,
    }
}

/// Reads version, sequence number, total and title from a patch subject.
pub fn patch_series_signature(subject: &str) -> (r: Option<(u32, u32, u32, String)>)
    ensures
        match r {
            Some((version, seq, total, title)) => signature(subject@) == Some(
                PatchSubject { version, seq, total, title: title@ },
            ),
            None => signature(subject@) is None,
        },
{
    match series_store::parse_subject(subject) {
        Some((parsed, _)) => Some((parsed.version, parsed.seq, parsed.total, parsed.title)),
        None => None,
    }
}

/// Decides whether a subject belongs to a patch or its discussion. It is an
/// assumption that these are the subjects that state a patch.
pub fn subject_is_patch_related(subject: &str) -> (r: bool)
    ensures
        r == signature(subject@) is Some,
{
    series_store::parse_subject(subject).is_some()
}

/// The words for integrity.
pub proof fn law_integrity_has_words(integrity: SeriesIntegrity)
    ensures
        integrity is Complete ==> integrity.word() == "complete"@,
        integrity is Partial ==> integrity.word() == "partial"@,
        integrity is Ambiguous ==> integrity.word() == "ambiguous"@,
{
}

/// What a subject says of its series is what the catalog reads from it, whether it
/// is that of a reply or not.
pub proof fn law_subjects_are_read_as_the_catalog_reads_them(subject: Seq<char>)
    ensures
        series_store::patch_subject(subject) matches Some((parsed, _)) ==> signature(subject)
            == Some(parsed),
        series_store::patch_subject(subject) is None ==> signature(subject) is None,
{
}

} // verus!
