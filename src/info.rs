//! What the info command reports about a managed volume.
use vstd::prelude::*;
use crate::plan::{total_duration, total_of};

verus! {

/// State of a managed volume as the info command reports it. Runtimes are in
/// nanoseconds.
#[derive(Clone, Copy, Debug, PartialEq, Eq)]
pub struct VolumeInfo {
    /// The dirty flag is present.
    pub dirty: bool,
    /// Total length of the regular files of the music directory.
    pub original_runtime: u128,
    /// Total length of the regular files of the link directory.
    pub playlist_runtime: u128,
    /// Number of regular files in the link directory.
    pub link_count: usize,
}

/// Summarises a volume from its dirty flag and the lengths of the files of
/// its music and link directories.
pub fn summarize(dirty: bool, originals: &Vec<u64>, links: &Vec<u64>) -> (r: VolumeInfo)
    ensures
        r.dirty == dirty,
        r.original_runtime == total_duration(originals@),
        r.playlist_runtime == total_duration(links@),
        r.link_count == links@.len(),
{
    VolumeInfo {
        dirty,
        original_runtime: total_of(originals),
        playlist_runtime: total_of(links),
        link_count: links.len(),
    }
}

} // verus!
