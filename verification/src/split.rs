//! Split metadata: the description of one immutable search shard, its
//! lifecycle state, and the file entry it occupies on storage.

use vstd::prelude::*;

use crate::checkpoint::CheckpointDelta;

verus! {

/// Lifecycle state of a split.
///
/// `New` splits exist only in memory; a split enters the catalog as
/// `Staged`, is promoted to `Published` atomically with a checkpoint
/// advance, is retired to `ScheduledForDeletion`, and is removed from
/// the catalog only from that last state.
#[derive(Clone, Copy, Debug, PartialEq, Eq, Structural)]
pub enum SplitState {
    New,
    Staged,
    Published,
    ScheduledForDeletion,
}

/// Inclusive range over the designated timestamp field of a split.
#[derive(Clone, Copy, Debug, PartialEq, Eq, Structural)]
pub struct TimeRange {
    pub start: i64,
    pub end: i64,
}

/// Byte range of the trailer inside the split file; offsets are absolute
/// in the object.
#[derive(Clone, Copy, Debug, PartialEq, Eq, Structural)]
pub struct FooterOffsets {
    pub start: u64,
    pub end: u64,
}

/// Catalog entry for one split.
#[derive(Debug)]
pub struct SplitMetadata {
    pub split_id: String,
    pub index_id: String,
    pub replaced_split_ids: Vec<String>,
    pub num_docs: u64,
    pub size_in_bytes: u64,
    pub time_range: Option<TimeRange>,
    pub create_timestamp: u64,
    pub update_timestamp: u64,
    pub tags: Vec<String>,
    pub footer_offsets: FooterOffsets,
    pub split_state: SplitState,
}

/// Mathematical abstraction of a split's catalog entry.
pub struct SplitView {
    pub split_id: Seq<char>,
    pub index_id: Seq<char>,
    pub replaced_split_ids: Seq<Seq<char>>,
    pub num_docs: u64,
    pub size_in_bytes: u64,
    pub time_range: Option<TimeRange>,
    pub create_timestamp: u64,
    pub update_timestamp: u64,
    pub tags: Seq<Seq<char>>,
    pub footer_offsets: FooterOffsets,
    pub split_state: SplitState,
}

impl View for SplitMetadata {
    type V = SplitView;

    open spec fn view(&self) -> SplitView {
        SplitView {
            split_id: self.split_id@,
            index_id: self.index_id@,
            replaced_split_ids: self.replaced_split_ids@.map_values(|s: String| s@),
            num_docs: self.num_docs,
            size_in_bytes: self.size_in_bytes,
            time_range: self.time_range,
            create_timestamp: self.create_timestamp,
            update_timestamp: self.update_timestamp,
            tags: self.tags@.map_values(|s: String| s@),
            footer_offsets: self.footer_offsets,
            split_state: self.split_state,
        }
    }
}

/// The character sequences of a list of strings.
pub open spec fn string_views(s: Seq<String>) -> Seq<Seq<char>> {
    s.map_values(|t: String| t@)
}

/// The abstractions of a list of split catalog entries.
pub open spec fn split_views(s: Seq<SplitMetadata>) -> Seq<SplitView> {
    s.map_values(|m: SplitMetadata| m@)
}

/// Copies a list of strings element by element.
pub fn copy_strings(src: &Vec<String>) -> (r: Vec<String>)
    ensures
        r@ == src@,
{
    let mut out: Vec<String> = Vec::new();
    let mut i: usize = 0;
    while i < src.len()
        invariant
            i <= src.len(),
            out@ =~= src@.take(i as int),
        decreases src.len() - i,
    {
        out.push(src[i].clone());
        assert(out@ =~= src@.take(i + 1));
        i = i + 1;
    }
    assert(out@ =~= src@);
    out
}

impl Clone for SplitMetadata {
    fn clone(&self) -> (r: SplitMetadata)
        ensures
            r@ == self@,
    {
        SplitMetadata {
            split_id: self.split_id.clone(),
            index_id: self.index_id.clone(),
            replaced_split_ids: copy_strings(&self.replaced_split_ids),
            num_docs: self.num_docs,
            size_in_bytes: self.size_in_bytes,
            time_range: self.time_range,
            create_timestamp: self.create_timestamp,
            update_timestamp: self.update_timestamp,
            tags: copy_strings(&self.tags),
            footer_offsets: self.footer_offsets,
            split_state: self.split_state,
        }
    }
}

/// The name of the file a split occupies on storage: its id followed by
/// the `.split` extension.
pub open spec fn spec_split_file(split_id: Seq<char>) -> Seq<char> {
    split_id + ".split"@
}

/// Builds the storage file name of a split.
pub fn split_file(split_id: &String) -> (r: String)
    ensures
        r@ == spec_split_file(split_id@),
{
    split_id.clone().concat(".split")
}

/// A file affected by a deletion, as reported to callers.
#[derive(Debug)]
pub struct FileEntry {
    pub file_name: String,
    pub file_size_in_bytes: u64,
}

impl FileEntry {
    /// The file entry occupied by a split: its split file and its size.
    pub fn from_split(meta: &SplitMetadata) -> (r: FileEntry)
        ensures
            r.file_name@ == spec_split_file(meta.split_id@),
            r.file_size_in_bytes == meta.size_in_bytes,
    {
        FileEntry {
            file_name: split_file(&meta.split_id),
            file_size_in_bytes: meta.size_in_bytes,
        }
    }
}

/// Hand-off between the indexer and the uploader: a freshly built split,
/// the scratch directory holding its files, and the checkpoint deltas to
/// commit on publish.
pub struct PackagedSplit {
    pub split_id: String,
    pub replaced_split_ids: Vec<String>,
    pub index_id: String,
    pub checkpoint_deltas: Vec<CheckpointDelta>,
    pub time_range: Option<TimeRange>,
    pub size_in_bytes: u64,
    pub footer_offsets: FooterOffsets,
    pub scratch_directory_path: String,
    pub num_docs: u64,
    pub tags: Vec<String>,
    pub split_date_of_birth: u64,
}

} // verus!
