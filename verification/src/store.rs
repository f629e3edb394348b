//! Records of the index database: file rows and table counts.

use vstd::prelude::*;
use crate::model::{opt_view, NodeId};

verus! {

/// The indexed state of one repo file.
#[derive(Debug)]
pub struct FileRow {
    pub path: String,
    pub file_node: Option<NodeId>,
    /// Ordered merkle children: (byte_start, byte_end, chunk node id).
    pub merkle: Vec<(i64, i64, NodeId)>,
    pub mtime: i64,
    pub size: i64,
    pub content_sha: Option<String>,
    pub skipped: Option<String>,
}

/// Mathematical value of a [`FileRow`].
pub ghost struct FileRowView {
    pub path: Seq<char>,
    pub file_node: Option<NodeId>,
    pub merkle: Seq<(i64, i64, NodeId)>,
    pub mtime: int,
    pub size: int,
    pub content_sha: Option<Seq<char>>,
    pub skipped: Option<Seq<char>>,
}

impl View for FileRow {
    type V = FileRowView;

    open spec fn view(&self) -> FileRowView {
        FileRowView {
            path: self.path@,
            file_node: self.file_node,
            merkle: self.merkle@,
            mtime: self.mtime as int,
            size: self.size as int,
            content_sha: opt_view(self.content_sha),
            skipped: opt_view(self.skipped),
        }
    }
}

/// Row counts of the index tables.
#[derive(Debug, Default, Clone, Copy)]
pub struct Counts {
    pub files: i64,
    pub skipped_files: i64,
    pub chunks: i64,
    pub signatures: i64,
    pub docs: i64,
    pub edges: i64,
}

} // verus!
