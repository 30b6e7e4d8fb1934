//! The storage engine.
use vstd::prelude::*;
use crate::schema::{ChatSessionV1, SessionView};
use crate::storage::directory::{
    active_segment, data_file_name, data_name, index_file_name, index_name, Directory, FileView,
};
use crate::storage::pending::{PendingLog, PendingView};
pub use crate::storage::types::{DbStats, StorageError};
pub use crate::storage::wal::WalWriter;
pub use crate::storage::writer::SessionWriter;

pub mod blocks;
pub mod constants;
pub mod directory;
pub mod flush;
pub mod ingest;
pub mod lookup;
pub mod optimise;
pub mod pending;
pub mod progress;
pub mod reindex;
pub mod scan;
pub mod search;
pub mod segment;
pub mod stats;
pub mod sync;
pub mod types;
pub mod wal;
pub mod writer;

verus! {

/// The archive: its directory and its pending log.
pub struct Storage {
    pub dir: Directory,
    pub pending: PendingLog,
}

#[verifier::ext_equal]
pub ghost struct StorageView {
    pub files: Seq<FileView>,
    pub pending: PendingView,
}

impl View for Storage {
    type V = StorageView;

    open spec fn view(&self) -> StorageView {
        StorageView { files: self.dir@, pending: self.pending.deep_view() }
    }
}

impl Storage {
    /// An archive over a directory and a pending log.
    pub fn new(dir: Directory, pending: PendingLog) -> (r: Self)
        ensures
            r@ == (StorageView { files: dir@, pending: pending.deep_view() }),
    {
        Storage { dir, pending }
    }

    /// Find the active (latest) data file number
    pub fn get_active_segment_num(&self) -> (r: Result<u32, StorageError>)
        ensures
            r == Ok::<u32, StorageError>(active_segment(self@.files)),
    {
        Ok(self.dir.get_active_segment_num())
    }

    /// The name of the active data file.
    pub fn get_active_file(&self) -> (r: String)
        ensures
            r@ == data_name(active_segment(self@.files)),
    {
        data_file_name(self.dir.get_active_segment_num())
    }

    /// The name of the active index file.
    pub fn get_index_file(&self) -> (r: String)
        ensures
            r@ == index_name(active_segment(self@.files)),
    {
        index_file_name(self.dir.get_active_segment_num())
    }

    /// Reads all completed sessions currently in the pending log.
    pub fn get_pending_sessions(&self) -> (r: Result<Vec<ChatSessionV1>, StorageError>)
        ensures
            match r {
                Ok(v) => {
                    &&& self@.pending.sessions() == Ok::<Seq<SessionView>, StorageError>(
                        v.deep_view(),
                    )
                    &&& self@.pending.keeps_objects(v.deep_view())
                },
                Err(e) => self@.pending.sessions() == Err::<Seq<SessionView>, StorageError>(e),
            },
    {
        self.pending.sessions()
    }

    /// The name of the pending file.
    pub fn get_pending_file(&self) -> (r: String)
        ensures
            r@ == "pending.bin"@,
    {
        "pending.bin".to_owned()
    }
}

} // verus!
