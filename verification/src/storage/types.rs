//! Errors and statistics of the storage engine.
use vstd::prelude::*;
use crate::schema::{ChatSessionV1, SessionView};
use crate::storage::directory::{data_file_name, data_name};
use crate::text::chars_of;

verus! {

/// Why an operation on the archive failed.
#[derive(Clone, Copy, Debug, PartialEq, Eq, Structural)]
pub enum StorageError {
    /// There is no data file at all.
    DataFileNotFound,
    /// A segment has a data file but no index file.
    IndexFileNotFound { segment: u32 },
    /// A data file does not start with the magic bytes.
    InvalidFormat { segment: u32 },
    /// The same, found while every session was read.
    WrongMagicBytes { segment: u32 },
    /// The same, found in the active segment while it was to be rewritten.
    UnknownFormat,
    /// A file ends inside a header or a block.
    UnexpectedEof,
    /// zstd refused to compress.
    Compress,
    /// A block is no zstd data.
    Decompress,
    /// The bytes of a block or an index entry are no record.
    Decode,
    /// An index entry's filter cannot be asked.
    CorruptIndex,
    /// A block is too long for its length prefix.
    BlockTooLarge,
    /// There is no segment number left.
    SegmentLimit,
    /// A total does not fit its counter.
    CounterOverflow,
    /// The pending log cannot be read.
    PendingUnreadable,
}

/// Statistics Data Transfer Object
#[derive(Debug)]
pub struct DbStats {
    pub file_name: String,
    pub session_count: u64,
    pub message_count: u64,
    /// File size on disk
    pub total_size_bytes: u64,
    /// Sum of compressed blocks
    pub data_compressed_bytes: u64,
    /// Sum of raw data
    pub data_uncompressed_bytes: u64,
    pub min_time: u64,
    pub max_time: u64,
}

/// The numbers of the statistics, without bounds.
pub ghost struct Counts {
    pub sessions: nat,
    pub messages: nat,
    pub total: nat,
    pub compressed: nat,
    pub uncompressed: nat,
    pub min_time: u64,
    pub max_time: u64,
}

impl Counts {
    pub open spec fn zero() -> Counts {
        Counts {
            sessions: 0,
            messages: 0,
            total: 0,
            compressed: 0,
            uncompressed: 0,
            min_time: 0,
            max_time: 0,
        }
    }

    /// Every total fits 64 bits.
    pub open spec fn fits(self) -> bool {
        &&& self.sessions <= u64::MAX
        &&& self.messages <= u64::MAX
        &&& self.total <= u64::MAX
        &&& self.compressed <= u64::MAX
        &&& self.uncompressed <= u64::MAX
    }

    /// The counts with one more session. A minimum of zero stands for none.
    pub open spec fn with_session(self, s: SessionView) -> Counts {
        Counts {
            sessions: self.sessions + 1,
            messages: self.messages + s.messages.len(),
            min_time: match s.created_at {
                Some(t) if self.min_time == 0 || t < self.min_time => t,
                _ => self.min_time,
            },
            max_time: match s.created_at {
                Some(t) if t > self.max_time => t,
                _ => self.max_time,
            },
            ..self
        }
    }
}

impl Default for DbStats {
    fn default() -> (r: Self)
        ensures
            r.file_name@ == Seq::<char>::empty(),
            r.counts() == Counts::zero(),
    {
        DbStats::empty(String::new())
    }
}

impl DbStats {
    /// The numbers.
    pub open spec fn counts(self) -> Counts {
        Counts {
            sessions: self.session_count as nat,
            messages: self.message_count as nat,
            total: self.total_size_bytes as nat,
            compressed: self.data_compressed_bytes as nat,
            uncompressed: self.data_uncompressed_bytes as nat,
            min_time: self.min_time,
            max_time: self.max_time,
        }
    }

    /// Statistics of nothing.
    pub fn empty(file_name: String) -> (r: Self)
        ensures
            r.file_name == file_name,
            r.counts() == Counts::zero(),
    {
        DbStats {
            file_name,
            session_count: 0,
            message_count: 0,
            total_size_bytes: 0,
            data_compressed_bytes: 0,
            data_uncompressed_bytes: 0,
            min_time: 0,
            max_time: 0,
        }
    }

    /// Counts one more session.
    pub fn accumulate_session(&mut self, session: &ChatSessionV1)
        requires
            old(self).counts().with_session(session.deep_view()).fits(),
        ensures
            final(self).counts() == old(self).counts().with_session(session.deep_view()),
            final(self).file_name == old(self).file_name,
    {
        assert(session.deep_view().messages.len() == session.messages@.len());
        self.session_count = self.session_count + 1;
        self.message_count = self.message_count + session.messages.len() as u64;
        if let Some(ts) = session.created_at {
            if self.min_time == 0 || ts < self.min_time {
                self.min_time = ts;
            }
            if ts > self.max_time {
                self.max_time = ts;
            }
        }
    }
}

/// The path of a file in a directory.
pub open spec fn path_in(dir: Seq<char>, name: Seq<char>) -> Seq<char> {
    if dir.len() == 0 || dir.last() == '/' {
        dir + name
    } else {
        dir.push('/') + name
    }
}

/// The text of an error about the data file of a segment in a directory.
pub open spec fn about_file(
    lead: Seq<char>,
    dir: Seq<char>,
    segment: u32,
    rest: Seq<char>,
) -> Seq<char> {
    lead + path_in(dir, data_name(segment)) + rest
}

fn say_about_file(lead: &str, dir: &str, segment: u32, rest: &str) -> (r: String)
    ensures
        r@ == about_file(lead@, dir@, segment, rest@),
{
    let mut out = String::new();
    out.append(lead);
    out.append(dir);
    let chars = chars_of(dir);
    if chars.len() > 0 && chars[chars.len() - 1] != '/' {
        out.push('/');
    }
    let name = data_file_name(segment);
    out.append(name.as_str());
    out.append(rest);
    assert(out@ =~= about_file(lead@, dir@, segment, rest@));
    out
}

impl StorageError {
    /// The error in words, for an archive in the directory `dir`.
    pub open spec fn text_in(self, dir: Seq<char>) -> Seq<char> {
        match self {
            StorageError::DataFileNotFound => "Data file not found"@,
            StorageError::IndexFileNotFound { segment } => about_file(
                "Index file not found for segment "@,
                dir,
                segment,
                ". Please run: cryo reindex"@,
            ),
            StorageError::InvalidFormat { segment } => about_file(
                "Invalid file format in "@,
                dir,
                segment,
                ""@,
            ),
            StorageError::WrongMagicBytes { segment } => about_file(
                "Invalid file format: Wrong Magic Bytes in "@,
                dir,
                segment,
                ""@,
            ),
            StorageError::UnknownFormat => "Invalid file format"@,
            StorageError::UnexpectedEof => "failed to fill whole buffer"@,
            StorageError::Compress => "Failed to compress"@,
            StorageError::Decompress => "Failed to decompress"@,
            StorageError::Decode => "Failed to deserialize"@,
            StorageError::CorruptIndex => "Index entry has a damaged filter. Please run: cryo reindex"@,
            StorageError::BlockTooLarge => "Block is too large for its length prefix"@,
            StorageError::SegmentLimit => "No segment number left"@,
            StorageError::CounterOverflow => "A total is too large to count"@,
            StorageError::PendingUnreadable => "Failed to read pending events"@,
        }
    }

    /// The error in words; files go by their names alone.
    pub fn message(&self) -> (r: String)
        ensures
            r@ == self.text_in(Seq::empty()),
    {
        let none = String::new();
        self.message_in(none.as_str())
    }

    /// The error in words, for an archive in the directory `dir`.
    pub fn message_in(&self, dir: &str) -> (r: String)
        ensures
            r@ == self.text_in(dir@),
    {
        match self {
            StorageError::DataFileNotFound => "Data file not found".to_owned(),
            StorageError::IndexFileNotFound { segment } => say_about_file(
                "Index file not found for segment ",
                dir,
                *segment,
                ". Please run: cryo reindex",
            ),
            StorageError::InvalidFormat { segment } => say_about_file(
                "Invalid file format in ",
                dir,
                *segment,
                "",
            ),
            StorageError::WrongMagicBytes { segment } => say_about_file(
                "Invalid file format: Wrong Magic Bytes in ",
                dir,
                *segment,
                "",
            ),
            StorageError::UnknownFormat => "Invalid file format".to_owned(),
            StorageError::UnexpectedEof => "failed to fill whole buffer".to_owned(),
            StorageError::Compress => "Failed to compress".to_owned(),
            StorageError::Decompress => "Failed to decompress".to_owned(),
            StorageError::Decode => "Failed to deserialize".to_owned(),
            StorageError::CorruptIndex =>
                "Index entry has a damaged filter. Please run: cryo reindex".to_owned(),
            StorageError::BlockTooLarge => "Block is too large for its length prefix".to_owned(),
            StorageError::SegmentLimit => "No segment number left".to_owned(),
            StorageError::CounterOverflow => "A total is too large to count".to_owned(),
            StorageError::PendingUnreadable => "Failed to read pending events".to_owned(),
        }
    }
}

} // verus!
