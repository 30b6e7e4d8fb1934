//! Appending blocks to the active segment.
use vstd::prelude::*;
use crate::codec::{pack, packed, stored_bytes, unpacked};
use crate::frames::{frame, push_frame};
use crate::index::{entry_value, packed_entry, write_entry, IndexView};
use crate::schema::{StoredSession, StoredView};
use crate::storage::blocks::{build_index, describes};
use crate::storage::constants::DATA_MAGIC;
use crate::storage::directory::{
    active_segment, bytes_of, data_file_name, data_name, index_file_name, index_name,
    lemma_index_name_is_no_data_name, lemma_lookup_written, lemma_segment_number_of_data_name,
    lookup, written, Directory, FileView,
};
use crate::storage::types::StorageError;

verus! {

/// The files once a segment was opened for writing: its data file starts
/// with the magic bytes, and its index file exists.
pub open spec fn opened(files: Seq<FileView>, segment: u32) -> Seq<FileView> {
    let data = if bytes_of(files, data_name(segment)).len() == 0 {
        written(files, data_name(segment), DATA_MAGIC@)
    } else {
        files
    };
    if lookup(data, index_name(segment)) is None {
        written(data, index_name(segment), Seq::empty())
    } else {
        data
    }
}

/// The segment that the next block goes to: the active one, or the one after
/// it once the active data file has reached `max_size`. There is none behind
/// the last number.
pub open spec fn writer_segment(files: Seq<FileView>, max_size: u64) -> Option<u32> {
    let active = active_segment(files);
    match lookup(files, data_name(active)) {
        Some(b) if b.len() >= max_size => if active < u32::MAX {
            Some((active + 1) as u32)
        } else {
            None
        },
        _ => Some(active),
    }
}

/// `block` is the compressed block of the record `v`, and `entry` a
/// compressed index entry for it at an offset of the data file.
pub open spec fn record_payloads(
    v: StoredView,
    offset: int,
    block: Seq<u8>,
    entry: Seq<u8>,
) -> bool {
    let raw = stored_bytes(v).len();
    &&& packed(v) == Some(block)
    &&& unpacked(block) == Ok::<(StoredView, nat), StorageError>((v, raw))
    &&& block.len() <= u32::MAX
    &&& entry.len() <= u32::MAX
    &&& entry_value(entry) is Ok
    &&& describes(entry_value(entry)->Ok_0, v, offset, block.len() as int, raw as int)
}

/// `after` is `before` with the frame of `block` behind the data file of a
/// segment and the frame of `entry` behind its index file, for the record `v`.
pub open spec fn appended_as(
    before: Seq<FileView>,
    segment: u32,
    after: Seq<FileView>,
    v: StoredView,
    block: Seq<u8>,
    entry: Seq<u8>,
) -> bool {
    let data = bytes_of(before, data_name(segment));
    let index = bytes_of(before, index_name(segment));
    &&& record_payloads(v, data.len() as int, block, entry)
    &&& after == written(
        written(before, data_name(segment), data + frame(block)),
        index_name(segment),
        index + frame(entry),
    )
}

/// `after` is `before` with the record `v` appended to a segment.
pub open spec fn appended(
    before: Seq<FileView>,
    segment: u32,
    after: Seq<FileView>,
    v: StoredView,
) -> bool {
    exists|block: Seq<u8>, entry: Seq<u8>|
        appended_as(before, segment, after, v, block, entry)
}

/// `after` is `before` with the record `v` appended to the archive.
pub open spec fn archived(
    before: Seq<FileView>,
    after: Seq<FileView>,
    v: StoredView,
    max_size: u64,
) -> bool {
    match writer_segment(before, max_size) {
        Some(segment) => appended(opened(before, segment), segment, after, v),
        None => false,
    }
}

/// zstd refuses the index entry of a record whose block of `compressed`
/// bytes at `offset` holds `raw` bytes, or makes more of the entry than a
/// length prefix can say.
pub open spec fn entry_refused(v: StoredView, offset: int, compressed: int, raw: int) -> bool {
    exists|entry: IndexView|
        {
            &&& describes(entry, v, offset, compressed, raw)
            &&& match #[trigger] packed_entry(entry) {
                Some(p) => p.len() > u32::MAX,
                None => true,
            }
        }
}

/// When writing a record at an offset fails, and how.
pub open spec fn write_refused(v: StoredView, offset: int, e: StorageError) -> bool {
    let no_entry = packed(v) is Some && entry_refused(
        v,
        offset,
        packed(v)->0.len() as int,
        stored_bytes(v).len() as int,
    );
    match e {
        StorageError::Compress => packed(v) is None || no_entry,
        StorageError::BlockTooLarge => (packed(v) is Some && packed(v)->0.len() > u32::MAX)
            || no_entry,
        _ => false,
    }
}

/// The compressed index entry of a record's block.
pub fn make_entry(
    stored: &StoredSession,
    offset: u64,
    compressed_size: u32,
    raw_len: usize,
) -> (r: Result<Vec<u8>, StorageError>)
    ensures
        match r {
            Ok(entry) => {
                &&& entry@.len() <= u32::MAX
                &&& entry_value(entry@) is Ok
                &&& describes(
                    entry_value(entry@)->Ok_0,
                    stored.deep_view(),
                    offset as int,
                    compressed_size as int,
                    raw_len as int,
                )
            },
            Err(e) => {
                &&& e == StorageError::Compress || e == StorageError::BlockTooLarge
                &&& entry_refused(
                    stored.deep_view(),
                    offset as int,
                    compressed_size as int,
                    raw_len as int,
                )
            },
        },
{
    let index = build_index(stored, offset, compressed_size, raw_len);
    let entry = match write_entry(&index) {
        Some(e) => e,
        None => {
            return Err(StorageError::Compress);
        },
    };
    assert(entry.deep_view() =~= entry@);
    if entry.len() as u64 > u32::MAX as u64 {
        return Err(StorageError::BlockTooLarge);
    }
    Ok(entry)
}

/// The frames of a record: for the data file and for the index file.
pub fn frames_of(stored: &StoredSession, offset: u64) -> (r: Result<
    (Vec<u8>, Vec<u8>),
    StorageError,
>)
    ensures
        match r {
            Ok((data, index)) => exists|block: Seq<u8>, entry: Seq<u8>|
                {
                    &&& #[trigger] record_payloads(stored.deep_view(), offset as int, block, entry)
                    &&& data@ == frame(block)
                    &&& index@ == frame(entry)
                },
            Err(e) => write_refused(stored.deep_view(), offset as int, e),
        },
{
    let (block, raw_len) = match pack(stored) {
        Some(p) => p,
        None => {
            return Err(StorageError::Compress);
        },
    };
    if block.len() as u64 > u32::MAX as u64 {
        return Err(StorageError::BlockTooLarge);
    }
    let entry = match make_entry(stored, offset, block.len() as u32, raw_len) {
        Ok(entry) => entry,
        Err(e) => {
            return Err(e);
        },
    };
    let mut data: Vec<u8> = Vec::new();
    push_frame(&mut data, block.as_slice());
    let mut index_frame: Vec<u8> = Vec::new();
    push_frame(&mut index_frame, entry.as_slice());
    assert(data@ =~= frame(block@));
    assert(index_frame@ =~= frame(entry@));
    assert(record_payloads(stored.deep_view(), offset as int, block@, entry@));
    Ok((data, index_frame))
}

/// Opens a segment for writing.
pub fn open_segment(dir: &mut Directory, segment: u32)
    ensures
        final(dir)@ == opened(old(dir)@, segment),
{
    let name = data_file_name(segment);
    let empty = match dir.read(name.as_str()) {
        Some(b) => b.len() == 0,
        None => true,
    };
    if empty {
        let mut magic: Vec<u8> = Vec::new();
        magic.extend_from_slice(&DATA_MAGIC);
        assert(magic@ =~= DATA_MAGIC@);
        dir.write(name, magic);
    }
    let index = index_file_name(segment);
    if dir.read(index.as_str()).is_none() {
        let none: Vec<u8> = Vec::new();
        dir.write(index, none);
    }
}

/// Appends records to the end of the archive, one segment after another.
pub struct SessionWriter {
    current_segment: u32,
    current_size: u64,
    max_size: u64,
}

impl SessionWriter {
    pub closed spec fn segment(self) -> u32 {
        self.current_segment
    }

    pub closed spec fn size(self) -> u64 {
        self.current_size
    }

    pub closed spec fn limit(self) -> u64 {
        self.max_size
    }

    /// The writer knows the size of the data file that it writes to.
    pub open spec fn follows(self, files: Seq<FileView>) -> bool {
        self.size() == bytes_of(files, data_name(self.segment())).len()
    }

    /// A writer for an opened segment.
    pub fn new(dir: &Directory, segment: u32, max_size: u64) -> (r: Self)
        ensures
            r.segment() == segment,
            r.limit() == max_size,
            r.follows(dir@),
    {
        let name = data_file_name(segment);
        let current_size: u64 = match dir.read(name.as_str()) {
            Some(b) => b.len() as u64,
            None => 0,
        };
        SessionWriter { current_segment: segment, current_size, max_size }
    }

    /// Rotates the current segment to the next one, unless it has the last
    /// number.
    fn rotate(&mut self, dir: &mut Directory) -> (r: Result<(), StorageError>)
        ensures
            final(self).limit() == old(self).limit(),
            match r {
                Ok(_) => {
                    &&& old(self).segment() < u32::MAX
                    &&& final(self).segment() == old(self).segment() + 1
                    &&& final(dir)@ == opened(old(dir)@, final(self).segment())
                    &&& final(self).follows(final(dir)@)
                },
                Err(e) => {
                    &&& e == StorageError::SegmentLimit
                    &&& old(self).segment() == u32::MAX
                    &&& *final(self) == *old(self)
                    &&& final(dir)@ == old(dir)@
                },
            },
    {
        if self.current_segment == u32::MAX {
            return Err(StorageError::SegmentLimit);
        }
        let next: u32 = self.current_segment + 1;
        open_segment(dir, next);
        let fresh = SessionWriter::new(dir, next, self.max_size);
        self.current_segment = next;
        self.current_size = fresh.current_size;
        Ok(())
    }

    /// Appends a record to the storage.
    ///
    /// This method handles:
    /// - Data rotation if the file exceeds max size.
    /// - Serialization and compression (zstd level 19).
    /// - Writing to the data file.
    /// - Creating and writing the index entry (with Bloom filter data).
    pub fn append(&mut self, dir: &mut Directory, wrapper: StoredSession) -> (r: Result<
        (),
        StorageError,
    >)
        requires
            old(self).follows(old(dir)@),
        ensures
            final(self).limit() == old(self).limit(),
            final(self).follows(final(dir)@),
            old(self).size() < old(self).limit() ==> final(self).segment() == old(self).segment(),
            old(self).size() >= old(self).limit() && r is Ok ==> final(self).segment() == old(
                self,
            ).segment() + 1,
            ({
                let full = old(self).size() >= old(self).limit();
                let stuck = full && old(self).segment() == u32::MAX;
                let base = if full {
                    opened(old(dir)@, (old(self).segment() + 1) as u32)
                } else {
                    old(dir)@
                };
                let start = bytes_of(base, data_name(final(self).segment())).len();
                match r {
                    Ok(_) => {
                        &&& !stuck
                        &&& final(self).segment() == old(self).segment() + if full {
                            1int
                        } else {
                            0
                        }
                        &&& appended(
                            base,
                            final(self).segment(),
                            final(dir)@,
                            wrapper.deep_view(),
                        )
                    },
                    Err(StorageError::SegmentLimit) => {
                        &&& stuck
                        &&& *final(self) == *old(self)
                        &&& final(dir)@ == old(dir)@
                    },
                    Err(e) => {
                        &&& !stuck
                        &&& final(self).segment() == old(self).segment() + if full {
                            1int
                        } else {
                            0
                        }
                        &&& final(dir)@ == base
                        &&& write_refused(wrapper.deep_view(), start as int, e)
                    },
                }
            }),
    {
        if self.current_size >= self.max_size {
            match self.rotate(dir) {
                Ok(_) => {},
                Err(e) => {
                    return Err(e);
                },
            }
        }
        let ghost base = dir@;
        let ghost segment = self.current_segment;
        let ghost v = wrapper.deep_view();
        let (data, index) = match frames_of(&wrapper, self.current_size) {
            Ok(p) => p,
            Err(e) => {
                return Err(e);
            },
        };
        let data_file = data_file_name(self.current_segment);
        let index_file = index_file_name(self.current_segment);
        dir.append(data_file, data.as_slice());
        let ghost mid = dir@;
        dir.append(index_file, index.as_slice());
        proof {
            lemma_index_name_is_no_data_name(segment);
            lemma_segment_number_of_data_name(segment);
            let data_now = bytes_of(base, data_name(segment)) + data@;
            lemma_lookup_written(base, data_name(segment), data_now, index_name(segment));
            lemma_lookup_written(base, data_name(segment), data_now, data_name(segment));
            lemma_lookup_written(
                mid,
                index_name(segment),
                bytes_of(mid, index_name(segment)) + index@,
                data_name(segment),
            );
            let (block, entry) = choose|block: Seq<u8>, entry: Seq<u8>|
                {
                    &&& #[trigger] record_payloads(v, self.current_size as int, block, entry)
                    &&& data@ == frame(block)
                    &&& index@ == frame(entry)
                };
            assert(appended_as(base, segment, dir@, v, block, entry));
        }
        let now = SessionWriter::new(dir, self.current_segment, self.max_size);
        self.current_size = now.current_size;
        Ok(())
    }
}

} // verus!
