//! Bringing sessions into the archive: one by one, in bulk, and through the
//! pending log.
use vstd::prelude::*;
use crate::laws::append::{
    contents, law_append_all_extends_contents, law_append_extends_contents, law_bulk_keeps_sessions,
    sound,
};
use crate::schema::{ChatSessionV1, SessionView, StoredSession, StoredView};
use crate::storage::Storage;
use crate::storage::constants::{BULK_CHUNK, DATA_MAGIC, MAX_FILE_SIZE};
use crate::storage::directory::{
    active_segment, bytes_of, data_file_name, data_name, index_file_name, index_name,
    lemma_active_is_highest, lemma_index_name_is_no_data_name, lemma_inserted, lemma_lookup_written,
    lemma_segment_number_of_data_name, lemma_segments, lemma_segments_written, lookup, segments,
    written, FileView,
};
use crate::storage::types::StorageError;
use crate::storage::writer::{
    archived, open_segment, opened, write_refused, writer_segment, SessionWriter,
};

verus! {

/// A segment is the active one and open for writing.
pub open spec fn ready(files: Seq<FileView>, segment: u32) -> bool {
    &&& active_segment(files) == segment
    &&& bytes_of(files, data_name(segment)).len() > 0
    &&& lookup(files, index_name(segment)) is Some
}

/// Opening the active segment, or the one behind it, makes it ready; its data
/// file is as long as it was, or new and as long as the magic bytes.
pub proof fn lemma_opened_is_ready(files: Seq<FileView>, segment: u32)
    requires
        segment == active_segment(files) || (segment == active_segment(files) + 1),
    ensures
        ready(opened(files, segment), segment),
        bytes_of(opened(files, segment), data_name(segment)) == if bytes_of(
            files,
            data_name(segment),
        ).len() == 0 {
            DATA_MAGIC@
        } else {
            bytes_of(files, data_name(segment))
        },
{
    let data = data_name(segment);
    let index = index_name(segment);
    let mid = if bytes_of(files, data).len() == 0 {
        written(files, data, DATA_MAGIC@)
    } else {
        files
    };
    let after = opened(files, segment);
    lemma_segment_number_of_data_name(segment);
    lemma_index_name_is_no_data_name(segment);
    lemma_segments(files);
    lemma_segments_written(files, data, DATA_MAGIC@);
    lemma_segments_written(mid, index, Seq::empty());
    lemma_lookup_written(files, data, DATA_MAGIC@, data);
    lemma_lookup_written(mid, index, Seq::empty(), data);
    lemma_lookup_written(mid, index, Seq::empty(), index);
    if lookup(files, data) is Some {
        lemma_active_is_highest(files, segment);
    } else {
        lemma_inserted(segments(files), segment);
    }
    assert(segments(after) == segments(mid));
}

/// When appending a record to the archive fails, and what is left behind: at
/// most an opened segment.
pub open spec fn archive_refused(
    before: Seq<FileView>,
    after: Seq<FileView>,
    v: StoredView,
    e: StorageError,
) -> bool {
    match writer_segment(before, MAX_FILE_SIZE) {
        None => e == StorageError::SegmentLimit && after == before,
        Some(segment) => {
            &&& after == opened(before, segment)
            &&& write_refused(v, bytes_of(after, data_name(segment)).len() as int, e)
        },
    }
}

/// `after` is `before` with all records appended to the archive, in order.
pub open spec fn archived_all(
    before: Seq<FileView>,
    after: Seq<FileView>,
    records: Seq<StoredView>,
) -> bool
    decreases records.len(),
{
    if records.len() == 0 {
        after == before
    } else {
        exists|mid: Seq<FileView>|
            {
                &&& archived_all(before, mid, records.drop_last())
                &&& #[trigger] archived(mid, after, records.last(), MAX_FILE_SIZE)
            }
    }
}

/// Some of the records went to the archive, and the next one was refused.
pub open spec fn archive_stopped(
    before: Seq<FileView>,
    after: Seq<FileView>,
    records: Seq<StoredView>,
    e: StorageError,
) -> bool {
    exists|k: int, mid: Seq<FileView>|
        {
            &&& 0 <= k < records.len()
            &&& #[trigger] archived_all(before, mid, records.take(k))
            &&& archive_refused(mid, after, records[k], e)
        }
}

/// The end of the `k`th block of a bulk import of `n` sessions.
pub open spec fn bulk_end(n: int, k: int) -> int {
    if (k + 1) * BULK_CHUNK <= n {
        (k + 1) * BULK_CHUNK
    } else {
        n
    }
}

/// The records of a bulk import: blocks of a hundred sessions, and one with
/// the rest.
pub open spec fn bulk_records(sessions: Seq<SessionView>) -> Seq<StoredView> {
    Seq::new(
        ((sessions.len() + BULK_CHUNK - 1) / BULK_CHUNK as int) as nat,
        |k: int|
            StoredView::Block(
                sessions.subrange(k * BULK_CHUNK, bulk_end(sessions.len() as int, k)),
            ),
    )
}

/// Copies a part of the sessions.
fn copy_range(sessions: &Vec<ChatSessionV1>, start: usize, end: usize) -> (r: Vec<ChatSessionV1>)
    requires
        start <= end <= sessions@.len(),
    ensures
        r.deep_view() == sessions.deep_view().subrange(start as int, end as int),
{
    let mut out: Vec<ChatSessionV1> = Vec::new();
    let mut i: usize = start;
    while i < end
        invariant
            start <= i <= end <= sessions@.len(),
            out@.len() == i - start,
            forall|k: int|
                0 <= k < i - start ==> (#[trigger] out@[k]).deep_view() == sessions@[start
                    + k].deep_view(),
        decreases end - i,
    {
        out.push(sessions[i].clone());
        i += 1;
    }
    assert(out.deep_view() =~= sessions.deep_view().subrange(start as int, end as int));
    out
}

proof fn lemma_bulk_records(sessions: Seq<SessionView>, k: int)
    requires
        0 <= k,
        k * BULK_CHUNK < sessions.len(),
    ensures
        k < bulk_records(sessions).len(),
        bulk_end(sessions.len() as int, k) == sessions.len() ==> bulk_records(sessions).len() == k
            + 1,
{
}

impl Storage {
    /// Get the names and the number of the segment that is written next, a
    /// new one if the active data file has reached `max_size`.
    pub fn get_active_files(&self, max_size: u64) -> (r: Result<
        (String, String, u32),
        StorageError,
    >)
        ensures
            match r {
                Ok((data, index, segment)) => {
                    &&& writer_segment(self@.files, max_size) == Some(segment)
                    &&& data@ == data_name(segment)
                    &&& index@ == index_name(segment)
                },
                Err(e) => {
                    &&& writer_segment(self@.files, max_size) is None
                    &&& e == StorageError::SegmentLimit
                },
            },
    {
        let active: u32 = self.dir.get_active_segment_num();
        let data = data_file_name(active);
        let full = match self.dir.read(data.as_str()) {
            Some(b) => b.len() as u64 >= max_size,
            None => false,
        };
        if !full {
            return Ok((data, index_file_name(active), active));
        }
        if active == u32::MAX {
            return Err(StorageError::SegmentLimit);
        }
        let next: u32 = active + 1;
        Ok((data_file_name(next), index_file_name(next), next))
    }

    /// A writer for the end of the archive, with its segment opened.
    pub fn get_writer(&mut self) -> (r: Result<SessionWriter, StorageError>)
        ensures
            final(self)@.pending == old(self)@.pending,
            match r {
                Ok(w) => {
                    &&& writer_segment(old(self)@.files, MAX_FILE_SIZE) == Some(w.segment())
                    &&& final(self)@.files == opened(old(self)@.files, w.segment())
                    &&& ready(final(self)@.files, w.segment())
                    &&& w.follows(final(self)@.files)
                    &&& w.limit() == MAX_FILE_SIZE
                    &&& w.size() < MAX_FILE_SIZE
                },
                Err(e) => {
                    &&& writer_segment(old(self)@.files, MAX_FILE_SIZE) is None
                    &&& e == StorageError::SegmentLimit
                    &&& final(self)@ == old(self)@
                },
            },
    {
        let segment: u32 = match self.get_active_files(MAX_FILE_SIZE) {
            Ok((_, _, segment)) => segment,
            Err(e) => {
                return Err(e);
            },
        };
        proof {
            lemma_opened_is_ready(self@.files, segment);
            if segment > active_segment(self@.files) && lookup(self@.files, data_name(segment))
                is Some {
                lemma_active_is_highest(self@.files, segment);
            }
            assert(DATA_MAGIC@.len() == 8);
        }
        open_segment(&mut self.dir, segment);
        Ok(SessionWriter::new(&self.dir, segment, MAX_FILE_SIZE))
    }

    /// Appends a record to the archive.
    pub(crate) fn archive(&mut self, record: StoredSession) -> (r: Result<(), StorageError>)
        ensures
            final(self)@.pending == old(self)@.pending,
            match r {
                Ok(_) => archived(
                    old(self)@.files,
                    final(self)@.files,
                    record.deep_view(),
                    MAX_FILE_SIZE,
                ),
                Err(e) => archive_refused(
                    old(self)@.files,
                    final(self)@.files,
                    record.deep_view(),
                    e,
                ),
            },
    {
        let mut writer = match self.get_writer() {
            Ok(w) => w,
            Err(e) => {
                return Err(e);
            },
        };
        writer.append(&mut self.dir, record)
    }

    /// Appends a session to the active storage file AND writes the index.
    pub fn append_session(&mut self, session: ChatSessionV1) -> (r: Result<(), StorageError>)
        ensures
            final(self)@.pending == old(self)@.pending,
            match r {
                Ok(_) => archived(
                    old(self)@.files,
                    final(self)@.files,
                    StoredView::V1(session.deep_view()),
                    MAX_FILE_SIZE,
                ),
                Err(e) => archive_refused(
                    old(self)@.files,
                    final(self)@.files,
                    StoredView::V1(session.deep_view()),
                    e,
                ),
            },
            sound(old(self)@.files) && r is Ok ==> {
                &&& sound(final(self)@.files)
                &&& contents(final(self)@.files) == contents(old(self)@.files).push(
                    session.deep_view(),
                )
            },
    {
        let ghost before = self@.files;
        let ghost s = session.deep_view();
        let r = self.archive(StoredSession::V1(session));
        proof {
            if sound(before) && r is Ok {
                law_append_extends_contents(before, self@.files, StoredView::V1(s), MAX_FILE_SIZE);
                assert(contents(before) + seq![s] =~= contents(before).push(s));
            }
        }
        r
    }
}

impl Storage {
    /// Appends a large batch of sessions directly to the main storage file,
    /// bypassing the WAL buffer entirely. This is highly optimized for bulk imports.
    pub fn append_bulk(&mut self, sessions: Vec<ChatSessionV1>) -> (r: Result<usize, StorageError>)
        ensures
            final(self)@.pending == old(self)@.pending,
            match r {
                Ok(n) => {
                    &&& n == sessions@.len()
                    &&& archived_all(
                        old(self)@.files,
                        final(self)@.files,
                        bulk_records(sessions.deep_view()),
                    )
                },
                Err(e) => archive_stopped(
                    old(self)@.files,
                    final(self)@.files,
                    bulk_records(sessions.deep_view()),
                    e,
                ),
            },
            sound(old(self)@.files) && r is Ok ==> {
                &&& sound(final(self)@.files)
                &&& contents(final(self)@.files) == contents(old(self)@.files)
                    + sessions.deep_view()
            },
    {
        let ghost start = self@.files;
        let ghost all = sessions.deep_view();
        let ghost records = bulk_records(all);
        let total: usize = sessions.len();
        let mut at: usize = 0;
        let ghost mut k: int = 0;
        assert(records.take(0) =~= Seq::<StoredView>::empty());
        while at < total
            invariant
                total == sessions@.len(),
                at <= total,
                0 <= k,
                at < total ==> at == k * BULK_CHUNK,
                at == total ==> k == records.len(),
                all == sessions.deep_view(),
                records == bulk_records(all),
                self@.pending == old(self)@.pending,
                start == old(self)@.files,
                archived_all(start, self@.files, records.take(k)),
            decreases total - at,
        {
            let end: usize = if total - at <= BULK_CHUNK {
                total
            } else {
                at + BULK_CHUNK
            };
            let chunk = copy_range(&sessions, at, end);
            let record = StoredSession::Block(chunk);
            let ghost before = self@.files;
            proof {
                lemma_bulk_records(all, k);
                assert(record.deep_view() == records[k]);
            }
            match self.archive(record) {
                Err(e) => {
                    assert(archived_all(start, before, records.take(k)));
                    return Err(e);
                },
                Ok(_) => {
                    proof {
                        let t = records.take(k + 1);
                        assert(t.drop_last() =~= records.take(k));
                        assert(t.last() == records[k]);
                        assert(archived_all(start, before, t.drop_last()));
                        assert(archived(before, self@.files, t.last(), MAX_FILE_SIZE));
                        assert(archived_all(start, self@.files, t));
                        k = k + 1;
                    }
                },
            }
            at = end;
        }
        assert(records.take(k) =~= records);
        proof {
            if sound(start) {
                law_append_all_extends_contents(start, self@.files, records);
                law_bulk_keeps_sessions(all);
            }
        }
        Ok(total)
    }
}

} // verus!
