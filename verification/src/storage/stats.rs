//! Statistics of the archive.
use vstd::prelude::*;
use crate::codec::{unpack, unpacked};
use crate::frames::{payloads, tail, walk, Tail};
use crate::index::{entry_value, read_entry, BlockIndex, IndexView};
use crate::laws::append::contents;
use crate::laws::stats::{countable, law_totals_are_counted};
use crate::schema::{ChatSessionV1, SessionView};
use crate::storage::{Storage, StorageView};
use crate::storage::blocks::message_total;
use crate::storage::blocks::{count_sessions_in_index_id, id_count};
use crate::storage::directory::{
    active_segment, data_file_name, data_name, index_file_name, index_name, lookup, segments,
    FileView,
};
use crate::storage::segment::{check_header, header_error};
use crate::storage::types::{Counts, DbStats, StorageError};
use vstd::slice::slice_subrange;

verus! {

/// Counts that fit 64 bits.
pub open spec fn fitting(c: Counts) -> Result<Counts, StorageError> {
    if c.fits() {
        Ok(c)
    } else {
        Err(StorageError::CounterOverflow)
    }
}

/// The counts with the sessions.
pub open spec fn with_sessions(c: Counts, sessions: Seq<SessionView>) -> Result<
    Counts,
    StorageError,
>
    decreases sessions.len(),
{
    if sessions.len() == 0 {
        Ok(c)
    } else {
        match with_sessions(c, sessions.drop_last()) {
            Err(e) => Err(e),
            Ok(front) => fitting(front.with_session(sessions.last())),
        }
    }
}

/// The counts with what an index entry says of its block. An open time range
/// counts for nothing.
pub open spec fn with_entry(c: Counts, e: IndexView) -> Counts {
    Counts {
        sessions: c.sessions + id_count(e.session_id),
        messages: c.messages + e.message_count as nat,
        compressed: c.compressed + e.compressed_size as nat,
        uncompressed: c.uncompressed + e.uncompressed_size as nat,
        min_time: if e.min_time > 0 && (c.min_time == 0 || e.min_time < c.min_time) {
            e.min_time
        } else {
            c.min_time
        },
        max_time: if e.max_time != u64::MAX && e.max_time > c.max_time {
            e.max_time
        } else {
            c.max_time
        },
        ..c
    }
}

/// The outcome of one more entry.
pub open spec fn with_frame(c: Counts, payload: Seq<u8>) -> Result<Counts, StorageError> {
    match entry_value(payload) {
        Err(e) => Err(e),
        Ok(entry) => fitting(with_entry(c, entry)),
    }
}

/// The counts with the entries of an index.
pub open spec fn with_entries(c: Counts, entries: Seq<Seq<u8>>) -> Result<Counts, StorageError>
    decreases entries.len(),
{
    if entries.len() == 0 {
        Ok(c)
    } else {
        match with_entries(c, entries.drop_last()) {
            Err(e) => Err(e),
            Ok(front) => with_frame(front, entries.last()),
        }
    }
}

/// The counts with the sizes of a block.
pub open spec fn with_sizes(c: Counts, compressed: nat, raw: nat) -> Counts {
    Counts { compressed: c.compressed + compressed, uncompressed: c.uncompressed + raw, ..c }
}

/// The counts with the blocks of a data file.
pub open spec fn with_blocks(c: Counts, blocks: Seq<Seq<u8>>) -> Result<Counts, StorageError>
    decreases blocks.len(),
{
    if blocks.len() == 0 {
        Ok(c)
    } else {
        match with_blocks(c, blocks.drop_last()) {
            Err(e) => Err(e),
            Ok(front) => match unpacked(blocks.last()) {
                Err(e) => Err(e),
                Ok((v, raw)) => match fitting(with_sizes(front, blocks.last().len(), raw)) {
                    Err(e) => Err(e),
                    Ok(sized) => with_sessions(sized, v.sessions()),
                },
            },
        }
    }
}

pub open spec fn with_size(c: Counts, bytes: nat) -> Counts {
    Counts { total: c.total + bytes, ..c }
}

/// An outcome that stands only where the file ended cleanly.
pub open spec fn if_clean(r: Result<Counts, StorageError>, rest: Tail) -> Result<
    Counts,
    StorageError,
> {
    match r {
        Ok(c) if rest != Tail::Clean => Err(StorageError::UnexpectedEof),
        _ => r,
    }
}

/// The counts with a segment: by its index, or by its blocks where it has no
/// index.
pub open spec fn with_segment(c: Counts, data: Seq<u8>, index: Option<Seq<u8>>, segment: u32) -> Result<
    Counts,
    StorageError,
> {
    match fitting(with_size(c, data.len())) {
        Err(e) => Err(e),
        Ok(sized) => match index {
            Some(index) => if_clean(with_entries(sized, payloads(index)), tail(index)),
            None => match header_error(data, segment) {
                Some(e) => Err(e),
                None => if_clean(
                    with_blocks(sized, payloads(data.skip(8))),
                    tail(data.skip(8)),
                ),
            },
        },
    }
}

/// The counts with segments.
pub open spec fn with_segments(c: Counts, files: Seq<FileView>, segs: Seq<u32>) -> Result<
    Counts,
    StorageError,
>
    decreases segs.len(),
{
    if segs.len() == 0 {
        Ok(c)
    } else {
        match with_segments(c, files, segs.drop_last()) {
            Err(e) => Err(e),
            Ok(front) => match lookup(files, data_name(segs.last())) {
                None => Ok(front),
                Some(data) => with_segment(
                    front,
                    data,
                    lookup(files, index_name(segs.last())),
                    segs.last(),
                ),
            },
        }
    }
}

/// The statistics: pending sessions, the size of the pending file, and every
/// segment.
pub open spec fn counted(v: StorageView) -> Result<Counts, StorageError> {
    match with_sessions(Counts::zero(), v.pending.readable()) {
        Err(e) => Err(e),
        Ok(pending) => match fitting(with_size(pending, v.pending.size())) {
            Err(e) => Err(e),
            Ok(sized) => with_segments(sized, v.files, segments(v.files)),
        },
    }
}

proof fn lemma_with_sessions_error(c: Counts, s: Seq<SessionView>, n: int)
    requires
        0 <= n <= s.len(),
        with_sessions(c, s.take(n)) is Err,
    ensures
        with_sessions(c, s) == with_sessions(c, s.take(n)),
    decreases s.len() - n,
{
    if n < s.len() {
        assert(s.take(n + 1).drop_last() =~= s.take(n));
        lemma_with_sessions_error(c, s, n + 1);
    } else {
        assert(s.take(n) =~= s);
    }
}

proof fn lemma_with_entries_error(c: Counts, s: Seq<Seq<u8>>, n: int)
    requires
        0 <= n <= s.len(),
        with_entries(c, s.take(n)) is Err,
    ensures
        with_entries(c, s) == with_entries(c, s.take(n)),
    decreases s.len() - n,
{
    if n < s.len() {
        assert(s.take(n + 1).drop_last() =~= s.take(n));
        lemma_with_entries_error(c, s, n + 1);
    } else {
        assert(s.take(n) =~= s);
    }
}

proof fn lemma_with_blocks_error(c: Counts, s: Seq<Seq<u8>>, n: int)
    requires
        0 <= n <= s.len(),
        with_blocks(c, s.take(n)) is Err,
    ensures
        with_blocks(c, s) == with_blocks(c, s.take(n)),
    decreases s.len() - n,
{
    if n < s.len() {
        assert(s.take(n + 1).drop_last() =~= s.take(n));
        lemma_with_blocks_error(c, s, n + 1);
    } else {
        assert(s.take(n) =~= s);
    }
}

proof fn lemma_with_segments_error(c: Counts, files: Seq<FileView>, segs: Seq<u32>, n: int)
    requires
        0 <= n <= segs.len(),
        with_segments(c, files, segs.take(n)) is Err,
    ensures
        with_segments(c, files, segs) == with_segments(c, files, segs.take(n)),
    decreases segs.len() - n,
{
    if n < segs.len() {
        assert(segs.take(n + 1).drop_last() =~= segs.take(n));
        lemma_with_segments_error(c, files, segs, n + 1);
    } else {
        assert(segs.take(n) =~= segs);
    }
}

fn count_sessions(stats: &mut DbStats, sessions: &Vec<ChatSessionV1>) -> (r: Result<
    (),
    StorageError,
>)
    requires
        old(stats).counts().fits(),
    ensures
        final(stats).file_name == old(stats).file_name,
        match r {
            Ok(_) => with_sessions(old(stats).counts(), sessions.deep_view()) == Ok::<
                Counts,
                StorageError,
            >(final(stats).counts()),
            Err(e) => with_sessions(old(stats).counts(), sessions.deep_view()) == Err::<
                Counts,
                StorageError,
            >(e),
        },
{
    let ghost all = sessions.deep_view();
    let ghost start = stats.counts();
    let ghost name = stats.file_name;
    let mut i: usize = 0;
    assert(all.take(0) =~= Seq::<SessionView>::empty());
    while i < sessions.len()
        invariant
            i <= sessions@.len(),
            all == sessions.deep_view(),
            stats.file_name == name,
            name == old(stats).file_name,
            start == old(stats).counts(),
            with_sessions(start, all.take(i as int)) == Ok::<Counts, StorageError>(stats.counts()),
        decreases sessions@.len() - i,
    {
        let s = &sessions[i];
        proof {
            let t = all.take(i + 1);
            assert(t.drop_last() =~= all.take(i as int));
            assert(t.last() == s.deep_view());
            assert(s.deep_view().messages.len() == s.messages@.len());
        }
        if stats.session_count == u64::MAX || s.messages.len() as u64 > u64::MAX
            - stats.message_count {
            proof {
                lemma_with_sessions_error(start, all, i + 1);
            }
            return Err(StorageError::CounterOverflow);
        }
        stats.accumulate_session(s);
        i += 1;
    }
    assert(all.take(i as int) =~= all);
    Ok(())
}

fn add_counts(stats: &mut DbStats, total: u64, compressed: u64, raw: u64) -> (r: bool)
    ensures
        r == (old(stats).total_size_bytes + total <= u64::MAX && old(stats).data_compressed_bytes
            + compressed <= u64::MAX && old(stats).data_uncompressed_bytes + raw <= u64::MAX),
        r ==> final(stats).counts() == (Counts {
            total: old(stats).counts().total + total as nat,
            compressed: old(stats).counts().compressed + compressed as nat,
            uncompressed: old(stats).counts().uncompressed + raw as nat,
            ..old(stats).counts()
        }),
        final(stats).file_name == old(stats).file_name,
{
    if total > u64::MAX - stats.total_size_bytes || compressed > u64::MAX
        - stats.data_compressed_bytes || raw > u64::MAX - stats.data_uncompressed_bytes {
        return false;
    }
    stats.total_size_bytes = stats.total_size_bytes + total;
    stats.data_compressed_bytes = stats.data_compressed_bytes + compressed;
    stats.data_uncompressed_bytes = stats.data_uncompressed_bytes + raw;
    true
}

fn count_entry(stats: &mut DbStats, entry: &BlockIndex) -> (r: Result<(), StorageError>)
    ensures
        final(stats).file_name == old(stats).file_name,
        match r {
            Ok(_) => fitting(with_entry(old(stats).counts(), entry.deep_view())) == Ok::<
                Counts,
                StorageError,
            >(final(stats).counts()),
            Err(e) => fitting(with_entry(old(stats).counts(), entry.deep_view())) == Err::<
                Counts,
                StorageError,
            >(e),
        },
{
    let sessions: u64 = count_sessions_in_index_id(entry.session_id.as_str());
    if sessions > u64::MAX - stats.session_count || entry.message_count as u64 > u64::MAX
        - stats.message_count {
        return Err(StorageError::CounterOverflow);
    }
    if !add_counts(stats, 0, entry.compressed_size as u64, entry.uncompressed_size as u64) {
        return Err(StorageError::CounterOverflow);
    }
    stats.session_count = stats.session_count + sessions;
    stats.message_count = stats.message_count + entry.message_count as u64;
    if entry.min_time > 0 && (stats.min_time == 0 || entry.min_time < stats.min_time) {
        stats.min_time = entry.min_time;
    }
    if entry.max_time != u64::MAX && entry.max_time > stats.max_time {
        stats.max_time = entry.max_time;
    }
    Ok(())
}

fn count_frame(stats: &mut DbStats, payload: &[u8]) -> (r: Result<(), StorageError>)
    ensures
        final(stats).file_name == old(stats).file_name,
        match r {
            Ok(_) => with_frame(old(stats).counts(), payload@) == Ok::<Counts, StorageError>(
                final(stats).counts(),
            ),
            Err(e) => with_frame(old(stats).counts(), payload@) == Err::<Counts, StorageError>(e),
        },
{
    match read_entry(payload) {
        Err(e) => Err(e),
        Ok(entry) => count_entry(stats, &entry),
    }
}

fn count_index(stats: &mut DbStats, index: &Vec<u8>) -> (r: Result<(), StorageError>)
    ensures
        final(stats).file_name == old(stats).file_name,
        match r {
            Ok(_) => if_clean(with_entries(old(stats).counts(), payloads(index@)), tail(index@))
                == Ok::<Counts, StorageError>(final(stats).counts()),
            Err(e) => if_clean(with_entries(old(stats).counts(), payloads(index@)), tail(index@))
                == Err::<Counts, StorageError>(e),
        },
{
    let frames = walk(index.as_slice(), 0);
    let ghost ps = payloads(index@);
    let ghost start = stats.counts();
    let ghost name = stats.file_name;
    assert(index@.skip(0) =~= index@);
    assert(ps.take(0) =~= Seq::<Seq<u8>>::empty());
    let mut i: usize = 0;
    while i < frames.spans.len()
        invariant
            i <= frames.spans@.len(),
            index@.skip(0) == index@,
            ps == payloads(index@),
            frames.describe(index@, 0),
            stats.file_name == name,
            name == old(stats).file_name,
            start == old(stats).counts(),
            with_entries(start, ps.take(i as int)) == Ok::<Counts, StorageError>(stats.counts()),
        decreases frames.spans@.len() - i,
    {
        let span = frames.spans[i];
        proof {
            assert(ps[i as int] == index@.subrange(span.start as int, span.end as int));
            let t = ps.take(i + 1);
            assert(t.drop_last() =~= ps.take(i as int));
            assert(t.last() == ps[i as int]);
        }
        match count_frame(stats, slice_subrange(index.as_slice(), span.start, span.end)) {
            Ok(_) => {},
            Err(e) => {
                proof {
                    lemma_with_entries_error(start, ps, i + 1);
                }
                return Err(e);
            },
        }
        i += 1;
    }
    assert(ps.take(i as int) =~= ps);
    if frames.tail == Tail::Clean {
        Ok(())
    } else {
        Err(StorageError::UnexpectedEof)
    }
}

fn count_block(stats: &mut DbStats, payload: &[u8]) -> (r: Result<(), StorageError>)
    requires
        old(stats).counts().fits(),
        payload@.len() <= u64::MAX,
    ensures
        final(stats).file_name == old(stats).file_name,
        match r {
            Ok(_) => with_blocks(old(stats).counts(), seq![payload@]) == Ok::<
                Counts,
                StorageError,
            >(final(stats).counts()),
            Err(e) => with_blocks(old(stats).counts(), seq![payload@]) == Err::<
                Counts,
                StorageError,
            >(e),
        },
{
    let ghost start = stats.counts();
    proof {
        let front = seq![payload@].drop_last();
        assert(front =~= Seq::<Seq<u8>>::empty());
        assert(with_blocks(start, front) == Ok::<Counts, StorageError>(start));
        assert(seq![payload@].last() == payload@);
    }
    match unpack(payload) {
        Err(e) => Err(e),
        Ok((stored, raw)) => {
            if !add_counts(stats, 0, payload.len() as u64, raw as u64) {
                return Err(StorageError::CounterOverflow);
            }
            assert(stats.counts() == with_sizes(start, payload@.len(), raw as nat));
            let sessions = stored.into_sessions();
            count_sessions(stats, &sessions)
        },
    }
}

proof fn lemma_with_blocks_step(c: Counts, front: Seq<Seq<u8>>, last: Seq<u8>)
    requires
        with_blocks(c, front) is Ok,
    ensures
        with_blocks(c, front.push(last)) == with_blocks(with_blocks(c, front)->Ok_0, seq![last]),
{
    let one = seq![last];
    let mid = with_blocks(c, front)->Ok_0;
    assert(one.drop_last() =~= Seq::<Seq<u8>>::empty());
    assert(with_blocks(mid, one.drop_last()) == Ok::<Counts, StorageError>(mid));
    assert(front.push(last).drop_last() =~= front);
}

fn count_data(stats: &mut DbStats, data: &Vec<u8>, segment: u32) -> (r: Result<(), StorageError>)
    requires
        old(stats).counts().fits(),
    ensures
        final(stats).file_name == old(stats).file_name,
        ({
            let wanted = match header_error(data@, segment) {
                Some(e) => Err::<Counts, StorageError>(e),
                None => if_clean(
                    with_blocks(old(stats).counts(), payloads(data@.skip(8))),
                    tail(data@.skip(8)),
                ),
            };
            match r {
                Ok(_) => wanted == Ok::<Counts, StorageError>(final(stats).counts()),
                Err(e) => wanted == Err::<Counts, StorageError>(e),
            }
        }),
{
    match check_header(data, segment) {
        Some(e) => {
            return Err(e);
        },
        None => {},
    }
    let frames = walk(data.as_slice(), 8);
    let ghost ps = payloads(data@.skip(8));
    let ghost start = stats.counts();
    let ghost name = stats.file_name;
    assert(ps.take(0) =~= Seq::<Seq<u8>>::empty());
    let mut i: usize = 0;
    while i < frames.spans.len()
        invariant
            i <= frames.spans@.len(),
            ps == payloads(data@.skip(8)),
            frames.describe(data@, 8),
            header_error(data@, segment) is None,
            stats.file_name == name,
            name == old(stats).file_name,
            start == old(stats).counts(),
            stats.counts().fits(),
            with_blocks(start, ps.take(i as int)) == Ok::<Counts, StorageError>(stats.counts()),
        decreases frames.spans@.len() - i,
    {
        let span = frames.spans[i];
        proof {
            assert(ps[i as int] == data@.subrange(span.start as int, span.end as int));
            let t = ps.take(i + 1);
            assert(t =~= ps.take(i as int).push(ps[i as int]));
            lemma_with_blocks_step(start, ps.take(i as int), ps[i as int]);
        }
        match count_block(stats, slice_subrange(data.as_slice(), span.start, span.end)) {
            Ok(_) => {},
            Err(e) => {
                proof {
                    lemma_with_blocks_error(start, ps, i + 1);
                }
                return Err(e);
            },
        }
        i += 1;
    }
    assert(ps.take(i as int) =~= ps);
    if frames.tail == Tail::Clean {
        Ok(())
    } else {
        Err(StorageError::UnexpectedEof)
    }
}

fn count_segment(
    stats: &mut DbStats,
    data: &Vec<u8>,
    index: Option<&Vec<u8>>,
    segment: u32,
) -> (r: Result<(), StorageError>)
    requires
        old(stats).counts().fits(),
    ensures
        final(stats).file_name == old(stats).file_name,
        ({
            let index_bytes = match index {
                Some(b) => Some(b@),
                None => None,
            };
            let wanted = with_segment(old(stats).counts(), data@, index_bytes, segment);
            match r {
                Ok(_) => wanted == Ok::<Counts, StorageError>(final(stats).counts()),
                Err(e) => wanted == Err::<Counts, StorageError>(e),
            }
        }),
{
    let ghost start = stats.counts();
    if !add_counts(stats, data.len() as u64, 0, 0) {
        return Err(StorageError::CounterOverflow);
    }
    assert(stats.counts() == with_size(start, data@.len()));
    match index {
        Some(index) => count_index(stats, index),
        None => count_data(stats, data, segment),
    }
}

impl Storage {
    /// Comprehensive Database Statistics
    ///
    /// Tries an optimized path using the Index if available.
    /// Fallback to full data scan (slow) if index is missing.
    pub fn get_stats(&self) -> (r: Result<DbStats, StorageError>)
        ensures
            match r {
                Ok(stats) => {
                    &&& counted(self@) == Ok::<Counts, StorageError>(stats.counts())
                    &&& stats.file_name@ == data_name(active_segment(self@.files))
                },
                Err(e) => counted(self@) == Err::<Counts, StorageError>(e),
            },
            countable(self@) && r is Ok ==> {
                let all = self@.pending.readable() + contents(self@.files);
                &&& r->Ok_0.session_count == all.len()
                &&& r->Ok_0.message_count == message_total(all)
            },
    {
        proof {
            law_totals_are_counted(self@);
        }
        let mut stats = DbStats::empty(self.get_active_file());
        let ghost files = self@.files;
        let pending = self.pending.readable();
        match count_sessions(&mut stats, &pending) {
            Ok(_) => {},
            Err(e) => {
                return Err(e);
            },
        }
        let ghost before = stats.counts();
        match self.pending.size() {
            None => {
                return Err(StorageError::CounterOverflow);
            },
            Some(n) => {
                if !add_counts(&mut stats, n, 0, 0) {
                    return Err(StorageError::CounterOverflow);
                }
                assert(stats.counts() == with_size(before, n as nat));
            },
        }
        let ghost start = stats.counts();
        let segs = self.dir.list_segments();
        let mut i: usize = 0;
        assert(segs@.take(0) =~= Seq::<u32>::empty());
        while i < segs.len()
            invariant
                i <= segs@.len(),
                files == self@.files,
                segs@ == segments(files),
                counted(self@) == with_segments(start, files, segs@),
                stats.file_name@ == data_name(active_segment(files)),
                stats.counts().fits(),
                with_segments(start, files, segs@.take(i as int)) == Ok::<Counts, StorageError>(
                    stats.counts(),
                ),
            decreases segs@.len() - i,
        {
            let segment: u32 = segs[i];
            proof {
                let t = segs@.take(i + 1);
                assert(t.drop_last() =~= segs@.take(i as int));
                assert(t.last() == segment);
            }
            let data_file = data_file_name(segment);
            let index_file = index_file_name(segment);
            match self.dir.read(data_file.as_str()) {
                None => {},
                Some(data) => {
                    let index = self.dir.read(index_file.as_str());
                    match count_segment(&mut stats, data, index, segment) {
                        Ok(_) => {},
                        Err(e) => {
                            proof {
                                lemma_with_segments_error(start, files, segs@, i + 1);
                            }
                            return Err(e);
                        },
                    }
                },
            }
            i += 1;
        }
        assert(segs@.take(i as int) =~= segs@);
        Ok(stats)
    }
}

} // verus!
