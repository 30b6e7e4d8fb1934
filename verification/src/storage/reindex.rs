//! Rebuilding index files from data files.
use vstd::prelude::*;
use crate::codec::unpack;
use crate::frames::{
    frame, lemma_frame_reads_back, lemma_payloads_concat, payloads, push_frame, tail, walk, Tail,
};
use crate::laws::append::{contents, sound};
use crate::laws::maintenance::{law_rebuild_keeps_sessions, law_reindex_keeps_sessions, waiting};
use crate::storage::{Storage, StorageView};
use crate::storage::directory::{
    data_file_name, data_name, index_file_name, index_name, lemma_index_name_is_no_data_name,
    lemma_index_names_differ, lemma_lookup_written, lemma_segment_number_of_data_name,
    lemma_segments_written, lemma_written_keeps_names_distinct, lookup, names_distinct, segments,
    written, FileView,
};
use crate::storage::flush::flush_outcome;
use crate::storage::progress::Progress;
use crate::storage::scan::{archive_blocks, blocks_at};
use crate::storage::segment::{
    blocks_in, check_header, header_error, lemma_blocks_in, lemma_blocks_in_error,
    lemma_segment_errors, segment_blocks, sessions_of, BlockView,
};
use crate::storage::sync::{entry_for, in_sync, indexes};
use crate::storage::types::StorageError;
use crate::storage::writer::{entry_refused, make_entry};
use vstd::slice::slice_subrange;

verus! {

/// `name` is the index file of one of the segments.
pub open spec fn is_index_of(name: Seq<char>, segs: Seq<u32>) -> bool {
    exists|k: int| 0 <= k < segs.len() && name == index_name(#[trigger] segs[k])
}

/// `after` is `before` with new index files for the segments: each describes
/// its data file, and no other file has changed.
pub open spec fn reindexed(before: Seq<FileView>, segs: Seq<u32>, after: Seq<FileView>) -> bool {
    &&& segments(after) == segments(before)
    &&& names_distinct(before) ==> names_distinct(after)
    &&& forall|k: int| 0 <= k < segs.len() ==> in_sync(after, #[trigger] segs[k])
    &&& forall|name: Seq<char>|
        !is_index_of(name, segs) ==> #[trigger] lookup(after, name) == lookup(before, name)
}

/// The number of sessions in segments, or the first error on the way through
/// their data files.
pub open spec fn session_total(files: Seq<FileView>, segs: Seq<u32>) -> Result<nat, StorageError>
    decreases segs.len(),
{
    if segs.len() == 0 {
        Ok(0)
    } else {
        match session_total(files, segs.drop_last()) {
            Err(e) => Err(e),
            Ok(front) => match lookup(files, data_name(segs.last())) {
                None => Ok(front),
                Some(data) => match segment_blocks(data, segs.last()) {
                    Err(e) => Err(e),
                    Ok(blocks) => if front + sessions_of(blocks).len() <= usize::MAX {
                        Ok(front + sessions_of(blocks).len())
                    } else {
                        Err(StorageError::CounterOverflow)
                    },
                },
            },
        }
    }
}

/// The index entry for the `i`th block was refused; the blocks before it and
/// the block itself could be read.
pub open spec fn refused_at(ps: Seq<Seq<u8>>, i: int) -> bool {
    &&& 0 <= i < ps.len()
    &&& blocks_in(ps.take(i + 1)) is Ok
    &&& {
        let b = blocks_in(ps.take(i + 1))->Ok_0.last();
        entry_refused(b.stored, b.offset as int, b.compressed as int, b.raw as int)
    }
}

/// An index entry for some block of a segment was refused.
pub open spec fn some_entry_refused(files: Seq<FileView>, segment: u32) -> bool {
    match lookup(files, data_name(segment)) {
        None => false,
        Some(data) => header_error(data, segment) is None && exists|i: int| #[trigger]
            refused_at(payloads(data.skip(8)), i),
    }
}

/// A reindex stopped with an error at one of the segments: those before it
/// have their new index, and nothing else has changed.
pub open spec fn reindex_stopped(
    before: Seq<FileView>,
    segs: Seq<u32>,
    after: Seq<FileView>,
    e: StorageError,
) -> bool {
    exists|k: int| #[trigger] reindex_stopped_at(before, segs, after, e, k)
}

pub open spec fn reindex_stopped_at(
    before: Seq<FileView>,
    segs: Seq<u32>,
    after: Seq<FileView>,
    e: StorageError,
    k: int,
) -> bool {
    &&& 0 <= k < segs.len()
    &&& reindexed(before, segs.take(k), after)
    &&& session_total(before, segs.take(k)) is Ok
    &&& {
        ||| session_total(before, segs.take(k + 1)) == Err::<nat, StorageError>(e)
        ||| (e == StorageError::Compress || e == StorageError::BlockTooLarge)
            && some_entry_refused(before, segs[k])
    }
}

/// The number of whole frames in a segment.
pub open spec fn frame_count(files: Seq<FileView>, segment: u32) -> nat {
    match lookup(files, data_name(segment)) {
        None => 0,
        Some(data) => payloads(data.skip(8)).len(),
    }
}

/// A reindex stopped with an error at the `k`th segment, and reported all
/// blocks of the segments before it and at most those of the segment.
pub open spec fn reported_until(
    before: Seq<FileView>,
    segs: Seq<u32>,
    after: Seq<FileView>,
    e: StorageError,
    k: int,
    calls: int,
) -> bool {
    &&& reindex_stopped_at(before, segs, after, e, k)
    &&& archive_blocks(before, segs.take(k)).len() <= calls <= archive_blocks(
        before,
        segs.take(k),
    ).len() + frame_count(before, segs[k])
}

/// What a reindex returns and does: the number of sessions, with a new index
/// for every segment, or an error.
pub open spec fn reindex_outcome(
    before: Seq<FileView>,
    after: Seq<FileView>,
    r: Result<usize, StorageError>,
) -> bool {
    let segs = segments(before);
    match r {
        Ok(n) => {
            &&& segs.len() > 0
            &&& session_total(before, segs) == Ok::<nat, StorageError>(n as nat)
            &&& reindexed(before, segs, after)
        },
        Err(StorageError::DataFileNotFound) => segs.len() == 0 && after == before,
        Err(e) => segs.len() > 0 && reindex_stopped(before, segs, after, e),
    }
}

/// The number of blocks that the length prefixes of a data file announce; the
/// payload of the last one may be cut off.
pub open spec fn announced_blocks(data: Seq<u8>, segment: u32) -> Result<nat, StorageError> {
    match header_error(data, segment) {
        Some(e) => Err(e),
        None => match tail(data.skip(8)) {
            Tail::Clean => Ok(payloads(data.skip(8)).len()),
            Tail::ShortPayload => Ok(payloads(data.skip(8)).len() + 1),
            Tail::ShortHeader => Err(StorageError::UnexpectedEof),
        },
    }
}

/// The number of blocks in segments.
pub open spec fn block_total(files: Seq<FileView>, segs: Seq<u32>) -> Result<nat, StorageError>
    decreases segs.len(),
{
    if segs.len() == 0 {
        Ok(0)
    } else {
        match block_total(files, segs.drop_last()) {
            Err(e) => Err(e),
            Ok(front) => match lookup(files, data_name(segs.last())) {
                None => Ok(front),
                Some(data) => match announced_blocks(data, segs.last()) {
                    Err(e) => Err(e),
                    Ok(n) => if front + n <= u64::MAX {
                        Ok(front + n)
                    } else {
                        Err(StorageError::CounterOverflow)
                    },
                },
            },
        }
    }
}

proof fn lemma_block_total_error(files: Seq<FileView>, segs: Seq<u32>, n: int)
    requires
        0 <= n <= segs.len(),
        block_total(files, segs.take(n)) is Err,
    ensures
        block_total(files, segs) == block_total(files, segs.take(n)),
    decreases segs.len() - n,
{
    if n < segs.len() {
        assert(segs.take(n + 1).drop_last() =~= segs.take(n));
        lemma_block_total_error(files, segs, n + 1);
    } else {
        assert(segs.take(n) =~= segs);
    }
}

fn count_announced(data: &Vec<u8>, segment: u32) -> (r: Result<u64, StorageError>)
    ensures
        match r {
            Ok(n) => announced_blocks(data@, segment) == Ok::<nat, StorageError>(n as nat),
            Err(StorageError::CounterOverflow) => match announced_blocks(data@, segment) {
                Ok(n) => n > u64::MAX,
                Err(_) => false,
            },
            Err(e) => announced_blocks(data@, segment) == Err::<nat, StorageError>(e),
        },
{
    match check_header(data, segment) {
        Some(e) => {
            return Err(e);
        },
        None => {},
    }
    let frames = walk(data.as_slice(), 8);
    let whole: u64 = frames.spans.len() as u64;
    match frames.tail {
        Tail::Clean => Ok(whole),
        Tail::ShortPayload => if whole < u64::MAX {
            Ok(whole + 1)
        } else {
            Err(StorageError::CounterOverflow)
        },
        Tail::ShortHeader => Err(StorageError::UnexpectedEof),
    }
}

/// One more entry behind those of an index.
proof fn lemma_entry_pushed(index: Seq<u8>, blocks: Seq<BlockView>, entry: Seq<u8>, b: BlockView)
    requires
        indexes(index, blocks),
        entry_for(entry, b),
        entry.len() <= u32::MAX,
    ensures
        indexes(index + frame(entry), blocks.push(b)),
{
    let new = index + frame(entry);
    let all = blocks.push(b);
    lemma_frame_reads_back(entry);
    lemma_payloads_concat(index, frame(entry));
    assert(payloads(new) =~= payloads(index).push(entry));
    assert forall|i: int| 0 <= i < all.len() implies entry_for(
        #[trigger] payloads(new)[i],
        all[i],
    ) by {
        if i < blocks.len() {
            assert(payloads(new)[i] == payloads(index)[i]);
        }
    }
}

/// The index file for a data file, and the number of its sessions. `progress`
/// is called for each block as its entry is made.
fn index_data<F>(data: &Vec<u8>, segment: u32, progress: &mut Progress<F>) -> (r: Result<
    (Vec<u8>, usize),
    StorageError,
>) where F: FnMut()
    requires
        old(progress).inner().requires(()),
    ensures
        final(progress).inner().requires(()),
        old(progress).calls() <= final(progress).calls() <= old(progress).calls() + payloads(
            data@.skip(8),
        ).len(),
        match r {
            Ok((index, count)) => {
                &&& segment_blocks(data@, segment) is Ok
                &&& final(progress).calls() == old(progress).calls() + segment_blocks(
                    data@,
                    segment,
                )->Ok_0.len()
                &&& indexes(index@, segment_blocks(data@, segment)->Ok_0)
                &&& count == sessions_of(segment_blocks(data@, segment)->Ok_0).len()
            },
            Err(e) => {
                ||| segment_blocks(data@, segment) == Err::<Seq<BlockView>, StorageError>(e)
                ||| segment_blocks(data@, segment) is Ok && e == StorageError::CounterOverflow
                    && sessions_of(segment_blocks(data@, segment)->Ok_0).len() > usize::MAX
                ||| (e == StorageError::Compress || e == StorageError::BlockTooLarge)
                    && header_error(data@, segment) is None && exists|i: int| #[trigger]
                    refused_at(payloads(data@.skip(8)), i)
            },
        },
{
    match check_header(data, segment) {
        Some(e) => {
            return Err(e);
        },
        None => {},
    }
    let bytes = data.as_slice();
    let frames = walk(bytes, 8);
    let ghost ps = payloads(data@.skip(8));
    let ghost mut blocks: Seq<BlockView> = Seq::empty();
    let mut index: Vec<u8> = Vec::new();
    let mut count: Option<usize> = Some(0);
    let mut i: usize = 0;
    assert(ps.take(0) =~= Seq::<Seq<u8>>::empty());
    assert(payloads(index@) =~= Seq::<Seq<u8>>::empty());
    while i < frames.spans.len()
        invariant
            i <= frames.spans@.len(),
            bytes@ == data@,
            ps == payloads(data@.skip(8)),
            frames.describe(data@, 8),
            header_error(data@, segment) is None,
            progress.inner().requires(()),
            progress.calls() == old(progress).calls() + i,
            blocks_in(ps.take(i as int)) == Ok::<Seq<BlockView>, StorageError>(blocks),
            indexes(index@, blocks),
            match count {
                Some(n) => n == sessions_of(blocks).len(),
                None => sessions_of(blocks).len() > usize::MAX,
            },
        decreases frames.spans@.len() - i,
    {
        let span = frames.spans[i];
        proof {
            assert(ps[i as int] == bytes@.subrange(span.start as int, span.end as int));
            let t = ps.take(i + 1);
            assert(t.drop_last() =~= ps.take(i as int));
            assert(t.last() == ps[i as int]);
        }
        let (stored, raw_len) = match unpack(slice_subrange(bytes, span.start, span.end)) {
            Err(e) => {
                proof {
                    lemma_blocks_in_error(ps, i + 1);
                }
                return Err(e);
            },
            Ok(read) => read,
        };
        let offset: u64 = (span.start - 4) as u64;
        let compressed: u32 = (span.end - span.start) as u32;
        let ghost grown = blocks_in(ps.take(i + 1))->Ok_0;
        let ghost b = grown.last();
        assert(grown =~= blocks.push(b));
        match make_entry(&stored, offset, compressed, raw_len) {
            Err(e) => {
                assert(refused_at(ps, i as int));
                return Err(e);
            },
            Ok(entry) => {
                proof {
                    lemma_entry_pushed(index@, blocks, entry@, b);
                }
                push_frame(&mut index, entry.as_slice());
            },
        }
        let more: usize = stored.session_count();
        proof {
            assert(grown.drop_last() =~= blocks);
            assert(sessions_of(grown).len() == sessions_of(blocks).len() + more);
            blocks = grown;
        }
        count = match count {
            Some(n) if more <= usize::MAX - n => Some(n + more),
            _ => None,
        };
        progress.tick();
        i += 1;
    }
    assert(ps.take(i as int) =~= ps);
    proof {
        lemma_blocks_in(ps);
    }
    if frames.tail != Tail::Clean {
        return Err(StorageError::UnexpectedEof);
    }
    match count {
        Some(n) => Ok((index, n)),
        None => Err(StorageError::CounterOverflow),
    }
}

/// The files with a new index file for one segment: it and the others are in
/// sync if they were.
proof fn lemma_index_written(
    before: Seq<FileView>,
    segs: Seq<u32>,
    k: int,
    mid: Seq<FileView>,
    index: Seq<u8>,
)
    requires
        0 <= k < segs.len(),
        reindexed(before, segs.take(k), mid),
        lookup(mid, data_name(segs[k])) is Some,
        segment_blocks(lookup(mid, data_name(segs[k]))->0, segs[k]) is Ok,
        indexes(index, segment_blocks(lookup(mid, data_name(segs[k]))->0, segs[k])->Ok_0),
    ensures
        reindexed(before, segs.take(k + 1), written(mid, index_name(segs[k]), index)),
{
    let s = segs[k];
    let after = written(mid, index_name(s), index);
    let t = segs.take(k + 1);
    lemma_index_name_is_no_data_name(s);
    lemma_segments_written(mid, index_name(s), index);
    if names_distinct(mid) {
        lemma_written_keeps_names_distinct(mid, index_name(s), index);
    }
    assert forall|j: int| 0 <= j < t.len() implies in_sync(after, #[trigger] t[j]) by {
        let o = t[j];
        lemma_segment_number_of_data_name(o);
        lemma_lookup_written(mid, index_name(s), index, data_name(o));
        lemma_lookup_written(mid, index_name(s), index, index_name(o));
        if o != s {
            lemma_index_names_differ(o, s);
            assert(j < k);
            assert(segs.take(k)[j] == o);
            assert(in_sync(mid, o));
        }
    }
    assert forall|name: Seq<char>| !is_index_of(name, t) implies #[trigger] lookup(after, name)
        == lookup(before, name) by {
        assert(t[k] == s);
        assert(name != index_name(s));
        lemma_lookup_written(mid, index_name(s), index, name);
        if is_index_of(name, segs.take(k)) {
            let j = choose|j: int|
                0 <= j < segs.take(k).len() && name == index_name(#[trigger] segs.take(k)[j]);
            assert(t[j] == segs.take(k)[j]);
        }
    }
}

proof fn lemma_skip_segment(before: Seq<FileView>, segs: Seq<u32>, k: int, mid: Seq<FileView>)
    requires
        0 <= k < segs.len(),
        reindexed(before, segs.take(k), mid),
        lookup(mid, data_name(segs[k])) is None,
    ensures
        reindexed(before, segs.take(k + 1), mid),
{
    let t = segs.take(k + 1);
    assert forall|j: int| 0 <= j < t.len() implies in_sync(mid, #[trigger] t[j]) by {
        if j < k {
            assert(segs.take(k)[j] == t[j]);
        }
    }
    assert forall|name: Seq<char>| !is_index_of(name, t) implies #[trigger] lookup(mid, name)
        == lookup(before, name) by {
        if is_index_of(name, segs.take(k)) {
            let j = choose|j: int|
                0 <= j < segs.take(k).len() && name == index_name(#[trigger] segs.take(k)[j]);
            assert(t[j] == segs.take(k)[j]);
        }
    }
}

/// Data files are no index files, so a reindex leaves them alone.
pub proof fn lemma_reindexed_keeps_data(
    before: Seq<FileView>,
    segs: Seq<u32>,
    after: Seq<FileView>,
    segment: u32,
)
    requires
        reindexed(before, segs, after),
    ensures
        lookup(after, data_name(segment)) == lookup(before, data_name(segment)),
{
    let name = data_name(segment);
    lemma_segment_number_of_data_name(segment);
    if is_index_of(name, segs) {
        let k = choose|k: int| 0 <= k < segs.len() && name == index_name(#[trigger] segs[k]);
        lemma_index_name_is_no_data_name(segs[k]);
    }
}

impl Storage {
    /// Rebuild index from existing data files, segment by segment.
    pub fn reindex(&mut self) -> (r: Result<usize, StorageError>)
        ensures
            final(self)@.pending == old(self)@.pending,
            reindex_outcome(old(self)@.files, final(self)@.files, r),
            r is Ok ==> contents(final(self)@.files) == contents(old(self)@.files),
            r is Ok ==> r->Ok_0 == contents(final(self)@.files).len(),
    {
        let r = self.reindex_with_progress(|| {});
        proof {
            if r is Ok {
                law_reindex_keeps_sessions(old(self)@.files, self@.files, r->Ok_0);
            }
        }
        r
    }

    /// Reindex with a per-block progress callback.
    ///
    /// `on_block` fires once per data block successfully indexed. Callers that
    /// don't care can pass `|| {}`.
    pub fn reindex_with_progress<F>(&mut self, on_block: F) -> (r: Result<
        usize,
        StorageError,
    >) where F: FnMut()
        requires
            on_block.requires(()),
        ensures
            final(self)@.pending == old(self)@.pending,
            reindex_outcome(old(self)@.files, final(self)@.files, r),
    {
        let mut progress = Progress::new(on_block);
        self.reindex_reporting(&mut progress)
    }

    /// Reindex that calls `progress` once for each block: for all of them
    /// where it succeeds, and for none where there is no data file.
    pub fn reindex_reporting<F>(&mut self, progress: &mut Progress<F>) -> (r: Result<
        usize,
        StorageError,
    >) where F: FnMut()
        requires
            old(progress).inner().requires(()),
        ensures
            final(self)@.pending == old(self)@.pending,
            reindex_outcome(old(self)@.files, final(self)@.files, r),
            final(progress).inner().requires(()),
            match r {
                Ok(_) => final(progress).calls() == old(progress).calls() + archive_blocks(
                    old(self)@.files,
                    segments(old(self)@.files),
                ).len(),
                Err(StorageError::DataFileNotFound) => final(progress).calls() == old(
                    progress,
                ).calls(),
                Err(e) => exists|k: int|
                    #![trigger segments(old(self)@.files)[k]]
                    reported_until(
                        old(self)@.files,
                        segments(old(self)@.files),
                        final(self)@.files,
                        e,
                        k,
                        final(progress).calls() - old(progress).calls(),
                    ),
            },
    {
        let segs = self.dir.list_segments();
        if segs.len() == 0 {
            return Err(StorageError::DataFileNotFound);
        }
        let ghost before = self@.files;
        let ghost pending = self@.pending;
        let mut total: usize = 0;
        let mut i: usize = 0;
        assert(segs@.take(0) =~= Seq::<u32>::empty());
        while i < segs.len()
            invariant
                i <= segs@.len(),
                segs@.len() > 0,
                progress.inner().requires(()),
                progress.calls() == old(progress).calls() + archive_blocks(
                    before,
                    segs@.take(i as int),
                ).len(),
                before == old(self)@.files,
                segs@ == segments(before),
                self@.pending == old(self)@.pending,
                session_total(before, segs@.take(i as int)) == Ok::<nat, StorageError>(
                    total as nat,
                ),
                reindexed(before, segs@.take(i as int), self@.files),
            decreases segs@.len() - i,
        {
            let segment: u32 = segs[i];
            let ghost mid = self@.files;
            proof {
                let t = segs@.take(i + 1);
                assert(t.drop_last() =~= segs@.take(i as int));
                assert(t.last() == segment);
                lemma_reindexed_keeps_data(before, segs@.take(i as int), mid, segment);
            }
            match self.reindex_segment(segment, progress) {
                Err(e) => {
                    assert(reported_until(
                        before,
                        segs@,
                        self@.files,
                        e,
                        i as int,
                        progress.calls() - old(progress).calls(),
                    ));
                    assert(segs@[i as int] == segment);
                    return Err(e);
                },
                Ok(None) => {
                    proof {
                        lemma_skip_segment(before, segs@, i as int, mid);
                    }
                },
                Ok(Some((index, count))) => {
                    if count > usize::MAX - total {
                        assert(reported_until(
                            before,
                            segs@,
                            self@.files,
                            StorageError::CounterOverflow,
                            i as int,
                            progress.calls() - old(progress).calls(),
                        ));
                        assert(segs@[i as int] == segment);
                        return Err(StorageError::CounterOverflow);
                    }
                    total = total + count;
                    proof {
                        lemma_index_written(before, segs@, i as int, mid, index@);
                    }
                    self.dir.write(index_file_name(segment), index);
                },
            }
            i += 1;
        }
        assert(segs@.take(i as int) =~= segs@);
        Ok(total)
    }

    /// Total number of compressed blocks across every archive segment.
    ///
    /// Reads only the 4-byte size headers and seeks past each block payload,
    /// so this is O(blocks) reads with no decompression. Useful as a
    /// progress-bar denominator for `reindex`, where the existing index is
    /// untrustworthy and `stats` would lie.
    pub fn count_archive_blocks(&self) -> (r: Result<u64, StorageError>)
        ensures
            match r {
                Ok(n) => block_total(self@.files, segments(self@.files)) == Ok::<
                    nat,
                    StorageError,
                >(n as nat),
                Err(e) => block_total(self@.files, segments(self@.files)) == Err::<
                    nat,
                    StorageError,
                >(e),
            },
    {
        let segs = self.dir.list_segments();
        let ghost files = self@.files;
        let mut total: u64 = 0;
        let mut i: usize = 0;
        assert(segs@.take(0) =~= Seq::<u32>::empty());
        while i < segs.len()
            invariant
                i <= segs@.len(),
                files == self@.files,
                segs@ == segments(files),
                block_total(files, segs@.take(i as int)) == Ok::<nat, StorageError>(total as nat),
            decreases segs@.len() - i,
        {
            let segment: u32 = segs[i];
            proof {
                let t = segs@.take(i + 1);
                assert(t.drop_last() =~= segs@.take(i as int));
                assert(t.last() == segment);
            }
            let name = data_file_name(segment);
            match self.dir.read(name.as_str()) {
                None => {},
                Some(data) => match count_announced(data, segment) {
                    Err(e) => {
                        proof {
                            lemma_block_total_error(files, segs@, i + 1);
                        }
                        return Err(e);
                    },
                    Ok(n) => {
                        if n > u64::MAX - total {
                            proof {
                                lemma_block_total_error(files, segs@, i + 1);
                            }
                            return Err(StorageError::CounterOverflow);
                        }
                        total = total + n;
                    },
                },
            }
            i += 1;
        }
        assert(segs@.take(i as int) =~= segs@);
        Ok(total)
    }

    /// The new index file of a segment that has a data file, with the number
    /// of sessions in it. `progress` is called for each block as its entry is
    /// made.
    fn reindex_segment<F>(&self, segment: u32, progress: &mut Progress<F>) -> (r: Result<
        Option<(Vec<u8>, usize)>,
        StorageError,
    >) where F: FnMut()
        requires
            old(progress).inner().requires(()),
        ensures
            final(progress).inner().requires(()),
            old(progress).calls() <= final(progress).calls() <= old(progress).calls() + frame_count(
                self@.files,
                segment,
            ),
            r is Ok ==> final(progress).calls() == old(progress).calls() + blocks_at(
                self@.files,
                segment,
            ).len(),
            match r {
                Ok(None) => lookup(self@.files, data_name(segment)) is None,
                Ok(Some((index, count))) => {
                    &&& lookup(self@.files, data_name(segment)) is Some
                    &&& {
                        let data = lookup(self@.files, data_name(segment))->0;
                        &&& segment_blocks(data, segment) is Ok
                        &&& indexes(index@, segment_blocks(data, segment)->Ok_0)
                        &&& count == sessions_of(segment_blocks(data, segment)->Ok_0).len()
                    }
                },
                Err(e) => {
                    &&& e != StorageError::DataFileNotFound
                    &&& lookup(self@.files, data_name(segment)) is Some
                    &&& {
                        let data = lookup(self@.files, data_name(segment))->0;
                        ||| segment_blocks(data, segment) == Err::<Seq<BlockView>, StorageError>(e)
                        ||| segment_blocks(data, segment) is Ok && e
                            == StorageError::CounterOverflow && sessions_of(
                            segment_blocks(data, segment)->Ok_0,
                        ).len() > usize::MAX
                        ||| (e == StorageError::Compress || e == StorageError::BlockTooLarge)
                            && some_entry_refused(self@.files, segment)
                    }
                },
            },
    {
        let name = data_file_name(segment);
        match self.dir.read(name.as_str()) {
            None => Ok(None),
            Some(data) => {
                proof {
                    lemma_segment_errors(data@, segment);
                }
                match index_data(data, segment, progress) {
                    Err(e) => Err(e),
                    Ok(made) => Ok(Some(made)),
                }
            },
        }
    }
}

/// What a rebuild of the index returns and does: a flush first, then a
/// reindex, in which an archive without data files counts as empty.
pub open spec fn rebuild_outcome(
    before: StorageView,
    after: StorageView,
    r: Result<usize, StorageError>,
) -> bool {
    exists|mid: StorageView, flushed: Result<usize, StorageError>|
        {
            &&& #[trigger] flush_outcome(before, mid, flushed)
            &&& match flushed {
                Err(e) => after == mid && r == Err::<usize, StorageError>(e),
                Ok(_) => {
                    &&& after.pending == mid.pending
                    &&& if segments(mid.files).len() == 0 {
                        r == Ok::<usize, StorageError>(0) && after.files == mid.files
                    } else {
                        reindex_outcome(mid.files, after.files, r)
                    }
                },
            }
        }
}

impl Storage {
    /// Moves finalised sessions to the archive and rebuilds every index.
    pub fn rebuild(&mut self) -> (r: Result<usize, StorageError>)
        ensures
            rebuild_outcome(old(self)@, final(self)@, r),
            sound(old(self)@.files) && r is Ok ==> {
                &&& contents(final(self)@.files) == contents(old(self)@.files) + waiting(
                    old(self)@,
                )
                &&& r->Ok_0 == contents(final(self)@.files).len()
            },
    {
        let ghost before = self@;
        let flushed = self.flush_pending();
        assert(flush_outcome(before, self@, flushed));
        match flushed {
            Err(e) => {
                return Err(e);
            },
            Ok(_) => {},
        }
        let r = match self.reindex() {
            Ok(n) => Ok(n),
            Err(StorageError::DataFileNotFound) => Ok(0),
            Err(e) => Err(e),
        };
        proof {
            if sound(before.files) && r is Ok {
                law_rebuild_keeps_sessions(before, self@, r->Ok_0);
            }
        }
        r
    }
}

} // verus!
