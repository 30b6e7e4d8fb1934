//! How many blocks the archive holds, and what adds to them.
use vstd::prelude::*;
use crate::codec::{packed, stored_bytes};
use crate::frames::{frame, lemma_frame_reads_back, lemma_payloads_concat, payloads, tail, Tail};
use crate::laws::append::{
    grew, lemma_archived_files, lemma_archived_grew, listed_once, opened_data, readable_at,
};
use crate::schema::{SessionView, StoredView};
use crate::storage::StorageView;
use crate::storage::constants::MAX_FILE_SIZE;
use crate::storage::directory::{
    active_segment, data_name, index_name, lemma_active_is_highest, lookup, segments, FileView,
};
use crate::storage::flush::{flush_outcome, unarchived};
use crate::storage::ingest::{archived_all, bulk_records};
use crate::storage::optimise::lemma_fresh_segment;
use crate::storage::pending::{completed, events_of, PendingView};
use crate::storage::reindex::{
    announced_blocks, block_total, lemma_reindexed_keeps_data, reindex_outcome, session_total,
};
use crate::storage::scan::archive_blocks;
use crate::storage::segment::{header_error, lemma_blocks_in, segment_blocks, BlockView};
use crate::storage::sync::in_sync;
use crate::storage::types::StorageError;
use crate::storage::writer::{archived, writer_segment};

verus! {

/// A number of blocks, as it is reported.
pub open spec fn reported(n: nat) -> Result<nat, StorageError> {
    if n <= u64::MAX {
        Ok(n)
    } else {
        Err(StorageError::CounterOverflow)
    }
}

/// The number of announced blocks of a data file that can be read is the
/// number of blocks that a reindex goes through.
pub proof fn law_announced_blocks_are_indexed(data: Seq<u8>, segment: u32)
    requires
        segment_blocks(data, segment) is Ok,
    ensures
        announced_blocks(data, segment) == Ok::<nat, StorageError>(
            segment_blocks(data, segment)->Ok_0.len(),
        ),
{
    lemma_blocks_in(payloads(data.skip(8)));
}

/// The number of blocks in data files that can be read is the number of
/// their blocks, whatever they announce.
pub proof fn law_block_total_counts_blocks(files: Seq<FileView>, segs: Seq<u32>)
    requires
        forall|i: int| 0 <= i < segs.len() ==> readable_at(files, #[trigger] segs[i]),
    ensures
        block_total(files, segs) == reported(archive_blocks(files, segs).len()),
    decreases segs.len(),
{
    if segs.len() > 0 {
        let front = segs.drop_last();
        assert forall|i: int| 0 <= i < front.len() implies readable_at(
            files,
            #[trigger] front[i],
        ) by {
            assert(front[i] == segs[i]);
        }
        law_block_total_counts_blocks(files, front);
        assert(readable_at(files, segs[segs.len() - 1]));
        match lookup(files, data_name(segs.last())) {
            None => {},
            Some(data) => {
                law_announced_blocks_are_indexed(data, segs.last());
            },
        }
    }
}

pub proof fn lemma_blocks_frame(a: Seq<FileView>, b: Seq<FileView>, segs: Seq<u32>)
    requires
        forall|i: int|
            0 <= i < segs.len() ==> lookup(a, data_name(#[trigger] segs[i])) == lookup(
                b,
                data_name(segs[i]),
            ),
    ensures
        archive_blocks(a, segs) == archive_blocks(b, segs),
    decreases segs.len(),
{
    if segs.len() > 0 {
        let front = segs.drop_last();
        assert forall|i: int| 0 <= i < front.len() implies lookup(
            a,
            data_name(#[trigger] front[i]),
        ) == lookup(b, data_name(front[i])) by {
            assert(front[i] == segs[i]);
        }
        lemma_blocks_frame(a, b, front);
        assert(lookup(a, data_name(segs[segs.len() - 1])) == lookup(
            b,
            data_name(segs[segs.len() - 1]),
        ));
    }
}

proof fn lemma_grew_by_a_block(
    before: Seq<FileView>,
    after: Seq<FileView>,
    segment: u32,
    front: Seq<u32>,
    old: Seq<BlockView>,
    b: BlockView,
)
    requires
        grew(before, after, segment, front, old, b),
    ensures
        archive_blocks(after, segments(after)) == archive_blocks(before, segments(before)).push(b),
{
    lemma_blocks_frame(after, before, front);
    let older = archive_blocks(before, front);
    assert(front.push(segment).drop_last() =~= front);
    assert(older + old.push(b) =~= (older + old).push(b));
    assert(older + Seq::<BlockView>::empty() =~= older);
}

/// Archiving a record where the last data file can be read adds a block to
/// the archive.
pub proof fn lemma_archived_block(
    before: Seq<FileView>,
    after: Seq<FileView>,
    v: StoredView,
    max_size: u64,
) -> (b: BlockView)
    requires
        archived(before, after, v, max_size),
        listed_once(after),
        readable_at(before, writer_segment(before, max_size)->0),
    ensures
        listed_once(before),
        forall|limit: u64|
            (#[trigger] writer_segment(after, limit)) is Some ==> readable_at(
                after,
                writer_segment(after, limit)->0,
            ),
        archive_blocks(after, segments(after)) == archive_blocks(before, segments(before)).push(b),
        b.stored == v,
        b.raw == stored_bytes(v).len(),
        packed(v) is Some,
        b.compressed == packed(v)->0.len(),
{
    let (segment, front, old_blocks, b) = lemma_archived_grew(before, after, v, max_size);
    lemma_grew_by_a_block(before, after, segment, front, old_blocks, b);
    lemma_nothing_behind_active(after);
    b
}

/// The segment behind the active one has no data file yet.
proof fn lemma_nothing_behind_active(files: Seq<FileView>)
    ensures
        active_segment(files) < u32::MAX ==> lookup(
            files,
            data_name((active_segment(files) + 1) as u32),
        ) is None,
{
    let n = active_segment(files);
    if n < u32::MAX && lookup(files, data_name((n + 1) as u32)) is Some {
        lemma_active_is_highest(files, (n + 1) as u32);
    }
}

/// The blocks that several records add, in order.
pub proof fn lemma_archived_blocks(
    before: Seq<FileView>,
    after: Seq<FileView>,
    records: Seq<StoredView>,
) -> (more: Seq<BlockView>)
    requires
        archived_all(before, after, records),
        listed_once(after),
        readable_at(before, writer_segment(before, MAX_FILE_SIZE)->0),
    ensures
        listed_once(before),
        archive_blocks(after, segments(after)) == archive_blocks(before, segments(before)) + more,
        more.len() == records.len(),
        forall|i: int| 0 <= i < more.len() ==> (#[trigger] more[i]).stored == records[i],
        records.len() > 0 && writer_segment(after, MAX_FILE_SIZE) is Some ==> readable_at(
            after,
            writer_segment(after, MAX_FILE_SIZE)->0,
        ),
    decreases records.len(),
{
    let old_blocks = archive_blocks(before, segments(before));
    if records.len() == 0 {
        assert(old_blocks + Seq::<BlockView>::empty() =~= old_blocks);
        Seq::empty()
    } else {
        let mid = choose|mid: Seq<FileView>|
            {
                &&& archived_all(before, mid, records.drop_last())
                &&& #[trigger] archived(mid, after, records.last(), MAX_FILE_SIZE)
            };
        lemma_archived_files(mid, after, records.last(), MAX_FILE_SIZE);
        let front = lemma_archived_blocks(before, mid, records.drop_last());
        let b = lemma_archived_block(mid, after, records.last(), MAX_FILE_SIZE);
        assert((old_blocks + front).push(b) =~= old_blocks + front.push(b));
        front.push(b)
    }
}

/// An empty store has no blocks.
pub proof fn law_empty_store_has_no_blocks()
    ensures
        block_total(Seq::empty(), segments(Seq::empty())) == Ok::<nat, StorageError>(0),
{
}

/// The data file that the next block goes to, where there is one, ends with a
/// whole block or with the magic bytes.
pub open spec fn ends_cleanly(files: Seq<FileView>, max_size: u64) -> bool {
    match writer_segment(files, max_size) {
        None => true,
        Some(segment) => match lookup(files, data_name(segment)) {
            None => true,
            Some(data) => header_error(data, segment) is None && tail(data.skip(8)) == Tail::Clean,
        },
    }
}

/// One count of blocks, and the count with more of them.
pub open spec fn counts_blocks(
    before: Result<nat, StorageError>,
    after: Result<nat, StorageError>,
    more: nat,
) -> bool {
    match before {
        Ok(n) => after == reported(n + more),
        Err(StorageError::CounterOverflow) => after == before,
        Err(_) => true,
    }
}

/// Archiving a record adds one block to those that can be counted, whatever
/// the index files hold and whatever is in the blocks. Archives in which two
/// files go by the same number, and those that end in the middle of a block,
/// are left out.
pub proof fn law_append_adds_one_block(
    before: Seq<FileView>,
    after: Seq<FileView>,
    v: StoredView,
    max_size: u64,
)
    requires
        archived(before, after, v, max_size),
        listed_once(after),
        ends_cleanly(before, max_size),
    ensures
        counts_blocks(
            block_total(before, segments(before)),
            block_total(after, segments(after)),
            1,
        ),
        forall|limit: u64| #[trigger] ends_cleanly(after, limit),
{
    let (segment, front, block, entry) = lemma_archived_files(before, after, v, max_size);
    let data = opened_data(before, segment);
    lemma_block_total_frame(after, before, front);
    lemma_fresh_segment(segment);
    lemma_nothing_behind_active(after);
    assert(front.push(segment).drop_last() =~= front);
    lemma_announced_grow(data, segment, block);
}

proof fn lemma_announced_grow(data: Seq<u8>, segment: u32, block: Seq<u8>)
    requires
        header_error(data, segment) is None,
        tail(data.skip(8)) == Tail::Clean,
        block.len() <= u32::MAX,
    ensures
        announced_blocks(data, segment) is Ok,
        announced_blocks(data + frame(block), segment) == Ok::<nat, StorageError>(
            announced_blocks(data, segment)->Ok_0 + 1,
        ),
        header_error(data + frame(block), segment) is None,
        tail((data + frame(block)).skip(8)) == Tail::Clean,
{
    let new = data + frame(block);
    assert(new.take(8) =~= data.take(8));
    assert(new.skip(8) =~= data.skip(8) + frame(block));
    lemma_frame_reads_back(block);
    lemma_payloads_concat(data.skip(8), frame(block));
}

proof fn lemma_block_total_frame(a: Seq<FileView>, b: Seq<FileView>, segs: Seq<u32>)
    requires
        forall|i: int|
            0 <= i < segs.len() ==> lookup(a, data_name(#[trigger] segs[i])) == lookup(
                b,
                data_name(segs[i]),
            ),
    ensures
        block_total(a, segs) == block_total(b, segs),
    decreases segs.len(),
{
    if segs.len() > 0 {
        let front = segs.drop_last();
        assert forall|i: int| 0 <= i < front.len() implies lookup(
            a,
            data_name(#[trigger] front[i]),
        ) == lookup(b, data_name(front[i])) by {
            assert(front[i] == segs[i]);
        }
        lemma_block_total_frame(a, b, front);
        assert(lookup(a, data_name(segs[segs.len() - 1])) == lookup(
            b,
            data_name(segs[segs.len() - 1]),
        ));
    }
}

/// Archiving several records adds a block for each.
pub proof fn law_append_all_adds_blocks(
    before: Seq<FileView>,
    after: Seq<FileView>,
    records: Seq<StoredView>,
)
    requires
        archived_all(before, after, records),
        listed_once(after),
        ends_cleanly(before, MAX_FILE_SIZE),
        block_total(before, segments(before)) is Ok,
    ensures
        block_total(after, segments(after)) == reported(
            block_total(before, segments(before))->Ok_0 + records.len(),
        ),
        ends_cleanly(after, MAX_FILE_SIZE),
    decreases records.len(),
{
    if records.len() == 0 {
        lemma_block_total_fits(before, segments(before));
    } else {
        let mid = choose|mid: Seq<FileView>|
            {
                &&& archived_all(before, mid, records.drop_last())
                &&& #[trigger] archived(mid, after, records.last(), MAX_FILE_SIZE)
            };
        lemma_archived_files(mid, after, records.last(), MAX_FILE_SIZE);
        law_append_all_adds_blocks(before, mid, records.drop_last());
        lemma_block_total_fits(before, segments(before));
        law_append_adds_one_block(mid, after, records.last(), MAX_FILE_SIZE);
    }
}

proof fn lemma_block_total_fits(files: Seq<FileView>, segs: Seq<u32>)
    requires
        block_total(files, segs) is Ok,
    ensures
        block_total(files, segs)->Ok_0 <= u64::MAX,
    decreases segs.len(),
{
    if segs.len() > 0 {
        lemma_block_total_fits(files, segs.drop_last());
    }
}

/// A bulk import adds one block for every hundred sessions, and one for the
/// rest, to those that can be counted. Archives in which two files go by the
/// same number, and those that end in the middle of a block, are left out.
pub proof fn law_bulk_adds_blocks(
    before: Seq<FileView>,
    after: Seq<FileView>,
    sessions: Seq<SessionView>,
)
    requires
        archived_all(before, after, bulk_records(sessions)),
        listed_once(after),
        ends_cleanly(before, MAX_FILE_SIZE),
        block_total(before, segments(before)) is Ok,
    ensures
        block_total(after, segments(after)) == reported(
            block_total(before, segments(before))->Ok_0 + (sessions.len() + 99) / 100,
        ),
{
    law_append_all_adds_blocks(before, after, bulk_records(sessions));
}

/// A flush adds one block to those that can be counted where it archives
/// anything, and none else. Archives in which two files go by the same
/// number, and those that end in the middle of a block, are left out.
pub proof fn law_flush_adds_at_most_one_block(before: StorageView, after: StorageView, n: usize)
    requires
        flush_outcome(before, after, Ok::<usize, StorageError>(n)),
        listed_once(after.files),
        ends_cleanly(before.files, MAX_FILE_SIZE),
        block_total(before.files, segments(before.files)) is Ok,
    ensures
        block_total(after.files, segments(after.files)) == reported(
            block_total(before.files, segments(before.files))->Ok_0 + if n > 0 {
                1nat
            } else {
                0
            },
        ),
{
    lemma_block_total_fits(before.files, segments(before.files));
    match before.pending {
        PendingView::Records(records) => {
            let fresh = unarchived(before.files, completed(events_of(records)))->Ok_0;
            if fresh.len() > 0 {
                law_append_adds_one_block(
                    before.files,
                    after.files,
                    StoredView::Block(fresh),
                    MAX_FILE_SIZE,
                );
            }
        },
        _ => {},
    }
}

/// The number of index entries of segments.
pub open spec fn entry_total(files: Seq<FileView>, segs: Seq<u32>) -> nat
    decreases segs.len(),
{
    if segs.len() == 0 {
        0
    } else {
        entry_total(files, segs.drop_last()) + match (
            lookup(files, data_name(segs.last())),
            lookup(files, index_name(segs.last())),
        ) {
            (Some(_), Some(index)) => payloads(index).len(),
            _ => 0,
        }
    }
}

proof fn lemma_entry_total(files: Seq<FileView>, segs: Seq<u32>)
    requires
        forall|i: int| 0 <= i < segs.len() ==> in_sync(files, #[trigger] segs[i]),
    ensures
        entry_total(files, segs) == archive_blocks(files, segs).len(),
    decreases segs.len(),
{
    if segs.len() > 0 {
        let front = segs.drop_last();
        assert forall|i: int| 0 <= i < front.len() implies in_sync(files, #[trigger] front[i]) by {
            assert(front[i] == segs[i]);
        }
        lemma_entry_total(files, front);
        assert(in_sync(files, segs[segs.len() - 1]));
    }
}

proof fn lemma_session_total_reads(files: Seq<FileView>, segs: Seq<u32>, i: int)
    requires
        session_total(files, segs) is Ok,
        0 <= i < segs.len(),
    ensures
        readable_at(files, segs[i]),
    decreases segs.len(),
{
    if i < segs.len() - 1 {
        assert(segs.drop_last()[i] == segs[i]);
        lemma_session_total_reads(files, segs.drop_last(), i);
    }
}

/// The blocks that are counted before a reindex are those that it goes
/// through: the new index files have one entry for each.
pub proof fn law_reindex_goes_through_all_blocks(
    before: Seq<FileView>,
    after: Seq<FileView>,
    n: usize,
)
    requires
        reindex_outcome(before, after, Ok::<usize, StorageError>(n)),
    ensures
        block_total(before, segments(before)) == reported(
            archive_blocks(before, segments(before)).len(),
        ),
        entry_total(after, segments(after)) == archive_blocks(before, segments(before)).len(),
        block_total(after, segments(after)) == block_total(before, segments(before)),
{
    let segs = segments(before);
    assert forall|i: int| 0 <= i < segs.len() implies lookup(after, data_name(#[trigger] segs[i]))
        == lookup(before, data_name(segs[i])) && readable_at(before, segs[i]) by {
        lemma_reindexed_keeps_data(before, segs, after, segs[i]);
        lemma_session_total_reads(before, segs, i);
    }
    assert forall|i: int| 0 <= i < segs.len() implies readable_at(after, #[trigger] segs[i]) by {
        assert(lookup(after, data_name(segs[i])) == lookup(before, data_name(segs[i])));
    }
    lemma_blocks_frame(after, before, segs);
    law_block_total_counts_blocks(before, segs);
    law_block_total_counts_blocks(after, segs);
    lemma_entry_total(after, segs);
}

} // verus!
