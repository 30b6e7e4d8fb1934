//! Statistics count what a scan reads.
use vstd::prelude::*;
use vstd::seq_lib::lemma_fold_left_permutation;
use crate::codec::unpacked;
use crate::frames::payloads;
use crate::laws::append::{
    contents, indexed, law_append_keeps_indexed, law_append_only, law_bulk_keeps_sessions,
    lemma_archived_files, listed_once, readable_at, sessions_in,
};
use crate::laws::blocks::{lemma_archived_block, lemma_archived_blocks, lemma_blocks_frame};
use crate::schema::{SessionView, StoredView};
use crate::storage::StorageView;
use crate::storage::blocks::{
    earliest, has_undated, id_count, ids_of, latest, message_total, time_range, COUNTER_RANGE,
};
use crate::storage::constants::MAX_FILE_SIZE;
use crate::storage::directory::{data_name, index_name, lookup, segments, FileView};
use crate::storage::ingest::{archived_all, bulk_records};
use crate::storage::scan::{archive_blocks, archive_sessions, blocks_at};
use crate::storage::segment::{blocks_in, sessions_of, BlockView};
use crate::storage::stats::{
    counted, with_blocks, with_entries, with_segments, with_sessions, with_size, with_sizes,
};
use crate::storage::sync::{entry_for, in_sync};
use crate::storage::types::{Counts, StorageError};
use crate::storage::writer::{archived, writer_segment};
use crate::text::{joined, lemma_split_of_joined, no_comma};

verus! {

/// Every id can be told from its neighbours in a joined list.
pub open spec fn plain_ids(sessions: Seq<SessionView>) -> bool {
    forall|i: int|
        0 <= i < sessions.len() ==> no_comma((#[trigger] sessions[i]).id) && sessions[i].id.len()
            > 0
}

pub proof fn lemma_message_total_concat(a: Seq<SessionView>, b: Seq<SessionView>)
    ensures
        message_total(a + b) == message_total(a) + message_total(b),
    decreases b.len(),
{
    if b.len() == 0 {
        assert(a + b =~= a);
    } else {
        assert((a + b).drop_last() =~= a + b.drop_last());
        lemma_message_total_concat(a, b.drop_last());
    }
}

/// The joined ids of sessions count the sessions.
pub proof fn lemma_id_count(sessions: Seq<SessionView>)
    requires
        plain_ids(sessions),
    ensures
        id_count(joined(ids_of(sessions))) == sessions.len(),
{
    let ids = ids_of(sessions);
    if sessions.len() > 0 {
        assert forall|k: int| 0 <= k < ids.len() implies no_comma(#[trigger] ids[k]) by {
            assert(ids[k] == sessions[k].id);
        }
        lemma_split_of_joined(ids);
        assert(sessions[0].id.len() > 0);
        if ids.len() > 1 {
            assert(joined(ids).len() >= 1);
        } else {
            assert(joined(ids) == sessions[0].id);
        }
    }
}

/// What blocks add to the statistics.
pub ghost struct Totals {
    pub sessions: nat,
    pub messages: nat,
    pub compressed: nat,
    pub uncompressed: nat,
}

impl Totals {
    pub open spec fn zero() -> Totals {
        Totals { sessions: 0, messages: 0, compressed: 0, uncompressed: 0 }
    }

    /// Both together.
    pub open spec fn plus(self, other: Totals) -> Totals {
        Totals {
            sessions: self.sessions + other.sessions,
            messages: self.messages + other.messages,
            compressed: self.compressed + other.compressed,
            uncompressed: self.uncompressed + other.uncompressed,
        }
    }

    /// What sessions add that are in no block.
    pub open spec fn of_sessions(sessions: Seq<SessionView>) -> Totals {
        Totals {
            sessions: sessions.len(),
            messages: message_total(sessions),
            compressed: 0,
            uncompressed: 0,
        }
    }

    /// What a block adds.
    pub open spec fn of_block(b: BlockView) -> Totals {
        Totals {
            sessions: b.stored.sessions().len(),
            messages: message_total(b.stored.sessions()),
            compressed: b.compressed,
            uncompressed: b.raw,
        }
    }

    /// What the index entry of a block adds: its counters have 32 bits, and
    /// it tells sessions apart by the commas between their ids.
    pub open spec fn of_entry(b: BlockView) -> Totals {
        Totals {
            sessions: id_count(joined(ids_of(b.stored.sessions()))),
            messages: (message_total(b.stored.sessions()) as int % COUNTER_RANGE as int) as nat,
            compressed: b.compressed,
            uncompressed: (b.raw as int % COUNTER_RANGE as int) as nat,
        }
    }
}

/// What blocks add, by their index entries or by themselves.
pub open spec fn totals(blocks: Seq<BlockView>, by_index: bool) -> Totals
    decreases blocks.len(),
{
    if blocks.len() == 0 {
        Totals::zero()
    } else {
        totals(blocks.drop_last(), by_index).plus(
            if by_index {
                Totals::of_entry(blocks.last())
            } else {
                Totals::of_block(blocks.last())
            },
        )
    }
}

/// The size of the data files of segments.
pub open spec fn data_bytes(files: Seq<FileView>, segs: Seq<u32>) -> nat
    decreases segs.len(),
{
    if segs.len() == 0 {
        0
    } else {
        data_bytes(files, segs.drop_last()) + match lookup(files, data_name(segs.last())) {
            None => 0,
            Some(data) => data.len(),
        }
    }
}

/// The earliest and latest time seen after sessions.
pub open spec fn seen(times: (u64, u64), sessions: Seq<SessionView>) -> (u64, u64)
    decreases sessions.len(),
{
    if sessions.len() == 0 {
        times
    } else {
        let front = seen(times, sessions.drop_last());
        match sessions.last().created_at {
            Some(t) => (
                if front.0 == 0 || t < front.0 {
                    t
                } else {
                    front.0
                },
                if t > front.1 {
                    t
                } else {
                    front.1
                },
            ),
            None => front,
        }
    }
}

/// Every session says when it was created, and a time range can show it.
pub open spec fn all_dated(sessions: Seq<SessionView>) -> bool {
    forall|i: int|
        0 <= i < sessions.len() ==> {
            &&& (#[trigger] sessions[i]).created_at is Some
            &&& 0 < sessions[i].created_at->0 < u64::MAX
        }
}

/// The counts with more.
pub open spec fn plus(c: Counts, t: Totals, bytes: nat) -> Counts {
    Counts {
        sessions: c.sessions + t.sessions,
        messages: c.messages + t.messages,
        total: c.total + bytes,
        compressed: c.compressed + t.compressed,
        uncompressed: c.uncompressed + t.uncompressed,
        ..c
    }
}

/// The counts agree but for the times.
pub open spec fn same_numbers(a: Counts, b: Counts) -> bool {
    a == (Counts { min_time: a.min_time, max_time: a.max_time, ..b })
}

/// `r` is the outcome of counting more: the sums, or an error where a sum
/// does not fit 64 bits. Where `dated` holds, the times are those that the
/// sessions show.
pub open spec fn sums(
    r: Result<Counts, StorageError>,
    c: Counts,
    t: Totals,
    bytes: nat,
    sessions: Seq<SessionView>,
    dated: bool,
) -> bool {
    match r {
        Ok(x) => {
            &&& x.fits()
            &&& same_numbers(x, plus(c, t, bytes))
            &&& dated ==> (x.min_time, x.max_time) == seen((c.min_time, c.max_time), sessions)
        },
        Err(e) => e == StorageError::CounterOverflow && !plus(c, t, bytes).fits(),
    }
}

proof fn lemma_sessions_sum(c: Counts, sessions: Seq<SessionView>)
    requires
        c.fits(),
    ensures
        sums(with_sessions(c, sessions), c, Totals::of_sessions(sessions), 0, sessions, true),
    decreases sessions.len(),
{
    if sessions.len() > 0 {
        lemma_sessions_sum(c, sessions.drop_last());
    }
}

proof fn lemma_seen_concat(times: (u64, u64), a: Seq<SessionView>, b: Seq<SessionView>)
    ensures
        seen(times, a + b) == seen(seen(times, a), b),
    decreases b.len(),
{
    if b.len() == 0 {
        assert(a + b =~= a);
    } else {
        assert((a + b).drop_last() =~= a + b.drop_last());
        lemma_seen_concat(times, a, b.drop_last());
    }
}

/// A block whose sessions are all dated shows in its index entry what the
/// sessions show.
proof fn lemma_seen_by_range(times: (u64, u64), sessions: Seq<SessionView>)
    requires
        all_dated(sessions),
    ensures
        sessions.len() == 0 ==> seen(times, sessions) == times,
        sessions.len() > 0 ==> {
            &&& 0 < earliest(sessions) <= latest(sessions) < u64::MAX
            &&& seen(times, sessions).0 == (if times.0 == 0 || earliest(sessions) < times.0 {
                earliest(sessions)
            } else {
                times.0
            })
            &&& seen(times, sessions).1 == (if latest(sessions) > times.1 {
                latest(sessions)
            } else {
                times.1
            })
        },
    decreases sessions.len(),
{
    if sessions.len() > 0 {
        let front = sessions.drop_last();
        assert forall|i: int| 0 <= i < front.len() implies (#[trigger] front[i]).created_at is Some
            && 0 < front[i].created_at->0 < u64::MAX by {
            assert(front[i] == sessions[i]);
        }
        lemma_seen_by_range(times, front);
        assert(sessions[sessions.len() - 1].created_at is Some);
        if front.len() == 0 {
            assert(earliest(front) == u64::MAX && latest(front) == 0);
        }
    }
}

proof fn lemma_entries_sum(c: Counts, entries: Seq<Seq<u8>>, blocks: Seq<BlockView>)
    requires
        c.fits(),
        entries.len() == blocks.len(),
        forall|i: int| 0 <= i < entries.len() ==> entry_for(#[trigger] entries[i], blocks[i]),
    ensures
        sums(
            with_entries(c, entries),
            c,
            totals(blocks, true),
            0,
            sessions_of(blocks),
            all_dated(sessions_of(blocks)),
        ),
    decreases entries.len(),
{
    if entries.len() > 0 {
        let e = entries.drop_last();
        let b = blocks.drop_last();
        assert forall|i: int| 0 <= i < e.len() implies entry_for(#[trigger] e[i], b[i]) by {
            assert(entry_for(entries[i], blocks[i]));
        }
        lemma_entries_sum(c, e, b);
        assert(entry_for(entries[entries.len() - 1], blocks[blocks.len() - 1]));
        let older = sessions_of(b);
        let newer = blocks.last().stored.sessions();
        let all = sessions_of(blocks);
        let times = (c.min_time, c.max_time);
        lemma_seen_concat(times, older, newer);
        if all_dated(all) {
            lemma_dated_parts(older, newer);
            lemma_seen_by_range(seen(times, older), newer);
            assert(!has_undated(newer));
            match blocks.last().stored {
                StoredView::V1(s) => {
                    assert(newer[0] == s);
                    assert(newer.drop_last() =~= Seq::<SessionView>::empty());
                    assert(earliest(newer.drop_last()) == u64::MAX);
                    assert(latest(newer.drop_last()) == 0);
                },
                _ => {},
            }
            assert(newer.len() > 0 ==> time_range(blocks.last().stored) == (
                earliest(newer),
                latest(newer),
            ));
        }
    }
}

proof fn lemma_dated_parts(a: Seq<SessionView>, b: Seq<SessionView>)
    requires
        all_dated(a + b),
    ensures
        all_dated(a),
        all_dated(b),
{
    assert forall|i: int| 0 <= i < a.len() implies (#[trigger] a[i]).created_at is Some && 0
        < a[i].created_at->0 < u64::MAX by {
        assert(a[i] == (a + b)[i]);
    }
    assert forall|i: int| 0 <= i < b.len() implies (#[trigger] b[i]).created_at is Some && 0
        < b[i].created_at->0 < u64::MAX by {
        assert(b[i] == (a + b)[a.len() + i]);
    }
}

proof fn lemma_blocks_sum(c: Counts, ps: Seq<Seq<u8>>)
    requires
        c.fits(),
        blocks_in(ps) is Ok,
    ensures
        sums(
            with_blocks(c, ps),
            c,
            totals(blocks_in(ps)->Ok_0, false),
            0,
            sessions_of(blocks_in(ps)->Ok_0),
            true,
        ),
    decreases ps.len(),
{
    if ps.len() > 0 {
        let front = ps.drop_last();
        lemma_blocks_sum(c, front);
        let blocks = blocks_in(ps)->Ok_0;
        assert(blocks.drop_last() =~= blocks_in(front)->Ok_0);
        let (v, raw) = unpacked(ps.last())->Ok_0;
        let older = sessions_of(blocks.drop_last());
        lemma_seen_concat((c.min_time, c.max_time), older, v.sessions());
        if with_blocks(c, front) is Ok {
            let sized = with_sizes(with_blocks(c, front)->Ok_0, ps.last().len(), raw);
            if sized.fits() {
                lemma_sessions_sum(sized, v.sessions());
            }
        }
    }
}

proof fn lemma_totals_concat(a: Seq<BlockView>, b: Seq<BlockView>, by_index: bool)
    ensures
        totals(a + b, by_index) == totals(a, by_index).plus(totals(b, by_index)),
        sessions_of(a + b) == sessions_of(a) + sessions_of(b),
    decreases b.len(),
{
    if b.len() == 0 {
        assert(a + b =~= a);
        assert(sessions_of(a) + sessions_of(b) =~= sessions_of(a));
    } else {
        assert((a + b).drop_last() =~= a + b.drop_last());
        lemma_totals_concat(a, b.drop_last(), by_index);
        assert(sessions_of(a) + sessions_of(b.drop_last()) + b.last().stored.sessions()
            =~= sessions_of(a) + sessions_of(b));
    }
}

/// A segment is counted by its index, which describes its blocks, or by its
/// blocks, where it has no index.
pub open spec fn counts_by(files: Seq<FileView>, segment: u32, by_index: bool) -> bool {
    if by_index {
        in_sync(files, segment)
    } else {
        readable_at(files, segment) && lookup(files, index_name(segment)) is None
    }
}

proof fn lemma_segments_sum(c: Counts, files: Seq<FileView>, segs: Seq<u32>, by_index: bool)
    requires
        c.fits(),
        forall|n: u32| #[trigger] counts_by(files, n, by_index),
    ensures
        sums(
            with_segments(c, files, segs),
            c,
            totals(archive_blocks(files, segs), by_index),
            data_bytes(files, segs),
            sessions_of(archive_blocks(files, segs)),
            by_index ==> all_dated(sessions_of(archive_blocks(files, segs))),
        ),
    decreases segs.len(),
{
    if segs.len() > 0 {
        let front = segs.drop_last();
        let n = segs.last();
        lemma_segments_sum(c, files, front, by_index);
        assert(counts_by(files, n, by_index));
        let older = archive_blocks(files, front);
        let newer = blocks_at(files, n);
        lemma_totals_concat(older, newer, by_index);
        lemma_seen_concat((c.min_time, c.max_time), sessions_of(older), sessions_of(newer));
        if all_dated(sessions_of(older + newer)) {
            lemma_dated_parts(sessions_of(older), sessions_of(newer));
        }
        if with_segments(c, files, front) is Ok && lookup(files, data_name(n)) is Some {
            let data = lookup(files, data_name(n))->0;
            let sized = with_size(with_segments(c, files, front)->Ok_0, data.len());
            if sized.fits() {
                if by_index {
                    let index = lookup(files, index_name(n))->0;
                    lemma_entries_sum(sized, payloads(index), newer);
                } else {
                    lemma_blocks_sum(sized, payloads(data.skip(8)));
                }
            }
        }
    }
}

/// What the statistics of a store add up to.
pub open spec fn store_totals(v: StorageView, by_index: bool) -> Totals {
    Totals::of_sessions(v.pending.readable()).plus(
        totals(archive_blocks(v.files, segments(v.files)), by_index),
    )
}

pub proof fn lemma_counted_sum(v: StorageView, by_index: bool)
    requires
        forall|n: u32| #[trigger] counts_by(v.files, n, by_index),
    ensures
        sums(
            counted(v),
            Counts::zero(),
            store_totals(v, by_index),
            v.pending.size() + data_bytes(v.files, segments(v.files)),
            v.pending.readable() + sessions_of(archive_blocks(v.files, segments(v.files))),
            by_index ==> all_dated(sessions_of(archive_blocks(v.files, segments(v.files)))),
        ),
{
    let pending = v.pending.readable();
    let blocks = archive_blocks(v.files, segments(v.files));
    lemma_sessions_sum(Counts::zero(), pending);
    lemma_seen_concat((0, 0), pending, sessions_of(blocks));
    if with_sessions(Counts::zero(), pending) is Ok {
        let sized = with_size(with_sessions(Counts::zero(), pending)->Ok_0, v.pending.size());
        if sized.fits() {
            lemma_segments_sum(sized, v.files, segments(v.files), by_index);
        }
    }
}

/// By themselves, blocks add what their sessions are.
proof fn lemma_block_totals(blocks: Seq<BlockView>)
    ensures
        totals(blocks, false).sessions == sessions_of(blocks).len(),
        totals(blocks, false).messages == message_total(sessions_of(blocks)),
        totals(blocks, true).compressed == totals(blocks, false).compressed,
    decreases blocks.len(),
{
    if blocks.len() > 0 {
        lemma_block_totals(blocks.drop_last());
        lemma_message_total_concat(
            sessions_of(blocks.drop_last()),
            blocks.last().stored.sessions(),
        );
    }
}

proof fn lemma_plain_parts(a: Seq<SessionView>, b: Seq<SessionView>)
    requires
        plain_ids(a + b),
    ensures
        plain_ids(a),
        plain_ids(b),
{
    assert forall|i: int| 0 <= i < a.len() implies no_comma((#[trigger] a[i]).id) && a[i].id.len()
        > 0 by {
        assert(a[i] == (a + b)[i]);
    }
    assert forall|i: int| 0 <= i < b.len() implies no_comma((#[trigger] b[i]).id) && b[i].id.len()
        > 0 by {
        assert(b[i] == (a + b)[a.len() + i]);
    }
}

/// The messages of every block fit the counter of its index entry.
pub open spec fn small_blocks(blocks: Seq<BlockView>) -> bool {
    forall|i: int|
        0 <= i < blocks.len() ==> message_total((#[trigger] blocks[i]).stored.sessions())
            < COUNTER_RANGE
}

/// By their entries, blocks add the same sessions and messages where the ids
/// can be told apart and the messages fit the counters.
proof fn lemma_entry_totals(blocks: Seq<BlockView>)
    requires
        plain_ids(sessions_of(blocks)),
        small_blocks(blocks),
    ensures
        totals(blocks, true).sessions == sessions_of(blocks).len(),
        totals(blocks, true).messages == message_total(sessions_of(blocks)),
        (forall|i: int| 0 <= i < blocks.len() ==> (#[trigger] blocks[i]).raw < COUNTER_RANGE)
            ==> totals(blocks, true) == totals(blocks, false),
    decreases blocks.len(),
{
    lemma_block_totals(blocks);
    if blocks.len() > 0 {
        let front = blocks.drop_last();
        let newer = blocks.last().stored.sessions();
        lemma_message_total_concat(sessions_of(front), newer);
        lemma_plain_parts(sessions_of(front), newer);
        assert forall|i: int| 0 <= i < front.len() implies message_total(
            (#[trigger] front[i]).stored.sessions(),
        ) < COUNTER_RANGE by {
            assert(front[i] == blocks[i]);
        }
        assert(message_total(blocks[blocks.len() - 1].stored.sessions()) < COUNTER_RANGE);
        lemma_entry_totals(front);
        lemma_id_count(newer);
        if forall|i: int| 0 <= i < blocks.len() ==> (#[trigger] blocks[i]).raw < COUNTER_RANGE {
            assert forall|i: int| 0 <= i < front.len() implies (#[trigger] front[i]).raw
                < COUNTER_RANGE by {
                assert(front[i] == blocks[i]);
            }
            assert(blocks[blocks.len() - 1].raw < COUNTER_RANGE);
        }
    }
}

/// The blocks of data files that can be read hold what a scan reads.
pub proof fn lemma_blocks_hold_sessions(files: Seq<FileView>, segs: Seq<u32>)
    requires
        forall|n: u32| #[trigger] readable_at(files, n),
    ensures
        archive_sessions(files, segs) == Ok::<Seq<SessionView>, StorageError>(
            sessions_of(archive_blocks(files, segs)),
        ),
    decreases segs.len(),
{
    if segs.len() > 0 {
        lemma_blocks_hold_sessions(files, segs.drop_last());
        assert(readable_at(files, segs.last()));
        lemma_totals_concat(
            archive_blocks(files, segs.drop_last()),
            blocks_at(files, segs.last()),
            false,
        );
        let older = sessions_of(archive_blocks(files, segs.drop_last()));
        assert(older + Seq::<SessionView>::empty() =~= older);
    } else {
        assert(sessions_of(archive_blocks(files, segs)) =~= Seq::<SessionView>::empty());
    }
}

pub proof fn lemma_indexed_counts(files: Seq<FileView>)
    requires
        forall|n: u32| in_sync(files, n),
    ensures
        forall|n: u32| #[trigger] counts_by(files, n, true),
        forall|n: u32| #[trigger] readable_at(files, n),
        contents(files) == sessions_of(archive_blocks(files, segments(files))),
{
    assert forall|n: u32| #[trigger] counts_by(files, n, true) by {
        assert(in_sync(files, n));
    }
    assert forall|n: u32| #[trigger] readable_at(files, n) by {
        assert(in_sync(files, n));
    }
    lemma_blocks_hold_sessions(files, segments(files));
}

/// Where every index file describes its data file, the statistics count every
/// archived and every pending session, and all their messages; they fail only
/// where a sum does not fit 64 bits. Ids that are empty or hold a comma, and
/// blocks of four billion messages and more, are left out: index entries
/// cannot count them.
pub proof fn law_stats_count_everything(v: StorageView)
    requires
        forall|n: u32| in_sync(v.files, n),
        plain_ids(contents(v.files)),
        small_blocks(archive_blocks(v.files, segments(v.files))),
    ensures
        match counted(v) {
            Ok(c) => {
                &&& c.sessions == contents(v.files).len() + v.pending.readable().len()
                &&& c.messages == message_total(contents(v.files)) + message_total(
                    v.pending.readable(),
                )
                &&& c.total == v.pending.size() + data_bytes(v.files, segments(v.files))
            },
            Err(e) => e == StorageError::CounterOverflow,
        },
{
    lemma_indexed_counts(v.files);
    lemma_counted_sum(v, true);
    lemma_entry_totals(archive_blocks(v.files, segments(v.files)));
}

/// Every entry of the index is in line, no id has a comma in it, and no block
/// has more messages than an entry can say.
pub open spec fn countable(v: StorageView) -> bool {
    &&& forall|n: u32| in_sync(v.files, n)
    &&& plain_ids(contents(v.files))
    &&& small_blocks(archive_blocks(v.files, segments(v.files)))
}

/// All sessions, waiting and archived, are counted, and all their messages.
pub proof fn law_totals_are_counted(v: StorageView)
    ensures
        countable(v) && counted(v) is Ok ==> {
            let all = v.pending.readable() + contents(v.files);
            &&& counted(v)->Ok_0.sessions == all.len()
            &&& counted(v)->Ok_0.messages == message_total(all)
        },
{
    if countable(v) {
        law_stats_count_everything(v);
        lemma_message_total_concat(v.pending.readable(), contents(v.files));
    }
}

/// The two counts say the same, or neither fits 64 bits.
pub open spec fn counts_agree(
    a: Result<Counts, StorageError>,
    b: Result<Counts, StorageError>,
    dated: bool,
) -> bool {
    match (a, b) {
        (Ok(x), Ok(y)) => same_numbers(x, y) && (dated ==> x == y),
        (Err(e), Err(f)) => e == StorageError::CounterOverflow && f
            == StorageError::CounterOverflow,
        _ => false,
    }
}

/// Where every index file describes its data file, the statistics are the
/// same with the index files and without them: sessions, messages and all
/// sizes, and the times too where every archived session says when it was
/// created. Ids that are empty or hold a comma, and blocks of four billion
/// messages or four gigabytes, are left out: index entries cannot count them.
pub proof fn law_stats_agree_without_index(v: StorageView, bare: StorageView)
    requires
        forall|n: u32| in_sync(v.files, n),
        plain_ids(contents(v.files)),
        small_blocks(archive_blocks(v.files, segments(v.files))),
        forall|i: int|
            0 <= i < archive_blocks(v.files, segments(v.files)).len() ==> (
            #[trigger] archive_blocks(v.files, segments(v.files))[i]).raw < COUNTER_RANGE,
        bare.pending == v.pending,
        segments(bare.files) == segments(v.files),
        forall|n: u32|
            #![trigger data_name(n)]
            lookup(bare.files, data_name(n)) == lookup(v.files, data_name(n)),
        forall|n: u32| lookup(bare.files, #[trigger] index_name(n)) is None,
    ensures
        counts_agree(counted(v), counted(bare), all_dated(contents(v.files))),
{
    let segs = segments(v.files);
    lemma_indexed_counts(v.files);
    assert forall|n: u32| #[trigger] counts_by(bare.files, n, false) by {
        assert(readable_at(v.files, n));
        assert(lookup(bare.files, data_name(n)) == lookup(v.files, data_name(n)));
        assert(lookup(bare.files, index_name(n)) is None);
    }
    lemma_counted_sum(v, true);
    lemma_counted_sum(bare, false);
    lemma_blocks_frame(bare.files, v.files, segs);
    lemma_data_bytes_frame(bare.files, v.files, segs);
    lemma_entry_totals(archive_blocks(v.files, segs));
}

pub proof fn lemma_data_bytes_frame(a: Seq<FileView>, b: Seq<FileView>, segs: Seq<u32>)
    requires
        forall|i: int|
            0 <= i < segs.len() ==> lookup(a, data_name(#[trigger] segs[i])) == lookup(
                b,
                data_name(segs[i]),
            ),
    ensures
        data_bytes(a, segs) == data_bytes(b, segs),
    decreases segs.len(),
{
    if segs.len() > 0 {
        let front = segs.drop_last();
        assert forall|i: int| 0 <= i < front.len() implies lookup(
            a,
            data_name(#[trigger] front[i]),
        ) == lookup(b, data_name(front[i])) by {
            assert(front[i] == segs[i]);
        }
        lemma_data_bytes_frame(a, b, front);
        assert(lookup(a, data_name(segs[segs.len() - 1])) == lookup(
            b,
            data_name(segs[segs.len() - 1]),
        ));
    }
}

/// `after` counts what `before` counts and the sessions, or a sum does not
/// fit 64 bits.
pub open spec fn counts_more(
    before: Result<Counts, StorageError>,
    after: Result<Counts, StorageError>,
    sessions: Seq<SessionView>,
) -> bool {
    match (before, after) {
        (Ok(a), Ok(b)) => {
            &&& b.sessions == a.sessions + sessions.len()
            &&& b.messages == a.messages + message_total(sessions)
        },
        (Ok(_), Err(e)) => e == StorageError::CounterOverflow,
        (Err(e), Err(f)) => e == StorageError::CounterOverflow && f
            == StorageError::CounterOverflow,
        (Err(_), Ok(_)) => false,
    }
}

proof fn lemma_archived_bytes(
    before: Seq<FileView>,
    after: Seq<FileView>,
    v: StoredView,
    max_size: u64,
)
    requires
        archived(before, after, v, max_size),
        listed_once(after),
    ensures
        data_bytes(after, segments(after)) >= data_bytes(before, segments(before)),
{
    let (segment, front, _, _) = lemma_archived_files(before, after, v, max_size);
    lemma_data_bytes_frame(after, before, front);
    assert(front.push(segment).drop_last() =~= front);
    if lookup(before, data_name(segment)) is Some {
        law_append_only(before, after, v, max_size, data_name(segment));
    }
}

proof fn lemma_all_archived_bytes(
    before: Seq<FileView>,
    after: Seq<FileView>,
    records: Seq<StoredView>,
)
    requires
        archived_all(before, after, records),
        listed_once(after),
    ensures
        data_bytes(after, segments(after)) >= data_bytes(before, segments(before)),
    decreases records.len(),
{
    if records.len() > 0 {
        let mid = choose|mid: Seq<FileView>|
            {
                &&& archived_all(before, mid, records.drop_last())
                &&& #[trigger] archived(mid, after, records.last(), MAX_FILE_SIZE)
            };
        lemma_archived_files(mid, after, records.last(), MAX_FILE_SIZE);
        lemma_all_archived_bytes(before, mid, records.drop_last());
        lemma_archived_bytes(mid, after, records.last(), MAX_FILE_SIZE);
    }
}

/// Where every index file describes its data file, archiving a record adds
/// its sessions and messages to the statistics, whatever the archive held
/// before. Ids that are empty or hold a comma, records of four billion
/// messages, and archives in which two files go by the same number are left
/// out.
pub proof fn law_stats_after_append(
    before: StorageView,
    after: StorageView,
    v: StoredView,
    max_size: u64,
)
    requires
        indexed(before.files),
        archived(before.files, after.files, v, max_size),
        listed_once(after.files),
        after.pending == before.pending,
        plain_ids(v.sessions()),
        message_total(v.sessions()) < COUNTER_RANGE,
    ensures
        counts_more(counted(before), counted(after), v.sessions()),
{
    law_append_keeps_indexed(before.files, after.files, v, max_size);
    lemma_archived_files(before.files, after.files, v, max_size);
    assert(in_sync(before.files, writer_segment(before.files, max_size)->0));
    let b = lemma_archived_block(before.files, after.files, v, max_size);
    lemma_indexed_counts(before.files);
    lemma_indexed_counts(after.files);
    lemma_counted_sum(before, true);
    lemma_counted_sum(after, true);
    lemma_id_count(v.sessions());
    lemma_archived_bytes(before.files, after.files, v, max_size);
    let old_blocks = archive_blocks(before.files, segments(before.files));
    assert(old_blocks.push(b).drop_last() =~= old_blocks);
}

/// Where every index file describes its data file, a bulk import adds its
/// sessions and messages to the statistics, whatever the archive held before.
/// Ids that are empty or hold a comma, four billion messages in a block, and
/// archives in which two files go by the same number are left out.
pub proof fn law_stats_after_bulk(
    before: StorageView,
    after: StorageView,
    sessions: Seq<SessionView>,
)
    requires
        indexed(before.files),
        archived_all(before.files, after.files, bulk_records(sessions)),
        listed_once(after.files),
        after.pending == before.pending,
        plain_ids(sessions),
        forall|k: int|
            0 <= k < bulk_records(sessions).len() ==> message_total(
                (#[trigger] bulk_records(sessions)[k]).sessions(),
            ) < COUNTER_RANGE,
    ensures
        counts_more(counted(before), counted(after), sessions),
{
    let records = bulk_records(sessions);
    lemma_all_archived_indexed(before.files, after.files, records);
    assert(in_sync(before.files, writer_segment(before.files, MAX_FILE_SIZE)->0));
    let more = lemma_archived_blocks(before.files, after.files, records);
    lemma_indexed_counts(before.files);
    lemma_indexed_counts(after.files);
    lemma_counted_sum(before, true);
    lemma_counted_sum(after, true);
    lemma_all_archived_bytes(before.files, after.files, records);
    lemma_sessions_in(more, records);
    law_bulk_keeps_sessions(sessions);
    assert forall|i: int| 0 <= i < more.len() implies message_total(
        (#[trigger] more[i]).stored.sessions(),
    ) < COUNTER_RANGE by {
        assert(more[i].stored == records[i]);
    }
    lemma_entry_totals(more);
    lemma_totals_concat(
        archive_blocks(before.files, segments(before.files)),
        more,
        true,
    );
}

proof fn lemma_all_archived_indexed(
    before: Seq<FileView>,
    after: Seq<FileView>,
    records: Seq<StoredView>,
)
    requires
        indexed(before),
        archived_all(before, after, records),
    ensures
        indexed(after),
    decreases records.len(),
{
    if records.len() > 0 {
        let mid = choose|mid: Seq<FileView>|
            {
                &&& archived_all(before, mid, records.drop_last())
                &&& #[trigger] archived(mid, after, records.last(), MAX_FILE_SIZE)
            };
        lemma_all_archived_indexed(before, mid, records.drop_last());
        law_append_keeps_indexed(mid, after, records.last(), MAX_FILE_SIZE);
    }
}

proof fn lemma_sessions_in(blocks: Seq<BlockView>, records: Seq<StoredView>)
    requires
        blocks.len() == records.len(),
        forall|i: int| 0 <= i < blocks.len() ==> (#[trigger] blocks[i]).stored == records[i],
    ensures
        sessions_of(blocks) == sessions_in(records),
    decreases blocks.len(),
{
    if blocks.len() > 0 {
        let b = blocks.drop_last();
        assert forall|i: int| 0 <= i < b.len() implies (#[trigger] b[i]).stored
            == records.drop_last()[i] by {
            assert(b[i] == blocks[i]);
        }
        lemma_sessions_in(b, records.drop_last());
        assert(blocks[blocks.len() - 1].stored == records[records.len() - 1]);
    }
}

/// No session claims to be from the time zero, which stands for none.
pub open spec fn none_at_zero(sessions: Seq<SessionView>) -> bool {
    forall|i: int|
        0 <= i < sessions.len() ==> (#[trigger] sessions[i]).created_at != Some(0u64)
}

/// Accumulating sessions counts them and their messages and keeps the
/// extremes of their times, or a sum does not fit 64 bits. Lists with a
/// session from the time zero are left out.
pub proof fn law_accumulate(c: Counts, sessions: Seq<SessionView>)
    requires
        c.fits(),
        none_at_zero(sessions),
    ensures
        match with_sessions(c, sessions) {
            Ok(x) => x == (Counts {
                sessions: c.sessions + sessions.len(),
                messages: c.messages + message_total(sessions),
                min_time: if !some_dated(sessions) || (c.min_time != 0 && c.min_time <= earliest(
                    sessions,
                )) {
                    c.min_time
                } else {
                    earliest(sessions)
                },
                max_time: if latest(sessions) > c.max_time {
                    latest(sessions)
                } else {
                    c.max_time
                },
                ..c
            }),
            Err(e) => e == StorageError::CounterOverflow && (c.sessions + sessions.len() > u64::MAX
                || c.messages + message_total(sessions) > u64::MAX),
        },
    decreases sessions.len(),
{
    if sessions.len() > 0 {
        let front = sessions.drop_last();
        assert forall|i: int| 0 <= i < front.len() implies (#[trigger] front[i]).created_at != Some(
            0u64,
        ) by {
            assert(front[i] == sessions[i]);
        }
        law_accumulate(c, front);
        lemma_some_dated(sessions);
        lemma_earliest(front);
        assert(sessions[sessions.len() - 1].created_at != Some(0u64));
    }
}

/// Some session says when it was created.
pub open spec fn some_dated(sessions: Seq<SessionView>) -> bool {
    exists|i: int| 0 <= i < sessions.len() && (#[trigger] sessions[i]).created_at is Some
}

proof fn lemma_some_dated(sessions: Seq<SessionView>)
    requires
        sessions.len() > 0,
    ensures
        some_dated(sessions) == (some_dated(sessions.drop_last())
            || sessions.last().created_at is Some),
{
    let front = sessions.drop_last();
    if some_dated(front) {
        let i = choose|i: int| 0 <= i < front.len() && (#[trigger] front[i]).created_at is Some;
        assert(sessions[i].created_at is Some);
    }
    if sessions.last().created_at is Some {
        assert(sessions[sessions.len() - 1].created_at is Some);
    }
    if some_dated(sessions) {
        let i = choose|i: int|
            0 <= i < sessions.len() && (#[trigger] sessions[i]).created_at is Some;
        if i < front.len() {
            assert(front[i].created_at is Some);
        }
    }
}

proof fn lemma_earliest(sessions: Seq<SessionView>)
    requires
        none_at_zero(sessions),
    ensures
        earliest(sessions) > 0,
        !some_dated(sessions) ==> earliest(sessions) == u64::MAX && latest(sessions) == 0,
    decreases sessions.len(),
{
    if sessions.len() > 0 {
        let front = sessions.drop_last();
        assert forall|i: int| 0 <= i < front.len() implies (#[trigger] front[i]).created_at != Some(
            0u64,
        ) by {
            assert(front[i] == sessions[i]);
        }
        lemma_earliest(front);
        lemma_some_dated(sessions);
        assert(sessions[sessions.len() - 1].created_at != Some(0u64));
    }
}

/// One more session, a time of zero taken for none.
pub open spec fn accumulated(c: Counts, s: SessionView) -> Counts {
    if s.created_at == Some(0u64) {
        c.with_session(SessionView { created_at: None, ..s })
    } else {
        c.with_session(s)
    }
}

proof fn lemma_with_sessions_folds(c: Counts, sessions: Seq<SessionView>)
    requires
        c.fits(),
        none_at_zero(sessions),
    ensures
        ({
            let all = sessions.fold_left(c, |a: Counts, s: SessionView| accumulated(a, s));
            match with_sessions(c, sessions) {
                Ok(x) => x == all && x.fits(),
                Err(e) => e == StorageError::CounterOverflow && !all.fits(),
            }
        }),
    decreases sessions.len(),
{
    reveal_with_fuel(Seq::fold_left, 2);
    if sessions.len() > 0 {
        let front = sessions.drop_last();
        assert forall|i: int| 0 <= i < front.len() implies (#[trigger] front[i]).created_at != Some(
            0u64,
        ) by {
            assert(front[i] == sessions[i]);
        }
        lemma_with_sessions_folds(c, front);
        assert(sessions[sessions.len() - 1].created_at != Some(0u64));
    }
}

/// Accumulating the same sessions in another order gives the same. Lists
/// with a session from the time zero are left out.
pub proof fn law_accumulate_in_any_order(c: Counts, a: Seq<SessionView>, b: Seq<SessionView>)
    requires
        c.fits(),
        a.to_multiset() == b.to_multiset(),
        none_at_zero(a),
    ensures
        with_sessions(c, a) == with_sessions(c, b),
{
    broadcast use vstd::seq_lib::group_to_multiset_ensures;

    assert forall|i: int| 0 <= i < b.len() implies (#[trigger] b[i]).created_at != Some(0u64) by {
        assert(b.contains(b[i]));
        assert(a.to_multiset().count(b[i]) > 0);
        assert(a.contains(b[i]));
    }
    let f = |c: Counts, s: SessionView| accumulated(c, s);
    lemma_with_sessions_folds(c, a);
    lemma_with_sessions_folds(c, b);
    assert forall|x: SessionView, y: SessionView, v: Counts| #[trigger] f(f(v, x), y) == f(
        f(v, y),
        x,
    ) by {}
    lemma_fold_left_permutation(a, b, f, c);
}

proof fn lemma_with_sessions_counts(c: Counts, sessions: Seq<SessionView>)
    requires
        with_sessions(c, sessions) is Ok,
    ensures
        with_sessions(c, sessions)->Ok_0.sessions == c.sessions + sessions.len(),
        with_sessions(c, sessions)->Ok_0.messages == c.messages + message_total(sessions),
    decreases sessions.len(),
{
    if sessions.len() > 0 {
        lemma_with_sessions_counts(c, sessions.drop_last());
    }
}

/// Counting the blocks of a data file themselves, where a segment has no
/// index, counts the sessions and messages that a scan reads.
pub proof fn law_stats_without_index(c: Counts, ps: Seq<Seq<u8>>)
    requires
        with_blocks(c, ps) is Ok,
    ensures
        blocks_in(ps) is Ok,
        with_blocks(c, ps)->Ok_0.sessions == c.sessions + sessions_of(blocks_in(ps)->Ok_0).len(),
        with_blocks(c, ps)->Ok_0.messages == c.messages + message_total(
            sessions_of(blocks_in(ps)->Ok_0),
        ),
    decreases ps.len(),
{
    if ps.len() > 0 {
        let front = ps.drop_last();
        law_stats_without_index(c, front);
        let mid = with_blocks(c, front)->Ok_0;
        let (v, raw) = unpacked(ps.last())->Ok_0;
        let sized = with_sizes(mid, ps.last().len(), raw);
        lemma_with_sessions_counts(sized, v.sessions());
        let older = sessions_of(blocks_in(front)->Ok_0);
        lemma_message_total_concat(older, v.sessions());
        let all = blocks_in(ps)->Ok_0;
        assert(all.drop_last() =~= blocks_in(front)->Ok_0);
    }
}

} // verus!
