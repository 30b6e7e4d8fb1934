//! How much an archive holds and from what time: sums and extremes.
use vstd::prelude::*;
use crate::codec::{packed, stored_bytes};
use crate::laws::append::{
    contents, indexed, law_append_keeps_indexed, lemma_archived_files, listed_once,
};
use crate::laws::blocks::lemma_archived_block;
use crate::laws::layout::law_frame_is_length_and_payload;
use crate::laws::stats::{
    all_dated, data_bytes, lemma_counted_sum, lemma_data_bytes_frame, lemma_indexed_counts,
    lemma_message_total_concat, seen, totals, Totals,
};
use crate::schema::{text_of, MessageView, SessionView, StoredView};
use crate::storage::StorageView;
use crate::storage::blocks::{
    block_range, block_text, earliest, id_count, latest, message_total, time_range, COUNTER_RANGE,
};
use crate::storage::directory::{bytes_of, data_name, segments, FileView};
use crate::storage::pending::PendingView;
use crate::storage::scan::archive_blocks;
use crate::storage::segment::BlockView;
use crate::storage::stats::counted;
use crate::storage::sync::in_sync;
use crate::storage::writer::{archived, writer_segment};
use crate::text::{
    joined, lemma_pieces_concat, lemma_pieces_single, lemma_split_of_joined, no_comma, Separator,
};

verus! {

/// The messages of sessions are those of each of them together.
pub proof fn law_messages_add_up(a: Seq<SessionView>, b: Seq<SessionView>, s: SessionView)
    ensures
        message_total(a + b) == message_total(a) + message_total(b),
        message_total(seq![s]) == s.messages.len(),
        message_total(Seq::empty()) == 0,
{
    lemma_message_total_concat(a, b);
    let one = seq![s];
    assert(one.drop_last() =~= Seq::<SessionView>::empty());
    assert(message_total(one.drop_last()) == 0);
}

proof fn lemma_text_concat(a: Seq<MessageView>, b: Seq<MessageView>)
    ensures
        text_of(a + b) == text_of(a) + text_of(b),
    decreases b.len(),
{
    if b.len() == 0 {
        assert(a + b =~= a);
        assert(text_of(a + b) =~= text_of(a) + text_of(b));
    } else {
        lemma_text_concat(a, b.drop_last());
        assert((a + b).drop_last() =~= a + b.drop_last());
        assert((a + b).last() == b.last());
        assert(text_of(a + b) =~= text_of(a) + text_of(b));
    }
}

/// The text of messages is the content of each with a space behind it, one
/// behind the other.
pub proof fn law_text_of_messages(a: Seq<MessageView>, b: Seq<MessageView>, m: MessageView)
    ensures
        text_of(a + b) == text_of(a) + text_of(b),
        text_of(seq![m]) == m.content + seq![' '],
        text_of(Seq::empty()).len() == 0,
{
    lemma_text_concat(a, b);
    let one = seq![m];
    assert(one.drop_last() =~= Seq::<MessageView>::empty());
    assert(text_of(one.drop_last()) =~= Seq::<char>::empty());
    assert(text_of(one) =~= m.content + seq![' ']);
}

proof fn lemma_block_text_concat(a: Seq<SessionView>, b: Seq<SessionView>)
    ensures
        block_text(a + b) == block_text(a) + block_text(b),
    decreases b.len(),
{
    if b.len() == 0 {
        assert(a + b =~= a);
        assert(block_text(a + b) =~= block_text(a) + block_text(b));
    } else {
        lemma_block_text_concat(a, b.drop_last());
        assert((a + b).drop_last() =~= a + b.drop_last());
        assert((a + b).last() == b.last());
        assert(block_text(a + b) =~= block_text(a) + block_text(b));
    }
}

/// The text of a block is that of its sessions, one behind the other.
pub proof fn law_text_of_a_block(a: Seq<SessionView>, b: Seq<SessionView>, s: SessionView)
    ensures
        block_text(a + b) == block_text(a) + block_text(b),
        block_text(seq![s]) == text_of(s.messages),
        block_text(Seq::empty()).len() == 0,
{
    lemma_block_text_concat(a, b);
    let one = seq![s];
    assert(one.drop_last() =~= Seq::<SessionView>::empty());
    assert(block_text(one.drop_last()) =~= Seq::<char>::empty());
    assert(block_text(one) =~= text_of(s.messages));
}

/// As many ids are counted in a list as were joined, and none in an empty
/// one.
pub proof fn law_joined_ids_are_counted(ids: Seq<Seq<char>>)
    requires
        forall|i: int|
            0 <= i < ids.len() ==> no_comma(#[trigger] ids[i]) && ids[i].len() > 0,
    ensures
        id_count(joined(ids)) == ids.len(),
{
    if ids.len() > 0 {
        lemma_split_of_joined(ids);
        if joined(ids).len() == 0 {
            if ids.len() == 1 {
                assert(ids[0].len() > 0);
            }
        }
    }
}

/// A list is counted by its commas, whatever stands between them.
pub proof fn law_ids_are_counted_by_commas(a: Seq<char>, b: Seq<char>)
    ensures
        a.len() > 0 && b.len() > 0 ==> id_count(a.push(',') + b) == id_count(a) + id_count(b),
        a.len() > 0 && no_comma(a) ==> id_count(a) == 1,
        a.len() == 0 ==> id_count(a) == 0,
        a.len() > 0 ==> id_count(a.push(',')) == id_count(a) + 1,
{
    lemma_pieces_concat(a, ',', b, Separator::Comma);
    if no_comma(a) {
        lemma_pieces_single(a, Separator::Comma);
    }
    assert(a.push(',').drop_last() =~= a);
}

/// Dated sessions are from the time between the earliest and the latest, both
/// of which one of them is from.
pub proof fn law_earliest_and_latest(sessions: Seq<SessionView>)
    ensures
        forall|i: int|
            0 <= i < sessions.len() && (#[trigger] sessions[i]).created_at is Some ==> earliest(
                sessions,
            ) <= sessions[i].created_at->0 <= latest(sessions),
        (exists|i: int| 0 <= i < sessions.len() && (#[trigger] sessions[i]).created_at is Some)
            ==> (exists|i: int|
            0 <= i < sessions.len() && (#[trigger] sessions[i]).created_at == Some(
                earliest(sessions),
            )) && (exists|i: int|
            0 <= i < sessions.len() && (#[trigger] sessions[i]).created_at == Some(
                latest(sessions),
            )),
    decreases sessions.len(),
{
    if sessions.len() > 0 {
        let front = sessions.drop_last();
        let n = front.len() as int;
        law_earliest_and_latest(front);
        assert forall|i: int| 0 <= i < n implies front[i] == #[trigger] sessions[i] by {}
        assert forall|i: int|
            0 <= i < sessions.len() && (#[trigger] sessions[i]).created_at is Some implies earliest(
            sessions,
        ) <= sessions[i].created_at->0 <= latest(sessions) by {
            if i < n {
                assert(front[i].created_at is Some);
            }
        }
        if exists|i: int| 0 <= i < n && (#[trigger] front[i]).created_at is Some {
            let a = choose|i: int|
                0 <= i < n && (#[trigger] front[i]).created_at == Some(earliest(front));
            let b = choose|i: int|
                0 <= i < n && (#[trigger] front[i]).created_at == Some(latest(front));
            assert(sessions[a].created_at == Some(earliest(front)));
            assert(sessions[b].created_at == Some(latest(front)));
            assert(sessions[n] == sessions.last());
        } else {
            lemma_none_dated(front);
            if sessions.last().created_at is Some {
                assert(sessions[n].created_at is Some);
            } else {
                assert forall|i: int| 0 <= i < sessions.len() implies (
                #[trigger] sessions[i]).created_at is None by {
                    if i < n {
                        assert(front[i].created_at is None);
                    }
                }
            }
        }
    }
}

proof fn lemma_none_dated(sessions: Seq<SessionView>)
    requires
        forall|i: int| 0 <= i < sessions.len() ==> (#[trigger] sessions[i]).created_at is None,
    ensures
        earliest(sessions) == u64::MAX,
        latest(sessions) == 0,
    decreases sessions.len(),
{
    if sessions.len() > 0 {
        let front = sessions.drop_last();
        assert forall|i: int| 0 <= i < front.len() implies (#[trigger] front[i]).created_at is None
            by {
            assert(sessions[i].created_at is None);
        }
        lemma_none_dated(front);
        assert(sessions[sessions.len() - 1].created_at is None);
    }
}

/// The time range of a block is all time where one of its sessions says no
/// time, and else from the earliest of them to the latest.
pub proof fn law_block_ranges(sessions: Seq<SessionView>)
    ensures
        (exists|i: int| 0 <= i < sessions.len() && (#[trigger] sessions[i]).created_at is None)
            ==> block_range(sessions) == (0u64, u64::MAX),
        sessions.len() == 0 ==> block_range(sessions) == (0u64, 0u64),
        sessions.len() > 0 && (forall|i: int|
            0 <= i < sessions.len() ==> (#[trigger] sessions[i]).created_at is Some) ==> {
            let r = block_range(sessions);
            &&& forall|i: int|
                0 <= i < sessions.len() ==> r.0 <= (#[trigger] sessions[i]).created_at->0 <= r.1
            &&& exists|i: int|
                0 <= i < sessions.len() && (#[trigger] sessions[i]).created_at == Some(r.0)
            &&& exists|i: int|
                0 <= i < sessions.len() && (#[trigger] sessions[i]).created_at == Some(r.1)
        },
{
    law_earliest_and_latest(sessions);
    if sessions.len() > 0 {
        assert(sessions[0] == sessions[0]);
    }
}

/// A record of one session is from the time of the session, and one of many
/// from the time of them all.
pub proof fn law_record_ranges(s: SessionView, v: Seq<SessionView>)
    ensures
        s.created_at is Some ==> time_range(StoredView::V1(s)) == (
            s.created_at->0,
            s.created_at->0,
        ),
        s.created_at is None ==> time_range(StoredView::V1(s)) == (0u64, u64::MAX),
        time_range(StoredView::Block(v)) == block_range(v),
        time_range(StoredView::V2(v)) == block_range(v),
{
}

/// An archive of which nothing was written yet counts nothing.
pub proof fn law_empty_store_counts_nothing()
    ensures
        ({
            let none = StorageView { files: Seq::empty(), pending: PendingView::Absent };
            &&& counted(none) is Ok
            &&& counted(none)->Ok_0.sessions == 0
            &&& counted(none)->Ok_0.messages == 0
            &&& counted(none)->Ok_0.total == 0
            &&& counted(none)->Ok_0.compressed == 0
            &&& counted(none)->Ok_0.uncompressed == 0
            &&& counted(none)->Ok_0.min_time == 0
            &&& counted(none)->Ok_0.max_time == 0
        }),
{
}

proof fn lemma_bytes_after_append(
    before: Seq<FileView>,
    after: Seq<FileView>,
    v: StoredView,
    max_size: u64,
)
    requires
        archived(before, after, v, max_size),
        listed_once(after),
        bytes_of(before, data_name(writer_segment(before, max_size)->0)).len() > 0,
    ensures
        packed(v) is Some,
        data_bytes(after, segments(after)) == data_bytes(before, segments(before)) + 4
            + packed(v)->0.len(),
{
    let (segment, front, block, _) = lemma_archived_files(before, after, v, max_size);
    lemma_data_bytes_frame(after, before, front);
    assert(front.push(segment).drop_last() =~= front);
    law_frame_is_length_and_payload(block);
}

proof fn lemma_totals_push(blocks: Seq<BlockView>, b: BlockView)
    ensures
        totals(blocks.push(b), true) == totals(blocks, true).plus(Totals::of_entry(b)),
{
    assert(blocks.push(b).drop_last() =~= blocks);
}

proof fn lemma_indexed_sums(v: StorageView)
    requires
        indexed(v.files),
        counted(v) is Ok,
    ensures
        counted(v)->Ok_0.compressed == totals(
            archive_blocks(v.files, segments(v.files)),
            true,
        ).compressed,
        counted(v)->Ok_0.uncompressed == totals(
            archive_blocks(v.files, segments(v.files)),
            true,
        ).uncompressed,
        counted(v)->Ok_0.total == v.pending.size() + data_bytes(v.files, segments(v.files)),
{
    lemma_indexed_counts(v.files);
    lemma_counted_sum(v, true);
}

/// One more record in the archive is counted with the bytes it takes: those
/// of its block, those before it was compressed, and those that the data file
/// has grown by.
#[verifier::rlimit(40)]
pub proof fn law_sizes_after_append(
    before: StorageView,
    after: StorageView,
    v: StoredView,
    max_size: u64,
)
    requires
        indexed(before.files),
        archived(before.files, after.files, v, max_size),
        listed_once(after.files),
        after.pending == before.pending,
        counted(before) is Ok,
        counted(after) is Ok,
        stored_bytes(v).len() < COUNTER_RANGE,
        bytes_of(before.files, data_name(writer_segment(before.files, max_size)->0)).len() > 0,
    ensures
        packed(v) is Some,
        counted(after)->Ok_0.compressed == counted(before)->Ok_0.compressed + packed(v)->0.len(),
        counted(after)->Ok_0.uncompressed == counted(before)->Ok_0.uncompressed + stored_bytes(
            v,
        ).len(),
        counted(after)->Ok_0.total == counted(before)->Ok_0.total + 4 + packed(v)->0.len(),
{
    law_append_keeps_indexed(before.files, after.files, v, max_size);
    lemma_indexed_sums(before);
    lemma_indexed_sums(after);
    lemma_bytes_after_append(before.files, after.files, v, max_size);
    assert(in_sync(before.files, writer_segment(before.files, max_size)->0));
    let b = lemma_archived_block(before.files, after.files, v, max_size);
    lemma_totals_push(archive_blocks(before.files, segments(before.files)), b);
}

/// The counted time range of dated sessions, waiting and archived, reaches
/// from the earliest of them to the latest.
pub proof fn law_stats_tell_the_times(v: StorageView)
    requires
        forall|n: u32| in_sync(v.files, n),
        all_dated(v.pending.readable()),
        all_dated(contents(v.files)),
        counted(v) is Ok,
    ensures
        ({
            let all = v.pending.readable() + contents(v.files);
            let c = counted(v)->Ok_0;
            &&& all.len() == 0 ==> c.min_time == 0 && c.max_time == 0
            &&& forall|i: int|
                0 <= i < all.len() ==> c.min_time <= (#[trigger] all[i]).created_at->0
                    <= c.max_time
            &&& all.len() > 0 ==> exists|i: int|
                0 <= i < all.len() && (#[trigger] all[i]).created_at == Some(c.min_time)
            &&& all.len() > 0 ==> exists|i: int|
                0 <= i < all.len() && (#[trigger] all[i]).created_at == Some(c.max_time)
        }),
{
    lemma_indexed_counts(v.files);
    lemma_counted_sum(v, true);
    let a = v.pending.readable();
    let b = contents(v.files);
    let all = a + b;
    assert(all_dated(all)) by {
        assert forall|i: int| 0 <= i < all.len() implies ((#[trigger] all[i]).created_at is Some
            && 0 < all[i].created_at->0 < u64::MAX) by {
            if i < a.len() {
                assert(all[i] == a[i]);
            } else {
                assert(all[i] == b[i - a.len()]);
            }
        }
    }
    lemma_seen_extremes(all);
}

proof fn lemma_seen_extremes(all: Seq<SessionView>)
    requires
        all_dated(all),
    ensures
        all.len() == 0 ==> seen((0u64, 0u64), all) == (0u64, 0u64),
        all.len() > 0 ==> seen((0u64, 0u64), all).0 > 0,
        forall|i: int|
            0 <= i < all.len() ==> seen((0u64, 0u64), all).0 <= (#[trigger] all[i]).created_at->0
                <= seen((0u64, 0u64), all).1,
        all.len() > 0 ==> exists|i: int|
            0 <= i < all.len() && (#[trigger] all[i]).created_at == Some(
                seen((0u64, 0u64), all).0,
            ),
        all.len() > 0 ==> exists|i: int|
            0 <= i < all.len() && (#[trigger] all[i]).created_at == Some(
                seen((0u64, 0u64), all).1,
            ),
    decreases all.len(),
{
    if all.len() > 0 {
        let front = all.drop_last();
        let n = front.len() as int;
        assert forall|i: int| 0 <= i < n implies front[i] == #[trigger] all[i] by {}
        assert(all_dated(front)) by {
            assert forall|i: int| 0 <= i < n implies ((#[trigger] front[i]).created_at is Some && 0
                < front[i].created_at->0 < u64::MAX) by {
                assert(all[i].created_at is Some);
            }
        }
        lemma_seen_extremes(front);
        assert(all[n].created_at is Some);
        let now = seen((0u64, 0u64), all);
        assert forall|i: int| 0 <= i < all.len() implies now.0 <= (
        #[trigger] all[i]).created_at->0 <= now.1 by {
            if i < n {
                assert(front[i].created_at == all[i].created_at);
            }
        }
        if n > 0 {
            let then = seen((0u64, 0u64), front);
            let a = choose|i: int|
                0 <= i < n && (#[trigger] front[i]).created_at == Some(then.0);
            let b = choose|i: int|
                0 <= i < n && (#[trigger] front[i]).created_at == Some(then.1);
            assert(all[a].created_at == Some(then.0));
            assert(all[b].created_at == Some(then.1));
        }
        assert(all[n].created_at == all.last().created_at);
    }
}

/// The bytes of the data files add up, each file's own.
pub proof fn law_data_bytes_add_up(files: Seq<FileView>, a: Seq<u32>, b: Seq<u32>)
    ensures
        data_bytes(files, a + b) == data_bytes(files, a) + data_bytes(files, b),
        a.len() == 1 ==> data_bytes(files, a) == bytes_of(files, data_name(a[0])).len(),
    decreases b.len(),
{
    reveal_with_fuel(data_bytes, 2);
    if b.len() == 0 {
        assert(a + b =~= a);
    } else {
        law_data_bytes_add_up(files, a, b.drop_last());
        assert((a + b).drop_last() =~= a + b.drop_last());
        assert((a + b).last() == b.last());
    }
}

} // verus!
