//! Reindexing and optimising keep every session.
use vstd::prelude::*;
use crate::frames::payloads;
use crate::index::{entry_value, IndexView};
use crate::laws::append::{
    contents, law_append_all_extends_contents, law_empty_is_sound, lemma_archive_sessions_frame,
    lemma_other_segments, lemma_pair_written_is_sound, lemma_sound_scans, lemma_sound_segments,
    lemma_this_segment, sessions_in, sound,
};
use crate::laws::blocks::lemma_archived_blocks;
use crate::laws::flush::{law_flush_archives_the_new, law_flush_extends_contents, new_sessions};
use crate::laws::lookup::{
    law_comma_is_never_found, law_lookup_finds_scanned, lemma_comma_in_archive, lemma_first_with_id,
    lemma_lookup_agrees,
};
use crate::laws::search::{ids_distinct, searchable};
use crate::schema::{SessionView, StoredView};
use crate::storage::StorageView;
use crate::storage::blocks::{describes, ids_of};
use crate::storage::directory::{
    active_segment, bytes_of, data_name, first_at, index_name, lemma_first_at,
    lemma_index_name_is_no_data_name, lemma_index_names_differ, lemma_segment_number_of_data_name,
    lemma_segments, lookup, segment_number, segments, written, FileView,
};
use crate::storage::flush::flush_outcome;
use crate::storage::ingest::archived_all;
use crate::storage::lookup::{first_with_id, session_in_archive};
use crate::storage::optimise::{
    chunk_record, chunking, compact_outcome, holds_chunks, joined_chunks,
    lemma_chunking_keeps_sessions, optimise_outcome,
};
use crate::storage::pending::{events_of, PendingView};
use crate::storage::reindex::{
    is_index_of, lemma_reindexed_keeps_data, rebuild_outcome, reindex_outcome, reindex_stopped_at,
    session_total,
};
use crate::storage::scan::{archive_blocks, archive_sessions};
use crate::storage::segment::{segment_blocks, sessions_of, BlockView};
use crate::storage::sync::{entry_for, in_sync, indexes};
use crate::storage::types::StorageError;
use crate::text::no_comma;

verus! {

proof fn lemma_session_total_scans(files: Seq<FileView>, segs: Seq<u32>)
    requires
        session_total(files, segs) is Ok,
    ensures
        archive_sessions(files, segs) is Ok,
        archive_sessions(files, segs)->Ok_0.len() == session_total(files, segs)->Ok_0,
    decreases segs.len(),
{
    if segs.len() > 0 {
        lemma_session_total_scans(files, segs.drop_last());
    }
}

/// A reindex that succeeds leaves every session where it was, counts them
/// all, and brings every segment's index in line with its data.
pub proof fn law_reindex_keeps_sessions(before: Seq<FileView>, after: Seq<FileView>, n: usize)
    requires
        reindex_outcome(before, after, Ok::<usize, StorageError>(n)),
    ensures
        segments(after) == segments(before),
        archive_sessions(after, segments(after)) == archive_sessions(before, segments(before)),
        archive_sessions(after, segments(after)) is Ok,
        n == contents(after).len(),
        forall|s: u32| segments(after).contains(s) ==> #[trigger] in_sync(after, s),
{
    let segs = segments(before);
    lemma_session_total_scans(before, segs);
    assert forall|i: int| 0 <= i < segs.len() implies lookup(after, data_name(#[trigger] segs[i]))
        == lookup(before, data_name(segs[i])) by {
        lemma_reindexed_keeps_data(before, segs, after, segs[i]);
    }
    lemma_archive_sessions_frame(after, before, segs);
    assert forall|s: u32| segs.contains(s) implies #[trigger] in_sync(after, s) by {
        let k = choose|k: int| 0 <= k < segs.len() && segs[k] == s;
        assert(in_sync(after, segs[k]));
    }
}

/// A reindex changes index files only.
pub proof fn law_reindex_keeps_data(
    before: Seq<FileView>,
    after: Seq<FileView>,
    n: usize,
    segment: u32,
)
    requires
        reindex_outcome(before, after, Ok::<usize, StorageError>(n)),
    ensures
        lookup(after, data_name(segment)) == lookup(before, data_name(segment)),
{
    lemma_reindexed_keeps_data(before, segments(before), after, segment);
}

/// After a reindex that succeeds, looking an id up gives the oldest session
/// of that id, whatever the index files held before; an id with a comma is
/// left out.
pub proof fn law_reindex_restores_lookup(
    before: Seq<FileView>,
    after: Seq<FileView>,
    n: usize,
    id: Seq<char>,
)
    requires
        reindex_outcome(before, after, Ok::<usize, StorageError>(n)),
        no_comma(id),
    ensures
        session_in_archive(after, segments(after), id) == Ok::<Option<SessionView>, StorageError>(
            first_with_id(contents(before), id),
        ),
{
    law_reindex_keeps_sessions(before, after, n);
    let segs = segments(after);
    assert forall|k: int| 0 <= k < segs.len() implies in_sync(after, #[trigger] segs[k]) by {
        assert(segs.contains(segs[k]));
    }
    lemma_lookup_agrees(after, segs, id);
}

/// Whoever writes the index entry of a block, it says the same of the block:
/// only the filters may let different foreign words pass.
pub proof fn law_index_entries_agree(
    a: IndexView,
    b: IndexView,
    v: StoredView,
    offset: int,
    compressed: int,
    raw: int,
)
    requires
        describes(a, v, offset, compressed, raw),
        describes(b, v, offset, compressed, raw),
    ensures
        a == (IndexView { filter: a.filter, ..b }),
{
}

/// After a reindex that succeeds, every index file describes its data file.
proof fn lemma_reindexed_in_sync(before: Seq<FileView>, after: Seq<FileView>, n: usize)
    requires
        reindex_outcome(before, after, Ok::<usize, StorageError>(n)),
    ensures
        forall|s: u32| in_sync(after, s),
{
    law_reindex_keeps_sessions(before, after, n);
    assert forall|s: u32| in_sync(after, s) by {
        if lookup(after, data_name(s)) is Some {
            lemma_first_at(after, data_name(s));
            lemma_segment_number_of_data_name(s);
            lemma_segments(after);
            let at = first_at(after, data_name(s)) as int;
            assert(segment_number(after[at].name) == Some(s));
            assert(segments(after).contains(s));
        }
    }
}

/// A reindex that succeeds keeps a sound archive sound.
pub proof fn law_reindex_keeps_soundness(before: Seq<FileView>, after: Seq<FileView>, n: usize)
    requires
        sound(before),
        reindex_outcome(before, after, Ok::<usize, StorageError>(n)),
    ensures
        sound(after),
{
    let segs = segments(before);
    lemma_reindexed_in_sync(before, after, n);
    assert forall|i: int|
        0 <= i < after.len() && segment_number(
            (#[trigger] after[i]).name,
        ) is Some implies after[i].name == data_name(segment_number(after[i].name)->0) by {
        let name = after[i].name;
        if is_index_of(name, segs) {
            let k = choose|k: int| 0 <= k < segs.len() && name == index_name(#[trigger] segs[k]);
            lemma_index_name_is_no_data_name(segs[k]);
        }
        lemma_first_at(after, name);
        lemma_first_at(before, name);
        assert(lookup(after, name) == lookup(before, name));
        let at = first_at(before, name) as int;
        assert(before[at].name == name);
    }
    assert forall|s: u32| lookup(after, #[trigger] data_name(s)) is None implies bytes_of(
        after,
        index_name(s),
    ).len() == 0 by {
        lemma_reindexed_keeps_data(before, segs, after, s);
        if is_index_of(index_name(s), segs) {
            let k = choose|k: int|
                0 <= k < segs.len() && index_name(s) == index_name(#[trigger] segs[k]);
            if s != segs[k] {
                lemma_index_names_differ(s, segs[k]);
            }
            lemma_sound_segments(before);
            assert(lookup(before, data_name(segs[k])) is Some);
        }
        assert(lookup(after, index_name(s)) == lookup(before, index_name(s)));
        assert(bytes_of(before, index_name(s)).len() == 0);
    }
}

proof fn lemma_session_total_frame(a: Seq<FileView>, b: Seq<FileView>, segs: Seq<u32>)
    requires
        forall|i: int|
            0 <= i < segs.len() ==> lookup(a, data_name(#[trigger] segs[i])) == lookup(
                b,
                data_name(segs[i]),
            ),
    ensures
        session_total(a, segs) == session_total(b, segs),
    decreases segs.len(),
{
    if segs.len() > 0 {
        let front = segs.drop_last();
        assert forall|i: int| 0 <= i < front.len() implies lookup(
            a,
            data_name(#[trigger] front[i]),
        ) == lookup(b, data_name(front[i])) by {
            assert(front[i] == segs[i]);
        }
        lemma_session_total_frame(a, b, front);
        assert(lookup(a, data_name(segs[segs.len() - 1])) == lookup(
            b,
            data_name(segs[segs.len() - 1]),
        ));
    }
}

proof fn lemma_session_total_prefix(files: Seq<FileView>, segs: Seq<u32>, k: int)
    requires
        session_total(files, segs) is Ok,
        0 <= k <= segs.len(),
    ensures
        session_total(files, segs.take(k)) is Ok,
    decreases segs.len(),
{
    if k == segs.len() {
        assert(segs.take(k) =~= segs);
    } else {
        assert(segs.drop_last().take(k) =~= segs.take(k));
        lemma_session_total_prefix(files, segs.drop_last(), k);
    }
}

/// Entry by entry, two index files say the same, but for the filters.
pub open spec fn same_entries(a: Seq<u8>, b: Seq<u8>) -> bool {
    &&& payloads(a).len() == payloads(b).len()
    &&& forall|i: int|
        0 <= i < payloads(a).len() ==> {
            &&& entry_value(#[trigger] payloads(a)[i]) is Ok
            &&& entry_value(payloads(b)[i]) is Ok
            &&& entry_value(payloads(a)[i])->Ok_0 == (IndexView {
                filter: entry_value(payloads(a)[i])->Ok_0.filter,
                ..entry_value(payloads(b)[i])->Ok_0
            })
        }
}

/// Reindexing again, as often as one likes, gives the same count, the same
/// sessions, and index files that say the same but for the filters. It fails
/// only where an entry cannot be written.
pub proof fn law_reindex_again(
    before: Seq<FileView>,
    mid: Seq<FileView>,
    after: Seq<FileView>,
    n: usize,
    again: Result<usize, StorageError>,
)
    requires
        reindex_outcome(before, mid, Ok::<usize, StorageError>(n)),
        reindex_outcome(mid, after, again),
    ensures
        match again {
            Ok(m) => {
                &&& m == n
                &&& segments(after) == segments(mid)
                &&& contents(after) == contents(mid)
                &&& forall|s: u32|
                    lookup(mid, #[trigger] data_name(s)) is Some ==> same_entries(
                        bytes_of(after, index_name(s)),
                        bytes_of(mid, index_name(s)),
                    )
            },
            Err(e) => e == StorageError::Compress || e == StorageError::BlockTooLarge,
        },
{
    let segs = segments(before);
    law_reindex_keeps_sessions(before, mid, n);
    assert forall|i: int| 0 <= i < segs.len() implies lookup(mid, data_name(#[trigger] segs[i]))
        == lookup(before, data_name(segs[i])) by {
        lemma_reindexed_keeps_data(before, segs, mid, segs[i]);
    }
    lemma_session_total_frame(mid, before, segs);
    match again {
        Ok(m) => {
            law_reindex_keeps_sessions(mid, after, m);
            lemma_reindexed_in_sync(before, mid, n);
            lemma_reindexed_in_sync(mid, after, m);
            assert forall|s: u32| lookup(mid, #[trigger] data_name(s)) is Some implies same_entries(
                bytes_of(after, index_name(s)),
                bytes_of(mid, index_name(s)),
            ) by {
                lemma_reindexed_keeps_data(mid, segs, after, s);
                assert(in_sync(mid, s));
                assert(in_sync(after, s));
                lemma_same_entries(
                    bytes_of(after, index_name(s)),
                    bytes_of(mid, index_name(s)),
                    segment_blocks(lookup(mid, data_name(s))->0, s)->Ok_0,
                );
            }
        },
        Err(e) => {
            let k = choose|k: int| #[trigger] reindex_stopped_at(mid, segs, after, e, k);
            lemma_session_total_prefix(mid, segs, k + 1);
        },
    }
}

proof fn lemma_same_entries(a: Seq<u8>, b: Seq<u8>, blocks: Seq<BlockView>)
    requires
        indexes(a, blocks),
        indexes(b, blocks),
    ensures
        same_entries(a, b),
{
    assert forall|i: int| 0 <= i < payloads(a).len() implies entry_value(#[trigger] payloads(a)[i])
        is Ok && entry_value(payloads(b)[i]) is Ok && entry_value(payloads(a)[i])->Ok_0 == (
    IndexView {
        filter: entry_value(payloads(a)[i])->Ok_0.filter,
        ..entry_value(payloads(b)[i])->Ok_0
    }) by {
        assert(entry_for(payloads(a)[i], blocks[i]));
        assert(entry_for(payloads(b)[i], blocks[i]));
    }
}

/// Reindexing again changes no lookup.
pub proof fn law_reindex_again_keeps_lookup(
    before: Seq<FileView>,
    mid: Seq<FileView>,
    after: Seq<FileView>,
    n: usize,
    m: usize,
    id: Seq<char>,
)
    requires
        reindex_outcome(before, mid, Ok::<usize, StorageError>(n)),
        reindex_outcome(mid, after, Ok::<usize, StorageError>(m)),
    ensures
        session_in_archive(after, segments(after), id) == session_in_archive(
            mid,
            segments(mid),
            id,
        ),
{
    if no_comma(id) {
        law_reindex_restores_lookup(before, mid, n, id);
        law_reindex_restores_lookup(mid, after, m, id);
        law_reindex_keeps_sessions(before, mid, n);
    } else {
        lemma_reindexed_in_sync(before, mid, n);
        lemma_reindexed_in_sync(mid, after, m);
        lemma_comma_in_archive(mid, segments(mid), id);
        lemma_comma_in_archive(after, segments(after), id);
    }
}

/// Once records were archived in an empty store, a reindex counts all their
/// sessions, keeps the archive sound, and finds the oldest session of every
/// id; an id with a comma is left out. It fails only where there is nothing
/// to index, where the count does not fit, or where an entry cannot be
/// written.
pub proof fn law_reindex_of_archived(
    records: Seq<StoredView>,
    before: Seq<FileView>,
    after: Seq<FileView>,
    r: Result<usize, StorageError>,
    id: Seq<char>,
)
    requires
        archived_all(Seq::empty(), before, records),
        reindex_outcome(before, after, r),
        no_comma(id),
    ensures
        match r {
            Ok(n) => {
                &&& n == sessions_in(records).len()
                &&& sound(after)
                &&& contents(after) == sessions_in(records)
                &&& session_in_archive(after, segments(after), id) == Ok::<
                    Option<SessionView>,
                    StorageError,
                >(first_with_id(sessions_in(records), id))
            },
            Err(StorageError::DataFileNotFound) => records.len() == 0 && after == before,
            Err(StorageError::CounterOverflow) => sessions_in(records).len() > usize::MAX,
            Err(e) => e == StorageError::Compress || e == StorageError::BlockTooLarge,
        },
{
    let none = Seq::<FileView>::empty();
    law_empty_is_sound();
    law_append_all_extends_contents(none, before, records);
    assert(contents(none) + sessions_in(records) =~= sessions_in(records));
    lemma_sound_segments(before);
    let more = lemma_archived_blocks(none, before, records);
    match r {
        Ok(n) => {
            law_reindex_keeps_sessions(before, after, n);
            law_reindex_keeps_soundness(before, after, n);
            law_reindex_restores_lookup(before, after, n, id);
        },
        Err(e) => {
            let segs = segments(before);
            if segs.len() > 0 {
                let k = choose|k: int| #[trigger] reindex_stopped_at(before, segs, after, e, k);
                lemma_sound_total(before, segs, k + 1);
            } else {
                assert(archive_blocks(before, segs).len() == 0);
                assert(more.len() == 0);
            }
        },
    }
}

/// Sessions as records of their own.
pub open spec fn single_records(sessions: Seq<SessionView>) -> Seq<StoredView> {
    sessions.map_values(|s: SessionView| StoredView::V1(s))
}

proof fn lemma_single_records(sessions: Seq<SessionView>)
    ensures
        sessions_in(single_records(sessions)) == sessions,
    decreases sessions.len(),
{
    if sessions.len() > 0 {
        let front = sessions.drop_last();
        lemma_single_records(front);
        assert(single_records(sessions).drop_last() =~= single_records(front));
        assert(sessions =~= front + seq![sessions.last()]);
    } else {
        assert(sessions_in(single_records(sessions)) =~= sessions);
    }
}

/// Once sessions of different ids were appended to an empty store one by one,
/// a reindex that succeeds counts them, and each is found by its id as it was
/// written; an id with a comma is left out.
pub proof fn law_reindex_finds_each(
    sessions: Seq<SessionView>,
    before: Seq<FileView>,
    after: Seq<FileView>,
    n: usize,
    i: int,
)
    requires
        ids_distinct(sessions),
        archived_all(Seq::empty(), before, single_records(sessions)),
        reindex_outcome(before, after, Ok::<usize, StorageError>(n)),
        0 <= i < sessions.len(),
        no_comma(sessions[i].id),
    ensures
        n == sessions.len(),
        contents(after) == sessions,
        session_in_archive(after, segments(after), sessions[i].id) == Ok::<
            Option<SessionView>,
            StorageError,
        >(Some(sessions[i])),
{
    let id = sessions[i].id;
    lemma_single_records(sessions);
    law_reindex_of_archived(
        single_records(sessions),
        before,
        after,
        Ok::<usize, StorageError>(n),
        id,
    );
    lemma_first_with_id(sessions, id);
    assert(ids_of(sessions)[i] == id);
    let found = first_with_id(sessions, id)->0;
    let k = choose|k: int| 0 <= k < sessions.len() && sessions[k] == found;
    if k < i {
        assert(sessions[k].id != sessions[i].id);
    } else if i < k {
        assert(sessions[i].id != sessions[k].id);
    }
}

/// Going through a sound archive fails only where the count does not fit.
proof fn lemma_sound_total(files: Seq<FileView>, segs: Seq<u32>, k: int)
    requires
        sound(files),
        0 <= k <= segs.len(),
    ensures
        archive_sessions(files, segs.take(k)) is Ok,
        archive_sessions(files, segs) is Ok,
        archive_sessions(files, segs.take(k))->Ok_0.len() <= archive_sessions(
            files,
            segs,
        )->Ok_0.len(),
        match session_total(files, segs.take(k)) {
            Ok(n) => n == archive_sessions(files, segs.take(k))->Ok_0.len(),
            Err(e) => e == StorageError::CounterOverflow && archive_sessions(files, segs)->Ok_0.len()
                > usize::MAX,
        },
    decreases segs.len(),
{
    lemma_sound_scans(files, segs);
    lemma_sound_scans(files, segs.take(k));
    if k == segs.len() {
        assert(segs.take(k) =~= segs);
        if k > 0 {
            assert(in_sync(files, segs.last()));
            lemma_sound_total(files, segs.drop_last(), k - 1);
            assert(segs.drop_last().take(k - 1) =~= segs.drop_last());
        }
    } else {
        assert(in_sync(files, segs.last()));
        lemma_sound_total(files, segs.drop_last(), k);
        assert(segs.drop_last().take(k) =~= segs.take(k));
    }
}

/// After a reindex that succeeds, every segment can be searched by its index.
pub proof fn law_reindex_restores_search(
    before: Seq<FileView>,
    after: Seq<FileView>,
    n: usize,
    segment: u32,
)
    requires
        reindex_outcome(before, after, Ok::<usize, StorageError>(n)),
    ensures
        searchable(after, segment),
{
    lemma_reindexed_in_sync(before, after, n);
    assert(in_sync(after, segment));
}

pub proof fn lemma_chunk_blocks(blocks: Seq<BlockView>, chunks: Seq<Seq<SessionView>>)
    requires
        blocks.len() == chunks.len(),
        forall|i: int|
            0 <= i < blocks.len() ==> (#[trigger] blocks[i]).stored == chunk_record(chunks[i]),
    ensures
        sessions_of(blocks) == joined_chunks(chunks),
    decreases blocks.len(),
{
    if blocks.len() > 0 {
        let b = blocks.drop_last();
        let c = chunks.drop_last();
        assert forall|i: int| 0 <= i < b.len() implies (#[trigger] b[i]).stored == chunk_record(
            c[i],
        ) by {
            assert(b[i] == blocks[i]);
        }
        lemma_chunk_blocks(b, c);
        let last = chunks.last();
        assert(blocks[blocks.len() - 1].stored == chunk_record(last));
        assert(chunk_record(last).sessions() =~= last);
    } else {
        assert(sessions_of(blocks) =~= joined_chunks(chunks));
    }
}

/// Optimising a sound archive keeps it sound and keeps every session, in the
/// same order.
pub proof fn law_optimise_keeps_sessions(
    before: Seq<FileView>,
    target: nat,
    after: Seq<FileView>,
    counts: (usize, usize),
)
    requires
        sound(before),
        optimise_outcome(before, target, after, Ok::<(usize, usize), StorageError>(counts)),
    ensures
        sound(after),
        archive_sessions(after, segments(after)) == archive_sessions(before, segments(before)),
        archive_sessions(after, segments(after)) is Ok,
{
    let segment = active_segment(before);
    lemma_sound_scans(before, segments(before));
    match lookup(before, data_name(segment)) {
        None => {},
        Some(old_data) => {
            let old_blocks = segment_blocks(old_data, segment)->Ok_0;
            let sessions = sessions_of(old_blocks);
            let chunks = chunking(sessions, target)->Ok_0.finished();
            lemma_chunking_keeps_sessions(sessions, target);
            let (data, index) = choose|data: Seq<u8>, index: Seq<u8>|
                {
                    &&& #[trigger] holds_chunks(data, index, segment, chunks)
                    &&& after == written(
                        written(before, data_name(segment), data),
                        index_name(segment),
                        index,
                    )
                };
            let blocks = segment_blocks(data, segment)->Ok_0;
            lemma_chunk_blocks(blocks, chunks);
            lemma_pair_written_is_sound(before, segment, data, index);
            lemma_this_segment(before, segment, data, index);
            let segs = segments(before);
            lemma_same_sessions(before, after, segs, segment, data, index);
        },
    }
}

/// Replacing a segment's data by other data with the same sessions changes
/// nothing for a scan.
proof fn lemma_same_sessions(
    before: Seq<FileView>,
    after: Seq<FileView>,
    segs: Seq<u32>,
    segment: u32,
    data: Seq<u8>,
    index: Seq<u8>,
)
    requires
        after == written(
            written(before, data_name(segment), data),
            index_name(segment),
            index,
        ),
        lookup(before, data_name(segment)) is Some,
        segment_blocks(lookup(before, data_name(segment))->0, segment) is Ok,
        segment_blocks(data, segment) is Ok,
        sessions_of(segment_blocks(data, segment)->Ok_0) == sessions_of(
            segment_blocks(lookup(before, data_name(segment))->0, segment)->Ok_0,
        ),
    ensures
        archive_sessions(after, segs) == archive_sessions(before, segs),
    decreases segs.len(),
{
    if segs.len() > 0 {
        lemma_same_sessions(before, after, segs.drop_last(), segment, data, index);
        lemma_this_segment(before, segment, data, index);
        if segs.last() != segment {
            lemma_other_segments(before, segment, data, index, segs.last());
        }
    }
}

/// After an optimisation every id leads to the session that it led to before.
pub proof fn law_optimise_keeps_lookup(
    before: Seq<FileView>,
    target: nat,
    after: Seq<FileView>,
    counts: (usize, usize),
    id: Seq<char>,
)
    requires
        sound(before),
        optimise_outcome(before, target, after, Ok::<(usize, usize), StorageError>(counts)),
    ensures
        session_in_archive(after, segments(after), id) == session_in_archive(
            before,
            segments(before),
            id,
        ),
{
    law_optimise_keeps_sessions(before, target, after, counts);
    if no_comma(id) {
        law_lookup_finds_scanned(before, id);
        law_lookup_finds_scanned(after, id);
    } else {
        law_comma_is_never_found(before, id);
        law_comma_is_never_found(after, id);
    }
}

/// A flush of a sound archive puts the new sessions behind the others.
proof fn lemma_flushed(before: StorageView, mid: StorageView, n: usize)
    requires
        sound(before.files),
        flush_outcome(before, mid, Ok::<usize, StorageError>(n)),
    ensures
        sound(mid.files),
        contents(mid.files) == contents(before.files) + waiting(before),
        n == waiting(before).len(),
{
    lemma_sound_scans(before.files, segments(before.files));
    match before.pending {
        PendingView::Records(records) => {
            law_flush_extends_contents(before, records, mid, n);
            lemma_sound_segments(mid.files);
            law_flush_archives_the_new(before, records, mid, n);
        },
        _ => {
            assert(contents(before.files) + waiting(before) =~= contents(before.files));
        },
    }
}

/// The finalised sessions that wait for a flush and that the archive does not
/// hold.
pub open spec fn waiting(v: StorageView) -> Seq<SessionView> {
    match v.pending {
        PendingView::Records(records) => new_sessions(v.files, events_of(records)),
        _ => Seq::empty(),
    }
}

/// A flush of a sound store keeps it sound, puts every session that waited
/// and is new behind the others, and counts them.
pub proof fn law_flush_archives_the_waiting(before: StorageView, after: StorageView, n: usize)
    requires
        sound(before.files),
        flush_outcome(before, after, Ok::<usize, StorageError>(n)),
    ensures
        sound(after.files),
        contents(after.files) == contents(before.files) + waiting(before),
        n == waiting(before).len(),
{
    lemma_flushed(before, after, n);
}

/// A compaction of a sound store keeps it sound and keeps every session, in
/// the same order, with those that waited behind the others.
pub proof fn law_compact_keeps_sessions(
    before: StorageView,
    target: nat,
    after: StorageView,
    counts: (usize, usize),
)
    requires
        sound(before.files),
        compact_outcome(before, target, after, Ok::<(usize, usize), StorageError>(counts)),
    ensures
        sound(after.files),
        contents(after.files) == contents(before.files) + waiting(before),
{
    let (mid, flushed) = choose|mid: StorageView, flushed: Result<usize, StorageError>|
        {
            &&& #[trigger] flush_outcome(before, mid, flushed)
            &&& match flushed {
                Err(e) => after == mid && Ok::<(usize, usize), StorageError>(counts) == Err::<
                    (usize, usize),
                    StorageError,
                >(e),
                Ok(_) => after.pending == mid.pending && optimise_outcome(
                    mid.files,
                    target,
                    after.files,
                    Ok::<(usize, usize), StorageError>(counts),
                ),
            }
        };
    lemma_flushed(before, mid, flushed->Ok_0);
    law_optimise_keeps_sessions(mid.files, target, after.files, counts);
}

/// A rebuild of the index of a sound store keeps it sound and keeps every
/// session, with those that waited behind the others, and counts them all.
pub proof fn law_rebuild_keeps_sessions(before: StorageView, after: StorageView, n: usize)
    requires
        sound(before.files),
        rebuild_outcome(before, after, Ok::<usize, StorageError>(n)),
    ensures
        sound(after.files),
        contents(after.files) == contents(before.files) + waiting(before),
        n == contents(after.files).len(),
{
    let (mid, flushed) = choose|mid: StorageView, flushed: Result<usize, StorageError>|
        {
            &&& #[trigger] flush_outcome(before, mid, flushed)
            &&& match flushed {
                Err(e) => after == mid && Ok::<usize, StorageError>(n) == Err::<
                    usize,
                    StorageError,
                >(e),
                Ok(_) => {
                    &&& after.pending == mid.pending
                    &&& if segments(mid.files).len() == 0 {
                        n == 0 && after.files == mid.files
                    } else {
                        reindex_outcome(mid.files, after.files, Ok::<usize, StorageError>(n))
                    }
                },
            }
        };
    lemma_flushed(before, mid, flushed->Ok_0);
    if segments(mid.files).len() > 0 {
        law_reindex_keeps_sessions(mid.files, after.files, n);
        law_reindex_keeps_soundness(mid.files, after.files, n);
    }
}

} // verus!
