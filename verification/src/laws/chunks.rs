//! How sessions are put together into blocks when an archive is optimised,
//! and what that changes.
use vstd::prelude::*;
use crate::codec::{packed, stored_bytes};
use crate::laws::maintenance::lemma_chunk_blocks;
use crate::schema::SessionView;
use crate::storage::directory::{
    active_segment, data_name, index_name, lemma_index_name_is_no_data_name, lemma_lookup_written,
    lemma_segment_number_of_data_name, lookup, written, FileView,
};
use crate::storage::optimise::{
    chunk_record, chunking, holds_chunks, joined_chunks, lemma_chunking_keeps_sessions,
    optimise_outcome, rewritten, Chunking,
};
use crate::storage::segment::{segment_blocks, sessions_of};
use crate::storage::types::StorageError;

verus! {

/// A chunk is stored as one session where it is one, and as a block of its
/// sessions where it is not.
pub proof fn law_chunk_is_stored_whole(chunk: Seq<SessionView>)
    ensures
        chunk_record(chunk).sessions() == chunk,
        chunk.len() == 1 <==> chunk_record(chunk) is V1,
        chunk.len() != 1 <==> chunk_record(chunk) is Block,
{
    if chunk.len() == 1 {
        assert(chunk_record(chunk).sessions() =~= chunk);
    }
}

/// The chunk takes at least the target.
pub open spec fn reaches(chunk: Seq<SessionView>, target: nat) -> bool {
    &&& stored_bytes(chunk_record(chunk)).len() >= 2 * target
    &&& packed(chunk_record(chunk)) is Some
    &&& packed(chunk_record(chunk))->0.len() >= target
}

/// The chunk takes more than the target with one more session in it.
pub open spec fn has_no_room(chunk: Seq<SessionView>, s: SessionView, target: nat) -> bool {
    &&& stored_bytes(chunk_record(chunk.push(s))).len() >= 2 * target
    &&& packed(chunk_record(chunk.push(s))) is Some
    &&& packed(chunk_record(chunk.push(s)))->0.len() > target
}

spec fn closed_at(c: Chunking, i: int, target: nat) -> bool {
    ||| reaches(c.done[i], target)
    ||| i + 1 < c.done.len() && has_no_room(c.done[i], c.done[i + 1][0], target)
    ||| i + 1 == c.done.len() && c.open.len() > 0 && has_no_room(c.done[i], c.open[0], target)
}

spec fn goes_on(chunk: Seq<SessionView>, target: nat) -> bool {
    forall|k: int| 1 < k < chunk.len() ==> !reaches(#[trigger] chunk.take(k), target)
}

proof fn lemma_chunks_closed(sessions: Seq<SessionView>, target: nat)
    requires
        chunking(sessions, target) is Ok,
    ensures
        ({
            let c = chunking(sessions, target)->Ok_0;
            &&& forall|i: int| 0 <= i < c.done.len() ==> closed_at(c, i, target)
            &&& forall|i: int| 0 <= i < c.done.len() ==> (#[trigger] c.done[i]).len() > 0
            &&& forall|i: int| 0 <= i < c.done.len() ==> goes_on(#[trigger] c.done[i], target)
            &&& goes_on(c.open, target)
            &&& c.open.len() > 1 ==> !reaches(c.open, target)
        }),
    decreases sessions.len(),
{
    if sessions.len() > 0 {
        let front = sessions.drop_last();
        lemma_chunks_closed(front, target);
        let b = chunking(front, target)->Ok_0;
        let c = chunking(sessions, target)->Ok_0;
        let s = sessions.last();
        let chunk = b.open.push(s);
        assert(goes_on(chunk, target)) by {
            assert forall|k: int| 1 < k < chunk.len() implies !reaches(
                #[trigger] chunk.take(k),
                target,
            ) by {
                if k == b.open.len() {
                    assert(chunk.take(k) =~= b.open);
                } else {
                    assert(chunk.take(k) =~= b.open.take(k));
                }
            }
        }
        assert(b.open.len() > 0 ==> chunk[0] == b.open[0]);
        assert(b.open.len() == 0 ==> chunk =~= seq![s]);
        assert forall|i: int| 0 <= i < c.done.len() implies closed_at(c, i, target) by {
            if i < b.done.len() {
                assert(closed_at(b, i, target));
                assert(c.done[i] == b.done[i]);
                if i + 1 < b.done.len() {
                    assert(c.done[i + 1] == b.done[i + 1]);
                } else if c.done.len() > b.done.len() {
                    assert(c.done[i + 1] == chunk || c.done[i + 1] == b.open);
                }
            }
        }
        assert forall|i: int| 0 <= i < c.done.len() implies (#[trigger] c.done[i]).len() > 0 by {
            if i < b.done.len() {
                assert(c.done[i] == b.done[i]);
            }
        }
        assert forall|i: int| 0 <= i < c.done.len() implies goes_on(
            #[trigger] c.done[i],
            target,
        ) by {
            if i < b.done.len() {
                assert(c.done[i] == b.done[i]);
            }
        }
    }
}

/// Every chunk but the last is full: it takes the target, or would take more
/// than that with the next session in it.
pub proof fn law_chunks_are_full(sessions: Seq<SessionView>, target: nat, i: int)
    requires
        chunking(sessions, target) is Ok,
        0 <= i < chunking(sessions, target)->Ok_0.finished().len() - 1,
    ensures
        ({
            let chunks = chunking(sessions, target)->Ok_0.finished();
            &&& chunks[i + 1].len() > 0
            &&& reaches(chunks[i], target) || has_no_room(chunks[i], chunks[i + 1][0], target)
        }),
{
    lemma_chunks_closed(sessions, target);
    let c = chunking(sessions, target)->Ok_0;
    assert(closed_at(c, i, target));
    assert(c.finished()[i] == c.done[i]);
    if i + 1 < c.done.len() {
        assert(c.finished()[i + 1] == c.done[i + 1]);
    }
}

/// A chunk of two sessions or more takes no further one once it takes the
/// target.
pub proof fn law_full_chunks_are_closed(
    sessions: Seq<SessionView>,
    target: nat,
    i: int,
    k: int,
)
    requires
        chunking(sessions, target) is Ok,
        0 <= i < chunking(sessions, target)->Ok_0.finished().len(),
        1 < k < chunking(sessions, target)->Ok_0.finished()[i].len(),
    ensures
        !reaches(chunking(sessions, target)->Ok_0.finished()[i].take(k), target),
{
    lemma_chunks_closed(sessions, target);
    let c = chunking(sessions, target)->Ok_0;
    if i < c.done.len() {
        assert(c.finished()[i] == c.done[i]);
        assert(goes_on(c.done[i], target));
    }
}

/// Chunks put one behind the other are the sessions again, and none is empty.
pub proof fn law_chunks_keep_the_sessions(sessions: Seq<SessionView>, target: nat)
    requires
        chunking(sessions, target) is Ok,
    ensures
        joined_chunks(chunking(sessions, target)->Ok_0.finished()) == sessions,
        forall|i: int|
            0 <= i < chunking(sessions, target)->Ok_0.finished().len() ==> (
            #[trigger] chunking(sessions, target)->Ok_0.finished()[i]).len() > 0,
{
    lemma_chunking_keeps_sessions(sessions, target);
}

/// What is joined from chunks is each of them, one behind the other.
pub proof fn law_joined_chunks(a: Seq<Seq<SessionView>>, b: Seq<Seq<SessionView>>)
    ensures
        joined_chunks(a + b) == joined_chunks(a) + joined_chunks(b),
        a.len() == 1 ==> joined_chunks(a) == a[0],
        a.len() == 0 ==> joined_chunks(a).len() == 0,
    decreases b.len(),
{
    reveal_with_fuel(joined_chunks, 2);
    if a.len() == 1 {
        assert(joined_chunks(a) =~= a[0]);
    }
    if b.len() == 0 {
        assert(a + b =~= a);
        assert(joined_chunks(a + b) =~= joined_chunks(a) + joined_chunks(b));
    } else {
        law_joined_chunks(a, b.drop_last());
        assert((a + b).drop_last() =~= a + b.drop_last());
        assert((a + b).last() == b.last());
        assert(joined_chunks(a + b) =~= joined_chunks(a) + joined_chunks(b));
    }
}

/// What an optimisation reports is what the active data file then holds: so
/// many blocks, and so many sessions, the same as before and in their order.
pub proof fn law_optimise_reports_what_is_there(
    before: Seq<FileView>,
    target: nat,
    after: Seq<FileView>,
    blocks: usize,
    sessions: usize,
)
    requires
        optimise_outcome(before, target, after, Ok::<(usize, usize), StorageError>(
            (blocks, sessions),
        )),
    ensures
        ({
            let segment = active_segment(before);
            let old_data = lookup(before, data_name(segment));
            let data = lookup(after, data_name(segment));
            &&& old_data is None ==> after == before && blocks == 0 && sessions == 0
            &&& old_data is Some ==> {
                &&& data is Some
                &&& segment_blocks(old_data->0, segment) is Ok
                &&& segment_blocks(data->0, segment) is Ok
                &&& segment_blocks(data->0, segment)->Ok_0.len() == blocks
                &&& sessions_of(segment_blocks(data->0, segment)->Ok_0) == sessions_of(
                    segment_blocks(old_data->0, segment)->Ok_0,
                )
                &&& sessions_of(segment_blocks(data->0, segment)->Ok_0).len() == sessions
            }
        }),
{
    let segment = active_segment(before);
    match lookup(before, data_name(segment)) {
        None => {},
        Some(old_data) => {
            let old_sessions = sessions_of(segment_blocks(old_data, segment)->Ok_0);
            let chunks = chunking(old_sessions, target)->Ok_0.finished();
            lemma_chunking_keeps_sessions(old_sessions, target);
            let (data, index) = choose|data: Seq<u8>, index: Seq<u8>|
                {
                    &&& #[trigger] holds_chunks(data, index, segment, chunks)
                    &&& after == written(
                        written(before, data_name(segment), data),
                        index_name(segment),
                        index,
                    )
                };
            lemma_chunk_blocks(segment_blocks(data, segment)->Ok_0, chunks);
            lemma_names_apart(segment);
            lemma_lookup_written(before, data_name(segment), data, data_name(segment));
            lemma_lookup_written(
                written(before, data_name(segment), data),
                index_name(segment),
                index,
                data_name(segment),
            );
        },
    }
}

proof fn lemma_names_apart(segment: u32)
    ensures
        data_name(segment) != index_name(segment),
{
    lemma_segment_number_of_data_name(segment);
    lemma_index_name_is_no_data_name(segment);
}

/// An optimisation changes no file but the two of the active segment, and
/// none at all where it fails.
pub proof fn law_optimise_changes_the_active_segment(
    before: Seq<FileView>,
    target: nat,
    after: Seq<FileView>,
    r: Result<(usize, usize), StorageError>,
    name: Seq<char>,
)
    requires
        optimise_outcome(before, target, after, r),
    ensures
        r is Err ==> after == before,
        name != data_name(active_segment(before)) && name != index_name(active_segment(before))
            ==> lookup(after, name) == lookup(before, name),
{
    let segment = active_segment(before);
    match lookup(before, data_name(segment)) {
        None => {},
        Some(old_data) => {
            if r is Ok {
                let old_sessions = sessions_of(segment_blocks(old_data, segment)->Ok_0);
                let chunks = chunking(old_sessions, target)->Ok_0.finished();
                assert(rewritten(before, segment, chunks, after));
                let (data, index) = choose|data: Seq<u8>, index: Seq<u8>|
                    {
                        &&& #[trigger] holds_chunks(data, index, segment, chunks)
                        &&& after == written(
                            written(before, data_name(segment), data),
                            index_name(segment),
                            index,
                        )
                    };
                lemma_lookup_written(before, data_name(segment), data, name);
                lemma_lookup_written(
                    written(before, data_name(segment), data),
                    index_name(segment),
                    index,
                    name,
                );
            }
        },
    }
}

} // verus!
