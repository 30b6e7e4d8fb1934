//! Finding a session by its id agrees with scanning.
use vstd::prelude::*;
use crate::frames::{
    framed, lemma_clean_is_framed, lemma_payload_at_offset, lemma_payloads_short, payload_at,
    payloads,
};
use crate::index::entry_value;
use crate::laws::append::{contents, law_append_extends_contents, sound};
use crate::schema::{SessionView, StoredView};
use crate::storage::StorageView;
use crate::storage::blocks::ids_of;
use crate::storage::directory::{data_name, index_name, lookup, segments, FileView};
use crate::storage::lookup::{
    first_with_id, session_by_entries, session_by_entry, session_by_id, session_in_archive,
};
use crate::storage::scan::archive_sessions;
use crate::storage::segment::{lemma_blocks_in, segment_blocks, sessions_of};
use crate::storage::sync::{entry_for, in_sync, indexes};
use crate::storage::types::StorageError;
use crate::storage::writer::archived;
use crate::text::{lemma_joined_lists_id, lemma_pieces_nonempty, no_comma, pieces, Separator};

verus! {

/// The first of two lists has precedence.
pub proof fn lemma_first_with_id_concat(a: Seq<SessionView>, b: Seq<SessionView>, id: Seq<char>)
    ensures
        first_with_id(a + b, id) == match first_with_id(a, id) {
            Some(s) => Some(s),
            None => first_with_id(b, id),
        },
    decreases a.len(),
{
    if a.len() == 0 {
        assert(a + b =~= b);
    } else {
        assert((a + b)[0] == a[0]);
        if a[0].id != id {
            assert((a + b).skip(1) =~= a.skip(1) + b);
            lemma_first_with_id_concat(a.skip(1), b, id);
        }
    }
}

/// Where no session has the id, none is found; what is found has the id and
/// is one of the sessions.
pub proof fn lemma_first_with_id(s: Seq<SessionView>, id: Seq<char>)
    ensures
        first_with_id(s, id) is Some <==> ids_of(s).contains(id),
        first_with_id(s, id) is Some ==> first_with_id(s, id)->0.id == id && s.contains(
            first_with_id(s, id)->0,
        ),
    decreases s.len(),
{
    if s.len() > 0 {
        let rest = s.skip(1);
        if s[0].id == id {
            assert(ids_of(s)[0] == id);
            assert(s.contains(s[0]));
        } else {
            lemma_first_with_id(rest, id);
            if ids_of(rest).contains(id) {
                let i = choose|i: int| 0 <= i < rest.len() && ids_of(rest)[i] == id;
                assert(ids_of(s)[i + 1] == id);
                let k = choose|k: int|
                    0 <= k < rest.len() && rest[k] == first_with_id(rest, id)->0;
                assert(s[k + 1] == rest[k]);
            }
            if ids_of(s).contains(id) {
                let i = choose|i: int| 0 <= i < s.len() && ids_of(s)[i] == id;
                assert(s[i].id == id);
                assert(ids_of(rest)[i - 1] == id);
            }
        }
    }
}

/// A block's index entry leads to its sessions.
proof fn lemma_entry_leads_to_block(data: Seq<u8>, segment: u32, i: int, entry: Seq<u8>, id: Seq<char>)
    requires
        segment_blocks(data, segment) is Ok,
        0 <= i < segment_blocks(data, segment)->Ok_0.len(),
        entry_for(entry, segment_blocks(data, segment)->Ok_0[i]),
        no_comma(id),
    ensures
        session_by_entry(data, entry, id) == Ok::<Option<SessionView>, StorageError>(
            first_with_id(segment_blocks(data, segment)->Ok_0[i].stored.sessions(), id),
        ),
{
    let blocks = segment_blocks(data, segment)->Ok_0;
    let b = blocks[i];
    let rest = data.skip(8);
    let ps = payloads(rest);
    lemma_blocks_in(ps);
    lemma_payloads_short(rest);
    lemma_clean_is_framed(rest);
    lemma_payload_at_offset(data.take(8), ps, i, Seq::empty());
    assert(data.take(8) + framed(ps) + Seq::<u8>::empty() =~= data);
    assert(payload_at(data, b.offset) == Some(ps[i]));
    let sessions = b.stored.sessions();
    lemma_first_with_id(sessions, id);
    if ids_of(sessions).contains(id) {
        lemma_joined_lists_id(ids_of(sessions), id);
    }
}

proof fn lemma_entries_lead_to_blocks(
    data: Seq<u8>,
    segment: u32,
    index: Seq<u8>,
    n: int,
    id: Seq<char>,
)
    requires
        segment_blocks(data, segment) is Ok,
        indexes(index, segment_blocks(data, segment)->Ok_0),
        0 <= n <= payloads(index).len(),
        no_comma(id),
    ensures
        session_by_entries(data, payloads(index).take(n), id) == Ok::<
            Option<SessionView>,
            StorageError,
        >(first_with_id(sessions_of(segment_blocks(data, segment)->Ok_0.take(n)), id)),
    decreases n,
{
    let blocks = segment_blocks(data, segment)->Ok_0;
    let t = payloads(index).take(n);
    let b = blocks.take(n);
    if n > 0 {
        lemma_entries_lead_to_blocks(data, segment, index, n - 1, id);
        assert(t.drop_last() =~= payloads(index).take(n - 1));
        assert(b.drop_last() =~= blocks.take(n - 1));
        assert(entry_for(payloads(index)[n - 1], blocks[n - 1]));
        lemma_entry_leads_to_block(data, segment, n - 1, payloads(index)[n - 1], id);
        lemma_first_with_id_concat(
            sessions_of(blocks.take(n - 1)),
            blocks[n - 1].stored.sessions(),
            id,
        );
    }
}

/// One more segment whose two files agree.
proof fn lemma_lookup_step(files: Seq<FileView>, segs: Seq<u32>, id: Seq<char>)
    requires
        segs.len() > 0,
        in_sync(files, segs.last()),
        no_comma(id),
        archive_sessions(files, segs.drop_last()) is Ok,
        session_in_archive(files, segs.drop_last(), id) == Ok::<Option<SessionView>, StorageError>(
            first_with_id(archive_sessions(files, segs.drop_last())->Ok_0, id),
        ),
    ensures
        archive_sessions(files, segs) is Ok,
        session_in_archive(files, segs, id) == Ok::<Option<SessionView>, StorageError>(
            first_with_id(archive_sessions(files, segs)->Ok_0, id),
        ),
{
    let s = segs.last();
    match lookup(files, data_name(s)) {
        None => {},
        Some(data) => {
            let index = lookup(files, index_name(s))->0;
            let blocks = segment_blocks(data, s)->Ok_0;
            lemma_entries_lead_to_blocks(data, s, index, payloads(index).len() as int, id);
            assert(payloads(index).take(payloads(index).len() as int) =~= payloads(index));
            assert(blocks.take(blocks.len() as int) =~= blocks);
            lemma_first_with_id_concat(
                archive_sessions(files, segs.drop_last())->Ok_0,
                sessions_of(blocks),
                id,
            );
        },
    }
}

/// Where the two files of every listed segment agree, looking an id up gives
/// the oldest session of that id.
pub proof fn lemma_lookup_agrees(files: Seq<FileView>, segs: Seq<u32>, id: Seq<char>)
    requires
        forall|k: int| 0 <= k < segs.len() ==> in_sync(files, #[trigger] segs[k]),
        no_comma(id),
    ensures
        archive_sessions(files, segs) is Ok,
        session_in_archive(files, segs, id) == Ok::<Option<SessionView>, StorageError>(
            first_with_id(archive_sessions(files, segs)->Ok_0, id),
        ),
    decreases segs.len(),
{
    if segs.len() > 0 {
        let front = segs.drop_last();
        assert forall|k: int| 0 <= k < front.len() implies in_sync(files, #[trigger] front[k]) by {
            assert(front[k] == segs[k]);
        }
        lemma_lookup_agrees(files, front, id);
        assert(in_sync(files, segs[segs.len() - 1]));
        lemma_lookup_step(files, segs, id);
    }
}

/// In a sound archive, looking an id up gives the oldest session of that id,
/// unless the id holds a comma.
pub proof fn law_lookup_finds_scanned(files: Seq<FileView>, id: Seq<char>)
    requires
        sound(files),
        no_comma(id),
    ensures
        session_in_archive(files, segments(files), id) == Ok::<Option<SessionView>, StorageError>(
            first_with_id(contents(files), id),
        ),
{
    lemma_lookup_agrees(files, segments(files), id);
}

/// No part of a joined list holds a comma.
proof fn lemma_no_comma_in_parts(list: Seq<char>, k: int)
    requires
        0 <= k < pieces(list, Separator::Comma).len(),
    ensures
        no_comma(pieces(list, Separator::Comma)[k]),
    decreases list.len(),
{
    if list.len() > 0 {
        lemma_pieces_nonempty(list.drop_last(), Separator::Comma);
        if k < pieces(list.drop_last(), Separator::Comma).len() {
            lemma_no_comma_in_parts(list.drop_last(), k);
        }
    }
}

proof fn lemma_comma_in_entries(data: Seq<u8>, entries: Seq<Seq<u8>>, id: Seq<char>)
    requires
        forall|i: int| 0 <= i < entries.len() ==> entry_value(#[trigger] entries[i]) is Ok,
        !no_comma(id),
    ensures
        session_by_entries(data, entries, id) == Ok::<Option<SessionView>, StorageError>(None),
    decreases entries.len(),
{
    if entries.len() > 0 {
        let front = entries.drop_last();
        assert forall|i: int| 0 <= i < front.len() implies entry_value(#[trigger] front[i])
            is Ok by {
            assert(front[i] == entries[i]);
        }
        lemma_comma_in_entries(data, front, id);
        assert(entry_value(entries[entries.len() - 1]) is Ok);
        let list = entry_value(entries.last())->Ok_0.session_id;
        let parts = pieces(list, Separator::Comma);
        if parts.contains(id) {
            let k = choose|k: int| 0 <= k < parts.len() && parts[k] == id;
            lemma_no_comma_in_parts(list, k);
        }
    }
}

pub proof fn lemma_comma_in_archive(files: Seq<FileView>, segs: Seq<u32>, id: Seq<char>)
    requires
        forall|n: u32| in_sync(files, n),
        !no_comma(id),
    ensures
        session_in_archive(files, segs, id) == Ok::<Option<SessionView>, StorageError>(None),
    decreases segs.len(),
{
    if segs.len() > 0 {
        lemma_comma_in_archive(files, segs.drop_last(), id);
        assert(in_sync(files, segs.last()));
        if lookup(files, data_name(segs.last())) is Some {
            let data = lookup(files, data_name(segs.last()))->0;
            let index = lookup(files, index_name(segs.last()))->0;
            let entries = payloads(index);
            assert forall|i: int| 0 <= i < entries.len() implies entry_value(
                #[trigger] entries[i],
            ) is Ok by {
                assert(entry_for(entries[i], segment_blocks(data, segs.last())->Ok_0[i]));
            }
            lemma_comma_in_entries(data, entries, id);
        }
    }
}

/// In a sound archive an id with a comma is never found: the comma parts it
/// from itself.
pub proof fn law_comma_is_never_found(files: Seq<FileView>, id: Seq<char>)
    requires
        sound(files),
        !no_comma(id),
    ensures
        session_in_archive(files, segments(files), id) == Ok::<Option<SessionView>, StorageError>(
            None,
        ),
{
    lemma_comma_in_archive(files, segments(files), id);
}

/// What was appended can be looked up, and what could be looked up before
/// still can: an id that the archive held leads to the same session, and a
/// new one to the first session of the record that has it.
pub proof fn law_lookup_after_append(
    before: Seq<FileView>,
    after: Seq<FileView>,
    v: StoredView,
    max_size: u64,
    id: Seq<char>,
)
    requires
        sound(before),
        archived(before, after, v, max_size),
        no_comma(id),
    ensures
        session_in_archive(after, segments(after), id) == match session_in_archive(
            before,
            segments(before),
            id,
        ) {
            Ok(None) => Ok::<Option<SessionView>, StorageError>(first_with_id(v.sessions(), id)),
            found => found,
        },
{
    law_append_extends_contents(before, after, v, max_size);
    law_lookup_finds_scanned(before, id);
    law_lookup_finds_scanned(after, id);
    lemma_first_with_id_concat(contents(before), v.sessions(), id);
}

/// A session whose id is new is found under its id once it was appended.
pub proof fn law_appended_session_is_found(
    before: Seq<FileView>,
    after: Seq<FileView>,
    s: SessionView,
    max_size: u64,
)
    requires
        sound(before),
        archived(before, after, StoredView::V1(s), max_size),
        no_comma(s.id),
        session_in_archive(before, segments(before), s.id) == Ok::<
            Option<SessionView>,
            StorageError,
        >(None),
    ensures
        session_in_archive(after, segments(after), s.id) == Ok::<
            Option<SessionView>,
            StorageError,
        >(Some(s)),
{
    law_lookup_after_append(before, after, StoredView::V1(s), max_size, s.id);
    assert(StoredView::V1(s).sessions()[0] == s);
}

/// Of several sessions of an id, the first one is meant.
pub proof fn law_first_one_is_meant(sessions: Seq<SessionView>, id: Seq<char>, k: int)
    requires
        0 <= k < sessions.len(),
        sessions[k].id == id,
        forall|i: int| 0 <= i < k ==> (#[trigger] sessions[i]).id != id,
    ensures
        first_with_id(sessions, id) == Some(sessions[k]),
    decreases k,
{
    if k > 0 {
        let rest = sessions.skip(1);
        assert(sessions[0].id != id);
        assert forall|i: int| 0 <= i < k - 1 implies (#[trigger] rest[i]).id != id by {
            assert(rest[i] == sessions[i + 1]);
        }
        law_first_one_is_meant(rest, id, k - 1);
    }
}

/// Where no session has the id, none is meant.
pub proof fn law_no_other_is_meant(sessions: Seq<SessionView>, id: Seq<char>)
    requires
        forall|i: int| 0 <= i < sessions.len() ==> (#[trigger] sessions[i]).id != id,
    ensures
        first_with_id(sessions, id) is None,
{
    lemma_first_with_id(sessions, id);
    if first_with_id(sessions, id) is Some {
        let s = first_with_id(sessions, id)->0;
        let k = choose|k: int| 0 <= k < sessions.len() && sessions[k] == s;
        assert(sessions[k].id != id);
    }
}

/// A session that waits in the pending log is found by its id, whatever the
/// archive holds.
pub proof fn law_pending_session_is_found(v: StorageView, k: int)
    requires
        0 <= k < v.pending.readable().len(),
        forall|i: int|
            0 <= i < k ==> (#[trigger] v.pending.readable()[i]).id != v.pending.readable()[k].id,
    ensures
        session_by_id(v, v.pending.readable()[k].id) == Ok::<Option<SessionView>, StorageError>(
            Some(v.pending.readable()[k]),
        ),
{
    law_first_one_is_meant(v.pending.readable(), v.pending.readable()[k].id, k);
}

/// An id that no session has, neither a waiting one nor one of a sound
/// archive, leads to none.
pub proof fn law_unknown_id_leads_nowhere(v: StorageView, id: Seq<char>)
    requires
        forall|n: u32| in_sync(v.files, n),
        forall|i: int|
            0 <= i < v.pending.readable().len() ==> (#[trigger] v.pending.readable()[i]).id != id,
        forall|i: int|
            0 <= i < contents(v.files).len() ==> (#[trigger] contents(v.files)[i]).id != id,
    ensures
        session_by_id(v, id) == Ok::<Option<SessionView>, StorageError>(None),
{
    law_no_other_is_meant(v.pending.readable(), id);
    if no_comma(id) {
        lemma_lookup_agrees(v.files, segments(v.files), id);
        law_no_other_is_meant(contents(v.files), id);
    } else {
        lemma_comma_in_archive(v.files, segments(v.files), id);
    }
}

/// An archived session of an id that nothing waits under is found, the oldest
/// one where there are several; an id with a comma is left out.
pub proof fn law_archived_session_is_found(v: StorageView, k: int)
    requires
        forall|n: u32| in_sync(v.files, n),
        0 <= k < contents(v.files).len(),
        no_comma(contents(v.files)[k].id),
        forall|i: int|
            0 <= i < k ==> (#[trigger] contents(v.files)[i]).id != contents(v.files)[k].id,
        forall|i: int|
            0 <= i < v.pending.readable().len() ==> (#[trigger] v.pending.readable()[i]).id
                != contents(v.files)[k].id,
    ensures
        session_by_id(v, contents(v.files)[k].id) == Ok::<Option<SessionView>, StorageError>(
            Some(contents(v.files)[k]),
        ),
{
    let id = contents(v.files)[k].id;
    law_no_other_is_meant(v.pending.readable(), id);
    lemma_lookup_agrees(v.files, segments(v.files), id);
    law_first_one_is_meant(contents(v.files), id, k);
}

} // verus!
