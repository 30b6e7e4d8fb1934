//! A session that was added is there: it waits, or it is archived.
use vstd::prelude::*;
use crate::laws::append::{contents, sound};
use crate::laws::flush::{law_flush_leaves_nothing_finalised, law_pending_sessions_are_found};
use crate::laws::lookup::law_first_one_is_meant;
use crate::laws::maintenance::law_flush_archives_the_waiting;
use crate::laws::pending::{draft_of_session, law_pending_gives_back, lemma_completed_ids, restored};
use crate::laws::rules::{law_events_keep_their_bytes, law_log_grows_at_its_end};
use crate::schema::{EventView, SessionView};
use crate::storage::StorageView;
use crate::storage::flush::{add_outcome, flush_outcome, log_with, records_from};
use crate::storage::lookup::{law_found_session_has_the_id, session_by_id};
use crate::storage::pending::{
    completed, distinct_ids, drafts, events_of, finalized, has_draft, lemma_distinct_ids_contains,
    lemma_drafts_distinct, pending_sessions, session_events, PendingView, RecordView,
};
use crate::storage::types::StorageError;
use crate::text::no_comma;

verus! {

/// The records of a log that can be read.
pub open spec fn logged(v: PendingView) -> Seq<RecordView> {
    match v {
        PendingView::Records(records) => records,
        _ => Seq::empty(),
    }
}

/// A session has no events in a log yet.
pub open spec fn is_new(v: PendingView, id: Seq<char>) -> bool {
    forall|i: int|
        0 <= i < logged(v).len() ==> (#[trigger] logged(v)[i]).event.session_id() != id
}

proof fn lemma_no_draft(events: Seq<EventView>, id: Seq<char>)
    requires
        forall|i: int| 0 <= i < events.len() ==> (#[trigger] events[i]).session_id() != id,
    ensures
        !has_draft(drafts(events), id),
    decreases events.len(),
{
    if events.len() > 0 {
        let rest = events.drop_last();
        let front = drafts(rest);
        let all = drafts(events);
        assert forall|i: int| 0 <= i < rest.len() implies (#[trigger] rest[i]).session_id() != id
            by {
            assert(events[i].session_id() != id);
        }
        lemma_no_draft(rest, id);
        assert(events[events.len() - 1].session_id() != id);
        if has_draft(all, id) {
            let k = choose|k: int| 0 <= k < all.len() && (#[trigger] all[k]).id == id;
            if k < front.len() {
                assert(front[k].id == all[k].id);
            }
        }
    }
}

proof fn lemma_added(before: StorageView, s: SessionView, payloads: Seq<Seq<u8>>) -> (events: Seq<
    EventView,
>)
    requires
        !(before.pending is Unreadable),
        is_new(before.pending, s.id),
        payloads.len() == s.messages.len() + 2,
    ensures
        events == events_of(logged(before.pending)),
        !has_draft(drafts(events), s.id),
        ({
            let more = records_from(session_events(s), payloads);
            let log = log_with(before.pending, more);
            &&& log is Records
            &&& events_of(log->Records_0) == events + session_events(s)
        }),
        before.pending.readable() == pending_sessions(events),
{
    let more = records_from(session_events(s), payloads);
    let old_log = logged(before.pending);
    let events = events_of(old_log);
    assert(session_events(s).len() == s.messages.len() + 2);
    law_events_keep_their_bytes(session_events(s), payloads);
    law_log_grows_at_its_end(before.pending, more);
    if before.pending is Absent {
        assert(events =~= Seq::<EventView>::empty());
        assert(events + session_events(s) =~= session_events(s));
        assert(pending_sessions(events) =~= Seq::<SessionView>::empty()) by {
            lemma_completed_ids(events);
        }
        assert(before.pending.readable() =~= Seq::<SessionView>::empty());
    }
    assert forall|i: int| 0 <= i < events.len() implies (#[trigger] events[i]).session_id() != s.id
        by {
        assert(old_log[i].event.session_id() != s.id);
    }
    lemma_no_draft(events, s.id);
    events
}

/// A session that was added waits behind those that waited, as it was given,
/// and is found by its id, as long as the log is not over its limit of 262144
/// bytes.
pub proof fn law_added_session_waits(
    before: StorageView,
    s: SessionView,
    payloads: Seq<Seq<u8>>,
    after: StorageView,
    r: Result<(), StorageError>,
)
    requires
        !(before.pending is Unreadable),
        is_new(before.pending, s.id),
        payloads.len() == s.messages.len() + 2,
        add_outcome(before, s, payloads, after, r),
        log_with(before.pending, records_from(session_events(s), payloads)).size() <= 262144,
    ensures
        r is Ok,
        after.files == before.files,
        after.pending.readable() == before.pending.readable().push(restored(s)),
        session_by_id(after, s.id) == Ok::<Option<SessionView>, StorageError>(Some(restored(s))),
{
    let events = lemma_added(before, s, payloads);
    law_pending_gives_back(events, s);
    let all = after.pending.readable();
    let n = before.pending.readable().len() as int;
    assert(all == pending_sessions(events + session_events(s)));
    lemma_completed_ids(events);
    assert forall|j: int| 0 <= j < n implies (#[trigger] all[j]).id != s.id by {
        lemma_drafts_distinct(events);
        let ids = finalized(events);
        let id = distinct_ids(ids)[j];
        assert(all[j] == pending_sessions(events)[j]);
        assert(completed(events)[j].id == id);
        assert(distinct_ids(ids).contains(id));
        lemma_distinct_ids_contains(ids, id);
        let f = choose|f: int| 0 <= f < ids.len() && ids[f] == id;
        assert(has_draft(drafts(events), ids[f]));
    }
    assert(all[n].id == s.id);
    law_first_one_is_meant(all, s.id, n);
}

/// A log that goes over its limit is archived at once: nothing finished waits
/// any more, and the session that was added is found in the archive.
pub proof fn law_added_session_is_archived(
    before: StorageView,
    s: SessionView,
    payloads: Seq<Seq<u8>>,
    after: StorageView,
)
    requires
        sound(before.files),
        !(before.pending is Unreadable),
        is_new(before.pending, s.id),
        no_comma(s.id),
        payloads.len() == s.messages.len() + 2,
        add_outcome(before, s, payloads, after, Ok::<(), StorageError>(())),
        log_with(before.pending, records_from(session_events(s), payloads)).size() > 262144,
    ensures
        sound(after.files),
        contents(before.files).is_prefix_of(contents(after.files)),
        after.pending.readable().len() == 0,
        session_by_id(after, s.id) is Ok,
        session_by_id(after, s.id)->Ok_0 is Some,
        session_by_id(after, s.id)->Ok_0->0.id == s.id,
{
    let events = lemma_added(before, s, payloads);
    law_pending_gives_back(events, s);
    let more = records_from(session_events(s), payloads);
    let mid = StorageView { files: before.files, pending: log_with(before.pending, more) };
    let n = choose|n: usize| #[trigger] flush_outcome(mid, after, Ok::<usize, StorageError>(n));
    let log = mid.pending->Records_0;
    let done = completed(events_of(log));
    let k = done.len() - 1;
    assert(done[k] == draft_of_session(s));
    law_pending_sessions_are_found(mid, log, after, n, k);
    law_flush_leaves_nothing_finalised(mid, after, n);
    law_flush_archives_the_waiting(mid, after, n);
    law_found_session_has_the_id(after, s.id);
    assert(contents(before.files) =~= contents(after.files).subrange(
        0,
        contents(before.files).len() as int,
    ));
}

} // verus!
