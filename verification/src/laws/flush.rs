//! Flushing the pending log: finalised sessions are archived once, the others
//! stay, and a second flush changes nothing.
use vstd::prelude::*;
use crate::laws::append::{
    contents, law_append_extends_contents, law_append_extends_readable, lemma_sound_scans,
    listed_once, sound,
};
use crate::laws::lookup::{
    law_lookup_after_append, law_lookup_finds_scanned, lemma_comma_in_archive, lemma_first_with_id,
    lemma_lookup_agrees,
};
use crate::laws::pending::{
    law_pending_ids_are_distinct, lemma_completed_ids, lemma_filter_keeps_ids_distinct,
    lemma_filter_step,
};
use crate::laws::search::{ids_distinct, law_scan_is_complete, lemma_append_new};
use crate::schema::{EventView, SessionView, StoredView};
use crate::storage::StorageView;
use crate::storage::blocks::ids_of;
use crate::storage::constants::MAX_FILE_SIZE;
use crate::storage::directory::{segments, FileView};
use crate::storage::flush::{flush_outcome, unarchived, unfinished};
use crate::storage::lookup::{first_with_id, session_in_archive};
use crate::storage::pending::{
    completed, distinct_ids, drafts, events_of, finalized, has_draft, pending_session,
    pending_sessions, DraftView, PendingView, RecordView,
};
use crate::storage::scan::{append_new, archive_sessions, has_id, scanned};
use crate::storage::sync::in_sync;
use crate::storage::types::StorageError;
use crate::text::no_comma;

verus! {

/// The events of sessions that are not among the ids.
pub open spec fn others(events: Seq<EventView>, ids: Seq<Seq<char>>) -> Seq<EventView> {
    events.filter(|e: EventView| !ids.contains(e.session_id()))
}

proof fn lemma_events_of_unfinished(records: Seq<RecordView>, ids: Seq<Seq<char>>)
    ensures
        events_of(unfinished(records, ids)) == others(events_of(records), ids),
    decreases records.len(),
{
    reveal(Seq::filter);
    let p = |r: RecordView| !ids.contains(r.event.session_id());
    let q = |e: EventView| !ids.contains(e.session_id());
    if records.len() == 0 {
        assert(events_of(unfinished(records, ids)) =~= others(events_of(records), ids));
    } else {
        let front = records.drop_last();
        let x = records.last();
        lemma_events_of_unfinished(front, ids);
        assert(records =~= front.push(x));
        assert(events_of(records) =~= events_of(front).push(x.event));
        lemma_filter_step(front, x, p);
        lemma_filter_step(events_of(front), x.event, q);
        assert(events_of(unfinished(front, ids).push(x)) =~= events_of(
            unfinished(front, ids),
        ).push(x.event));
    }
}

proof fn lemma_draft_ids(events: Seq<EventView>, id: Seq<char>)
    requires
        events.len() > 0,
    ensures
        has_draft(drafts(events), id) == (has_draft(drafts(events.drop_last()), id) || (
        events.last() is SessionStart && events.last().session_id() == id)),
{
    let front = drafts(events.drop_last());
    let all = drafts(events);
    if has_draft(front, id) {
        let i = choose|i: int| 0 <= i < front.len() && (#[trigger] front[i]).id == id;
        assert(all[i].id == id);
    }
    if has_draft(all, id) {
        let i = choose|i: int| 0 <= i < all.len() && (#[trigger] all[i]).id == id;
        if i < front.len() {
            assert(front[i].id == id);
        }
    }
    if events.last() is SessionStart && events.last().session_id() == id && !has_draft(front, id) {
        assert(all[front.len() as int].id == id);
    }
}

/// Once the finalised sessions are taken out, no session is finalised, and
/// the others are started as before.
proof fn lemma_others(events: Seq<EventView>, ids: Seq<Seq<char>>)
    requires
        forall|k: int| 0 <= k < finalized(events).len() ==> ids.contains(
            #[trigger] finalized(events)[k],
        ),
    ensures
        finalized(others(events, ids)) == Seq::<Seq<char>>::empty(),
        forall|id: Seq<char>|
            !ids.contains(id) ==> #[trigger] has_draft(drafts(others(events, ids)), id)
                == has_draft(drafts(events), id),
    decreases events.len(),
{
    reveal(Seq::filter);
    let q = |e: EventView| !ids.contains(e.session_id());
    if events.len() > 0 {
        let front = events.drop_last();
        let e = events.last();
        assert forall|k: int| 0 <= k < finalized(front).len() implies ids.contains(
            #[trigger] finalized(front)[k],
        ) by {
            assert(finalized(events)[k] == finalized(front)[k]);
        }
        lemma_others(front, ids);
        assert(events =~= front.push(e));
        lemma_filter_step(front, e, q);
        let rest = others(front, ids);
        if q(e) {
            assert(rest.push(e).drop_last() =~= rest);
            assert(rest.push(e).last() == e);
            if e is Finalize && has_draft(drafts(rest), e.session_id()) {
                assert(has_draft(drafts(front), e.session_id()));
                assert(finalized(events)[finalized(front).len() as int] == e.session_id());
            }
            assert(finalized(others(events, ids)) == finalized(rest));
        }
        assert forall|id: Seq<char>| !ids.contains(id) implies #[trigger] has_draft(
            drafts(others(events, ids)),
            id,
        ) == has_draft(drafts(events), id) by {
            lemma_draft_ids(events, id);
            assert(has_draft(drafts(rest), id) == has_draft(drafts(front), id));
            if q(e) {
                lemma_draft_ids(rest.push(e), id);
            }
        }
    }
}

/// Flushing twice is flushing once: the second flush archives nothing and
/// changes nothing.
pub proof fn law_flush_is_idempotent(
    before: StorageView,
    mid: StorageView,
    after: StorageView,
    first: usize,
    second: Result<usize, StorageError>,
)
    requires
        flush_outcome(before, mid, Ok::<usize, StorageError>(first)),
        flush_outcome(mid, after, second),
    ensures
        second == Ok::<usize, StorageError>(0),
        after == mid,
{
    match before.pending {
        PendingView::Records(records) => {
            let events = events_of(records);
            let fin = finalized(events);
            let kept = unfinished(records, fin);
            lemma_events_of_unfinished(records, fin);
            lemma_others(events, fin);
            assert(events_of(kept) == others(events, fin));
            assert(finalized(events_of(kept)) =~= Seq::<Seq<char>>::empty());
            assert(completed(events_of(kept)) =~= Seq::<DraftView>::empty());
            lemma_nothing_unfinished(kept);
            assert(unarchived(mid.files, completed(events_of(kept))) == Ok::<
                Seq<SessionView>,
                StorageError,
            >(Seq::empty()));
            assert(after.pending == mid.pending);
        },
        _ => {},
    }
}

proof fn lemma_nothing_unfinished(records: Seq<RecordView>)
    ensures
        unfinished(records, Seq::empty()) == records,
    decreases records.len(),
{
    reveal(Seq::filter);
    let p = |r: RecordView| !Seq::<Seq<char>>::empty().contains(r.event.session_id());
    if records.len() > 0 {
        let front = records.drop_last();
        let x = records.last();
        lemma_nothing_unfinished(front);
        assert(records =~= front.push(x));
        lemma_filter_step(front, x, p);
    } else {
        assert(unfinished(records, Seq::empty()) =~= records);
    }
}

/// A flush keeps every event of a session that is not finalised, and no other.
pub proof fn law_flush_keeps_unfinished(
    before: StorageView,
    records: Seq<RecordView>,
    after: StorageView,
    n: usize,
    r: RecordView,
)
    requires
        before.pending == PendingView::Records(records),
        flush_outcome(before, after, Ok::<usize, StorageError>(n)),
    ensures
        after.pending is Records,
        after.pending->Records_0.contains(r) <==> records.contains(r) && !finalized(
            events_of(records),
        ).contains(r.event.session_id()),
{
    let fin = finalized(events_of(records));
    let p = |r: RecordView| !fin.contains(r.event.session_id());
    let f = records.filter(p);
    if f.contains(r) {
        records.lemma_filter_contains_rev(p, r);
        let i = choose|i: int| 0 <= i < f.len() && f[i] == r;
        records.lemma_filter_pred(p, i);
    }
    if records.contains(r) && p(r) {
        let i = choose|i: int| 0 <= i < records.len() && records[i] == r;
        records.lemma_filter_contains(p, i);
    }
}

/// The sessions that a flush writes are those of the drafts whose id the
/// archive does not hold.
proof fn lemma_unarchived(files: Seq<FileView>, done: Seq<DraftView>, k: int)
    requires
        unarchived(files, done) is Ok,
        0 <= k < done.len(),
    ensures
        session_in_archive(files, segments(files), done[k].id) is Ok,
        session_in_archive(files, segments(files), done[k].id)->Ok_0 is None ==> unarchived(
            files,
            done,
        )->Ok_0.contains(pending_session(done[k])),
    decreases done.len(),
{
    let front = done.drop_last();
    let less = unarchived(files, front)->Ok_0;
    let all = unarchived(files, done)->Ok_0;
    if k < front.len() {
        assert(front[k] == done[k]);
        lemma_unarchived(files, front, k);
        if less.contains(pending_session(done[k])) {
            let i = choose|i: int| 0 <= i < less.len() && less[i] == pending_session(done[k]);
            assert(all[i] == less[i]);
        }
    } else {
        if session_in_archive(files, segments(files), done[k].id)->Ok_0 is None {
            assert(all[less.len() as int] == pending_session(done[k]));
        }
    }
}

/// Sessions that are written come from drafts, in order.
proof fn lemma_unarchived_ids(files: Seq<FileView>, done: Seq<DraftView>, k: int)
    requires
        unarchived(files, done) is Ok,
        0 <= k < unarchived(files, done)->Ok_0.len(),
    ensures
        exists|i: int|
            0 <= i < done.len() && unarchived(files, done)->Ok_0[k] == pending_session(
                #[trigger] done[i],
            ),
    decreases done.len(),
{
    if done.len() > 0 {
        let front = done.drop_last();
        let less = unarchived(files, front)->Ok_0;
        if k < less.len() {
            lemma_unarchived_ids(files, front, k);
            let i = choose|i: int|
                0 <= i < front.len() && less[k] == pending_session(#[trigger] front[i]);
            assert(done[i] == front[i]);
        } else {
            assert(unarchived(files, done)->Ok_0[k] == pending_session(done[done.len() - 1]));
        }
    }
}

/// A draft that is written has an id that the archive does not hold.
proof fn lemma_unarchived_are_new(files: Seq<FileView>, done: Seq<DraftView>, k: int)
    requires
        unarchived(files, done) is Ok,
        0 <= k < unarchived(files, done)->Ok_0.len(),
    ensures
        session_in_archive(files, segments(files), unarchived(files, done)->Ok_0[k].id) == Ok::<
            Option<SessionView>,
            StorageError,
        >(None),
    decreases done.len(),
{
    if done.len() > 0 {
        let front = done.drop_last();
        let less = unarchived(files, front)->Ok_0;
        if k < less.len() {
            lemma_unarchived_are_new(files, front, k);
        }
    }
}

/// A flush writes no session whose id the archive already holds; an id with a
/// comma is left out.
pub proof fn law_flush_adds_no_duplicates(
    before: StorageView,
    records: Seq<RecordView>,
    k: int,
)
    requires
        sound(before.files),
        before.pending == PendingView::Records(records),
        unarchived(before.files, completed(events_of(records))) is Ok,
        0 <= k < unarchived(before.files, completed(events_of(records)))->Ok_0.len(),
        no_comma(unarchived(before.files, completed(events_of(records)))->Ok_0[k].id),
    ensures
        !has_id(
            contents(before.files),
            unarchived(before.files, completed(events_of(records)))->Ok_0[k].id,
        ),
{
    let done = completed(events_of(records));
    let s = unarchived(before.files, done)->Ok_0[k];
    let all = contents(before.files);
    lemma_unarchived_are_new(before.files, done, k);
    law_lookup_finds_scanned(before.files, s.id);
    lemma_first_with_id(all, s.id);
    if has_id(all, s.id) {
        let i = choose|i: int| 0 <= i < all.len() && (#[trigger] all[i]).id == s.id;
        assert(ids_of(all)[i] == s.id);
    }
}

/// A flush of a sound archive keeps it sound, and the archive afterwards
/// holds what it held before and then the sessions that were written.
pub proof fn law_flush_extends_contents(
    before: StorageView,
    records: Seq<RecordView>,
    after: StorageView,
    n: usize,
)
    requires
        sound(before.files),
        before.pending == PendingView::Records(records),
        flush_outcome(before, after, Ok::<usize, StorageError>(n)),
    ensures
        sound(after.files),
        unarchived(before.files, completed(events_of(records))) is Ok,
        archive_sessions(after.files, segments(after.files)) == Ok::<
            Seq<SessionView>,
            StorageError,
        >(
            contents(before.files) + unarchived(
                before.files,
                completed(events_of(records)),
            )->Ok_0,
        ),
{
    let fresh = unarchived(before.files, completed(events_of(records)))->Ok_0;
    lemma_sound_scans(before.files, segments(before.files));
    if fresh.len() == 0 {
        assert(contents(before.files) + fresh =~= contents(before.files));
    } else {
        law_append_extends_contents(
            before.files,
            after.files,
            StoredView::Block(fresh),
            MAX_FILE_SIZE,
        );
        assert(StoredView::Block(fresh).sessions() =~= fresh);
    }
}

/// Looking the id up in a sound archive finds a session: the archive holds
/// it, and it has no comma to part it.
pub open spec fn is_held(files: Seq<FileView>, id: Seq<char>) -> bool {
    no_comma(id) && has_id(contents(files), id)
}

/// The finalised sessions that the archive does not hold.
pub open spec fn new_sessions(files: Seq<FileView>, events: Seq<EventView>) -> Seq<SessionView> {
    pending_sessions(events).filter(|s: SessionView| !is_held(files, s.id))
}

proof fn lemma_held(files: Seq<FileView>, id: Seq<char>)
    requires
        forall|n: u32| in_sync(files, n),
    ensures
        session_in_archive(files, segments(files), id) is Ok,
        session_in_archive(files, segments(files), id)->Ok_0 is Some <==> is_held(files, id),
{
    let all = contents(files);
    if no_comma(id) {
        lemma_lookup_agrees(files, segments(files), id);
        lemma_first_with_id(all, id);
        if has_id(all, id) {
            let i = choose|i: int| 0 <= i < all.len() && (#[trigger] all[i]).id == id;
            assert(ids_of(all)[i] == id);
        }
        if ids_of(all).contains(id) {
            let i = choose|i: int| 0 <= i < all.len() && ids_of(all)[i] == id;
            assert(all[i].id == id);
        }
    } else {
        lemma_comma_in_archive(files, segments(files), id);
    }
}

proof fn lemma_unarchived_is_new(files: Seq<FileView>, done: Seq<DraftView>)
    requires
        forall|n: u32| in_sync(files, n),
    ensures
        unarchived(files, done) == Ok::<Seq<SessionView>, StorageError>(
            done.map_values(|d: DraftView| pending_session(d)).filter(
                |s: SessionView| !is_held(files, s.id),
            ),
        ),
    decreases done.len(),
{
    reveal(Seq::filter);
    let f = |d: DraftView| pending_session(d);
    let p = |s: SessionView| !is_held(files, s.id);
    if done.len() == 0 {
        assert(done.map_values(f).filter(p) =~= Seq::<SessionView>::empty());
    } else {
        let front = done.drop_last();
        let d = done.last();
        lemma_unarchived_is_new(files, front);
        lemma_held(files, d.id);
        assert(done.map_values(f) =~= front.map_values(f).push(f(d)));
        lemma_filter_step(front.map_values(f), f(d), p);
    }
}

/// After a flush no finalised session waits.
pub proof fn law_flush_leaves_nothing_finalised(before: StorageView, after: StorageView, n: usize)
    requires
        flush_outcome(before, after, Ok::<usize, StorageError>(n)),
    ensures
        after.pending.readable() == Seq::<SessionView>::empty(),
{
    match before.pending {
        PendingView::Records(records) => {
            let events = events_of(records);
            let fin = finalized(events);
            lemma_events_of_unfinished(records, fin);
            lemma_others(events, fin);
            let kept = unfinished(records, fin);
            assert(finalized(events_of(kept)) =~= Seq::<Seq<char>>::empty());
            assert(completed(events_of(kept)) =~= Seq::<DraftView>::empty());
            assert(after.pending.readable() =~= Seq::<SessionView>::empty());
        },
        _ => {
            assert(after.pending.readable() =~= Seq::<SessionView>::empty());
        },
    }
}

/// Where every index file describes its data file, a flush archives exactly
/// the finalised sessions that the archive does not hold, each of them once
/// and behind the others, and says how many they are. Archives in which two
/// files go by the same number are left out.
pub proof fn law_flush_archives_the_new(
    before: StorageView,
    records: Seq<RecordView>,
    after: StorageView,
    n: usize,
)
    requires
        forall|n: u32| in_sync(before.files, n),
        listed_once(after.files),
        before.pending == PendingView::Records(records),
        flush_outcome(before, after, Ok::<usize, StorageError>(n)),
    ensures
        n == new_sessions(before.files, events_of(records)).len(),
        ids_distinct(new_sessions(before.files, events_of(records))),
        archive_sessions(before.files, segments(before.files)) is Ok,
        archive_sessions(after.files, segments(after.files)) == Ok::<
            Seq<SessionView>,
            StorageError,
        >(contents(before.files) + new_sessions(before.files, events_of(records))),
{
    let events = events_of(records);
    let p = |s: SessionView| !is_held(before.files, s.id);
    let fresh = new_sessions(before.files, events);
    lemma_unarchived_is_new(before.files, completed(events));
    assert(pending_sessions(events) =~= completed(events).map_values(
        |d: DraftView| pending_session(d),
    ));
    law_pending_ids_are_distinct(events);
    lemma_filter_keeps_ids_distinct(pending_sessions(events), p);
    lemma_lookup_agrees(before.files, segments(before.files), Seq::empty());
    if fresh.len() == 0 {
        assert(contents(before.files) + fresh =~= contents(before.files));
    } else {
        law_append_extends_readable(
            before.files,
            after.files,
            StoredView::Block(fresh),
            MAX_FILE_SIZE,
        );
        assert(StoredView::Block(fresh).sessions() =~= fresh);
    }
}

/// Every session that was finalised can be looked up in the archive after a
/// flush: as it was archived before, or else as it was in the log. An id with
/// a comma is left out.
pub proof fn law_pending_sessions_are_found(
    before: StorageView,
    records: Seq<RecordView>,
    after: StorageView,
    n: usize,
    k: int,
)
    requires
        sound(before.files),
        before.pending == PendingView::Records(records),
        flush_outcome(before, after, Ok::<usize, StorageError>(n)),
        0 <= k < completed(events_of(records)).len(),
        no_comma(completed(events_of(records))[k].id),
    ensures
        ({
            let d = completed(events_of(records))[k];
            session_in_archive(after.files, segments(after.files), d.id) == match session_in_archive(
                before.files,
                segments(before.files),
                d.id,
            ) {
                Ok(None) => Ok::<Option<SessionView>, StorageError>(Some(pending_session(d))),
                found => found,
            }
        }),
        session_in_archive(
            after.files,
            segments(after.files),
            completed(events_of(records))[k].id,
        )->Ok_0 is Some,
{
    let done = completed(events_of(records));
    let d = done[k];
    let fresh = unarchived(before.files, done)->Ok_0;
    lemma_unarchived(before.files, done, k);
    law_lookup_finds_scanned(before.files, d.id);
    if fresh.len() == 0 {
        assert(!fresh.contains(pending_session(d)));
    } else {
        law_lookup_after_append(
            before.files,
            after.files,
            StoredView::Block(fresh),
            MAX_FILE_SIZE,
            d.id,
        );
        assert(StoredView::Block(fresh).sessions() =~= fresh);
        if session_in_archive(before.files, segments(before.files), d.id)->Ok_0 is None {
            let i = choose|i: int| 0 <= i < fresh.len() && fresh[i] == pending_session(d);
            assert(ids_of(fresh)[i] == d.id);
            lemma_first_with_id(fresh, d.id);
            let found = first_with_id(fresh, d.id)->0;
            let j = choose|j: int| 0 <= j < fresh.len() && fresh[j] == found;
            lemma_unarchived_ids(before.files, done, j);
            let m = choose|m: int|
                0 <= m < done.len() && fresh[j] == pending_session(#[trigger] done[m]);
            lemma_completed_ids(events_of(records));
            crate::laws::pending::lemma_distinct_ids_are_distinct(finalized(events_of(records)));
            assert(done[m].id == d.id);
            let ids = distinct_ids(finalized(events_of(records)));
            assert(ids[m] == ids[k]);
            assert(m == k);
        }
    }
}

/// A flush hides no session: every id that a scan showed before it is shown
/// after it, unless the id holds a comma.
pub proof fn law_flush_keeps_scanned_ids(
    before: StorageView,
    after: StorageView,
    n: usize,
    id: Seq<char>,
)
    requires
        sound(before.files),
        flush_outcome(before, after, Ok::<usize, StorageError>(n)),
        scanned(before) is Ok,
        has_id(scanned(before)->Ok_0, id),
        no_comma(id),
    ensures
        scanned(after) is Ok,
        has_id(scanned(after)->Ok_0, id),
{
    match before.pending {
        PendingView::Records(records) => {
            let events = events_of(records);
            law_flush_extends_contents(before, records, after, n);
            let none = Seq::<SessionView>::empty();
            let archive = contents(before.files);
            let first = append_new(none, archive);
            let all = scanned(before)->Ok_0;
            lemma_append_new(none, archive);
            lemma_append_new(first, before.pending.readable());
            let i = choose|i: int| 0 <= i < all.len() && (#[trigger] all[i]).id == id;
            let s = all[i];
            assert(all.contains(s));
            let now = contents(after.files);
            let found: SessionView = if first.contains(s) {
                assert(archive.contains(s));
                let k = choose|k: int| 0 <= k < archive.len() && archive[k] == s;
                assert(now[k] == s);
                s
            } else {
                let pending = before.pending.readable();
                assert(pending.contains(s));
                let k = choose|k: int| 0 <= k < pending.len() && pending[k] == s;
                lemma_completed_ids(events);
                assert(completed(events)[k].id == s.id);
                law_pending_sessions_are_found(before, records, after, n, k);
                law_lookup_finds_scanned(after.files, id);
                lemma_first_with_id(now, id);
                first_with_id(now, id)->0
            };
            assert(now.contains(found));
            law_scan_is_complete(after, found);
        },
        _ => {},
    }
}

} // verus!
