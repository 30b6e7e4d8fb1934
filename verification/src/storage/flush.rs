//! Moving finalised sessions from the pending log to the archive.
use vstd::prelude::*;
use crate::laws::append::{contents, sound};
use crate::laws::flush::law_flush_leaves_nothing_finalised;
use crate::laws::maintenance::{law_flush_archives_the_waiting, waiting};
use crate::schema::{ChatSessionV1, EventView, SessionView, StoredSession, StoredView, StreamEvent};
use crate::storage::{Storage, StorageView};
use crate::storage::constants::{MAX_FILE_SIZE, PENDING_LIMIT};
use crate::storage::directory::{segments, FileView};
use crate::storage::ingest::archive_refused;
use crate::storage::lookup::session_in_archive;
use crate::storage::pending::{
    complete, completed, contains_id, events_of, events_of_session, finalized, pending_session,
    records_size, session_events, session_of_draft, Draft, DraftView, PendingLog, PendingView,
    RecordView, WalRecord,
};
use crate::storage::types::StorageError;
use crate::storage::writer::archived;

verus! {

/// The drafts whose id the archive does not hold yet, as sessions to be
/// archived, or the first error on the way through the archive.
pub open spec fn unarchived(files: Seq<FileView>, done: Seq<DraftView>) -> Result<
    Seq<SessionView>,
    StorageError,
>
    decreases done.len(),
{
    if done.len() == 0 {
        Ok(Seq::empty())
    } else {
        match unarchived(files, done.drop_last()) {
            Err(e) => Err(e),
            Ok(front) => match session_in_archive(files, segments(files), done.last().id) {
                Err(e) => Err(e),
                Ok(Some(_)) => Ok(front),
                Ok(None) => Ok(front.push(pending_session(done.last()))),
            },
        }
    }
}

/// The records of sessions that are not among the ids.
pub open spec fn unfinished(records: Seq<RecordView>, ids: Seq<Seq<char>>) -> Seq<RecordView> {
    records.filter(|r: RecordView| !ids.contains(r.event.session_id()))
}

/// What a flush returns and does: the finalised sessions that the archive
/// does not hold go there together, in one block, and the log keeps the events of the
/// sessions that are not finalised.
pub open spec fn flush_outcome(
    before: StorageView,
    after: StorageView,
    r: Result<usize, StorageError>,
) -> bool {
    match before.pending {
        PendingView::Absent => r == Ok::<usize, StorageError>(0) && after == before,
        PendingView::Unreadable(_) => r == Err::<usize, StorageError>(
            StorageError::PendingUnreadable,
        ) && after == before,
        PendingView::Records(records) => {
            let events = events_of(records);
            match unarchived(before.files, completed(events)) {
                Err(e) => r == Err::<usize, StorageError>(e) && after == before,
                Ok(fresh) => match r {
                    Ok(n) => {
                        &&& n == fresh.len()
                        &&& after.pending == PendingView::Records(
                            unfinished(records, finalized(events)),
                        )
                        &&& if fresh.len() == 0 {
                            after.files == before.files
                        } else {
                            archived(
                                before.files,
                                after.files,
                                StoredView::Block(fresh),
                                MAX_FILE_SIZE,
                            )
                        }
                    },
                    Err(e) => {
                        &&& fresh.len() > 0
                        &&& after.pending == before.pending
                        &&& archive_refused(before.files, after.files, StoredView::Block(fresh), e)
                    },
                },
            }
        },
    }
}

/// The pending log with more records behind it.
pub open spec fn log_with(log: PendingView, more: Seq<RecordView>) -> PendingView {
    match log {
        PendingView::Absent => PendingView::Records(more),
        PendingView::Records(r) => PendingView::Records(r + more),
        PendingView::Unreadable(n) => {
            let size = n + records_size(more);
            PendingView::Unreadable(
                if size <= u64::MAX {
                    size as u64
                } else {
                    u64::MAX
                },
            )
        },
    }
}

proof fn lemma_unarchived_error(files: Seq<FileView>, done: Seq<DraftView>, n: int)
    requires
        0 <= n <= done.len(),
        unarchived(files, done.take(n)) is Err,
    ensures
        unarchived(files, done) == unarchived(files, done.take(n)),
    decreases done.len() - n,
{
    if n < done.len() {
        assert(done.take(n + 1).drop_last() =~= done.take(n));
        lemma_unarchived_error(files, done, n + 1);
    } else {
        assert(done.take(n) =~= done);
    }
}

/// The records of sessions that are not among the ids.
fn keep_unfinished(records: Vec<WalRecord>, ids: &Vec<String>) -> (r: Vec<WalRecord>)
    ensures
        r.deep_view() == unfinished(records.deep_view(), ids.deep_view()),
{
    let ghost all = records.deep_view();
    let ghost done = ids.deep_view();
    let ghost p = |r: RecordView| !done.contains(r.event.session_id());
    let mut out: Vec<WalRecord> = Vec::new();
    proof {
        reveal(Seq::filter);
        assert(all.take(0) =~= Seq::<RecordView>::empty());
        assert(out.deep_view() =~= all.take(0).filter(p));
    }
    for record in it: records.into_iter()
        invariant
            it.seq().len() == all.len(),
            forall|k: int| 0 <= k < all.len() ==> (#[trigger] it.seq()[k]).deep_view() == all[k],
            done == ids.deep_view(),
            p == (|r: RecordView| !done.contains(r.event.session_id())),
            out.deep_view() == all.take(it.index() as int).filter(p),
    {
        let ghost k = it.index() as int;
        let ghost before = out.deep_view();
        let ghost view = record.deep_view();
        proof {
            assert(view == it.seq()[k].deep_view());
            let t = all.take(k + 1);
            assert(t.drop_last() =~= all.take(k));
            assert(t.last() == all[k]);
            reveal(Seq::filter);
        }
        if !contains_id(ids, record.event.session_id()) {
            out.push(record);
            assert(out.deep_view() =~= before.push(view));
        }
    }
    assert(all.take(all.len() as int) =~= all);
    out
}

/// Events with the bytes that stand for them.
pub open spec fn records_from(events: Seq<EventView>, payloads: Seq<Seq<u8>>) -> Seq<RecordView> {
    Seq::new(events.len(), |i: int| RecordView { event: events[i], payload: payloads[i] })
}

/// What adding a session to the pending log does: its events go behind those
/// in the log, and where the log is then over the limit it is flushed.
pub open spec fn add_outcome(
    before: StorageView,
    s: SessionView,
    payloads: Seq<Seq<u8>>,
    after: StorageView,
    r: Result<(), StorageError>,
) -> bool {
    let records = records_from(session_events(s), payloads);
    let mid = StorageView { files: before.files, pending: log_with(before.pending, records) };
    if mid.pending.size() > PENDING_LIMIT {
        match r {
            Ok(_) => exists|n: usize|
                #[trigger] flush_outcome(mid, after, Ok::<usize, StorageError>(n)),
            Err(e) => flush_outcome(mid, after, Err::<usize, StorageError>(e)),
        }
    } else {
        r is Ok && after == mid
    }
}

/// Puts events and the bytes that stand for them together.
pub fn pair_records(events: Vec<StreamEvent>, payloads: Vec<Vec<u8>>) -> (r: Vec<WalRecord>)
    requires
        events@.len() == payloads@.len(),
    ensures
        r.deep_view() == records_from(events.deep_view(), payloads.deep_view()),
{
    let ghost all = events.deep_view();
    let ghost bytes = payloads.deep_view();
    let mut payloads = payloads;
    let mut back: Vec<Vec<u8>> = Vec::new();
    while payloads.len() > 0
        invariant
            payloads@.len() + back@.len() == bytes.len(),
            forall|k: int|
                0 <= k < payloads@.len() ==> (#[trigger] payloads@[k]).deep_view() == bytes[k],
            forall|k: int|
                0 <= k < back@.len() ==> (#[trigger] back@[k]).deep_view() == bytes[bytes.len() - 1
                    - k],
        decreases payloads@.len(),
    {
        let p = payloads.pop().unwrap();
        back.push(p);
    }
    let mut out: Vec<WalRecord> = Vec::new();
    for event in it: events.into_iter()
        invariant
            it.seq().len() == all.len(),
            bytes.len() == all.len(),
            forall|k: int| 0 <= k < all.len() ==> (#[trigger] it.seq()[k]).deep_view() == all[k],
            out@.len() == it.index(),
            back@.len() == all.len() - it.index(),
            forall|k: int|
                0 <= k < back@.len() ==> (#[trigger] back@[k]).deep_view() == bytes[bytes.len() - 1
                    - k],
            forall|k: int|
                0 <= k < out@.len() ==> (#[trigger] out@[k]).deep_view() == (RecordView {
                    event: all[k],
                    payload: bytes[k],
                }),
    {
        let ghost k = it.index() as int;
        assert(event.deep_view() == it.seq()[k].deep_view());
        let payload = back.pop().unwrap();
        assert(payload.deep_view() =~= payload@);
        out.push(WalRecord { event, payload });
    }
    assert(out.deep_view() =~= records_from(all, bytes));
    out
}

impl Storage {
    /// The drafts whose id the archive does not hold yet, as sessions.
    fn select_unarchived(&self, done: &Vec<Draft>) -> (r: Result<
        Vec<ChatSessionV1>,
        StorageError,
    >)
        ensures
            match r {
                Ok(v) => unarchived(self@.files, done.deep_view()) == Ok::<
                    Seq<SessionView>,
                    StorageError,
                >(v.deep_view()),
                Err(e) => unarchived(self@.files, done.deep_view()) == Err::<
                    Seq<SessionView>,
                    StorageError,
                >(e),
            },
    {
        let ghost all = done.deep_view();
        let ghost files = self@.files;
        let mut out: Vec<ChatSessionV1> = Vec::new();
        let mut i: usize = 0;
        assert(all.take(0) =~= Seq::<DraftView>::empty());
        assert(out.deep_view() =~= Seq::<SessionView>::empty());
        while i < done.len()
            invariant
                i <= done@.len(),
                all == done.deep_view(),
                files == self@.files,
                unarchived(files, all.take(i as int)) == Ok::<Seq<SessionView>, StorageError>(
                    out.deep_view(),
                ),
            decreases done@.len() - i,
        {
            let ghost before = out.deep_view();
            proof {
                let t = all.take(i + 1);
                assert(t.drop_last() =~= all.take(i as int));
                assert(t.last() == done@[i as int].deep_view());
            }
            match self.get_archived_session_by_id(done[i].id.as_str()) {
                Err(e) => {
                    proof {
                        lemma_unarchived_error(files, all, i + 1);
                    }
                    return Err(e);
                },
                Ok(Some(_)) => {},
                Ok(None) => {
                    let s = session_of_draft(&done[i]);
                    let ghost view = s.deep_view();
                    out.push(s);
                    assert(out.deep_view() =~= before.push(view));
                },
            }
            i += 1;
        }
        assert(all.take(i as int) =~= all);
        Ok(out)
    }

    /// Aggregates the complete sessions of the pending log, writes them to
    /// the archive, and compacts the log.
    ///
    /// 1. Reconstructs sessions from events.
    /// 2. Archives finalized sessions ensuring idempotency.
    /// 3. Compacts the log by keeping only unfinished events.
    pub fn flush_pending(&mut self) -> (r: Result<usize, StorageError>)
        ensures
            flush_outcome(old(self)@, final(self)@, r),
            r is Ok ==> final(self)@.pending.readable().len() == 0,
            sound(old(self)@.files) && r is Ok ==> {
                &&& sound(final(self)@.files)
                &&& contents(final(self)@.files) == contents(old(self)@.files) + waiting(
                    old(self)@,
                )
                &&& r->Ok_0 == waiting(old(self)@).len()
            },
    {
        let ghost before = self@;
        let r = self.flush_finished();
        proof {
            if r is Ok {
                law_flush_leaves_nothing_finalised(before, self@, r->Ok_0);
                if sound(before.files) {
                    law_flush_archives_the_waiting(before, self@, r->Ok_0);
                }
            }
        }
        r
    }

    fn flush_finished(&mut self) -> (r: Result<usize, StorageError>)
        ensures
            flush_outcome(old(self)@, final(self)@, r),
    {
        let (done, ids) = match &self.pending {
            PendingLog::Absent => {
                return Ok(0);
            },
            PendingLog::Unreadable(_) => {
                return Err(StorageError::PendingUnreadable);
            },
            PendingLog::Records(records) => complete(records),
        };
        let fresh = match self.select_unarchived(&done) {
            Ok(fresh) => fresh,
            Err(e) => {
                return Err(e);
            },
        };
        let count: usize = fresh.len();
        if count > 0 {
            match self.archive(StoredSession::Block(fresh)) {
                Ok(_) => {},
                Err(e) => {
                    return Err(e);
                },
            }
        }
        let mut log = PendingLog::Absent;
        core::mem::swap(&mut self.pending, &mut log);
        self.pending = match log {
            PendingLog::Records(records) => PendingLog::Records(keep_unfinished(records, &ids)),
            other => other,
        };
        Ok(count)
    }

    /// Puts records behind the pending log, which is made where there is none.
    pub fn append_records(&mut self, records: Vec<WalRecord>)
        ensures
            final(self)@ == (StorageView {
                files: old(self)@.files,
                pending: log_with(old(self)@.pending, records.deep_view()),
            }),
    {
        let ghost more = records.deep_view();
        let mut log = PendingLog::Absent;
        core::mem::swap(&mut self.pending, &mut log);
        self.pending = match log {
            PendingLog::Absent => PendingLog::Records(records),
            PendingLog::Records(mut all) => {
                let ghost before = all.deep_view();
                let mut records = records;
                all.append(&mut records);
                assert(all.deep_view() =~= before + more);
                PendingLog::Records(all)
            },
            PendingLog::Unreadable(n) => {
                let added = PendingLog::Records(records);
                match added.size() {
                    Some(m) if m <= u64::MAX - n => PendingLog::Unreadable(n + m),
                    _ => PendingLog::Unreadable(u64::MAX),
                }
            },
        };
    }

    /// Appends a session directly to the pending log and triggers a flush if
    /// > 256KB. `payloads` are the bytes that stand for its events, in order.
    pub fn append_pending(&mut self, session: ChatSessionV1, payloads: Vec<Vec<u8>>) -> (r: Result<
        (),
        StorageError,
    >)
        requires
            payloads@.len() == session.messages@.len() + 2,
        ensures
            ({
                let records = records_from(
                    session_events(session.deep_view()),
                    payloads.deep_view(),
                );
                let mid = StorageView {
                    files: old(self)@.files,
                    pending: log_with(old(self)@.pending, records),
                };
                if mid.pending.size() > PENDING_LIMIT {
                    match r {
                        Ok(_) => exists|n: usize|
                            #[trigger] flush_outcome(
                                mid,
                                final(self)@,
                                Ok::<usize, StorageError>(n),
                            ),
                        Err(e) => flush_outcome(mid, final(self)@, Err::<usize, StorageError>(e)),
                    }
                } else {
                    r is Ok && final(self)@ == mid
                }
            }),
            add_outcome(
                old(self)@,
                session.deep_view(),
                payloads.deep_view(),
                final(self)@,
                r,
            ),
    {
        let ghost view = session.deep_view();
        assert(session_events(view).len() == view.messages.len() + 2);
        let events = events_of_session(session);
        let records = pair_records(events, payloads);
        self.append_records(records);
        let over = match self.pending.size() {
            Some(n) => n > PENDING_LIMIT,
            None => true,
        };
        if over {
            match self.flush_pending() {
                Ok(_) => Ok(()),
                Err(e) => Err(e),
            }
        } else {
            Ok(())
        }
    }
}

} // verus!
