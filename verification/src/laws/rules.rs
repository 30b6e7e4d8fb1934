//! Smaller rules: waiting for the lock, what an index entry may say, how the
//! pending log grows and shrinks.
use vstd::prelude::*;
use crate::cli::{
    creation_moment, kilobytes, moment_plain, moment_text, range_told, time_meant, CliError,
};
use crate::codec::COMPRESSION_LEVEL;
use crate::index::{BlockIndexParams, FALSE_POSITIVE_RATE, FILTER_SEED, IndexView};
use crate::laws::events::law_sizes_add_up;
use crate::lock::{step, LOCK_TIMEOUT_MS, LockStep, RETRY_MS};
use crate::metadata::{json_object, members_in};
use crate::schema::{EventView, SessionView};
use crate::storage::StorageView;
use crate::storage::flush::{flush_outcome, log_with, records_from, unfinished};
use crate::storage::pending::{
    events_of, message_events, message_input, records_size, session_events, PendingView, RecordView,
};
use crate::storage::stats::with_entry;
use crate::storage::types::{Counts, StorageError};
use crate::storage::wal::{all_read, payloads_of};
use crate::text::{decimal, parsed_number};

verus! {

/// A lock that was got is held at once. One that was not is tried again every
/// fifty milliseconds as long as the time is not up, and then given up.
pub proof fn law_lock_is_waited_for(elapsed_ms: u64, timeout_ms: u64)
    ensures
        step(true, elapsed_ms, timeout_ms) == LockStep::Acquired,
        elapsed_ms <= timeout_ms ==> step(false, elapsed_ms, timeout_ms) == LockStep::Retry(50),
        elapsed_ms > timeout_ms ==> step(false, elapsed_ms, timeout_ms) == LockStep::TimedOut,
        RETRY_MS == 50,
        LOCK_TIMEOUT_MS == 5000,
{
}

/// An index entry that says what cannot be is refused, with the numbers that
/// do not fit: a time range that ends before it starts, a block that grew by
/// compression, a block without messages.
pub proof fn law_impossible_entries_are_refused(p: BlockIndexParams<'_>)
    ensures
        p.complaint() is None <==> p.min_time <= p.max_time && p.compressed_size
            <= p.uncompressed_size && p.message_count > 0,
        p.min_time > p.max_time ==> p.complaint() == Some(
            "Invalid time range: min_time ("@ + decimal(p.min_time as nat) + ") > max_time ("@
                + decimal(p.max_time as nat) + seq![')'],
        ),
        p.min_time <= p.max_time && p.compressed_size > p.uncompressed_size ==> p.complaint()
            == Some(
            "Invalid compression: compressed_size ("@ + decimal(p.compressed_size as nat)
                + ") > uncompressed_size ("@ + decimal(p.uncompressed_size as nat) + seq![')'],
        ),
        p.min_time <= p.max_time && p.compressed_size <= p.uncompressed_size && p.message_count
            == 0 ==> p.complaint() == Some(
            "Block must contain at least one message (message_count == 0)"@,
        ),
{
}

/// The moment of creation is that of the seconds that a session says, and
/// none where it says none.
pub proof fn law_moment_of_creation(t: u64)
    ensures
        creation_moment(Some(t)) == moment_text(t as i64, "%Y-%m-%d %H:%M:%S UTC"@),
        creation_moment(None) is None,
{
}

/// What is a number means so many seconds, whatever date it may be besides.
/// What is none means its date, and is refused where it is none either.
pub proof fn law_times_are_numbers_or_dates(input: Seq<char>, date: Option<i64>)
    ensures
        time_meant(input, date) == Err::<u64, CliError>(CliError::InvalidDate) <==> parsed_number(
            input,
            0xffff_ffff_ffff_ffff,
        ) is None && date is None,
        parsed_number(input, 0xffff_ffff_ffff_ffff) is Some ==> time_meant(input, date) is Ok
            && time_meant(input, date)->Ok_0 == parsed_number(input, 0xffff_ffff_ffff_ffff)->0,
        parsed_number(input, 0xffff_ffff_ffff_ffff) is None && date is Some && date->0 >= 0
            ==> time_meant(input, date) is Ok && time_meant(input, date)->Ok_0 == date->0,
{
    if parsed_number(input, 0xffff_ffff_ffff_ffff) is Some {
        assert(parsed_number(input, 0xffff_ffff_ffff_ffff)->0 <= u64::MAX);
    }
}

/// A kilobyte has 1024 bytes.
pub proof fn law_kilobytes(a: nat, b: nat)
    ensures
        kilobytes(a + b) == kilobytes(a) + kilobytes(b),
        kilobytes(1) == 1024,
{
}

/// A time range is told where there is one, from its first moment to its
/// last.
pub proof fn law_counted_range_is_told(min: u64, max: u64)
    ensures
        range_told(min, max) is None <==> min == 0,
        min > 0 ==> range_told(min, max)->0 == "Time Range:       "@ + (
        match moment_plain(min as i64) {
            Some(m) => m,
            None => decimal(min as nat),
        }) + " to "@ + (match moment_plain(max as i64) {
            Some(m) => m,
            None => decimal(max as nat),
        }) + "\n"@,
{
}

/// An index entry counts for its sessions, messages and bytes, and a range
/// that is open at an end counts for nothing there.
pub proof fn law_open_ranges_tell_nothing(c: Counts, e: IndexView)
    ensures
        with_entry(c, e).total == c.total,
        with_entry(c, e).messages == c.messages + e.message_count,
        with_entry(c, e).compressed == c.compressed + e.compressed_size,
        with_entry(c, e).uncompressed == c.uncompressed + e.uncompressed_size,
        e.min_time == 0 ==> with_entry(c, e).min_time == c.min_time,
        e.max_time == u64::MAX ==> with_entry(c, e).max_time == c.max_time,
        e.min_time > 0 ==> 0 < with_entry(c, e).min_time <= e.min_time,
        e.max_time < u64::MAX ==> with_entry(c, e).max_time >= e.max_time,
        with_entry(c, e).max_time >= c.max_time,
        with_entry(c, e).max_time == c.max_time || with_entry(c, e).max_time == e.max_time,
        with_entry(c, e).min_time == c.min_time || with_entry(c, e).min_time == e.min_time,
        c.min_time > 0 ==> 0 < with_entry(c, e).min_time <= c.min_time,
{
}

/// One more session counts for itself, its messages and its time.
pub proof fn law_sessions_are_counted(c: Counts, s: SessionView)
    ensures
        c.with_session(s).sessions == c.sessions + 1,
        c.with_session(s).messages == c.messages + s.messages.len(),
        c.with_session(s).total == c.total,
        c.with_session(s).compressed == c.compressed,
        c.with_session(s).uncompressed == c.uncompressed,
        s.created_at is None ==> c.with_session(s).min_time == c.min_time && c.with_session(
            s,
        ).max_time == c.max_time,
        s.created_at is Some ==> c.with_session(s).max_time >= s.created_at->0,
        s.created_at is Some ==> c.with_session(s).min_time <= s.created_at->0,
        c.with_session(s).max_time >= c.max_time,
        c.min_time > 0 ==> c.with_session(s).min_time <= c.min_time,
        s.created_at is Some ==> c.with_session(s).max_time == c.max_time || c.with_session(
            s,
        ).max_time == s.created_at->0,
        s.created_at is Some ==> (c.min_time > 0 && c.with_session(s).min_time == c.min_time)
            || c.with_session(s).min_time == s.created_at->0,
{
}

/// A log that is not there is flushed of nothing, and one that cannot be read
/// is refused and left alone.
pub proof fn law_only_readable_logs_are_flushed(
    before: StorageView,
    after: StorageView,
    r: Result<usize, StorageError>,
)
    requires
        flush_outcome(before, after, r),
    ensures
        before.pending is Absent ==> r == Ok::<usize, StorageError>(0) && after == before,
        before.pending is Unreadable ==> r == Err::<usize, StorageError>(
            StorageError::PendingUnreadable,
        ) && after == before,
        r is Err ==> after.pending == before.pending,
{
}

/// What is stored is compressed at one level, and the filters of the index
/// are made by one seed and for one rate of error.
pub proof fn law_fixed_parameters()
    ensures
        COMPRESSION_LEVEL == 19,
        FILTER_SEED == 0x517C_C1B7_2722_0A95,
        FALSE_POSITIVE_RATE@ == "0.05"@,
{
}

/// Metadata that is no object has no members.
pub proof fn law_members_of_an_object(text: Seq<char>)
    ensures
        json_object(text) is Some ==> members_in(text) == json_object(text)->0,
        json_object(text) is None ==> members_in(text).len() == 0,
{
}

/// Records that are added to a log stand behind those in it, and the log is
/// longer by their bytes.
pub proof fn law_log_grows_at_its_end(log: PendingView, more: Seq<RecordView>)
    ensures
        log is Absent ==> log_with(log, more) == PendingView::Records(more),
        log is Records ==> log_with(log, more) is Records && log_with(log, more)->Records_0
            == log->Records_0 + more,
        log is Records ==> events_of(log_with(log, more)->Records_0) == events_of(
            log->Records_0,
        ) + events_of(more),
        log is Unreadable ==> log_with(log, more) is Unreadable,
        log.size() + records_size(more) <= u64::MAX ==> log_with(log, more).size() == log.size()
            + records_size(more),
{
    match log {
        PendingView::Records(r) => {
            assert(events_of(r + more) =~= events_of(r) + events_of(more));
            law_sizes_add_up(r, more);
        },
        _ => {},
    }
}

/// Each event goes into the log with its own bytes, in the order of the
/// events.
pub proof fn law_events_keep_their_bytes(events: Seq<EventView>, bytes: Seq<Seq<u8>>)
    requires
        events.len() == bytes.len(),
    ensures
        events_of(records_from(events, bytes)) == events,
        payloads_of(records_from(events, bytes)) == bytes,
{
    assert(events_of(records_from(events, bytes)) =~= events);
    assert(payloads_of(records_from(events, bytes)) =~= bytes);
}

/// A log has been read where every one of its events has.
pub proof fn law_one_unread_event_is_too_many(events: Seq<Option<EventView>>, i: int)
    requires
        0 <= i < events.len(),
    ensures
        events[i] is None ==> !all_read(events),
        all_read(events) ==> events[i] is Some,
{
}

/// A session goes into the log as the event that starts it, one event for
/// each of its messages in their order, and the event that finalizes it.
pub proof fn law_session_is_logged(s: SessionView)
    ensures
        session_events(s).len() == s.messages.len() + 2,
        session_events(s)[0] is SessionStart,
        session_events(s).last() is Finalize,
        forall|i: int|
            0 <= i < session_events(s).len() ==> (#[trigger] session_events(s)[i]).session_id()
                == s.id,
        forall|i: int|
            #![trigger s.messages[i]]
            0 <= i < s.messages.len() ==> {
                let e = session_events(s)[i + 1];
                &&& e is AppendMessage
                &&& e->message.role == s.messages[i].role
                &&& e->message.content == s.messages[i].content
                &&& e->message.tool_calls == s.messages[i].tool_calls
                &&& e->message.tool_outputs == s.messages[i].tool_outputs
                &&& e->message.id == s.messages[i].id
                &&& e->message.parent_id == s.messages[i].parent_id
            },
{
    let all = session_events(s);
    let middle = message_events(s.id, s.messages);
    assert(middle.len() == s.messages.len());
    assert forall|i: int|
        #![trigger s.messages[i]]
        0 <= i < s.messages.len() implies all[i + 1] == (EventView::AppendMessage {
        session_id: s.id,
        message: message_input(s.messages[i]),
    }) by {
        assert(all[i + 1] == middle[i]);
    }
    assert forall|i: int| 0 <= i < all.len() implies (#[trigger] all[i]).session_id() == s.id by {
        if 0 < i < all.len() - 1 {
            assert(all[i] == middle[i - 1]);
        }
    }
}

/// Taking sessions out of a log takes out all their records and no others,
/// and leaves the others in their order.
pub proof fn law_records_stay_in_order(records: Seq<RecordView>, ids: Seq<Seq<char>>) -> (places:
    Seq<int>)
    ensures
        places.len() == unfinished(records, ids).len(),
        forall|k: int|
            0 <= k < places.len() ==> 0 <= #[trigger] places[k] < records.len() && unfinished(
                records,
                ids,
            )[k] == records[places[k]] && !ids.contains(records[places[k]].event.session_id()),
        forall|j: int, k: int| 0 <= j < k < places.len() ==> places[j] < places[k],
        forall|i: int|
            0 <= i < records.len() && !ids.contains((#[trigger] records[i]).event.session_id())
                ==> places.contains(i),
    decreases records.len(),
{
    reveal(Seq::filter);
    if records.len() == 0 {
        Seq::empty()
    } else {
        let front = records.drop_last();
        let n = front.len() as int;
        let before = law_records_stay_in_order(front, ids);
        assert forall|i: int| 0 <= i < n implies front[i] == #[trigger] records[i] by {}
        if !ids.contains(records.last().event.session_id()) {
            let places = before.push(n);
            assert forall|i: int|
                0 <= i < records.len() && !ids.contains(
                    (#[trigger] records[i]).event.session_id(),
                ) implies places.contains(i) by {
                if i == n {
                    assert(places[before.len() as int] == n);
                } else {
                    assert(!ids.contains(front[i].event.session_id()));
                    let k = choose|k: int| 0 <= k < before.len() && before[k] == i;
                    assert(places[k] == i);
                }
            }
            assert forall|k: int| 0 <= k < places.len() implies 0 <= #[trigger] places[k]
                < records.len() && unfinished(records, ids)[k] == records[places[k]]
                && !ids.contains(records[places[k]].event.session_id()) by {
                if k < before.len() {
                    assert(places[k] == before[k]);
                    assert(front[before[k]] == records[before[k]]);
                }
            }
            places
        } else {
            assert forall|k: int| 0 <= k < before.len() implies front[#[trigger] before[k]]
                == records[before[k]] by {}
            assert forall|i: int|
                0 <= i < records.len() && !ids.contains(
                    (#[trigger] records[i]).event.session_id(),
                ) implies before.contains(i) by {
                assert(!ids.contains(front[i].event.session_id()));
            }
            before
        }
    }
}

} // verus!
