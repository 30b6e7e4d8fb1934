//! The bytes of the pending file: framed events, one behind the other.
use vstd::prelude::*;
use vstd::slice::{slice_subrange, slice_to_vec};
use crate::frames::{framed, lemma_framed_reads_back, payloads, push_frame, tail, walk, Tail};
use crate::schema::{EventView, StreamEvent};
use crate::storage::flush::{pair_records, records_from};
use crate::storage::pending::{records_size, PendingLog, PendingView, RecordView};
use crate::storage::types::StorageError;

verus! {

/// Collects the frames of events.
pub struct WalWriter {
    buffer: Vec<u8>,
}

impl View for WalWriter {
    type V = Seq<u8>;

    closed spec fn view(&self) -> Seq<u8> {
        self.buffer@
    }
}

impl WalWriter {
    /// A writer without frames.
    pub fn new() -> (r: Self)
        ensures
            r@ == Seq::<u8>::empty(),
    {
        WalWriter { buffer: Vec::new() }
    }

    /// Puts the frame of an event behind the others, unless its bytes are
    /// too many for a length prefix.
    pub fn append(&mut self, payload: &[u8]) -> (r: Result<(), StorageError>)
        ensures
            match r {
                Ok(_) => {
                    &&& payload@.len() <= u32::MAX
                    &&& final(self)@ == old(self)@ + crate::frames::frame(payload@)
                },
                Err(e) => {
                    &&& payload@.len() > u32::MAX
                    &&& e == StorageError::BlockTooLarge
                    &&& final(self)@ == old(self)@
                },
            },
    {
        if payload.len() as u64 > u32::MAX as u64 {
            return Err(StorageError::BlockTooLarge);
        }
        push_frame(&mut self.buffer, payload);
        Ok(())
    }

    /// The bytes to be written.
    pub fn into_bytes(self) -> (r: Vec<u8>)
        ensures
            r@ == self@,
    {
        self.buffer
    }
}

/// The payloads in the bytes of a pending file, which has to end with a whole
/// frame.
pub fn split_log(bytes: &Vec<u8>) -> (r: Result<Vec<Vec<u8>>, StorageError>)
    ensures
        match r {
            Ok(v) => tail(bytes@) == Tail::Clean && v.deep_view() == payloads(bytes@),
            Err(e) => tail(bytes@) != Tail::Clean && e == StorageError::UnexpectedEof,
        },
{
    let frames = walk(bytes.as_slice(), 0);
    assert(bytes@.skip(0) =~= bytes@);
    let ghost ps = payloads(bytes@);
    if frames.tail != Tail::Clean {
        return Err(StorageError::UnexpectedEof);
    }
    let mut out: Vec<Vec<u8>> = Vec::new();
    let mut i: usize = 0;
    while i < frames.spans.len()
        invariant
            i <= frames.spans@.len(),
            bytes@.skip(0) == bytes@,
            ps == payloads(bytes@),
            frames.describe(bytes@, 0),
            out@.len() == i,
            forall|k: int| 0 <= k < i ==> (#[trigger] out@[k]).deep_view() == ps[k],
        decreases frames.spans@.len() - i,
    {
        let span = frames.spans[i];
        assert(ps[i as int] == bytes@.subrange(span.start as int, span.end as int));
        let payload = slice_to_vec(slice_subrange(bytes.as_slice(), span.start, span.end));
        assert(payload.deep_view() =~= payload@);
        out.push(payload);
        i += 1;
    }
    assert(out.deep_view() =~= ps);
    Ok(out)
}

/// The payloads of records.
pub open spec fn payloads_of(records: Seq<RecordView>) -> Seq<Seq<u8>> {
    records.map_values(|r: RecordView| r.payload)
}

/// Every event could be read.
pub open spec fn all_read(events: Seq<Option<EventView>>) -> bool {
    forall|i: int| 0 <= i < events.len() ==> (#[trigger] events[i]) is Some
}

/// The pending log of a file of `size` bytes, from its payloads and the
/// events in them: one event that could not be read spoils the log.
pub fn assemble_log(size: u64, payloads: Vec<Vec<u8>>, events: Vec<Option<StreamEvent>>) -> (r:
    PendingLog)
    requires
        events@.len() == payloads@.len(),
    ensures
        r.deep_view() == if all_read(events.deep_view()) {
            PendingView::Records(
                records_from(
                    events.deep_view().map_values(|e: Option<EventView>| e->0),
                    payloads.deep_view(),
                ),
            )
        } else {
            PendingView::Unreadable(size)
        },
{
    let ghost all = events.deep_view();
    let mut read: Vec<StreamEvent> = Vec::new();
    for event in it: events.into_iter()
        invariant
            it.seq().len() == all.len(),
            all == events.deep_view(),
            forall|k: int| 0 <= k < all.len() ==> (#[trigger] it.seq()[k]).deep_view() == all[k],
            read@.len() == it.index(),
            forall|k: int| 0 <= k < read@.len() ==> (#[trigger] all[k]) is Some,
            forall|k: int|
                0 <= k < read@.len() ==> (#[trigger] read@[k]).deep_view() == all[k]->0,
    {
        let ghost k = it.index() as int;
        assert(event.deep_view() == it.seq()[k].deep_view());
        assert(event.deep_view() == all[k]);
        match event {
            Some(e) => read.push(e),
            None => {
                assert(all[k] is None);
                return PendingLog::Unreadable(size);
            },
        }
    }
    assert(read.deep_view() =~= all.map_values(|e: Option<EventView>| e->0));
    PendingLog::Records(pair_records(read, payloads))
}

impl PendingLog {
    /// The bytes of the pending file, where its events are known. Nothing
    /// comes out if an event is too long for its length prefix.
    pub fn to_bytes(&self) -> (r: Option<Vec<u8>>)
        ensures
            match (r, self.deep_view()) {
                (Some(b), PendingView::Records(records)) => {
                    &&& b@ == framed(payloads_of(records))
                    &&& forall|i: int|
                        0 <= i < records.len() ==> (#[trigger] records[i]).payload.len()
                            <= u32::MAX
                },
                (Some(_), _) => false,
                (None, PendingView::Records(records)) => exists|i: int|
                    0 <= i < records.len() && (#[trigger] records[i]).payload.len() > u32::MAX,
                (None, _) => true,
            },
            r is Some ==> payloads(r->0@) == payloads_of(self.deep_view()->Records_0) && tail(
                r->0@,
            ) == Tail::Clean,
    {
        match self {
            PendingLog::Records(records) => {
                let ghost all = records.deep_view();
                let ghost ps = payloads_of(all);
                let mut wal = WalWriter::new();
                let mut i: usize = 0;
                assert(ps.take(0) =~= Seq::<Seq<u8>>::empty());
                while i < records.len()
                    invariant
                        i <= records@.len(),
                        all == records.deep_view(),
                        self.deep_view() == PendingView::Records(all),
                        ps == payloads_of(all),
                        wal@ == framed(ps.take(i as int)),
                        forall|k: int|
                            0 <= k < i ==> (#[trigger] all[k]).payload.len() <= u32::MAX,
                    decreases records@.len() - i,
                {
                    proof {
                        let t = ps.take(i + 1);
                        assert(t.drop_last() =~= ps.take(i as int));
                        assert(t.last() == records@[i as int].payload@);
                        assert(all[i as int].payload == records@[i as int].payload@);
                    }
                    match wal.append(records[i].payload.as_slice()) {
                        Ok(_) => {},
                        Err(_) => {
                            assert(all[i as int].payload.len() > u32::MAX);
                            return None;
                        },
                    }
                    i += 1;
                }
                assert(ps.take(i as int) =~= ps);
                proof {
                    assert forall|k: int| 0 <= k < ps.len() implies (#[trigger] ps[k]).len()
                        <= u32::MAX by {
                        assert(all[k].payload == ps[k]);
                    }
                    law_log_round_trip(ps);
                }
                Some(wal.into_bytes())
            },
            _ => None,
        }
    }
}

/// The size of a log is the length of its file.
pub proof fn law_log_size(records: Seq<RecordView>)
    ensures
        framed(payloads_of(records)).len() == records_size(records),
    decreases records.len(),
{
    if records.len() > 0 {
        let front = records.drop_last();
        law_log_size(front);
        assert(payloads_of(records).drop_last() =~= payloads_of(front));
        assert(payloads_of(records).last() == records.last().payload);
    }
}

/// What a log was written from is read back from it.
pub proof fn law_log_round_trip(ps: Seq<Seq<u8>>)
    requires
        forall|i: int| 0 <= i < ps.len() ==> (#[trigger] ps[i]).len() <= u32::MAX,
    ensures
        payloads(framed(ps)) == ps,
        tail(framed(ps)) == Tail::Clean,
{
    lemma_framed_reads_back(ps);
}

} // verus!
