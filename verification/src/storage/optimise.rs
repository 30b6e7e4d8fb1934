//! Rewriting the active segment in blocks of a chosen size.
use vstd::prelude::*;
use crate::codec::{encode_stored, pack, packed, stored_bytes, unpack};
use crate::frames::{frame, payloads, tail, walk, Tail};
use crate::laws::append::{contents, sound};
use crate::laws::maintenance::{law_compact_keeps_sessions, law_optimise_keeps_sessions, waiting};
use crate::schema::{ChatSessionV1, SessionView, StoredSession, StoredView};
use crate::storage::{Storage, StorageView};
use crate::storage::constants::DATA_MAGIC;
use crate::storage::directory::{
    active_segment, data_file_name, data_name, index_file_name, index_name, lookup, written,
    FileView,
};
use crate::storage::flush::flush_outcome;
use crate::storage::progress::Progress;
use crate::storage::segment::{
    blocks_in, check_header, header_error, lemma_blocks_in, lemma_blocks_in_error, segment_blocks,
    sessions_of, BlockView,
};
use crate::storage::sync::{indexes, lemma_data_grows, lemma_index_grows};
use crate::storage::types::StorageError;
use crate::storage::writer::{frames_of, record_payloads, write_refused};
use vstd::slice::slice_subrange;

verus! {

/// The record of a chunk: a single session stands for itself.
pub open spec fn chunk_record(chunk: Seq<SessionView>) -> StoredView {
    if chunk.len() == 1 {
        StoredView::V1(chunk[0])
    } else {
        StoredView::Block(chunk)
    }
}

/// Chunks that are complete, and the one that is being filled.
#[verifier::ext_equal]
pub ghost struct Chunking {
    pub done: Seq<Seq<SessionView>>,
    pub open: Seq<SessionView>,
}

impl Chunking {
    /// One more session. Below twice the target nothing is compressed. A
    /// chunk that compresses to more than the target is complete without the
    /// session, which starts the next one; a chunk that reaches the target, or
    /// a single session beyond it, is complete with the session.
    pub open spec fn with(self, s: SessionView, target: nat) -> Result<Chunking, StorageError> {
        let chunk = self.open.push(s);
        let record = chunk_record(chunk);
        if stored_bytes(record).len() < 2 * target {
            Ok(Chunking { done: self.done, open: chunk })
        } else {
            match packed(record) {
                None => Err(StorageError::Compress),
                Some(block) => if block.len() > target && chunk.len() > 1 {
                    Ok(Chunking { done: self.done.push(self.open), open: seq![s] })
                } else if block.len() >= target {
                    Ok(Chunking { done: self.done.push(chunk), open: Seq::empty() })
                } else {
                    Ok(Chunking { done: self.done, open: chunk })
                },
            }
        }
    }

    /// All chunks once there are no more sessions.
    pub open spec fn finished(self) -> Seq<Seq<SessionView>> {
        if self.open.len() > 0 {
            self.done.push(self.open)
        } else {
            self.done
        }
    }
}

/// How sessions fall into chunks, or the first refusal to compress.
pub open spec fn chunking(sessions: Seq<SessionView>, target: nat) -> Result<
    Chunking,
    StorageError,
>
    decreases sessions.len(),
{
    if sessions.len() == 0 {
        Ok(Chunking { done: Seq::empty(), open: Seq::empty() })
    } else {
        match chunking(sessions.drop_last(), target) {
            Err(e) => Err(e),
            Ok(c) => c.with(sessions.last(), target),
        }
    }
}

/// The sessions of chunks, in order.
pub open spec fn joined_chunks(chunks: Seq<Seq<SessionView>>) -> Seq<SessionView>
    decreases chunks.len(),
{
    if chunks.len() == 0 {
        Seq::empty()
    } else {
        joined_chunks(chunks.drop_last()) + chunks.last()
    }
}

proof fn lemma_joined_chunks_push(chunks: Seq<Seq<SessionView>>, chunk: Seq<SessionView>)
    ensures
        joined_chunks(chunks.push(chunk)) == joined_chunks(chunks) + chunk,
{
    assert(chunks.push(chunk).drop_last() =~= chunks);
}

/// Chunking keeps every session, in order, and makes no empty chunk.
pub proof fn lemma_chunking_keeps_sessions(sessions: Seq<SessionView>, target: nat)
    requires
        chunking(sessions, target) is Ok,
    ensures
        joined_chunks(chunking(sessions, target)->Ok_0.finished()) == sessions,
        joined_chunks(chunking(sessions, target)->Ok_0.done) + chunking(
            sessions,
            target,
        )->Ok_0.open == sessions,
        forall|i: int|
            0 <= i < chunking(sessions, target)->Ok_0.finished().len() ==> (
            #[trigger] chunking(sessions, target)->Ok_0.finished()[i]).len() > 0,
    decreases sessions.len(),
{
    let c = chunking(sessions, target)->Ok_0;
    if sessions.len() > 0 {
        let front = sessions.drop_last();
        let s = sessions.last();
        lemma_chunking_keeps_sessions(front, target);
        let b = chunking(front, target)->Ok_0;
        let chunk = b.open.push(s);
        lemma_joined_chunks_push(b.done, b.open);
        lemma_joined_chunks_push(b.done, chunk);
        assert(front.push(s) =~= sessions);
        assert(joined_chunks(b.done) + chunk =~= (joined_chunks(b.done) + b.open).push(s));
        assert(joined_chunks(b.done.push(b.open)) + seq![s] =~= sessions);
        assert(joined_chunks(b.done.push(chunk)) + Seq::<SessionView>::empty() =~= sessions);
        assert(joined_chunks(c.done) + c.open =~= sessions);
        assert forall|i: int| 0 <= i < c.done.len() implies (#[trigger] c.done[i]).len() > 0 by {
            if i < b.done.len() {
                assert(b.finished()[i].len() > 0);
            } else if c.done == b.done.push(b.open) {
                assert(b.open.len() > 0);
            }
        }
    } else {
        assert(joined_chunks(c.done) + c.open =~= sessions);
    }
    lemma_joined_chunks_push(c.done, c.open);
    if c.open.len() == 0 {
        assert(joined_chunks(c.done) + c.open =~= joined_chunks(c.done));
    }
    assert forall|i: int| 0 <= i < c.finished().len() implies (#[trigger] c.finished()[i]).len()
        > 0 by {
        if i < c.done.len() {
            assert(c.finished()[i] == c.done[i]);
        }
    }
}

/// A chunk of several sessions compresses to the target size or less, or is
/// so small before compression that it was not tried.
pub open spec fn fits_target(chunk: Seq<SessionView>, target: nat) -> bool {
    let record = chunk_record(chunk);
    ||| chunk.len() <= 1
    ||| stored_bytes(record).len() < 2 * target
    ||| packed(record) is Some && packed(record)->0.len() <= target
}

/// No chunk of several sessions is larger than asked for.
pub proof fn law_chunks_fit_target(sessions: Seq<SessionView>, target: nat)
    requires
        chunking(sessions, target) is Ok,
    ensures
        fits_target(chunking(sessions, target)->Ok_0.open, target),
        forall|i: int|
            0 <= i < chunking(sessions, target)->Ok_0.finished().len() ==> fits_target(
                #[trigger] chunking(sessions, target)->Ok_0.finished()[i],
                target,
            ),
    decreases sessions.len(),
{
    let c = chunking(sessions, target)->Ok_0;
    if sessions.len() > 0 {
        let front = sessions.drop_last();
        law_chunks_fit_target(front, target);
        let b = chunking(front, target)->Ok_0;
        assert forall|i: int| 0 <= i < c.finished().len() implies fits_target(
            #[trigger] c.finished()[i],
            target,
        ) by {
            if i < b.done.len() {
                assert(c.finished()[i] == b.finished()[i]);
            } else if i < c.done.len() && c.done[i] == b.open {
                assert(c.finished()[i] == b.open);
            }
        }
    }
}

proof fn lemma_chunking_error(sessions: Seq<SessionView>, target: nat, n: int)
    requires
        0 <= n <= sessions.len(),
        chunking(sessions.take(n), target) is Err,
    ensures
        chunking(sessions, target) == chunking(sessions.take(n), target),
    decreases sessions.len() - n,
{
    if n < sessions.len() {
        assert(sessions.take(n + 1).drop_last() =~= sessions.take(n));
        lemma_chunking_error(sessions, target, n + 1);
    } else {
        assert(sessions.take(n) =~= sessions);
    }
}

/// A data file and an index file hold exactly the chunks, one block each.
pub open spec fn holds_chunks(
    data: Seq<u8>,
    index: Seq<u8>,
    segment: u32,
    chunks: Seq<Seq<SessionView>>,
) -> bool {
    &&& segment_blocks(data, segment) is Ok
    &&& {
        let blocks = segment_blocks(data, segment)->Ok_0;
        &&& indexes(index, blocks)
        &&& blocks.len() == chunks.len()
        &&& forall|i: int|
            0 <= i < blocks.len() ==> {
                let b = #[trigger] blocks[i];
                &&& b.stored == chunk_record(chunks[i])
                &&& b.raw == stored_bytes(chunk_record(chunks[i])).len()
            }
        &&& payloads(data.skip(8)).len() == chunks.len()
        &&& forall|i: int|
            0 <= i < chunks.len() ==> packed(chunk_record(#[trigger] chunks[i])) == Some(
                payloads(data.skip(8))[i],
            )
    }
}

/// `after` is `before` with the two files of a segment rewritten so that they
/// hold the chunks.
pub open spec fn rewritten(
    before: Seq<FileView>,
    segment: u32,
    chunks: Seq<Seq<SessionView>>,
    after: Seq<FileView>,
) -> bool {
    exists|data: Seq<u8>, index: Seq<u8>|
        {
            &&& #[trigger] holds_chunks(data, index, segment, chunks)
            &&& after == written(
                written(before, data_name(segment), data),
                index_name(segment),
                index,
            )
        }
}

/// A chunk's block or its index entry was refused.
pub open spec fn chunk_refused(chunks: Seq<Seq<SessionView>>, e: StorageError) -> bool {
    exists|i: int, offset: int|
        0 <= i < chunks.len() && #[trigger] write_refused(
            chunk_record(chunks[i]),
            offset,
            e,
        )
}

/// The error of rewriting the active segment: wrong magic bytes are told
/// without the file's name.
pub open spec fn rewrite_error(e: StorageError) -> StorageError {
    match e {
        StorageError::InvalidFormat { .. } => StorageError::UnknownFormat,
        _ => e,
    }
}

/// Where the chunks of a chunking were written, no block is empty, and a block
/// of several sessions has at most `target` compressed bytes or less than
/// twice as many uncompressed ones.
pub proof fn law_rewritten_blocks_fit_target(
    data: Seq<u8>,
    index: Seq<u8>,
    segment: u32,
    sessions: Seq<SessionView>,
    target: nat,
    i: int,
)
    requires
        chunking(sessions, target) is Ok,
        holds_chunks(data, index, segment, chunking(sessions, target)->Ok_0.finished()),
        0 <= i < segment_blocks(data, segment)->Ok_0.len(),
    ensures
        ({
            let b = segment_blocks(data, segment)->Ok_0[i];
            let n = b.stored.sessions().len();
            &&& n > 0
            &&& n > 1 ==> b.compressed <= target || b.raw < 2 * target
        }),
{
    let chunks = chunking(sessions, target)->Ok_0.finished();
    let b = segment_blocks(data, segment)->Ok_0[i];
    lemma_chunking_keeps_sessions(sessions, target);
    law_chunks_fit_target(sessions, target);
    lemma_blocks_in(payloads(data.skip(8)));
    assert(chunks[i].len() > 0);
    assert(fits_target(chunks[i], target));
    assert(b.stored == chunk_record(chunks[i]));
    assert(b.stored.sessions().len() == chunks[i].len());
    assert(packed(chunk_record(chunks[i])) == Some(payloads(data.skip(8))[i]));
}

/// What an optimisation returns and does.
pub open spec fn optimise_outcome(
    before: Seq<FileView>,
    target: nat,
    after: Seq<FileView>,
    r: Result<(usize, usize), StorageError>,
) -> bool {
    let segment = active_segment(before);
    match lookup(before, data_name(segment)) {
        None => r == Ok::<(usize, usize), StorageError>((0, 0)) && after == before,
        Some(data) => match segment_blocks(data, segment) {
            Err(e) => r == Err::<(usize, usize), StorageError>(rewrite_error(e)) && after
                == before,
            Ok(blocks) => {
                let sessions = sessions_of(blocks);
                match (r, chunking(sessions, target)) {
                    (Ok((block_count, session_count)), Ok(c)) => {
                        &&& block_count == c.finished().len()
                        &&& session_count == sessions.len()
                        &&& rewritten(before, segment, c.finished(), after)
                    },
                    (Ok(_), Err(_)) => false,
                    (Err(e), Ok(c)) => after == before && chunk_refused(c.finished(), e),
                    (Err(e), Err(first)) => after == before && e == first,
                }
            },
        },
    }
}

/// The record of a chunk.
fn record_of(chunk: &Vec<ChatSessionV1>) -> (r: StoredSession)
    requires
        chunk@.len() > 0,
    ensures
        r.deep_view() == chunk_record(chunk.deep_view()),
{
    if chunk.len() == 1 {
        StoredSession::V1(chunk[0].clone())
    } else {
        let copy = chunk.clone();
        assert(copy.deep_view() =~= chunk.deep_view());
        StoredSession::Block(copy)
    }
}

/// Splits sessions into chunks of about `target` compressed bytes.
fn split_chunks(sessions: Vec<ChatSessionV1>, target: usize) -> (r: Result<
    Vec<Vec<ChatSessionV1>>,
    StorageError,
>)
    ensures
        match r {
            Ok(v) => {
                &&& chunking(sessions.deep_view(), target as nat) is Ok
                &&& v.deep_view() == chunking(sessions.deep_view(), target as nat)->Ok_0.finished()
            },
            Err(e) => chunking(sessions.deep_view(), target as nat) == Err::<
                Chunking,
                StorageError,
            >(e),
        },
{
    let ghost all = sessions.deep_view();
    let mut done: Vec<Vec<ChatSessionV1>> = Vec::new();
    let mut open: Vec<ChatSessionV1> = Vec::new();
    proof {
        assert(all.take(0) =~= Seq::<SessionView>::empty());
        assert(done.deep_view() =~= Seq::<Seq<SessionView>>::empty());
        assert(open.deep_view() =~= Seq::<SessionView>::empty());
    }
    for s in it: sessions.into_iter()
        invariant
            it.seq().len() == all.len(),
            all == sessions.deep_view(),
            forall|k: int| 0 <= k < all.len() ==> (#[trigger] it.seq()[k]).deep_view() == all[k],
            chunking(all.take(it.index() as int), target as nat) == Ok::<Chunking, StorageError>(
                Chunking { done: done.deep_view(), open: open.deep_view() },
            ),
    {
        let ghost k = it.index() as int;
        let ghost c = Chunking { done: done.deep_view(), open: open.deep_view() };
        let ghost view = s.deep_view();
        proof {
            assert(view == it.seq()[k].deep_view());
            let t = all.take(k + 1);
            assert(t.drop_last() =~= all.take(k));
            assert(t.last() == all[k]);
        }
        open.push(s);
        assert(open.deep_view() =~= c.open.push(view));
        let record = record_of(&open);
        let raw = encode_stored(&record);
        if raw.len() / 2 >= target {
            match pack(&record) {
                None => {
                    proof {
                        lemma_chunking_error(all, target as nat, k + 1);
                    }
                    return Err(StorageError::Compress);
                },
                Some((block, _)) => {
                    if block.len() > target && open.len() > 1 {
                        let last = open.pop().unwrap();
                        assert(open.deep_view() =~= c.open);
                        done.push(open);
                        assert(done.deep_view() =~= c.done.push(c.open));
                        open = Vec::new();
                        open.push(last);
                        assert(open.deep_view() =~= seq![view]);
                    } else if block.len() >= target {
                        let ghost chunk = open.deep_view();
                        done.push(open);
                        assert(done.deep_view() =~= c.done.push(chunk));
                        open = Vec::new();
                        assert(open.deep_view() =~= Seq::<SessionView>::empty());
                    }
                },
            }
        }
    }
    assert(all.take(all.len() as int) =~= all);
    if open.len() > 0 {
        let ghost before = done.deep_view();
        let ghost chunk = open.deep_view();
        done.push(open);
        assert(done.deep_view() =~= before.push(chunk));
    }
    Ok(done)
}

pub proof fn lemma_fresh_segment(segment: u32)
    ensures
        segment_blocks(DATA_MAGIC@, segment) == Ok::<Seq<BlockView>, StorageError>(Seq::empty()),
        payloads(DATA_MAGIC@.skip(8)) == Seq::<Seq<u8>>::empty(),
        indexes(Seq::empty(), Seq::empty()),
{
    let rest = DATA_MAGIC@.skip(8);
    assert(rest =~= Seq::<u8>::empty());
    assert(DATA_MAGIC@.take(8) =~= DATA_MAGIC@);
    assert(payloads(rest) =~= Seq::<Seq<u8>>::empty());
    assert(tail(rest) == Tail::Clean);
    assert(payloads(Seq::<u8>::empty()) =~= Seq::<Seq<u8>>::empty());
}

/// The data file and the index file that hold the chunks.
fn write_chunks(chunks: &Vec<Vec<ChatSessionV1>>, segment: u32) -> (r: Result<
    (Vec<u8>, Vec<u8>),
    StorageError,
>)
    requires
        forall|i: int| 0 <= i < chunks@.len() ==> (#[trigger] chunks@[i])@.len() > 0,
    ensures
        match r {
            Ok((data, index)) => holds_chunks(data@, index@, segment, chunks.deep_view()),
            Err(e) => chunk_refused(chunks.deep_view(), e),
        },
{
    let ghost all = chunks.deep_view();
    let mut data: Vec<u8> = Vec::new();
    data.extend_from_slice(&DATA_MAGIC);
    let mut index: Vec<u8> = Vec::new();
    let mut i: usize = 0;
    proof {
        assert(data@ =~= DATA_MAGIC@);
        assert(index@ =~= Seq::<u8>::empty());
        lemma_fresh_segment(segment);
        assert(all.take(0) =~= Seq::<Seq<SessionView>>::empty());
    }
    while i < chunks.len()
        invariant
            i <= chunks@.len(),
            all == chunks.deep_view(),
            forall|i: int| 0 <= i < chunks@.len() ==> (#[trigger] chunks@[i])@.len() > 0,
            holds_chunks(data@, index@, segment, all.take(i as int)),
        decreases chunks@.len() - i,
    {
        let record = record_of(&chunks[i]);
        let ghost v = record.deep_view();
        assert(all[i as int] == chunks@[i as int].deep_view());
        match frames_of(&record, data.len() as u64) {
            Err(e) => {
                assert(write_refused(chunk_record(all[i as int]), data@.len() as int, e));
                return Err(e);
            },
            Ok((mut data_frame, mut index_frame)) => {
                let ghost data_before = data@;
                let ghost index_before = index@;
                let ghost (block, entry) = choose|block: Seq<u8>, entry: Seq<u8>|
                    {
                        &&& #[trigger] record_payloads(v, data_before.len() as int, block, entry)
                        &&& data_frame@ == frame(block)
                        &&& index_frame@ == frame(entry)
                    };
                data.append(&mut data_frame);
                index.append(&mut index_frame);
                proof {
                    let t = all.take(i + 1);
                    assert(t =~= all.take(i as int).push(all[i as int]));
                    let blocks = segment_blocks(data_before, segment)->Ok_0;
                    lemma_data_grows(data_before, segment, v, block, entry);
                    lemma_index_grows(index_before, blocks, v, data_before.len(), block, entry);
                }
            },
        }
        i += 1;
    }
    assert(all.take(i as int) =~= all);
    Ok((data, index))
}

/// The sessions of a data file, in order; `progress` is called for each as it
/// is read.
#[verifier::rlimit(30)]
fn read_sessions<F>(data: &Vec<u8>, segment: u32, progress: &mut Progress<F>) -> (r: Result<
    Vec<ChatSessionV1>,
    StorageError,
>) where F: FnMut(usize)
    requires
        old(progress).inner().requires((1usize,)),
    ensures
        final(progress).inner().requires((1usize,)),
        final(progress).calls() >= old(progress).calls(),
        match r {
            Ok(v) => {
                &&& segment_blocks(data@, segment) is Ok
                &&& v.deep_view() == sessions_of(segment_blocks(data@, segment)->Ok_0)
                &&& final(progress).calls() == old(progress).calls() + v@.len()
            },
            Err(e) => segment_blocks(data@, segment) == Err::<Seq<BlockView>, StorageError>(e),
        },
{
    match check_header(data, segment) {
        Some(e) => {
            return Err(e);
        },
        None => {},
    }
    let bytes = data.as_slice();
    let frames = walk(bytes, 8);
    let ghost ps = payloads(data@.skip(8));
    let ghost mut blocks: Seq<BlockView> = Seq::empty();
    let mut out: Vec<ChatSessionV1> = Vec::new();
    let mut i: usize = 0;
    assert(ps.take(0) =~= Seq::<Seq<u8>>::empty());
    assert(out.deep_view() =~= sessions_of(blocks));
    while i < frames.spans.len()
        invariant
            i <= frames.spans@.len(),
            bytes@ == data@,
            ps == payloads(data@.skip(8)),
            frames.describe(data@, 8),
            header_error(data@, segment) is None,
            progress.inner().requires((1usize,)),
            progress.calls() == old(progress).calls() + out@.len(),
            blocks_in(ps.take(i as int)) == Ok::<Seq<BlockView>, StorageError>(blocks),
            out.deep_view() == sessions_of(blocks),
        decreases frames.spans@.len() - i,
    {
        let span = frames.spans[i];
        let ghost before = out.deep_view();
        proof {
            assert(ps[i as int] == bytes@.subrange(span.start as int, span.end as int));
            let t = ps.take(i + 1);
            assert(t.drop_last() =~= ps.take(i as int));
            assert(t.last() == ps[i as int]);
        }
        match unpack(slice_subrange(bytes, span.start, span.end)) {
            Err(e) => {
                proof {
                    lemma_blocks_in_error(ps, i + 1);
                }
                return Err(e);
            },
            Ok((stored, _)) => {
                let ghost grown = blocks_in(ps.take(i + 1))->Ok_0;
                let mut more = stored.into_sessions();
                let ghost added = more.deep_view();
                let count: usize = more.len();
                for n in 0..count
                    invariant
                        progress.inner().requires((1usize,)),
                        progress.calls() == old(progress).calls() + out@.len() + n,
                {
                    progress.advance();
                }
                out.append(&mut more);
                proof {
                    assert(out.deep_view() =~= before + added);
                    assert(grown.drop_last() =~= blocks);
                    blocks = grown;
                }
            },
        }
        i += 1;
    }
    assert(ps.take(i as int) =~= ps);
    if frames.tail == Tail::Clean {
        Ok(out)
    } else {
        Err(StorageError::UnexpectedEof)
    }
}

impl Storage {
    /// Rewrites the active data/index files using chunked blocks.
    pub fn optimise(&mut self, target_bytes: usize) -> (r: Result<(usize, usize), StorageError>)
        ensures
            final(self)@.pending == old(self)@.pending,
            optimise_outcome(old(self)@.files, target_bytes as nat, final(self)@.files, r),
            sound(old(self)@.files) && r is Ok ==> contents(final(self)@.files) == contents(
                old(self)@.files,
            ),
    {
        let r = self.optimise_with_progress(target_bytes, |_n: usize| {});
        proof {
            if sound(old(self)@.files) && r is Ok {
                law_optimise_keeps_sessions(
                    old(self)@.files,
                    target_bytes as nat,
                    self@.files,
                    r->Ok_0,
                );
            }
        }
        r
    }

    /// Optimise data file into ~target_bytes compressed blocks and rebuild index.
    ///
    /// Calls `on_session` for each session processed.
    pub fn optimise_with_progress<F>(&mut self, target_bytes: usize, on_session: F) -> (r: Result<
        (usize, usize),
        StorageError,
    >) where F: FnMut(usize)
        requires
            on_session.requires((1usize,)),
        ensures
            final(self)@.pending == old(self)@.pending,
            optimise_outcome(old(self)@.files, target_bytes as nat, final(self)@.files, r),
    {
        let mut progress = Progress::new(on_session);
        self.optimise_reporting(target_bytes, &mut progress)
    }

    /// Optimises and calls `progress` once for each session of the active
    /// segment: for all of them where it succeeds.
    pub fn optimise_reporting<F>(
        &mut self,
        target_bytes: usize,
        progress: &mut Progress<F>,
    ) -> (r: Result<(usize, usize), StorageError>) where F: FnMut(usize)
        requires
            old(progress).inner().requires((1usize,)),
        ensures
            final(self)@.pending == old(self)@.pending,
            optimise_outcome(old(self)@.files, target_bytes as nat, final(self)@.files, r),
            final(progress).inner().requires((1usize,)),
            match r {
                Ok((_, sessions)) => final(progress).calls() == old(progress).calls() + sessions,
                Err(_) => final(progress).calls() >= old(progress).calls(),
            },
    {
        let segment: u32 = self.dir.get_active_segment_num();
        let name = data_file_name(segment);
        let sessions = match self.dir.read(name.as_str()) {
            None => {
                return Ok((0, 0));
            },
            Some(data) => match read_sessions(data, segment, progress) {
                Err(StorageError::InvalidFormat { .. }) => {
                    return Err(StorageError::UnknownFormat);
                },
                Err(e) => {
                    return Err(e);
                },
                Ok(sessions) => sessions,
            },
        };
        let session_count: usize = sessions.len();
        let ghost all = sessions.deep_view();
        let chunks = match split_chunks(sessions, target_bytes) {
            Err(e) => {
                return Err(e);
            },
            Ok(chunks) => chunks,
        };
        proof {
            lemma_chunking_keeps_sessions(all, target_bytes as nat);
            assert forall|i: int| 0 <= i < chunks@.len() implies (#[trigger] chunks@[i])@.len()
                > 0 by {
                assert(chunks.deep_view()[i].len() > 0);
            }
        }
        match write_chunks(&chunks, segment) {
            Err(e) => Err(e),
            Ok((data, index)) => {
                let ghost (d, x) = (data@, index@);
                assert(holds_chunks(d, x, segment, chunks.deep_view()));
                self.dir.write(name, data);
                self.dir.write(index_file_name(segment), index);
                Ok((chunks.len(), session_count))
            },
        }
    }
}

/// What a compaction returns and does: a flush first, so that the sessions
/// that were just finalised are included, then an optimisation.
pub open spec fn compact_outcome(
    before: StorageView,
    target: nat,
    after: StorageView,
    r: Result<(usize, usize), StorageError>,
) -> bool {
    exists|mid: StorageView, flushed: Result<usize, StorageError>|
        {
            &&& #[trigger] flush_outcome(before, mid, flushed)
            &&& match flushed {
                Err(e) => after == mid && r == Err::<(usize, usize), StorageError>(e),
                Ok(_) => after.pending == mid.pending && optimise_outcome(
                    mid.files,
                    target,
                    after.files,
                    r,
                ),
            }
        }
}

impl Storage {
    /// Moves finalised sessions to the archive and rewrites the active segment.
    ///
    /// Calls `on_session` for each session processed.
    pub fn compact_with_progress<F>(&mut self, target_bytes: usize, on_session: F) -> (r: Result<
        (usize, usize),
        StorageError,
    >) where F: FnMut(usize)
        requires
            on_session.requires((1usize,)),
        ensures
            compact_outcome(old(self)@, target_bytes as nat, final(self)@, r),
            sound(old(self)@.files) && r is Ok ==> contents(final(self)@.files) == contents(
                old(self)@.files,
            ) + waiting(old(self)@),
    {
        let ghost before = self@;
        let flushed = self.flush_pending();
        assert(flush_outcome(before, self@, flushed));
        let r = match flushed {
            Err(e) => Err(e),
            Ok(_) => self.optimise_with_progress(target_bytes, on_session),
        };
        proof {
            if sound(before.files) && r is Ok {
                law_compact_keeps_sessions(before, target_bytes as nat, self@, r->Ok_0);
            }
        }
        r
    }
}

} // verus!
