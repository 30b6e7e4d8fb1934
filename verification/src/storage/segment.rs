//! Reading one segment: the blocks of its data file.
use vstd::prelude::*;
use vstd::slice::slice_subrange;
use crate::codec::{unpack, unpacked};
use crate::frames::{framed, payloads, tail, walk, Tail};
use crate::schema::{SessionView, StoredSession, StoredView};
use crate::storage::constants::DATA_MAGIC;
use crate::storage::types::StorageError;

verus! {

/// One block of a data file.
pub struct Block {
    /// Where its frame starts in the file.
    pub offset: u64,
    /// Size of the compressed payload.
    pub compressed_size: u32,
    /// Size before compression.
    pub raw_len: usize,
    pub stored: StoredSession,
}

#[verifier::ext_equal]
pub ghost struct BlockView {
    pub offset: nat,
    pub compressed: nat,
    pub raw: nat,
    pub stored: StoredView,
}

impl DeepView for Block {
    type V = BlockView;

    open spec fn deep_view(&self) -> BlockView {
        BlockView {
            offset: self.offset as nat,
            compressed: self.compressed_size as nat,
            raw: self.raw_len as nat,
            stored: self.stored.deep_view(),
        }
    }
}

/// The sessions of blocks, in order.
pub open spec fn sessions_of(blocks: Seq<BlockView>) -> Seq<SessionView>
    decreases blocks.len(),
{
    if blocks.len() == 0 {
        Seq::empty()
    } else {
        sessions_of(blocks.drop_last()) + blocks.last().stored.sessions()
    }
}

/// What is wrong with the start of a data file, if anything.
pub open spec fn header_error(data: Seq<u8>, segment: u32) -> Option<StorageError> {
    if data.len() < 8 {
        Some(StorageError::UnexpectedEof)
    } else if data.take(8) != DATA_MAGIC@ {
        Some(StorageError::InvalidFormat { segment })
    } else {
        None
    }
}

/// Checks the start of a data file.
pub fn check_header(data: &Vec<u8>, segment: u32) -> (r: Option<StorageError>)
    ensures
        r == header_error(data@, segment),
{
    if data.len() < 8 {
        return Some(StorageError::UnexpectedEof);
    }
    let mut i: usize = 0;
    while i < 8
        invariant
            i <= 8 <= data@.len(),
            forall|k: int| 0 <= k < i ==> data@[k] == DATA_MAGIC@[k],
        decreases 8 - i,
    {
        if data[i] != DATA_MAGIC[i] {
            assert(data@.take(8)[i as int] != DATA_MAGIC@[i as int]);
            return Some(StorageError::InvalidFormat { segment });
        }
        i += 1;
    }
    assert(data@.take(8) =~= DATA_MAGIC@);
    None
}

/// The blocks in the frames of a data file, or the first error among them.
pub open spec fn blocks_in(ps: Seq<Seq<u8>>) -> Result<Seq<BlockView>, StorageError>
    decreases ps.len(),
{
    if ps.len() == 0 {
        Ok(Seq::empty())
    } else {
        let front = ps.drop_last();
        match blocks_in(front) {
            Err(e) => Err(e),
            Ok(blocks) => match unpacked(ps.last()) {
                Err(e) => Err(e),
                Ok((stored, raw)) => Ok(
                    blocks.push(
                        BlockView {
                            offset: 8 + framed(front).len(),
                            compressed: ps.last().len(),
                            raw,
                            stored,
                        },
                    ),
                ),
            },
        }
    }
}

/// The blocks of a data file, or the first error on the way through it.
pub open spec fn segment_blocks(data: Seq<u8>, segment: u32) -> Result<
    Seq<BlockView>,
    StorageError,
> {
    match header_error(data, segment) {
        Some(e) => Err(e),
        None => match blocks_in(payloads(data.skip(8))) {
            Err(e) => Err(e),
            Ok(blocks) => if tail(data.skip(8)) == Tail::Clean {
                Ok(blocks)
            } else {
                Err(StorageError::UnexpectedEof)
            },
        },
    }
}

/// What blocks say of the frames they were read from.
pub proof fn lemma_blocks_in(ps: Seq<Seq<u8>>)
    requires
        blocks_in(ps) is Ok,
    ensures
        blocks_in(ps)->Ok_0.len() == ps.len(),
        forall|i: int|
            0 <= i < ps.len() ==> {
                let b = #[trigger] blocks_in(ps)->Ok_0[i];
                &&& unpacked(ps[i]) == Ok::<(StoredView, nat), StorageError>((b.stored, b.raw))
                &&& b.offset == 8 + framed(ps.take(i)).len()
                &&& b.compressed == ps[i].len()
            },
    decreases ps.len(),
{
    if ps.len() > 0 {
        let front = ps.drop_last();
        lemma_blocks_in(front);
        let all = blocks_in(ps)->Ok_0;
        assert forall|i: int| 0 <= i < ps.len() implies {
            let b = #[trigger] all[i];
            &&& unpacked(ps[i]) == Ok::<(StoredView, nat), StorageError>((b.stored, b.raw))
            &&& b.offset == 8 + framed(ps.take(i)).len()
            &&& b.compressed == ps[i].len()
        } by {
            if i < front.len() {
                assert(all[i] == blocks_in(front)->Ok_0[i]);
                assert(front.take(i) =~= ps.take(i));
            } else {
                assert(ps.take(i) =~= front);
            }
        }
    }
}

/// An error among the first frames is the error of all of them.
pub proof fn lemma_blocks_in_error(ps: Seq<Seq<u8>>, n: int)
    requires
        0 <= n <= ps.len(),
        blocks_in(ps.take(n)) is Err,
    ensures
        blocks_in(ps) == blocks_in(ps.take(n)),
    decreases ps.len() - n,
{
    if n < ps.len() {
        let t = ps.take(n + 1);
        assert(t.drop_last() =~= ps.take(n));
        lemma_blocks_in_error(ps, n + 1);
    } else {
        assert(ps.take(n) =~= ps);
    }
}

pub proof fn lemma_blocks_in_errors(ps: Seq<Seq<u8>>)
    ensures
        match blocks_in(ps) {
            Ok(_) => true,
            Err(e) => e == StorageError::Decompress || e == StorageError::Decode,
        },
    decreases ps.len(),
{
    if ps.len() > 0 {
        lemma_blocks_in_errors(ps.drop_last());
    }
}

/// The errors that reading a data file can end with.
pub proof fn lemma_segment_errors(data: Seq<u8>, segment: u32)
    ensures
        match segment_blocks(data, segment) {
            Ok(_) => true,
            Err(e) => e == StorageError::UnexpectedEof || e == (StorageError::InvalidFormat {
                segment,
            }) || e == StorageError::Decompress || e == StorageError::Decode,
        },
{
    lemma_blocks_in_errors(payloads(data.skip(8)));
}

/// Reads the blocks of a data file.
pub fn read_segment(data: &Vec<u8>, segment: u32) -> (r: Result<Vec<Block>, StorageError>)
    ensures
        match r {
            Ok(v) => segment_blocks(data@, segment) == Ok::<Seq<BlockView>, StorageError>(
                v.deep_view(),
            ),
            Err(e) => segment_blocks(data@, segment) == Err::<Seq<BlockView>, StorageError>(e),
        },
{
    match check_header(data, segment) {
        Some(e) => {
            return Err(e);
        },
        None => {},
    }
    let bytes = data.as_slice();
    let frames = walk(bytes, 8);
    let ghost ps = payloads(data@.skip(8));
    let mut blocks: Vec<Block> = Vec::new();
    let mut i: usize = 0;
    assert(ps.take(0) =~= Seq::<Seq<u8>>::empty());
    assert(blocks.deep_view() =~= Seq::<BlockView>::empty());
    while i < frames.spans.len()
        invariant
            i <= frames.spans@.len(),
            bytes@ == data@,
            ps == payloads(data@.skip(8)),
            frames.describe(data@, 8),
            header_error(data@, segment) is None,
            blocks_in(ps.take(i as int)) == Ok::<Seq<BlockView>, StorageError>(
                blocks.deep_view(),
            ),
        decreases frames.spans@.len() - i,
    {
        let span = frames.spans[i];
        let ghost before = blocks.deep_view();
        proof {
            assert(ps[i as int] == ps[i as int]);
            let t = ps.take(i + 1);
            assert(t.drop_last() =~= ps.take(i as int));
            assert(t.last() == ps[i as int]);
        }
        let payload = slice_subrange(bytes, span.start, span.end);
        match unpack(payload) {
            Err(e) => {
                proof {
                    lemma_blocks_in_error(ps, i + 1);
                }
                return Err(e);
            },
            Ok((stored, raw_len)) => {
                let block = Block {
                    offset: (span.start - 4) as u64,
                    compressed_size: (span.end - span.start) as u32,
                    raw_len,
                    stored,
                };
                let ghost view = block.deep_view();
                blocks.push(block);
                assert(blocks.deep_view() =~= before.push(view));
            },
        }
        i += 1;
    }
    assert(ps.take(i as int) =~= ps);
    if frames.tail == Tail::Clean {
        Ok(blocks)
    } else {
        Err(StorageError::UnexpectedEof)
    }
}

} // verus!
