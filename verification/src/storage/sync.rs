//! Agreement between the data file and the index file of a segment.
use vstd::prelude::*;
use crate::codec::stored_bytes;
use crate::frames::{
    frame, framed, lemma_clean_is_framed, lemma_frame_reads_back, lemma_payloads_concat, payloads,
    tail, Tail,
};
use crate::index::entry_value;
use crate::schema::StoredView;
use crate::storage::blocks::describes;
use crate::storage::directory::{data_name, index_name, lookup, FileView};
use crate::storage::segment::{segment_blocks, BlockView};
use crate::storage::types::StorageError;
use crate::storage::writer::record_payloads;

verus! {

/// A compressed entry describes a block.
pub open spec fn entry_for(entry: Seq<u8>, b: BlockView) -> bool {
    &&& entry_value(entry) is Ok
    &&& describes(
        entry_value(entry)->Ok_0,
        b.stored,
        b.offset as int,
        b.compressed as int,
        b.raw as int,
    )
}

/// The index file has exactly one entry for each block, in order.
pub open spec fn indexes(index: Seq<u8>, blocks: Seq<BlockView>) -> bool {
    &&& tail(index) == Tail::Clean
    &&& payloads(index).len() == blocks.len()
    &&& forall|i: int|
        0 <= i < blocks.len() ==> entry_for(#[trigger] payloads(index)[i], blocks[i])
}

/// The index file of a segment describes its data file.
pub open spec fn in_sync(files: Seq<FileView>, segment: u32) -> bool {
    match lookup(files, data_name(segment)) {
        None => true,
        Some(data) => {
            &&& segment_blocks(data, segment) is Ok
            &&& lookup(files, index_name(segment)) is Some
            &&& indexes(
                lookup(files, index_name(segment))->0,
                segment_blocks(data, segment)->Ok_0,
            )
        },
    }
}

/// The block that a record makes at an offset.
pub open spec fn block_of(v: StoredView, offset: nat, block: Seq<u8>) -> BlockView {
    BlockView {
        offset,
        compressed: block.len(),
        raw: stored_bytes(v).len(),
        stored: v,
    }
}

/// A record behind a data file is one more block, the last one.
pub proof fn lemma_data_grows(
    data: Seq<u8>,
    segment: u32,
    v: StoredView,
    block: Seq<u8>,
    entry: Seq<u8>,
)
    requires
        segment_blocks(data, segment) is Ok,
        record_payloads(v, data.len() as int, block, entry),
    ensures
        segment_blocks(data + frame(block), segment) == Ok::<Seq<BlockView>, StorageError>(
            segment_blocks(data, segment)->Ok_0.push(block_of(v, data.len(), block)),
        ),
        payloads((data + frame(block)).skip(8)) == payloads(data.skip(8)).push(block),
{
    let new = data + frame(block);
    let old_rest = data.skip(8);
    let ps = payloads(old_rest);
    assert(new.take(8) =~= data.take(8));
    assert(new.skip(8) =~= old_rest + frame(block));
    lemma_frame_reads_back(block);
    lemma_payloads_concat(old_rest, frame(block));
    assert(payloads(new.skip(8)) =~= ps.push(block));
    assert(ps.push(block).drop_last() =~= ps);
    lemma_clean_is_framed(old_rest);
    assert(data.len() == 8 + framed(ps).len());
}

/// An entry behind an index file describes one more block.
pub proof fn lemma_index_grows(
    index: Seq<u8>,
    blocks: Seq<BlockView>,
    v: StoredView,
    offset: nat,
    block: Seq<u8>,
    entry: Seq<u8>,
)
    requires
        indexes(index, blocks),
        record_payloads(v, offset as int, block, entry),
    ensures
        indexes(index + frame(entry), blocks.push(block_of(v, offset, block))),
{
    let new = index + frame(entry);
    let all = blocks.push(block_of(v, offset, block));
    lemma_frame_reads_back(entry);
    lemma_payloads_concat(index, frame(entry));
    assert(payloads(new) =~= payloads(index).push(entry));
    assert forall|i: int| 0 <= i < all.len() implies entry_for(
        #[trigger] payloads(new)[i],
        all[i],
    ) by {
        if i < blocks.len() {
            assert(payloads(new)[i] == payloads(index)[i]);
        } else {
            assert(payloads(new)[i] == entry);
        }
    }
}

} // verus!
