//! Appending a record: the archive stays sound, and a scan shows the record
//! behind everything that was there before.
use vstd::prelude::*;
use crate::codec::{packed, stored_bytes};
use crate::frames::frame;
use crate::schema::{SessionView, StoredView};
use crate::storage::constants::{BULK_CHUNK, DATA_MAGIC, MAX_FILE_SIZE};
use crate::storage::directory::{
    active_segment, ascending, bytes_of, data_name, first_at, index_name, inserted,
    lemma_active_is_highest, lemma_data_names_differ, lemma_first_at,
    lemma_index_name_is_no_data_name, lemma_index_names_differ, lemma_inserted,
    lemma_lookup_written, lemma_segment_number_of_data_name, lemma_segments, lemma_segments_written,
    lemma_written_keeps_names_distinct, lookup, names_distinct, segment_number, segments, written,
    FileView,
};
use crate::storage::ingest::{archived_all, bulk_end, bulk_records, lemma_opened_is_ready};
use crate::storage::optimise::lemma_fresh_segment;
use crate::storage::scan::archive_sessions;
use crate::storage::segment::{segment_blocks, sessions_of, BlockView};
use crate::storage::sync::{block_of, in_sync, indexes, lemma_data_grows, lemma_index_grows};
use crate::storage::types::StorageError;
use crate::storage::writer::{appended_as, archived, opened, record_payloads, writer_segment};

verus! {

/// Data files have the names that the library gives them.
pub open spec fn canonical(files: Seq<FileView>) -> bool {
    forall|i: int|
        0 <= i < files.len() && segment_number((#[trigger] files[i]).name) is Some
            ==> files[i].name == data_name(segment_number(files[i].name)->0)
}

/// No entries wait for a data file that does not exist.
pub open spec fn no_stray_index(files: Seq<FileView>) -> bool {
    forall|n: u32|
        lookup(files, #[trigger] data_name(n)) is None ==> bytes_of(files, index_name(n)).len()
            == 0
}

/// Every index file describes its data file.
pub open spec fn indexed(files: Seq<FileView>) -> bool {
    &&& no_stray_index(files)
    &&& forall|n: u32| in_sync(files, n)
}

/// No two files go by the number of the same segment.
pub open spec fn listed_once(files: Seq<FileView>) -> bool {
    forall|i: int, j: int|
        0 <= i < j < segments(files).len() ==> segments(files)[i] < segments(files)[j]
}

/// An archive as the library leaves it: names are distinct and canonical, and
/// every index file describes its data file.
pub open spec fn sound(files: Seq<FileView>) -> bool {
    &&& names_distinct(files)
    &&& canonical(files)
    &&& indexed(files)
}

/// A directory without files is sound.
pub proof fn law_empty_is_sound()
    ensures
        sound(Seq::empty()),
{
    let none = Seq::<FileView>::empty();
    assert forall|n: u32| in_sync(none, n) by {
        lemma_first_at(none, data_name(n));
    }
    assert forall|n: u32| lookup(none, #[trigger] data_name(n)) is None implies bytes_of(
        none,
        index_name(n),
    ).len() == 0 by {
        lemma_first_at(none, index_name(n));
    }
}

proof fn lemma_written_keeps_canonical(files: Seq<FileView>, name: Seq<char>, data: Seq<u8>)
    requires
        canonical(files),
        segment_number(name) is Some ==> name == data_name(segment_number(name)->0),
    ensures
        canonical(written(files, name, data)),
{
    lemma_first_at(files, name);
    let new = written(files, name, data);
    assert forall|i: int|
        0 <= i < new.len() && segment_number((#[trigger] new[i]).name) is Some implies new[i].name
        == data_name(segment_number(new[i].name)->0) by {
        if i < files.len() {
            assert(new[i].name == files[i].name);
        }
    }
}

/// In a sound archive every listed segment has its data file, and segments
/// are listed once.
pub proof fn lemma_sound_segments(files: Seq<FileView>)
    requires
        names_distinct(files),
        canonical(files),
    ensures
        forall|i: int, j: int|
            0 <= i < j < segments(files).len() ==> segments(files)[i] < segments(files)[j],
        forall|n: u32|
            segments(files).contains(n) <==> lookup(files, #[trigger] data_name(n)) is Some,
    decreases files.len(),
{
    lemma_segments(files);
    assert forall|n: u32|
        segments(files).contains(n) <==> lookup(files, #[trigger] data_name(n)) is Some by {
        lemma_first_at(files, data_name(n));
        lemma_segment_number_of_data_name(n);
        if segments(files).contains(n) {
            let i = choose|i: int|
                0 <= i < files.len() && segment_number((#[trigger] files[i]).name) == Some(n);
            assert(files[i].name == data_name(n));
        }
        if lookup(files, data_name(n)) is Some {
            let i = first_at(files, data_name(n)) as int;
            assert(segment_number(files[i].name) == Some(n));
        }
    }
    lemma_distinct_segments(files);
}

proof fn lemma_distinct_segments(files: Seq<FileView>)
    requires
        names_distinct(files),
        canonical(files),
    ensures
        forall|i: int, j: int|
            0 <= i < j < segments(files).len() ==> segments(files)[i] < segments(files)[j],
    decreases files.len(),
{
    if files.len() > 0 {
        let front = files.drop_last();
        assert(names_distinct(front)) by {
            assert forall|i: int, j: int| 0 <= i < j < front.len() implies (
            #[trigger] front[i]).name != (#[trigger] front[j]).name by {
                assert(files[i].name != files[j].name);
            }
        }
        assert(canonical(front)) by {
            assert forall|i: int|
                0 <= i < front.len() && segment_number((#[trigger] front[i]).name)
                    is Some implies front[i].name == data_name(
                segment_number(front[i].name)->0,
            ) by {
                assert(front[i] == files[i]);
            }
        }
        lemma_distinct_segments(front);
        lemma_segments(front);
        lemma_segments(files);
        match segment_number(files.last().name) {
            None => {},
            Some(n) => {
                let f = segments(front);
                let s = segments(files);
                if f.contains(n) {
                    let i = choose|i: int|
                        0 <= i < front.len() && segment_number((#[trigger] front[i]).name)
                            == Some(n);
                    assert(files[i].name == data_name(n));
                    assert(files[files.len() - 1].name == data_name(n));
                    assert(files[i].name != files[files.len() - 1].name);
                }
                lemma_inserted_strict(f, n);
            },
        }
    }
}

proof fn lemma_inserted_strict(s: Seq<u32>, n: u32)
    requires
        forall|i: int, j: int| 0 <= i < j < s.len() ==> s[i] < s[j],
        !s.contains(n),
    ensures
        forall|i: int, j: int|
            0 <= i < j < inserted(s, n).len() ==> inserted(s, n)[i] < inserted(s, n)[j],
    decreases s.len(),
{
    let r = inserted(s, n);
    if s.len() > 0 && s.last() > n {
        let front = s.drop_last();
        assert(!front.contains(n)) by {
            if front.contains(n) {
                let i = choose|i: int| 0 <= i < front.len() && front[i] == n;
                assert(s[i] == n);
            }
        }
        lemma_inserted_strict(front, n);
        lemma_inserted(front, n);
        let f = inserted(front, n);
        assert forall|i: int, j: int| 0 <= i < j < r.len() implies r[i] < r[j] by {
            if j == f.len() {
                if i < f.len() - 1 {
                    assert(f[i] < f[f.len() - 1]);
                }
                if front.len() > 0 {
                    assert(s[front.len() - 1] < s[s.len() - 1]);
                }
            }
        }
    } else if s.len() > 0 {
        assert(s[s.len() - 1] != n);
        assert forall|i: int, j: int| 0 <= i < j < r.len() implies r[i] < r[j] by {
            if j == s.len() && i < s.len() - 1 {
                assert(s[i] < s[s.len() - 1]);
            }
        }
    }
}

/// Writing the two files of a segment leaves the other segments alone.
pub proof fn lemma_other_segments(
    before: Seq<FileView>,
    segment: u32,
    data: Seq<u8>,
    index: Seq<u8>,
    n: u32,
)
    requires
        n != segment,
    ensures
        ({
            let after = written(
                written(before, data_name(segment), data),
                index_name(segment),
                index,
            );
            &&& lookup(after, data_name(n)) == lookup(before, data_name(n))
            &&& lookup(after, index_name(n)) == lookup(before, index_name(n))
        }),
{
    let mid = written(before, data_name(segment), data);
    lemma_data_names_differ(n, segment);
    lemma_index_names_differ(n, segment);
    lemma_segment_number_of_data_name(n);
    lemma_segment_number_of_data_name(segment);
    lemma_index_name_is_no_data_name(n);
    lemma_index_name_is_no_data_name(segment);
    lemma_lookup_written(before, data_name(segment), data, data_name(n));
    lemma_lookup_written(before, data_name(segment), data, index_name(n));
    lemma_lookup_written(mid, index_name(segment), index, data_name(n));
    lemma_lookup_written(mid, index_name(segment), index, index_name(n));
}

pub proof fn lemma_this_segment(before: Seq<FileView>, segment: u32, data: Seq<u8>, index: Seq<u8>)
    ensures
        ({
            let after = written(
                written(before, data_name(segment), data),
                index_name(segment),
                index,
            );
            &&& lookup(after, data_name(segment)) == Some(data)
            &&& lookup(after, index_name(segment)) == Some(index)
            &&& segments(after) == if lookup(before, data_name(segment)) is Some {
                segments(before)
            } else {
                inserted(segments(before), segment)
            }
        }),
{
    let mid = written(before, data_name(segment), data);
    lemma_segment_number_of_data_name(segment);
    lemma_index_name_is_no_data_name(segment);
    lemma_lookup_written(before, data_name(segment), data, data_name(segment));
    lemma_lookup_written(mid, index_name(segment), index, data_name(segment));
    lemma_lookup_written(mid, index_name(segment), index, index_name(segment));
    lemma_segments_written(before, data_name(segment), data);
    lemma_segments_written(mid, index_name(segment), index);
}

/// Rewriting the two files of a segment so that they agree keeps the others
/// in line.
proof fn lemma_pair_written_is_indexed(
    before: Seq<FileView>,
    segment: u32,
    data: Seq<u8>,
    index: Seq<u8>,
)
    requires
        indexed(before),
        segment_blocks(data, segment) is Ok,
        indexes(index, segment_blocks(data, segment)->Ok_0),
    ensures
        indexed(
            written(written(before, data_name(segment), data), index_name(segment), index),
        ),
{
    let mid = written(before, data_name(segment), data);
    let after = written(mid, index_name(segment), index);
    lemma_this_segment(before, segment, data, index);
    assert forall|n: u32| in_sync(after, n) by {
        if n != segment {
            lemma_other_segments(before, segment, data, index, n);
            assert(in_sync(before, n));
        }
    }
    assert forall|n: u32| lookup(after, #[trigger] data_name(n)) is None implies bytes_of(
        after,
        index_name(n),
    ).len() == 0 by {
        if n != segment {
            lemma_other_segments(before, segment, data, index, n);
        }
    }
}

/// Rewriting the two files of a segment so that they agree keeps an archive
/// sound.
pub proof fn lemma_pair_written_is_sound(
    before: Seq<FileView>,
    segment: u32,
    data: Seq<u8>,
    index: Seq<u8>,
)
    requires
        sound(before),
        segment_blocks(data, segment) is Ok,
        indexes(index, segment_blocks(data, segment)->Ok_0),
    ensures
        sound(
            written(written(before, data_name(segment), data), index_name(segment), index),
        ),
{
    lemma_pair_written_is_indexed(before, segment, data, index);
    lemma_written_keeps_names(before, data_name(segment), segment, data);
    lemma_written_keeps_names(
        written(before, data_name(segment), data),
        index_name(segment),
        segment,
        index,
    );
}

/// The data and the index of a segment that is opened.
proof fn lemma_opened_pair(files: Seq<FileView>, segment: u32)
    requires
        indexed(files),
        segment == active_segment(files) || segment == active_segment(files) + 1,
    ensures
        ({
            let after = opened(files, segment);
            let data = bytes_of(after, data_name(segment));
            let index = bytes_of(after, index_name(segment));
            &&& segment_blocks(data, segment) is Ok
            &&& indexes(index, segment_blocks(data, segment)->Ok_0)
            &&& indexed(after)
        }),
{
    let after = opened(files, segment);
    lemma_fresh_segment(segment);
    assert(in_sync(files, segment));
    lemma_segment_number_of_data_name(segment);
    lemma_index_name_is_no_data_name(segment);
    match lookup(files, data_name(segment)) {
        Some(d) => {
            assert(d.len() >= 8);
            assert(after == files);
        },
        None => {
            let mid = written(files, data_name(segment), DATA_MAGIC@);
            lemma_lookup_written(files, data_name(segment), DATA_MAGIC@, index_name(segment));
            lemma_lookup_written(files, data_name(segment), DATA_MAGIC@, data_name(segment));
            lemma_lookup_written(mid, index_name(segment), Seq::empty(), index_name(segment));
            lemma_lookup_written(mid, index_name(segment), Seq::empty(), data_name(segment));
            assert(bytes_of(files, index_name(segment)) =~= Seq::<u8>::empty());
            if lookup(mid, index_name(segment)) is None {
                lemma_pair_written_is_indexed(files, segment, DATA_MAGIC@, Seq::empty());
            } else {
                lemma_index_unchanged(files, segment);
            }
        },
    }
}

/// A new data file beside an index file without entries keeps the index files
/// in line.
proof fn lemma_index_unchanged(files: Seq<FileView>, segment: u32)
    requires
        indexed(files),
        lookup(files, data_name(segment)) is None,
        lookup(files, index_name(segment)) == Some(Seq::<u8>::empty()),
    ensures
        indexed(written(files, data_name(segment), DATA_MAGIC@)),
{
    let mid = written(files, data_name(segment), DATA_MAGIC@);
    lemma_fresh_segment(segment);
    lemma_segment_number_of_data_name(segment);
    lemma_index_name_is_no_data_name(segment);
    assert forall|n: u32| in_sync(mid, n) by {
        lemma_index_name_is_no_data_name(n);
        lemma_lookup_written(files, data_name(segment), DATA_MAGIC@, data_name(n));
        lemma_lookup_written(files, data_name(segment), DATA_MAGIC@, index_name(n));
        if n != segment {
            lemma_data_names_differ(n, segment);
            assert(in_sync(files, n));
        }
    }
    assert forall|n: u32| lookup(mid, #[trigger] data_name(n)) is None implies bytes_of(
        mid,
        index_name(n),
    ).len() == 0 by {
        lemma_index_name_is_no_data_name(n);
        lemma_lookup_written(files, data_name(segment), DATA_MAGIC@, data_name(n));
        lemma_lookup_written(files, data_name(segment), DATA_MAGIC@, index_name(n));
    }
}

/// A scan depends on the data files of the segments alone.
pub proof fn lemma_archive_sessions_frame(a: Seq<FileView>, b: Seq<FileView>, segs: Seq<u32>)
    requires
        forall|i: int|
            0 <= i < segs.len() ==> lookup(a, data_name(#[trigger] segs[i])) == lookup(
                b,
                data_name(segs[i]),
            ),
    ensures
        archive_sessions(a, segs) == archive_sessions(b, segs),
    decreases segs.len(),
{
    if segs.len() > 0 {
        let front = segs.drop_last();
        assert forall|i: int| 0 <= i < front.len() implies lookup(a, data_name(#[trigger] front[i]))
            == lookup(b, data_name(front[i])) by {
            assert(front[i] == segs[i]);
        }
        lemma_archive_sessions_frame(a, b, front);
        assert(segs.last() == segs[segs.len() - 1]);
    }
}

/// A sound archive can be scanned.
pub proof fn lemma_sound_scans(files: Seq<FileView>, segs: Seq<u32>)
    requires
        forall|n: u32| in_sync(files, n),
    ensures
        archive_sessions(files, segs) is Ok,
    decreases segs.len(),
{
    if segs.len() > 0 {
        lemma_sound_scans(files, segs.drop_last());
        assert(in_sync(files, segs.last()));
    }
}

/// The sessions of a sound archive, oldest first.
pub open spec fn contents(files: Seq<FileView>) -> Seq<SessionView> {
    archive_sessions(files, segments(files))->Ok_0
}

/// `after` has one block more than `before`: the block `b` behind the blocks
/// `old` of the last segment, which may be new. The segments in front of it
/// have not changed.
pub open spec fn grew(
    before: Seq<FileView>,
    after: Seq<FileView>,
    segment: u32,
    front: Seq<u32>,
    old: Seq<BlockView>,
    b: BlockView,
) -> bool {
    &&& segments(after) == front.push(segment)
    &&& forall|i: int|
        0 <= i < front.len() ==> lookup(after, data_name(#[trigger] front[i])) == lookup(
            before,
            data_name(front[i]),
        )
    &&& match lookup(before, data_name(segment)) {
        Some(d) => segments(before) == front.push(segment) && segment_blocks(d, segment) == Ok::<
            Seq<BlockView>,
            StorageError,
        >(old),
        None => segments(before) == front && old == Seq::<BlockView>::empty(),
    }
    &&& lookup(after, data_name(segment)) is Some
    &&& segment_blocks(lookup(after, data_name(segment))->0, segment) == Ok::<
        Seq<BlockView>,
        StorageError,
    >(old.push(b))
}

/// The data file of a segment as it is opened for writing.
pub open spec fn opened_data(files: Seq<FileView>, segment: u32) -> Seq<u8> {
    if bytes_of(files, data_name(segment)).len() == 0 {
        DATA_MAGIC@
    } else {
        bytes_of(files, data_name(segment))
    }
}

/// What archiving a record does to the data files, whatever they hold: one
/// frame more at the end of the last of them, which may be new.
pub proof fn lemma_archived_files(
    before: Seq<FileView>,
    after: Seq<FileView>,
    v: StoredView,
    max_size: u64,
) -> (r: (u32, Seq<u32>, Seq<u8>, Seq<u8>))
    requires
        archived(before, after, v, max_size),
        listed_once(after),
    ensures
        writer_segment(before, max_size) == Some(r.0),
        listed_once(before),
        active_segment(after) == r.0,
        segments(after) == r.1.push(r.0),
        forall|i: int|
            0 <= i < r.1.len() ==> lookup(after, data_name(#[trigger] r.1[i])) == lookup(
                before,
                data_name(r.1[i]),
            ),
        segments(before) == if lookup(before, data_name(r.0)) is Some {
            r.1.push(r.0)
        } else {
            r.1
        },
        lookup(after, data_name(r.0)) == Some(opened_data(before, r.0) + frame(r.2)),
        record_payloads(v, opened_data(before, r.0).len() as int, r.2, r.3),
{
    let segment = writer_segment(before, max_size)->0;
    let base = opened(before, segment);
    lemma_opened_is_ready(before, segment);
    let (block, entry) = choose|block: Seq<u8>, entry: Seq<u8>|
        appended_as(base, segment, after, v, block, entry);
    let d = data_name(segment);
    let x = index_name(segment);
    let data = bytes_of(base, d) + frame(block);
    let index = bytes_of(base, x) + frame(entry);
    lemma_this_segment(base, segment, data, index);
    lemma_segments(before);
    lemma_segments(after);
    let mid = if bytes_of(before, d).len() == 0 {
        written(before, d, DATA_MAGIC@)
    } else {
        before
    };
    lemma_segment_number_of_data_name(segment);
    lemma_index_name_is_no_data_name(segment);
    lemma_segments_written(before, d, DATA_MAGIC@);
    lemma_segments_written(mid, x, Seq::empty());
    let all = segments(after);
    assert(lookup(base, d) is Some);
    assert(segments(base) == all);
    lemma_active_is_highest(after, segment);
    lemma_listed(after, segment);
    let front = all.drop_last();
    let k = choose|k: int| 0 <= k < all.len() && all[k] == segment;
    assert(all.last() == segment) by {
        if k < all.len() - 1 {
            assert(all[k] < all[all.len() - 1]);
        }
    }
    assert(all =~= front.push(segment));
    assert forall|i: int| 0 <= i < front.len() implies lookup(after, data_name(#[trigger] front[i]))
        == lookup(before, data_name(front[i])) by {
        assert(all[i] < all[all.len() - 1]);
        let n = front[i];
        lemma_other_segments(base, segment, data, index, n);
        lemma_data_names_differ(n, segment);
        lemma_segment_number_of_data_name(n);
        lemma_lookup_written(before, d, DATA_MAGIC@, data_name(n));
        lemma_lookup_written(mid, x, Seq::empty(), data_name(n));
    }
    if lookup(before, d) is None {
        assert(all == inserted(segments(before), segment));
        lemma_inserted_behind(segments(before), segment);
        assert(front =~= segments(before));
    }
    assert forall|i: int, j: int| 0 <= i < j < segments(before).len() implies segments(before)[i]
        < segments(before)[j] by {
        assert(all[i] < all[j]);
    }
    (segment, front, block, entry)
}

/// A data file with the library's name is listed.
proof fn lemma_listed(files: Seq<FileView>, n: u32)
    requires
        lookup(files, data_name(n)) is Some,
    ensures
        segments(files).contains(n),
{
    lemma_first_at(files, data_name(n));
    lemma_segment_number_of_data_name(n);
    lemma_segments(files);
    let at = first_at(files, data_name(n)) as int;
    assert(segment_number(files[at].name) == Some(n));
}

/// The data file of a segment, where there is one, can be read.
pub open spec fn readable_at(files: Seq<FileView>, segment: u32) -> bool {
    match lookup(files, data_name(segment)) {
        None => true,
        Some(data) => segment_blocks(data, segment) is Ok,
    }
}

/// An archived record is one more block at the end of an archive whose last
/// data file can be read.
pub proof fn lemma_archived_grew(
    before: Seq<FileView>,
    after: Seq<FileView>,
    v: StoredView,
    max_size: u64,
) -> (r: (u32, Seq<u32>, Seq<BlockView>, BlockView))
    requires
        archived(before, after, v, max_size),
        listed_once(after),
        readable_at(before, writer_segment(before, max_size)->0),
    ensures
        writer_segment(before, max_size) == Some(r.0),
        listed_once(before),
        active_segment(after) == r.0,
        grew(before, after, r.0, r.1, r.2, r.3),
        r.3.stored == v,
        r.3.raw == stored_bytes(v).len(),
        packed(v) is Some,
        r.3.compressed == packed(v)->0.len(),
{
    let (segment, front, block, entry) = lemma_archived_files(before, after, v, max_size);
    let old_data = opened_data(before, segment);
    lemma_fresh_segment(segment);
    lemma_data_grows(old_data, segment, v, block, entry);
    (
        segment,
        front,
        segment_blocks(old_data, segment)->Ok_0,
        block_of(v, old_data.len(), block),
    )
}

/// Archiving a record keeps every index file in line with its data file.
pub proof fn law_append_keeps_indexed(
    before: Seq<FileView>,
    after: Seq<FileView>,
    v: StoredView,
    max_size: u64,
)
    requires
        indexed(before),
        archived(before, after, v, max_size),
    ensures
        indexed(after),
{
    let segment = writer_segment(before, max_size)->0;
    let base = opened(before, segment);
    lemma_opened_is_ready(before, segment);
    lemma_opened_pair(before, segment);
    let (block, entry) = choose|block: Seq<u8>, entry: Seq<u8>|
        appended_as(base, segment, after, v, block, entry);
    let old_data = bytes_of(base, data_name(segment));
    let old_index = bytes_of(base, index_name(segment));
    let data = old_data + frame(block);
    let index = old_index + frame(entry);
    let blocks = segment_blocks(old_data, segment)->Ok_0;
    lemma_data_grows(old_data, segment, v, block, entry);
    lemma_index_grows(old_index, blocks, v, old_data.len(), block, entry);
    lemma_pair_written_is_indexed(base, segment, data, index);
}

/// Archiving a record keeps a sound archive sound.
pub proof fn law_append_keeps_soundness(
    before: Seq<FileView>,
    after: Seq<FileView>,
    v: StoredView,
    max_size: u64,
)
    requires
        sound(before),
        archived(before, after, v, max_size),
    ensures
        sound(after),
        listed_once(after),
{
    law_append_keeps_indexed(before, after, v, max_size);
    let segment = writer_segment(before, max_size)->0;
    let base = opened(before, segment);
    let (block, entry) = choose|block: Seq<u8>, entry: Seq<u8>|
        appended_as(base, segment, after, v, block, entry);
    let d = data_name(segment);
    let x = index_name(segment);
    lemma_written_keeps_names(before, d, segment, DATA_MAGIC@);
    let mid = if bytes_of(before, d).len() == 0 {
        written(before, d, DATA_MAGIC@)
    } else {
        before
    };
    lemma_written_keeps_names(mid, x, segment, Seq::empty());
    lemma_written_keeps_names(base, d, segment, bytes_of(base, d) + frame(block));
    lemma_written_keeps_names(
        written(base, d, bytes_of(base, d) + frame(block)),
        x,
        segment,
        bytes_of(base, x) + frame(entry),
    );
    lemma_sound_segments(after);
}

proof fn lemma_written_keeps_names(
    files: Seq<FileView>,
    name: Seq<char>,
    segment: u32,
    data: Seq<u8>,
)
    requires
        names_distinct(files),
        canonical(files),
        name == data_name(segment) || name == index_name(segment),
    ensures
        names_distinct(written(files, name, data)),
        canonical(written(files, name, data)),
{
    lemma_segment_number_of_data_name(segment);
    lemma_index_name_is_no_data_name(segment);
    lemma_written_keeps_names_distinct(files, name, data);
    lemma_written_keeps_canonical(files, name, data);
}

/// An archived record keeps the archive sound, and its sessions are behind
/// those that were there before.
pub proof fn law_append_extends_contents(
    before: Seq<FileView>,
    after: Seq<FileView>,
    v: StoredView,
    max_size: u64,
)
    requires
        sound(before),
        archived(before, after, v, max_size),
    ensures
        sound(after),
        archive_sessions(before, segments(before)) is Ok,
        archive_sessions(after, segments(after)) == Ok::<Seq<SessionView>, StorageError>(
            contents(before) + v.sessions(),
        ),
{
    law_append_keeps_soundness(before, after, v, max_size);
    lemma_sound_scans(before, segments(before));
    law_append_extends_readable(before, after, v, max_size);
}

/// Where a scan reads every data file, an archived record puts its sessions
/// behind those that were there before.
pub proof fn law_append_extends_readable(
    before: Seq<FileView>,
    after: Seq<FileView>,
    v: StoredView,
    max_size: u64,
)
    requires
        archived(before, after, v, max_size),
        listed_once(after),
        archive_sessions(before, segments(before)) is Ok,
    ensures
        archive_sessions(after, segments(after)) == Ok::<Seq<SessionView>, StorageError>(
            contents(before) + v.sessions(),
        ),
{
    lemma_archived_files(before, after, v, max_size);
    lemma_scan_reads(before, segments(before), writer_segment(before, max_size)->0);
    let (segment, front, blocks, b) = lemma_archived_grew(before, after, v, max_size);
    assert(front.push(segment).drop_last() =~= front);
    lemma_archive_sessions_frame(after, before, front);
    let older = archive_sessions(before, front)->Ok_0;
    let grown = blocks.push(b);
    assert(grown.drop_last() =~= blocks);
    assert(sessions_of(grown) == sessions_of(blocks) + v.sessions());
    assert((older + sessions_of(blocks)) + v.sessions() =~= older + sessions_of(grown));
    if lookup(before, data_name(segment)) is None {
        assert(sessions_of(blocks) =~= Seq::<SessionView>::empty());
        assert(older + sessions_of(blocks) =~= older);
    }
}

/// A scan that succeeds has read the data file of every listed segment.
pub proof fn lemma_scan_reads(files: Seq<FileView>, segs: Seq<u32>, n: u32)
    requires
        archive_sessions(files, segs) is Ok,
        segs.contains(n) || lookup(files, data_name(n)) is None,
    ensures
        readable_at(files, n),
    decreases segs.len(),
{
    if segs.contains(n) {
        let k = choose|k: int| 0 <= k < segs.len() && segs[k] == n;
        if k < segs.len() - 1 {
            assert(segs.drop_last()[k] == n);
            lemma_scan_reads(files, segs.drop_last(), n);
        }
    }
}

proof fn lemma_inserted_behind(s: Seq<u32>, n: u32)
    requires
        ascending(s),
        inserted(s, n).last() == n,
    ensures
        inserted(s, n) == s.push(n),
{
    if s.len() > 0 && s.last() > n {
        assert(inserted(s, n).last() == s.last());
    }
}

/// The sessions of records, in order.
pub open spec fn sessions_in(records: Seq<StoredView>) -> Seq<SessionView>
    decreases records.len(),
{
    if records.len() == 0 {
        Seq::empty()
    } else {
        sessions_in(records.drop_last()) + records.last().sessions()
    }
}

/// Opening the segment that the next block goes to changes nothing of what is
/// archived.
pub proof fn law_opening_changes_nothing(before: Seq<FileView>, max_size: u64)
    requires
        sound(before),
        writer_segment(before, max_size) is Some,
    ensures
        sound(opened(before, writer_segment(before, max_size)->0)),
        contents(opened(before, writer_segment(before, max_size)->0)) == contents(before),
{
    let segment = writer_segment(before, max_size)->0;
    let after = opened(before, segment);
    let d = data_name(segment);
    let x = index_name(segment);
    let mid = if bytes_of(before, d).len() == 0 {
        written(before, d, DATA_MAGIC@)
    } else {
        before
    };
    lemma_opened_pair(before, segment);
    lemma_opened_is_ready(before, segment);
    lemma_fresh_segment(segment);
    lemma_written_keeps_names(before, d, segment, DATA_MAGIC@);
    lemma_written_keeps_names(mid, x, segment, Seq::empty());
    lemma_sound_segments(before);
    lemma_sound_segments(after);
    lemma_segments(before);
    lemma_segments(after);
    lemma_segment_number_of_data_name(segment);
    lemma_index_name_is_no_data_name(segment);
    lemma_segments_written(before, d, DATA_MAGIC@);
    lemma_segments_written(mid, x, Seq::empty());
    lemma_lookup_written(before, d, DATA_MAGIC@, d);
    lemma_lookup_written(mid, x, Seq::empty(), d);
    assert(in_sync(before, segment));
    assert forall|n: u32| n != segment implies lookup(after, #[trigger] data_name(n)) == lookup(
        before,
        data_name(n),
    ) by {
        lemma_data_names_differ(n, segment);
        lemma_segment_number_of_data_name(n);
        lemma_lookup_written(before, d, DATA_MAGIC@, data_name(n));
        lemma_lookup_written(mid, x, Seq::empty(), data_name(n));
    }
    let segs = segments(before);
    lemma_sound_scans(before, segs);
    if lookup(before, d) is Some {
        assert(after == before);
    } else {
        let all = segments(after);
        assert(all == inserted(segs, segment));
        assert(all.last() == segment) by {
            lemma_listed(after, segment);
            let k = choose|k: int| 0 <= k < all.len() && all[k] == segment;
            if k < all.len() - 1 {
                assert(all[k] < all[all.len() - 1]);
            }
        }
        lemma_inserted_behind(segs, segment);
        assert(all.drop_last() =~= segs);
        assert forall|i: int| 0 <= i < segs.len() implies lookup(after, data_name(#[trigger] segs[i]))
            == lookup(before, data_name(segs[i])) by {
            assert(all[i] < all[all.len() - 1]);
        }
        lemma_archive_sessions_frame(after, before, segs);
        assert(sessions_of(Seq::<BlockView>::empty()) =~= Seq::<SessionView>::empty());
        assert(contents(before) + Seq::<SessionView>::empty() =~= contents(before));
    }
}

/// Appending several records puts their sessions behind the others, in order.
pub proof fn law_append_all_extends_contents(
    before: Seq<FileView>,
    after: Seq<FileView>,
    records: Seq<StoredView>,
)
    requires
        sound(before),
        archived_all(before, after, records),
    ensures
        sound(after),
        archive_sessions(after, segments(after)) == Ok::<Seq<SessionView>, StorageError>(
            contents(before) + sessions_in(records),
        ),
    decreases records.len(),
{
    lemma_sound_scans(before, segments(before));
    if records.len() == 0 {
        assert(contents(before) + sessions_in(records) =~= contents(before));
    } else {
        let mid = choose|mid: Seq<FileView>|
            {
                &&& archived_all(before, mid, records.drop_last())
                &&& #[trigger] archived(mid, after, records.last(), MAX_FILE_SIZE)
            };
        law_append_all_extends_contents(before, mid, records.drop_last());
        law_append_extends_contents(mid, after, records.last(), MAX_FILE_SIZE);
        assert(contents(before) + sessions_in(records.drop_last()) + records.last().sessions()
            =~= contents(before) + sessions_in(records));
    }
}

proof fn lemma_bulk_prefix(sessions: Seq<SessionView>, k: int)
    requires
        0 <= k <= bulk_records(sessions).len(),
    ensures
        sessions_in(bulk_records(sessions).take(k)) == sessions.take(
            if k == 0 {
                0
            } else {
                bulk_end(sessions.len() as int, k - 1)
            },
        ),
    decreases k,
{
    let records = bulk_records(sessions);
    let t = records.take(k);
    if k == 0 {
        assert(sessions_in(t) =~= sessions.take(0));
    } else {
        assert(t.drop_last() =~= records.take(k - 1));
        lemma_bulk_prefix(sessions, k - 1);
        let n = sessions.len() as int;
        let start = (k - 1) * BULK_CHUNK;
        assert(start < n);
        assert(k >= 2 ==> bulk_end(n, k - 2) == start);
        assert(sessions.take(start) + sessions.subrange(start, bulk_end(n, k - 1))
            =~= sessions.take(bulk_end(n, k - 1)));
    }
}

/// The blocks of a bulk import hold exactly its sessions, in order.
pub proof fn law_bulk_keeps_sessions(sessions: Seq<SessionView>)
    ensures
        sessions_in(bulk_records(sessions)) == sessions,
{
    let records = bulk_records(sessions);
    lemma_bulk_prefix(sessions, records.len() as int);
    assert(records.take(records.len() as int) =~= records);
    if records.len() == 0 {
        assert(sessions.take(0) =~= sessions);
    } else {
        assert(bulk_end(sessions.len() as int, records.len() - 1) == sessions.len());
        assert(sessions.take(sessions.len() as int) =~= sessions);
    }
}

/// Appending never changes a byte that a file already holds: every file of
/// before is a prefix of the file of the same name afterwards.
pub proof fn law_append_only(
    before: Seq<FileView>,
    after: Seq<FileView>,
    v: StoredView,
    max_size: u64,
    name: Seq<char>,
)
    requires
        archived(before, after, v, max_size),
        lookup(before, name) is Some,
    ensures
        lookup(after, name) is Some,
        lookup(before, name)->0.is_prefix_of(lookup(after, name)->0),
{
    let segment = writer_segment(before, max_size)->0;
    let base = opened(before, segment);
    let d = data_name(segment);
    let x = index_name(segment);
    let (block, entry) = choose|block: Seq<u8>, entry: Seq<u8>|
        appended_as(base, segment, after, v, block, entry);
    let data = bytes_of(base, d) + frame(block);
    let index = bytes_of(base, x) + frame(entry);
    let opened_data = if bytes_of(before, d).len() == 0 {
        written(before, d, DATA_MAGIC@)
    } else {
        before
    };
    lemma_segment_number_of_data_name(segment);
    lemma_index_name_is_no_data_name(segment);
    lemma_lookup_written(before, d, DATA_MAGIC@, name);
    lemma_lookup_written(opened_data, x, Seq::empty(), name);
    lemma_lookup_written(base, d, data, name);
    lemma_lookup_written(written(base, d, data), x, index, name);
    assert(lookup(base, name) is Some);
    assert(lookup(before, name)->0.is_prefix_of(lookup(base, name)->0)) by {
        if name == d && bytes_of(before, d).len() == 0 {
            assert(lookup(before, name)->0 =~= Seq::<u8>::empty());
        }
    }
    assert(lookup(base, name)->0.is_prefix_of(lookup(after, name)->0));
}

} // verus!
