//! What is said of an archive that is damaged, and what decides it.
use vstd::prelude::*;
use crate::cli::CliError;
use crate::codec::{
    row_has_roles, rows_have_roles, stored_value, unbincode_session, unbincode_sessions,
    unbincode_tag, unpacked, zstd_decoded, SessionRowView,
};
use crate::frames::{frame, lemma_payloads_concat, payloads, tail, Tail};
use crate::import::IngestError;
use crate::index::{entry_value, is_usable, IndexView};
use crate::laws::append::{
    contents, law_append_all_extends_contents, law_opening_changes_nothing, readable_at,
    sessions_in, sound,
};
use crate::laws::layout::law_torn_frame;
use crate::laws::notation::stands_at;
use crate::pattern::is_expression;
use crate::schema::{SessionView, StoredView};
use crate::storage::StorageView;
use crate::storage::constants::{DATA_MAGIC, MAX_FILE_SIZE};
use crate::storage::directory::{active_segment, data_name, index_name, lookup, segments, FileView};
use crate::storage::ingest::{archive_refused, archive_stopped, archived_all};
use crate::storage::lookup::{
    first_with_id, lemma_archive_settled, session_by_id, session_in_archive,
};
use crate::storage::optimise::optimise_outcome;
use crate::storage::reindex::announced_blocks;
use crate::storage::scan::{archive_sessions, lemma_archive_sessions_error, scanned};
use crate::storage::search::{
    admits, archive_hits, block_hits, lemma_archive_hits_error, must_read, searched, segment_hits,
    Query,
};
use crate::storage::segment::{
    blocks_in, header_error, lemma_blocks_in_errors, segment_blocks, BlockView,
};
use crate::storage::stats::{counted, with_segments, with_sessions, with_size};
use crate::storage::types::{path_in, Counts, StorageError};
use crate::storage::writer::writer_segment;
use crate::text::tokens;

verus! {

/// A data file is read as a whole or not at all: it is refused where it does
/// not start with the magic, where a frame in it is no record, and where it
/// ends inside a frame.
pub proof fn law_segments_are_read_whole(data: Seq<u8>, segment: u32)
    ensures
        segment_blocks(data, segment) is Ok <==> {
            &&& data.len() >= 8
            &&& data.take(8) == DATA_MAGIC@
            &&& tail(data.skip(8)) == Tail::Clean
            &&& forall|i: int|
                0 <= i < payloads(data.skip(8)).len() ==> unpacked(
                    #[trigger] payloads(data.skip(8))[i],
                ) is Ok
        },
        segment_blocks(data, segment) is Ok ==> segment_blocks(data, segment)->Ok_0.len()
            == payloads(data.skip(8)).len(),
{
    lemma_blocks_in_ok(payloads(data.skip(8)));
}

proof fn lemma_blocks_in_ok(ps: Seq<Seq<u8>>)
    ensures
        blocks_in(ps) is Ok <==> forall|i: int|
            0 <= i < ps.len() ==> unpacked(#[trigger] ps[i]) is Ok,
        blocks_in(ps) is Ok ==> blocks_in(ps)->Ok_0.len() == ps.len(),
    decreases ps.len(),
{
    if ps.len() > 0 {
        let front = ps.drop_last();
        let n = front.len() as int;
        lemma_blocks_in_ok(front);
        assert forall|i: int| 0 <= i < n implies front[i] == #[trigger] ps[i] by {}
        assert(ps[n] == ps.last());
        if blocks_in(ps) is Ok {
            assert forall|i: int| 0 <= i < ps.len() implies unpacked(#[trigger] ps[i]) is Ok by {
                if i < n {
                    assert(unpacked(front[i]) is Ok);
                }
            }
        }
        if forall|i: int| 0 <= i < ps.len() ==> unpacked(#[trigger] ps[i]) is Ok {
            assert forall|i: int| 0 <= i < n implies unpacked(#[trigger] front[i]) is Ok by {
                assert(unpacked(ps[i]) is Ok);
            }
        }
    }
}

/// The first record that cannot be read decides what is said of a data file,
/// and only where there is none the end of the file does.
pub proof fn law_first_bad_record_decides(data: Seq<u8>, segment: u32, i: int)
    requires
        header_error(data, segment) is None,
        0 <= i < payloads(data.skip(8)).len(),
        forall|j: int| 0 <= j < i ==> unpacked(#[trigger] payloads(data.skip(8))[j]) is Ok,
        unpacked(payloads(data.skip(8))[i]) is Err,
    ensures
        segment_blocks(data, segment) is Err,
        segment_blocks(data, segment)->Err_0 == unpacked(payloads(data.skip(8))[i])->Err_0,
{
    lemma_first_bad(payloads(data.skip(8)), i);
}

proof fn lemma_first_bad(ps: Seq<Seq<u8>>, i: int)
    requires
        0 <= i < ps.len(),
        forall|j: int| 0 <= j < i ==> unpacked(#[trigger] ps[j]) is Ok,
        unpacked(ps[i]) is Err,
    ensures
        blocks_in(ps) is Err,
        blocks_in(ps)->Err_0 == unpacked(ps[i])->Err_0,
    decreases ps.len(),
{
    let front = ps.drop_last();
    if i < front.len() {
        assert forall|j: int| 0 <= j < i implies unpacked(#[trigger] front[j]) is Ok by {
            assert(front[j] == ps[j]);
        }
        assert(front[i] == ps[i]);
        lemma_first_bad(front, i);
    } else {
        assert forall|j: int| 0 <= j < front.len() implies unpacked(#[trigger] front[j]) is Ok by {
            assert(front[j] == ps[j]);
        }
        lemma_blocks_in_ok(front);
    }
}

/// A scan fails exactly where one of the data files cannot be read.
pub proof fn law_scan_reads_all_or_fails(v: StorageView)
    ensures
        scanned(v) is Ok <==> forall|i: int|
            0 <= i < segments(v.files).len() ==> readable_at(
                v.files,
                #[trigger] segments(v.files)[i],
            ),
{
    lemma_archive_reads(v.files, segments(v.files));
}

proof fn lemma_archive_reads(files: Seq<FileView>, segs: Seq<u32>)
    ensures
        archive_sessions(files, segs) is Ok <==> forall|i: int|
            0 <= i < segs.len() ==> readable_at(files, #[trigger] segs[i]),
    decreases segs.len(),
{
    if segs.len() > 0 {
        let front = segs.drop_last();
        let n = front.len() as int;
        lemma_archive_reads(files, front);
        assert forall|i: int| 0 <= i < n implies front[i] == #[trigger] segs[i] by {}
        assert(segs[n] == segs.last());
        if archive_sessions(files, segs) is Ok {
            assert forall|i: int| 0 <= i < segs.len() implies readable_at(
                files,
                #[trigger] segs[i],
            ) by {
                if i < n {
                    assert(readable_at(files, front[i]));
                }
            }
        }
        if forall|i: int| 0 <= i < segs.len() ==> readable_at(files, #[trigger] segs[i]) {
            assert forall|i: int| 0 <= i < n implies readable_at(files, #[trigger] front[i]) by {
                assert(readable_at(files, segs[i]));
            }
            assert(readable_at(files, segs[n]));
        }
    }
}

/// A scan that fails tells of the first data file that cannot be read: by its
/// number where it does not start with the magic, and else by what is wrong
/// with it.
pub proof fn law_scan_tells_of_the_first(v: StorageView, i: int)
    requires
        0 <= i < segments(v.files).len(),
        forall|j: int|
            0 <= j < i ==> readable_at(v.files, #[trigger] segments(v.files)[j]),
        !readable_at(v.files, segments(v.files)[i]),
    ensures
        ({
            let segment = segments(v.files)[i];
            let data = lookup(v.files, data_name(segment))->0;
            &&& scanned(v) is Err
            &&& data.len() >= 8 && data.take(8) != DATA_MAGIC@ ==> scanned(v)->Err_0 == (
            StorageError::WrongMagicBytes { segment })
            &&& data.len() < 8 ==> scanned(v)->Err_0 == StorageError::UnexpectedEof
            &&& data.len() >= 8 && data.take(8) == DATA_MAGIC@ ==> scanned(v)->Err_0
                == segment_blocks(data, segment)->Err_0
        }),
{
    let segs = segments(v.files);
    let front = segs.take(i);
    let some = segs.take(i + 1);
    assert(some.drop_last() =~= front);
    assert(some.last() == segs[i]);
    assert forall|j: int| 0 <= j < front.len() implies readable_at(v.files, #[trigger] front[j]) by {
        assert(front[j] == segs[j]);
    }
    lemma_archive_reads(v.files, front);
    lemma_archive_sessions_error(v.files, segs, i + 1);
    let data = lookup(v.files, data_name(segs[i]))->0;
    lemma_blocks_in_errors(payloads(data.skip(8)));
}

/// A segment without its index file is told by its number: by a search, and
/// by a look for an id that no segment before it has.
pub proof fn law_missing_index_is_told(v: StorageView, q: Query, id: Seq<char>, i: int)
    requires
        0 <= i < segments(v.files).len(),
        lookup(v.files, data_name(segments(v.files)[i])) is Some,
        lookup(v.files, index_name(segments(v.files)[i])) is None,
    ensures
        archive_hits(v.files, segments(v.files).take(i), q) is Ok ==> searched(v, q) == Err::<
            Seq<SessionView>,
            StorageError,
        >(StorageError::IndexFileNotFound { segment: segments(v.files)[i] }),
        first_with_id(v.pending.readable(), id) is None && session_in_archive(
            v.files,
            segments(v.files).take(i),
            id,
        ) == Ok::<Option<SessionView>, StorageError>(None) ==> session_by_id(v, id) == Err::<
            Option<SessionView>,
            StorageError,
        >(StorageError::IndexFileNotFound { segment: segments(v.files)[i] }),
{
    let segs = segments(v.files);
    let some = segs.take(i + 1);
    assert(some.drop_last() =~= segs.take(i));
    assert(some.last() == segs[i]);
    if archive_hits(v.files, segs.take(i), q) is Ok {
        lemma_archive_hits_error(v.files, segs, q, i + 1);
    }
    if session_in_archive(v.files, segs.take(i), id) == Ok::<Option<SessionView>, StorageError>(
        None,
    ) {
        lemma_archive_settled(v.files, segs, id, i + 1);
    }
}

/// An index entry rules its block out where the block is from another time,
/// or where its filter lacks a word of a query that is no expression, and
/// nowhere else.
pub proof fn law_entries_rule_blocks_out(entry: IndexView, q: Query, i: int)
    ensures
        q.after is Some && entry.max_time < q.after->0 ==> admits(entry, q) == Ok::<
            bool,
            StorageError,
        >(false),
        q.before is Some && entry.min_time > q.before->0 ==> admits(entry, q) == Ok::<
            bool,
            StorageError,
        >(false),
        entry.searchable(q.text) && !is_expression(q.text) && 0 <= i
            < tokens(q.text).len() && !entry.accepts(tokens(q.text)[i])
            ==> admits(entry, q) == Ok::<bool, StorageError>(false),
        admits(entry, q) == Ok::<bool, StorageError>(false) ==> {
            ||| q.after is Some && entry.max_time < q.after->0
            ||| q.before is Some && entry.min_time > q.before->0
            ||| !is_expression(q.text) && exists|k: int|
                0 <= k < tokens(q.text).len() && !entry.accepts(
                    #[trigger] tokens(q.text)[k],
                )
        },
{
}

/// A block without an index entry is read, and one whose entry cannot be read
/// is not passed over in silence.
pub proof fn law_blocks_without_entry_are_read(index: Seq<u8>, i: int, q: Query)
    requires
        0 <= i,
    ensures
        i >= payloads(index).len() && tail(index) == Tail::Clean ==> must_read(index, i, q) == Ok::<
            bool,
            StorageError,
        >(true),
        i >= payloads(index).len() && tail(index) != Tail::Clean ==> must_read(index, i, q)
            == Err::<bool, StorageError>(StorageError::UnexpectedEof),
        i < payloads(index).len() && entry_value(payloads(index)[i]) is Err ==> must_read(
            index,
            i,
            q,
        ) == Err::<bool, StorageError>(entry_value(payloads(index)[i])->Err_0),
{
}

/// Blocks are announced as they are framed, with one that was not written to
/// its end; a file that ends inside a length is refused.
pub proof fn law_torn_blocks_are_announced(data: Seq<u8>, segment: u32, p: Seq<u8>, n: int)
    requires
        header_error(data, segment) is None,
        tail(data.skip(8)) == Tail::Clean,
        p.len() <= u32::MAX,
        0 <= n < frame(p).len(),
    ensures
        announced_blocks(data, segment) is Ok,
        n >= 4 ==> announced_blocks(data + frame(p).take(n), segment) is Ok && announced_blocks(
            data + frame(p).take(n),
            segment,
        )->Ok_0 == announced_blocks(data, segment)->Ok_0 + 1,
        0 < n < 4 ==> announced_blocks(data + frame(p).take(n), segment) == Err::<
            nat,
            StorageError,
        >(StorageError::UnexpectedEof),
{
    let torn = frame(p).take(n);
    let all = data + torn;
    law_torn_frame(p, n);
    lemma_payloads_concat(data.skip(8), torn);
    assert(all.skip(8) =~= data.skip(8) + torn);
    assert(all.take(8) =~= data.take(8));
    assert(payloads(torn) =~= Seq::<Seq<u8>>::empty());
}

/// A data file with a block that was not written to its end is read by no
/// scan and no optimisation.
pub proof fn law_torn_segments_are_refused(data: Seq<u8>, segment: u32, p: Seq<u8>, n: int)
    requires
        segment_blocks(data, segment) is Ok,
        p.len() <= u32::MAX,
        0 < n < frame(p).len(),
    ensures
        segment_blocks(data + frame(p).take(n), segment) == Err::<Seq<BlockView>, StorageError>(
            StorageError::UnexpectedEof,
        ),
{
    let torn = frame(p).take(n);
    let all = data + torn;
    law_torn_frame(p, n);
    lemma_payloads_concat(data.skip(8), torn);
    assert(all.skip(8) =~= data.skip(8) + torn);
    assert(all.take(8) =~= data.take(8));
    assert(payloads(torn) =~= Seq::<Seq<u8>>::empty());
    assert(payloads(all.skip(8)) =~= payloads(data.skip(8)));
}

/// An optimisation of a data file that does not start with the magic is
/// refused as of another format, and every other damage as what it is.
pub proof fn law_optimise_refuses_damage(
    before: Seq<FileView>,
    target: nat,
    after: Seq<FileView>,
    r: Result<(usize, usize), StorageError>,
    data: Seq<u8>,
)
    requires
        optimise_outcome(before, target, after, r),
        lookup(before, data_name(active_segment(before))) == Some(data),
    ensures
        segment_blocks(data, active_segment(before)) is Err ==> r is Err && after == before,
        data.len() >= 8 && data.take(8) != DATA_MAGIC@ ==> r == Err::<
            (usize, usize),
            StorageError,
        >(StorageError::UnknownFormat),
        data.len() < 8 ==> r == Err::<(usize, usize), StorageError>(StorageError::UnexpectedEof),
{
}

/// A search of a data file that ends inside a length fails, where nothing
/// before the end fails.
pub proof fn law_search_refuses_torn_lengths(
    data: Seq<u8>,
    index: Seq<u8>,
    segment: u32,
    q: Query,
)
    requires
        header_error(data, segment) is None,
        block_hits(payloads(data.skip(8)), index, q, payloads(data.skip(8)).len()) is Ok,
        tail(index) == Tail::Clean,
        payloads(index).len() <= payloads(data.skip(8)).len(),
    ensures
        tail(data.skip(8)) == Tail::ShortHeader ==> segment_hits(data, index, segment, q) == Err::<
            Seq<SessionView>,
            StorageError,
        >(StorageError::UnexpectedEof),
        tail(data.skip(8)) == Tail::ShortPayload ==> segment_hits(data, index, segment, q) == Err::<
            Seq<SessionView>,
            StorageError,
        >(StorageError::UnexpectedEof),
        tail(data.skip(8)) == Tail::Clean ==> segment_hits(data, index, segment, q) is Ok,
{
}

/// The files of a segment can be counted to their end: its index, or, where
/// it has none, its data.
pub open spec fn ends_whole(files: Seq<FileView>, segment: u32) -> bool {
    match lookup(files, data_name(segment)) {
        None => true,
        Some(data) => match lookup(files, index_name(segment)) {
            Some(index) => tail(index) == Tail::Clean,
            None => header_error(data, segment) is None && tail(data.skip(8)) == Tail::Clean,
        },
    }
}

/// Totals are given only where every segment could be counted to its end.
pub proof fn law_totals_are_of_whole_files(v: StorageView, i: int)
    requires
        counted(v) is Ok,
        0 <= i < segments(v.files).len(),
    ensures
        ends_whole(v.files, segments(v.files)[i]),
{
    let pending = with_sessions(Counts::zero(), v.pending.readable())->Ok_0;
    lemma_counted_whole(with_size(pending, v.pending.size()), v.files, segments(v.files), i);
}

proof fn lemma_counted_whole(c: Counts, files: Seq<FileView>, segs: Seq<u32>, i: int)
    requires
        with_segments(c, files, segs) is Ok,
        0 <= i < segs.len(),
    ensures
        ends_whole(files, segs[i]),
    decreases segs.len(),
{
    if i < segs.len() - 1 {
        assert(segs.drop_last()[i] == segs[i]);
        lemma_counted_whole(c, files, segs.drop_last(), i);
    }
}

/// That there is no session of an id is said only of segments whose index was
/// read to its end.
pub proof fn law_absence_needs_whole_indexes(
    files: Seq<FileView>,
    segs: Seq<u32>,
    id: Seq<char>,
    i: int,
)
    requires
        session_in_archive(files, segs, id) == Ok::<Option<SessionView>, StorageError>(None),
        0 <= i < segs.len(),
        lookup(files, data_name(segs[i])) is Some,
    ensures
        lookup(files, index_name(segs[i])) is Some,
        tail(lookup(files, index_name(segs[i]))->0) == Tail::Clean,
    decreases segs.len(),
{
    if i < segs.len() - 1 {
        assert(segs.drop_last()[i] == segs[i]);
        law_absence_needs_whole_indexes(files, segs.drop_last(), id, i);
    }
}

/// What cannot be decompressed is told from what is no record then.
pub proof fn law_kinds_of_unreadable_blocks(payload: Seq<u8>)
    ensures
        zstd_decoded(payload) is None <==> unpacked(payload) == Err::<
            (StoredView, nat),
            StorageError,
        >(StorageError::Decompress),
        zstd_decoded(payload) is Some && stored_value(zstd_decoded(payload)->0) is None
            <==> unpacked(payload) == Err::<(StoredView, nat), StorageError>(StorageError::Decode),
        unpacked(payload) is Ok ==> unpacked(payload)->Ok_0.1 == zstd_decoded(payload)->0.len(),
        zstd_decoded(payload) is None <==> entry_value(payload) == Err::<IndexView, StorageError>(
            StorageError::Decompress,
        ),
{
}

/// A record with a message of a role that there is none of is no record, and
/// neither is one of a form that there is none of.
pub proof fn law_unknown_roles_are_refused(
    bytes: Seq<u8>,
    tag: u32,
    one: SessionRowView,
    many: Seq<SessionRowView>,
    k: int,
    i: int,
)
    requires
        unbincode_tag(bytes) == Some(tag),
    ensures
        tag == 0 && unbincode_session(bytes) == Some((tag, one)) && 0 <= i < one.6.len()
            && one.6[i].0 > 4 ==> stored_value(bytes) is None,
        tag > 0 && unbincode_sessions(bytes) == Some((tag, many)) && 0 <= k < many.len() && 0 <= i
            < many[k].6.len() && many[k].6[i].0 > 4 ==> stored_value(bytes) is None,
        tag > 2 ==> stored_value(bytes) is None,
{
    if 0 <= k < many.len() && 0 <= i < many[k].6.len() && many[k].6[i].0 > 4 {
        assert(!row_has_roles(many[k]));
        assert(!rows_have_roles(many));
    }
}

/// A filter that cannot be asked stops a search for words within its time,
/// and no other.
pub proof fn law_damaged_filters_stop_searches(entry: IndexView, q: Query)
    ensures
        admits(entry, q) is Err <==> {
            &&& q.after is Some ==> entry.max_time >= q.after->0
            &&& q.before is Some ==> entry.min_time <= q.before->0
            &&& !is_expression(q.text)
            &&& tokens(q.text).len() > 0
            &&& !is_usable(entry.filter)
        },
        admits(entry, q) is Err ==> admits(entry, q)->Err_0 == StorageError::CorruptIndex,
{
}

/// A record that the archive refuses leaves every session as it was.
pub proof fn law_refused_record_changes_nothing(
    before: Seq<FileView>,
    after: Seq<FileView>,
    v: StoredView,
    e: StorageError,
)
    requires
        sound(before),
        archive_refused(before, after, v, e),
    ensures
        sound(after),
        contents(after) == contents(before),
{
    if writer_segment(before, MAX_FILE_SIZE) is Some {
        law_opening_changes_nothing(before, MAX_FILE_SIZE);
    }
}

/// Where the archive stops taking records, those before are in it, in their
/// order, and none of the others.
pub proof fn law_stopped_records_keep_the_front(
    before: Seq<FileView>,
    after: Seq<FileView>,
    records: Seq<StoredView>,
    e: StorageError,
) -> (k: int)
    requires
        sound(before),
        archive_stopped(before, after, records, e),
    ensures
        0 <= k < records.len(),
        sound(after),
        contents(after) == contents(before) + sessions_in(records.take(k)),
{
    let (k, mid) = choose|k: int, mid: Seq<FileView>|
        {
            &&& 0 <= k < records.len()
            &&& #[trigger] archived_all(before, mid, records.take(k))
            &&& archive_refused(mid, after, records[k], e)
        };
    law_append_all_extends_contents(before, mid, records.take(k));
    law_refused_record_changes_nothing(mid, after, records[k], e);
    k
}

/// A path is the directory, a slash where it does not end in one, and the
/// name.
pub proof fn law_paths(dir: Seq<char>, name: Seq<char>)
    ensures
        dir.len() == 0 ==> path_in(dir, name) == name,
        dir.len() > 0 && dir.last() == '/' ==> path_in(dir, name) == dir + name,
        dir.len() > 0 && dir.last() != '/' ==> path_in(dir, name) == dir + seq!['/'] + name,
        stands_at(path_in(dir, name), dir, 0),
        stands_at(path_in(dir, name), name, path_in(dir, name).len() - name.len()),
{
    assert(dir.push('/') =~= dir + seq!['/']);
    if dir.len() == 0 {
        assert(dir + name =~= name);
    }
}

/// What is said of a damaged segment names its data file.
pub proof fn law_messages_name_the_file(segment: u32, dir: Seq<char>)
    ensures
        (StorageError::IndexFileNotFound { segment }).text_in(dir)
            == "Index file not found for segment "@ + path_in(dir, data_name(segment))
            + ". Please run: cryo reindex"@,
        (StorageError::InvalidFormat { segment }).text_in(dir) == "Invalid file format in "@
            + path_in(dir, data_name(segment)),
        (StorageError::WrongMagicBytes { segment }).text_in(dir)
            == "Invalid file format: Wrong Magic Bytes in "@ + path_in(dir, data_name(segment)),
{
    reveal_strlit("");
    let path = path_in(dir, data_name(segment));
    assert("Invalid file format in "@ + path + ""@ =~= "Invalid file format in "@ + path);
    assert("Invalid file format: Wrong Magic Bytes in "@ + path + ""@
        =~= "Invalid file format: Wrong Magic Bytes in "@ + path);
}

/// What else can go wrong is said in words of its own.
pub proof fn law_messages_say_what_failed(dir: Seq<char>)
    ensures
        StorageError::DataFileNotFound.text_in(dir) == "Data file not found"@,
        StorageError::UnknownFormat.text_in(dir) == "Invalid file format"@,
        StorageError::UnexpectedEof.text_in(dir) == "failed to fill whole buffer"@,
        StorageError::Compress.text_in(dir) == "Failed to compress"@,
        StorageError::Decompress.text_in(dir) == "Failed to decompress"@,
        StorageError::Decode.text_in(dir) == "Failed to deserialize"@,
        StorageError::PendingUnreadable.text_in(dir) == "Failed to read pending events"@,
        IngestError::Unreadable.text_in(dir)
            == "Failed to parse input as Session, ChatGPT Export, or Session Array."@,
        CliError::InvalidDate.text()
            == "Invalid date format. Use YYYY-MM-DD or Unix timestamp"@,
        CliError::ZeroChunk.text() == "chunk_kb must be greater than 0"@,
{
}

} // verus!
