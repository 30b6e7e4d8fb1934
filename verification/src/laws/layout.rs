//! How an archive lies in its files: frames, blocks, names and segments.
use vstd::prelude::*;
use crate::codec::{message_row, numbered_role, role_number, session_row, unpacked};
use crate::frames::{
    first_end, frame, framed, header, header_value, lemma_clean_is_framed, lemma_frame_reads_back,
    lemma_framed_concat, lemma_framed_single, lemma_header_round_trip, lemma_payload_at_offset,
    lemma_payloads_concat, lemma_payloads_short, payload_at, payloads, tail, Tail,
};
use crate::schema::{MessageRole, SessionView, StoredView};
use crate::storage::constants::{BULK_CHUNK, DATA_MAGIC, MAX_FILE_SIZE, PENDING_LIMIT};
use crate::storage::directory::{
    active_segment, bytes_of, data_name, first_at, index_name, lemma_first_at,
    lemma_index_name_is_no_data_name, lemma_inserted, lemma_lookup_written,
    lemma_segment_number_of_data_name, lemma_segments, lookup, segment_number, segments, written,
    FileView,
};
use crate::storage::ingest::bulk_records;
use crate::storage::segment::{
    blocks_in, header_error, lemma_blocks_in, segment_blocks, sessions_of, BlockView,
};
use crate::storage::types::StorageError;
use crate::storage::writer::{opened, writer_segment};
use crate::text::{padded_decimal, parsed_number};

verus! {

/// A frame is four bytes that say how long its payload is, and the payload.
pub proof fn law_frame_is_length_and_payload(p: Seq<u8>)
    requires
        p.len() <= u32::MAX,
    ensures
        frame(p).len() == 4 + p.len(),
        header_value(frame(p)) == p.len(),
        frame(p).subrange(4, 4int + p.len()) == p,
{
    lemma_header_round_trip(p.len());
    let f = frame(p);
    let h = header(p.len());
    assert(f.subrange(4, 4int + p.len()) =~= p);
    assert(f[0] == h[0] && f[1] == h[1] && f[2] == h[2] && f[3] == h[3]);
}

/// The first byte of a length counts for itself, and each further one 256
/// times as much as if it stood one place before.
pub proof fn law_lowest_byte_first(a: u8, b: u8, c: u8, d: u8)
    ensures
        header_value(seq![a, 0u8, 0u8, 0u8]) == a,
        header_value(seq![0u8, a, b, c]) == 256 * header_value(seq![a, b, c, 0u8]),
        header_value(seq![a, b, c, d]) == a + header_value(seq![0u8, b, c, d]),
{
}

/// What stands in a frame is read back, and then what stands behind it.
pub proof fn law_frames_follow_each_other(p: Seq<u8>, rest: Seq<u8>)
    requires
        p.len() <= u32::MAX,
    ensures
        payloads(frame(p) + rest) == seq![p] + payloads(rest),
        tail(frame(p) + rest) == tail(rest),
{
    lemma_frame_reads_back(p);
    lemma_payloads_concat(frame(p), rest);
}

/// Of a frame that was not written to its end nothing is read, and how the
/// bytes end says where it was cut.
pub proof fn law_torn_frame(p: Seq<u8>, n: int)
    requires
        p.len() <= u32::MAX,
        0 <= n < frame(p).len(),
    ensures
        payloads(frame(p).take(n)).len() == 0,
        tail(frame(p).take(n)) == Tail::Clean <==> n == 0,
        tail(frame(p).take(n)) == Tail::ShortHeader <==> 0 < n < 4,
        tail(frame(p).take(n)) == Tail::ShortPayload <==> n >= 4,
{
    law_frame_is_length_and_payload(p);
    let b = frame(p).take(n);
    if n >= 4 {
        assert(b[0] == frame(p)[0] && b[1] == frame(p)[1]);
        assert(b[2] == frame(p)[2] && b[3] == frame(p)[3]);
        assert(header_value(b) == p.len());
    }
    assert(first_end(b) is None);
}

/// A payload is read at the place where its frame starts, whatever stands
/// before and behind it, and nothing is read behind the end.
pub proof fn law_payload_is_read_in_place(before: Seq<u8>, p: Seq<u8>, after: Seq<u8>, at: nat)
    requires
        p.len() <= u32::MAX,
    ensures
        payload_at(before + frame(p) + after, before.len()) == Some(p),
        at >= before.len() ==> payload_at(before, at) is None,
{
    let ps = seq![p];
    lemma_framed_single(p);
    assert forall|k: int| 0 <= k < ps.len() implies (#[trigger] ps[k]).len() <= u32::MAX by {}
    lemma_payload_at_offset(before, ps, 0, after);
    assert(ps.take(0) =~= Seq::<Seq<u8>>::empty());
    assert(framed(ps.take(0)).len() == 0);
}

/// A data file starts with the eight letters `CRYODAT1`, and one that does
/// not is refused: as too short, or by its number as of another format.
pub proof fn law_data_files_start_with_the_magic(data: Seq<u8>, segment: u32)
    ensures
        header_error(data, segment) is None <==> data.len() >= 8 && data.take(8) == seq![
            67u8,
            82u8,
            89u8,
            79u8,
            68u8,
            65u8,
            84u8,
            49u8,
        ],
        header_error(data, segment) == Some(StorageError::UnexpectedEof) <==> data.len() < 8,
        data.len() >= 8 && header_error(data, segment) is Some ==> header_error(data, segment)
            == Some(StorageError::InvalidFormat { segment }),
{
    assert(DATA_MAGIC@ =~= seq![67u8, 82u8, 89u8, 79u8, 68u8, 65u8, 84u8, 49u8]);
}

proof fn lemma_framed_len(ps: Seq<Seq<u8>>, i: int)
    requires
        0 <= i < ps.len(),
    ensures
        framed(ps.take(i + 1)).len() == framed(ps.take(i)).len() + 4 + ps[i].len(),
{
    assert(ps.take(i + 1).drop_last() =~= ps.take(i));
    assert(ps.take(i + 1).last() == ps[i]);
}

/// The blocks of a data file lie one behind the other, from the magic to the
/// end of the file, each with the four bytes of its length before it.
pub proof fn law_blocks_lie_one_behind_the_other(data: Seq<u8>, segment: u32)
    requires
        segment_blocks(data, segment) is Ok,
    ensures
        ({
            let blocks = segment_blocks(data, segment)->Ok_0;
            &&& blocks.len() == 0 ==> data.len() == 8
            &&& blocks.len() > 0 ==> blocks[0].offset == 8
            &&& blocks.len() > 0 ==> blocks.last().offset + 4 + blocks.last().compressed
                == data.len()
            &&& forall|i: int|
                0 < i < blocks.len() ==> (#[trigger] blocks[i]).offset == blocks[i - 1].offset + 4
                    + blocks[i - 1].compressed
        }),
{
    let rest = data.skip(8);
    let ps = payloads(rest);
    let blocks = segment_blocks(data, segment)->Ok_0;
    lemma_blocks_in(ps);
    lemma_clean_is_framed(rest);
    assert(ps.take(ps.len() as int) =~= ps);
    assert(ps.take(0) =~= Seq::<Seq<u8>>::empty());
    if blocks.len() > 0 {
        lemma_framed_len(ps, ps.len() - 1);
        assert(blocks[0].offset == 8);
        assert(blocks[blocks.len() - 1].compressed == ps[ps.len() - 1].len());
    }
    assert forall|i: int| 0 < i < blocks.len() implies (#[trigger] blocks[i]).offset == blocks[i
        - 1].offset + 4 + blocks[i - 1].compressed by {
        lemma_framed_len(ps, i - 1);
    }
}

proof fn lemma_frame_in_place(rest: Seq<u8>, ps: Seq<Seq<u8>>, i: int)
    requires
        rest == framed(ps),
        0 <= i < ps.len(),
    ensures
        framed(ps.take(i)).len() + frame(ps[i]).len() <= rest.len(),
        rest.subrange(
            framed(ps.take(i)).len() as int,
            framed(ps.take(i)).len() as int + frame(ps[i]).len(),
        ) == frame(ps[i]),
{
    let front = ps.take(i);
    let back = ps.skip(i + 1);
    let one = seq![ps[i]];
    assert(ps =~= front + one + back);
    lemma_framed_concat(front + one, back);
    lemma_framed_concat(front, one);
    lemma_framed_single(ps[i]);
    let n = framed(front).len() as int;
    let f = frame(ps[i]);
    assert(rest == framed(front) + f + framed(back));
    assert(rest.subrange(n, n + f.len()) =~= f);
}

/// Each block of a data file is what the frame at its place holds.
pub proof fn law_blocks_are_what_their_frames_hold(data: Seq<u8>, segment: u32, i: int)
    requires
        segment_blocks(data, segment) is Ok,
        0 <= i < segment_blocks(data, segment)->Ok_0.len(),
    ensures
        ({
            let b = segment_blocks(data, segment)->Ok_0[i];
            let from = b.offset as int;
            let p = data.subrange(from + 4, from + 4 + b.compressed);
            &&& from + 4 + b.compressed <= data.len()
            &&& data.subrange(from, from + 4 + b.compressed) == frame(p)
            &&& unpacked(p) == Ok::<(StoredView, nat), StorageError>((b.stored, b.raw))
        }),
{
    let rest = data.skip(8);
    let ps = payloads(rest);
    let b = segment_blocks(data, segment)->Ok_0[i];
    lemma_blocks_in(ps);
    lemma_clean_is_framed(rest);
    lemma_payloads_short(rest);
    lemma_frame_in_place(rest, ps, i);
    law_frame_is_length_and_payload(ps[i]);
    let n = framed(ps.take(i)).len() as int;
    let f = frame(ps[i]);
    let from = b.offset as int;
    assert(b == blocks_in(ps)->Ok_0[i]);
    assert(from == 8 + n);
    assert(b.compressed == ps[i].len());
    assert(data.subrange(from, from + f.len()) =~= rest.subrange(n, n + f.len()));
    assert(data.subrange(from + 4, from + f.len()) =~= f.subrange(4, 4int + ps[i].len()));
}

/// A record of every form gives the sessions that were put into it.
pub proof fn law_every_form_gives_its_sessions(s: SessionView, v: Seq<SessionView>)
    ensures
        StoredView::V1(s).sessions().len() == 1,
        StoredView::V1(s).sessions()[0] == s,
        StoredView::Block(v).sessions() == v,
        StoredView::V2(v).sessions() == v,
{
}

/// The sessions of blocks follow each other as the blocks do.
pub proof fn law_sessions_of_blocks_follow_each_other(a: Seq<BlockView>, b: Seq<BlockView>)
    ensures
        sessions_of(a + b) == sessions_of(a) + sessions_of(b),
        a.len() == 1 ==> sessions_of(a) == a[0].stored.sessions(),
        a.len() == 0 ==> sessions_of(a).len() == 0,
    decreases b.len(),
{
    reveal_with_fuel(sessions_of, 2);
    if a.len() == 1 {
        assert(sessions_of(a) =~= a[0].stored.sessions());
    }
    if b.len() == 0 {
        assert(a + b =~= a);
        assert(sessions_of(a + b) =~= sessions_of(a) + sessions_of(b));
    } else {
        law_sessions_of_blocks_follow_each_other(a, b.drop_last());
        assert((a + b).drop_last() =~= a + b.drop_last());
        assert((a + b).last() == b.last());
        assert(sessions_of(a + b) =~= sessions_of(a) + sessions_of(b));
    }
}

/// Roles are numbered in the order in which they are declared.
pub proof fn law_roles_are_numbered()
    ensures
        role_number(MessageRole::User) == 0,
        role_number(MessageRole::System) == 1,
        role_number(MessageRole::Model) == 2,
        role_number(MessageRole::Thought) == 3,
        role_number(MessageRole::Tool) == 4,
        forall|role: MessageRole| #[trigger] numbered_role(role_number(role)) == role,
{
}

/// A session is encoded field by field, in the order of its fields, and each
/// of its messages too.
pub proof fn law_rows_hold_the_fields(s: SessionView, i: int)
    requires
        0 <= i < s.messages.len(),
    ensures
        session_row(s).0 == s.id,
        session_row(s).1 == s.title,
        session_row(s).2 == s.source,
        session_row(s).3 == s.model,
        session_row(s).4 == s.created_at,
        session_row(s).5 == s.metadata_json,
        session_row(s).6.len() == s.messages.len(),
        session_row(s).6[i].0 == role_number(s.messages[i].role),
        session_row(s).6[i].1 == s.messages[i].content,
        session_row(s).6[i].2 is Some <==> s.messages[i].tool_calls is Some,
        session_row(s).6[i].2 is Some ==> session_row(s).6[i].2->0.len()
            == s.messages[i].tool_calls->0.len(),
        session_row(s).6[i].3 is Some <==> s.messages[i].tool_outputs is Some,
        session_row(s).6[i].3 is Some ==> session_row(s).6[i].3->0.len()
            == s.messages[i].tool_outputs->0.len(),
        session_row(s).6[i].4 == s.messages[i].id,
        session_row(s).6[i].5 == s.messages[i].parent_id,
        session_row(s).6[i].6 == s.messages[i].metadata_json,
{
    assert(session_row(s).6[i] == message_row(s.messages[i]));
}

/// The files of a segment are named by its number, in at least three digits.
pub proof fn law_files_are_named_by_number(segment: u32)
    ensures
        data_name(segment) == "data_"@ + padded_decimal(segment as nat, 3) + ".cryo"@,
        index_name(segment) == "index_"@ + padded_decimal(segment as nat, 3) + ".cryo"@,
        padded_decimal(segment as nat, 3).len() >= 3,
        segment_number(data_name(segment)) == Some(segment),
{
    lemma_segment_number_of_data_name(segment);
}

/// A name is that of a data file exactly where a number stands between
/// `data_` and `.cryo`, and it is that of the number.
pub proof fn law_numbers_in_names(digits: Seq<char>)
    ensures
        segment_number("data_"@ + digits + ".cryo"@) is Some <==> parsed_number(
            digits,
            0xffff_ffff,
        ) is Some,
        segment_number("data_"@ + digits + ".cryo"@) is Some ==> segment_number(
            "data_"@ + digits + ".cryo"@,
        )->0 == parsed_number(digits, 0xffff_ffff)->0,
{
    reveal_strlit("data_");
    reveal_strlit(".cryo");
    let name = "data_"@ + digits + ".cryo"@;
    let n = name.len() as int;
    assert(name.take(5) =~= "data_"@);
    assert(name.skip(n - 5) =~= ".cryo"@);
    assert(name.subrange(5, n - 5) =~= digits);
}

/// Only a name of that form is the name of a data file.
pub proof fn law_no_other_name_has_a_number(name: Seq<char>)
    requires
        segment_number(name) is Some,
    ensures
        name.len() >= 10,
        name == "data_"@ + name.subrange(5, name.len() - 5) + ".cryo"@,
{
    reveal_strlit("data_");
    reveal_strlit(".cryo");
    let n = name.len() as int;
    assert(name =~= name.take(5) + name.subrange(5, n - 5) + name.skip(n - 5));
}

/// Segments are listed in ascending order, each number that a file is named
/// by and no other, and as often as files are.
pub proof fn law_segments_are_listed(files: Seq<FileView>)
    ensures
        forall|i: int, j: int|
            0 <= i < j < segments(files).len() ==> segments(files)[i] <= segments(files)[j],
        forall|n: u32| #[trigger]
            segments(files).contains(n) <==> exists|i: int|
                0 <= i < files.len() && segment_number((#[trigger] files[i]).name) == Some(n),
        segments(files).len() == files.filter(
            |f: FileView| segment_number(f.name) is Some,
        ).len(),
    decreases files.len(),
{
    lemma_segments(files);
    reveal(Seq::filter);
    if files.len() > 0 {
        let front = files.drop_last();
        law_segments_are_listed(front);
        lemma_segments(front);
        match segment_number(files.last().name) {
            Some(n) => {
                lemma_inserted(segments(front), n);
            },
            None => {},
        }
    }
}

/// The active segment is the highest that is listed, and the first where none
/// is.
pub proof fn law_highest_segment_is_active(files: Seq<FileView>, n: u32)
    ensures
        segments(files).contains(n) ==> n <= active_segment(files),
        active_segment(files) == 1 || segments(files).contains(active_segment(files)),
        active_segment(files) >= 1,
{
    lemma_segments(files);
    let s = segments(files);
    if s.contains(n) {
        let i = choose|i: int| 0 <= i < s.len() && s[i] == n;
        assert(s[i] <= s[s.len() - 1]);
    }
    if s.len() > 0 {
        assert(s.contains(s[s.len() - 1]));
    }
}

/// A file that was written is read as it was written, and the others as they
/// were.
pub proof fn law_written_files_are_read(
    files: Seq<FileView>,
    name: Seq<char>,
    data: Seq<u8>,
    other: Seq<char>,
)
    ensures
        lookup(written(files, name, data), name) == Some(data),
        other != name ==> lookup(written(files, name, data), other) == lookup(files, other),
{
    lemma_lookup_written(files, name, data, name);
    lemma_lookup_written(files, name, data, other);
}

/// A file is there exactly where one of that name is listed, and it is the
/// first of that name.
pub proof fn law_files_are_found_by_name(files: Seq<FileView>, name: Seq<char>)
    ensures
        lookup(files, name) is Some <==> exists|i: int|
            0 <= i < files.len() && (#[trigger] files[i]).name == name,
        lookup(files, name) is None ==> bytes_of(files, name).len() == 0,
        lookup(files, name) is Some ==> exists|i: int|
            {
                &&& 0 <= i < files.len()
                &&& (#[trigger] files[i]).name == name
                &&& lookup(files, name) == Some(files[i].data)
                &&& bytes_of(files, name) == files[i].data
                &&& forall|j: int| 0 <= j < i ==> (#[trigger] files[j]).name != name
            },
{
    lemma_first_at(files, name);
    let at = first_at(files, name) as int;
    if at < files.len() {
        assert(files[at].name == name);
    }
}

/// Records go into the active segment as long as its data file is below the
/// limit, and into the next one from there on.
pub proof fn law_full_segments_are_left(files: Seq<FileView>, max_size: u64)
    requires
        max_size > 0,
    ensures
        bytes_of(files, data_name(active_segment(files))).len() < max_size ==> writer_segment(
            files,
            max_size,
        ) == Some(active_segment(files)),
        bytes_of(files, data_name(active_segment(files))).len() >= max_size && active_segment(
            files,
        ) < u32::MAX ==> writer_segment(files, max_size) is Some && writer_segment(
            files,
            max_size,
        )->0 == active_segment(files) + 1,
        bytes_of(files, data_name(active_segment(files))).len() >= max_size && active_segment(
            files,
        ) == u32::MAX ==> writer_segment(files, max_size) is None,
{
}

/// A segment that is opened has a data file that starts with the magic, and
/// an index file; one that was there keeps its bytes.
pub proof fn law_opened_segments_are_ready(files: Seq<FileView>, segment: u32, name: Seq<char>)
    ensures
        lookup(opened(files, segment), data_name(segment)) is Some,
        lookup(opened(files, segment), index_name(segment)) is Some,
        bytes_of(files, data_name(segment)).len() == 0 ==> bytes_of(
            opened(files, segment),
            data_name(segment),
        ) == DATA_MAGIC@,
        bytes_of(files, data_name(segment)).len() > 0 ==> bytes_of(
            opened(files, segment),
            data_name(segment),
        ) == bytes_of(files, data_name(segment)),
        bytes_of(opened(files, segment), index_name(segment)) == bytes_of(
            files,
            index_name(segment),
        ),
        name != data_name(segment) && name != index_name(segment) ==> lookup(
            opened(files, segment),
            name,
        ) == lookup(files, name),
{
    lemma_segment_number_of_data_name(segment);
    lemma_index_name_is_no_data_name(segment);
    let data = data_name(segment);
    let index = index_name(segment);
    let none = Seq::<u8>::empty();
    lemma_lookup_written(files, data, DATA_MAGIC@, data);
    lemma_lookup_written(files, data, DATA_MAGIC@, index);
    lemma_lookup_written(files, data, DATA_MAGIC@, name);
    let mid = if bytes_of(files, data).len() == 0 {
        written(files, data, DATA_MAGIC@)
    } else {
        files
    };
    lemma_lookup_written(mid, index, none, data);
    lemma_lookup_written(mid, index, none, index);
    lemma_lookup_written(mid, index, none, name);
}

/// A list goes into the archive in blocks of a hundred sessions, only the
/// last of which may have fewer.
pub proof fn law_bulk_blocks_are_full(sessions: Seq<SessionView>, k: int)
    requires
        0 <= k < bulk_records(sessions).len(),
    ensures
        bulk_records(sessions)[k] is Block,
        k < bulk_records(sessions).len() - 1 ==> bulk_records(sessions)[k].sessions().len() == 100,
        0 < bulk_records(sessions)[k].sessions().len() <= 100,
        forall|j: int|
            0 <= j < bulk_records(sessions)[k].sessions().len() ==> #[trigger] bulk_records(
                sessions,
            )[k].sessions()[j] == sessions[100 * k + j],
{
    let n = sessions.len() as int;
    assert(bulk_records(sessions).len() == (n + 99) / 100);
    if k < bulk_records(sessions).len() - 1 {
        assert((k + 1) * 100 <= n);
    }
}

/// The limits: a data file of one gibibyte is full, and 256 kibibytes of
/// pending events are too many.
pub proof fn law_limits()
    ensures
        MAX_FILE_SIZE == 0x4000_0000,
        PENDING_LIMIT == 0x4_0000,
        BULK_CHUNK == 100,
{
}

} // verus!
