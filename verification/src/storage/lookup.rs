//! Finding one session by its id.
use vstd::prelude::*;
use vstd::slice::slice_subrange;
use crate::codec::{unpack, unpacked};
use crate::frames::{payload_at, payloads, read_at, tail, walk, Tail};
use crate::index::{entry_value, read_entry};
use crate::schema::{ChatSessionV1, SessionView};
use crate::storage::{Storage, StorageView};
use crate::storage::blocks::lists_id;
use crate::storage::directory::{
    data_file_name, data_name, index_file_name, index_name, lookup, segments, FileView,
};
use crate::storage::types::StorageError;
use crate::text::{pieces, same_text, Separator};

verus! {

/// The first session of an id.
pub open spec fn first_with_id(sessions: Seq<SessionView>, id: Seq<char>) -> Option<SessionView>
    decreases sessions.len(),
{
    if sessions.len() == 0 {
        None
    } else if sessions[0].id == id {
        Some(sessions[0])
    } else {
        first_with_id(sessions.skip(1), id)
    }
}

/// The session of an id in the block at an offset of a data file.
pub open spec fn session_in_block(data: Seq<u8>, offset: nat, id: Seq<char>) -> Result<
    Option<SessionView>,
    StorageError,
> {
    match payload_at(data, offset) {
        None => Err(StorageError::UnexpectedEof),
        Some(p) => match unpacked(p) {
            Err(e) => Err(e),
            Ok((v, _)) => Ok(first_with_id(v.sessions(), id)),
        },
    }
}

/// The session of an id in the block that an index entry points to, if the
/// entry lists the id.
pub open spec fn session_by_entry(data: Seq<u8>, entry: Seq<u8>, id: Seq<char>) -> Result<
    Option<SessionView>,
    StorageError,
> {
    match entry_value(entry) {
        Err(e) => Err(e),
        Ok(index) => if pieces(index.session_id, Separator::Comma).contains(id) {
            session_in_block(data, index.data_offset as nat, id)
        } else {
            Ok(None)
        },
    }
}

/// The session of an id by the first of the index entries that leads to it,
/// or the first error before.
pub open spec fn session_by_entries(data: Seq<u8>, entries: Seq<Seq<u8>>, id: Seq<char>) -> Result<
    Option<SessionView>,
    StorageError,
>
    decreases entries.len(),
{
    if entries.len() == 0 {
        Ok(None)
    } else {
        match session_by_entries(data, entries.drop_last(), id) {
            Ok(None) => session_by_entry(data, entries.last(), id),
            other => other,
        }
    }
}

/// The session of an id in a segment.
pub open spec fn session_in_segment(data: Seq<u8>, index: Seq<u8>, id: Seq<char>) -> Result<
    Option<SessionView>,
    StorageError,
> {
    match session_by_entries(data, payloads(index), id) {
        Ok(None) => if tail(index) == Tail::Clean {
            Ok(None)
        } else {
            Err(StorageError::UnexpectedEof)
        },
        other => other,
    }
}

/// The session of an id in the oldest segment that has it.
pub open spec fn session_in_archive(files: Seq<FileView>, segs: Seq<u32>, id: Seq<char>) -> Result<
    Option<SessionView>,
    StorageError,
>
    decreases segs.len(),
{
    if segs.len() == 0 {
        Ok(None)
    } else {
        match session_in_archive(files, segs.drop_last(), id) {
            Ok(None) => match lookup(files, data_name(segs.last())) {
                None => Ok(None),
                Some(data) => match lookup(files, index_name(segs.last())) {
                    None => Err(StorageError::IndexFileNotFound { segment: segs.last() }),
                    Some(index) => session_in_segment(data, index, id),
                },
            },
            other => other,
        }
    }
}

/// The session of an id: a pending one, or else one of the archive.
pub open spec fn session_by_id(v: StorageView, id: Seq<char>) -> Result<
    Option<SessionView>,
    StorageError,
> {
    match first_with_id(v.pending.readable(), id) {
        Some(s) => Ok(Some(s)),
        None => session_in_archive(v.files, segments(v.files), id),
    }
}

proof fn lemma_first_has_id(sessions: Seq<SessionView>, id: Seq<char>)
    ensures
        first_with_id(sessions, id) is Some ==> first_with_id(sessions, id)->0.id == id,
    decreases sessions.len(),
{
    if sessions.len() > 0 && sessions[0].id != id {
        lemma_first_has_id(sessions.skip(1), id);
    }
}

proof fn lemma_entries_have_id(data: Seq<u8>, entries: Seq<Seq<u8>>, id: Seq<char>)
    ensures
        match session_by_entries(data, entries, id) {
            Ok(Some(s)) => s.id == id,
            _ => true,
        },
    decreases entries.len(),
{
    if entries.len() > 0 {
        lemma_entries_have_id(data, entries.drop_last(), id);
        match entry_value(entries.last()) {
            Ok(index) => match payload_at(data, index.data_offset as nat) {
                Some(p) => match unpacked(p) {
                    Ok((v, _)) => {
                        lemma_first_has_id(v.sessions(), id);
                    },
                    Err(_) => {},
                },
                None => {},
            },
            Err(_) => {},
        }
    }
}

/// A session of the archive has the id that it was looked up by.
pub proof fn lemma_archived_has_id(files: Seq<FileView>, segs: Seq<u32>, id: Seq<char>)
    ensures
        match session_in_archive(files, segs, id) {
            Ok(Some(s)) => s.id == id,
            _ => true,
        },
    decreases segs.len(),
{
    if segs.len() > 0 {
        lemma_archived_has_id(files, segs.drop_last(), id);
        match (
            lookup(files, data_name(segs.last())),
            lookup(files, index_name(segs.last())),
        ) {
            (Some(data), Some(index)) => {
                lemma_entries_have_id(data, payloads(index), id);
            },
            _ => {},
        }
    }
}

/// Whatever session is found has the id that was asked for.
pub proof fn law_found_session_has_the_id(v: StorageView, id: Seq<char>)
    ensures
        match session_by_id(v, id) {
            Ok(Some(s)) => s.id == id,
            _ => true,
        },
{
    lemma_first_has_id(v.pending.readable(), id);
    lemma_archived_has_id(v.files, segments(v.files), id);
}

/// What a prefix of the entries settles is settled.
pub proof fn lemma_entries_settled(
    data: Seq<u8>,
    entries: Seq<Seq<u8>>,
    id: Seq<char>,
    n: int,
)
    requires
        0 <= n <= entries.len(),
        session_by_entries(data, entries.take(n), id) != Ok::<Option<SessionView>, StorageError>(
            None,
        ),
    ensures
        session_by_entries(data, entries, id) == session_by_entries(data, entries.take(n), id),
    decreases entries.len() - n,
{
    if n < entries.len() {
        assert(entries.take(n + 1).drop_last() =~= entries.take(n));
        lemma_entries_settled(data, entries, id, n + 1);
    } else {
        assert(entries.take(n) =~= entries);
    }
}

/// What a prefix of the segments settles is settled.
pub proof fn lemma_archive_settled(files: Seq<FileView>, segs: Seq<u32>, id: Seq<char>, n: int)
    requires
        0 <= n <= segs.len(),
        session_in_archive(files, segs.take(n), id) != Ok::<Option<SessionView>, StorageError>(
            None,
        ),
    ensures
        session_in_archive(files, segs, id) == session_in_archive(files, segs.take(n), id),
    decreases segs.len() - n,
{
    if n < segs.len() {
        assert(segs.take(n + 1).drop_last() =~= segs.take(n));
        lemma_archive_settled(files, segs, id, n + 1);
    } else {
        assert(segs.take(n) =~= segs);
    }
}

/// Takes the first session of an id out of a list.
pub fn take_with_id(sessions: Vec<ChatSessionV1>, id: &str) -> (r: Option<ChatSessionV1>)
    ensures
        r.deep_view() == first_with_id(sessions.deep_view(), id@),
{
    let ghost all = sessions.deep_view();
    assert(all.skip(0) =~= all);
    for s in it: sessions.into_iter()
        invariant
            it.seq().len() == all.len(),
            all == sessions.deep_view(),
            forall|k: int| 0 <= k < all.len() ==> (#[trigger] it.seq()[k]).deep_view() == all[k],
            first_with_id(all.skip(it.index() as int), id@) == first_with_id(all, id@),
    {
        let ghost k = it.index() as int;
        assert(s.deep_view() == it.seq()[k].deep_view());
        assert(all.skip(k)[0] == all[k]);
        assert(all.skip(k).skip(1) =~= all.skip(k + 1));
        if same_text(s.id.as_str(), id) {
            return Some(s);
        }
    }
    None
}

fn read_by_entry(data: &Vec<u8>, entry: &[u8], id: &str) -> (r: Result<
    Option<ChatSessionV1>,
    StorageError,
>)
    ensures
        match r {
            Ok(s) => session_by_entry(data@, entry@, id@) == Ok::<
                Option<SessionView>,
                StorageError,
            >(s.deep_view()),
            Err(e) => session_by_entry(data@, entry@, id@) == Err::<
                Option<SessionView>,
                StorageError,
            >(e),
        },
{
    let index = match read_entry(entry) {
        Ok(index) => index,
        Err(e) => {
            return Err(e);
        },
    };
    if !lists_id(index.session_id.as_str(), id) {
        return Ok(None);
    }
    match read_at(data.as_slice(), index.data_offset) {
        None => Err(StorageError::UnexpectedEof),
        Some(p) => match unpack(p) {
            Err(e) => Err(e),
            Ok((stored, _)) => Ok(take_with_id(stored.into_sessions(), id)),
        },
    }
}

fn read_in_segment(data: &Vec<u8>, index: &Vec<u8>, id: &str) -> (r: Result<
    Option<ChatSessionV1>,
    StorageError,
>)
    ensures
        match r {
            Ok(s) => session_in_segment(data@, index@, id@) == Ok::<
                Option<SessionView>,
                StorageError,
            >(s.deep_view()),
            Err(e) => session_in_segment(data@, index@, id@) == Err::<
                Option<SessionView>,
                StorageError,
            >(e),
        },
{
    let frames = walk(index.as_slice(), 0);
    let ghost ps = payloads(index@);
    assert(index@.skip(0) =~= index@);
    assert(ps.take(0) =~= Seq::<Seq<u8>>::empty());
    let mut i: usize = 0;
    while i < frames.spans.len()
        invariant
            i <= frames.spans@.len(),
            index@.skip(0) == index@,
            ps == payloads(index@),
            frames.describe(index@, 0),
            session_by_entries(data@, ps.take(i as int), id@) == Ok::<
                Option<SessionView>,
                StorageError,
            >(None),
        decreases frames.spans@.len() - i,
    {
        let span = frames.spans[i];
        proof {
            assert(ps[i as int] == index@.subrange(span.start as int, span.end as int));
            let t = ps.take(i + 1);
            assert(t.drop_last() =~= ps.take(i as int));
            assert(t.last() == ps[i as int]);
        }
        match read_by_entry(data, slice_subrange(index.as_slice(), span.start, span.end), id) {
            Ok(None) => {},
            Ok(Some(s)) => {
                proof {
                    lemma_entries_settled(data@, ps, id@, i + 1);
                }
                return Ok(Some(s));
            },
            Err(e) => {
                proof {
                    lemma_entries_settled(data@, ps, id@, i + 1);
                }
                return Err(e);
            },
        }
        i += 1;
    }
    assert(ps.take(i as int) =~= ps);
    if frames.tail == Tail::Clean {
        Ok(None)
    } else {
        Err(StorageError::UnexpectedEof)
    }
}

impl Storage {
    /// Get a single session by ID using the index
    pub fn get_session_by_id(&self, session_id: &str) -> (r: Result<
        Option<ChatSessionV1>,
        StorageError,
    >)
        ensures
            match r {
                Ok(Some(s)) => s.id@ == session_id@,
                _ => true,
            },
            match r {
                Ok(s) => session_by_id(self@, session_id@) == Ok::<
                    Option<SessionView>,
                    StorageError,
                >(s.deep_view()),
                Err(e) => session_by_id(self@, session_id@) == Err::<
                    Option<SessionView>,
                    StorageError,
                >(e),
            },
    {
        proof {
            law_found_session_has_the_id(self@, session_id@);
        }
        match take_with_id(self.pending.readable(), session_id) {
            Some(s) => Ok(Some(s)),
            None => self.get_archived_session_by_id(session_id),
        }
    }

    /// Checks only the persistent archive files, skipping the pending log.
    /// Iterates every segment so sessions written before rotation remain reachable.
    pub fn get_archived_session_by_id(&self, session_id: &str) -> (r: Result<
        Option<ChatSessionV1>,
        StorageError,
    >)
        ensures
            match r {
                Ok(Some(s)) => s.id@ == session_id@,
                _ => true,
            },
            match r {
                Ok(s) => session_in_archive(self@.files, segments(self@.files), session_id@)
                    == Ok::<Option<SessionView>, StorageError>(s.deep_view()),
                Err(e) => session_in_archive(self@.files, segments(self@.files), session_id@)
                    == Err::<Option<SessionView>, StorageError>(e),
            },
    {
        let segs = self.dir.list_segments();
        let ghost files = self@.files;
        let mut i: usize = 0;
        assert(segs@.take(0) =~= Seq::<u32>::empty());
        proof {
            lemma_archived_has_id(files, segs@, session_id@);
        }
        while i < segs.len()
            invariant
                i <= segs@.len(),
                files == self@.files,
                segs@ == segments(files),
                match session_in_archive(files, segs@, session_id@) {
                    Ok(Some(s)) => s.id == session_id@,
                    _ => true,
                },
                session_in_archive(files, segs@.take(i as int), session_id@) == Ok::<
                    Option<SessionView>,
                    StorageError,
                >(None),
            decreases segs@.len() - i,
        {
            let segment: u32 = segs[i];
            proof {
                let t = segs@.take(i + 1);
                assert(t.drop_last() =~= segs@.take(i as int));
                assert(t.last() == segment);
            }
            let data_file = data_file_name(segment);
            let index_file = index_file_name(segment);
            match self.dir.read(data_file.as_str()) {
                None => {},
                Some(data) => match self.dir.read(index_file.as_str()) {
                    None => {
                        proof {
                            lemma_archive_settled(files, segs@, session_id@, i + 1);
                        }
                        return Err(StorageError::IndexFileNotFound { segment });
                    },
                    Some(index) => match read_in_segment(data, index, session_id) {
                        Ok(None) => {},
                        Ok(Some(s)) => {
                            proof {
                                lemma_archive_settled(files, segs@, session_id@, i + 1);
                            }
                            return Ok(Some(s));
                        },
                        Err(e) => {
                            proof {
                                lemma_archive_settled(files, segs@, session_id@, i + 1);
                            }
                            return Err(e);
                        },
                    },
                },
            }
            i += 1;
        }
        assert(segs@.take(i as int) =~= segs@);
        Ok(None)
    }
}

} // verus!
