//! Reading every session of the archive.
use vstd::prelude::*;
use crate::laws::search::{ids_distinct, law_scan_has_no_duplicates};
use crate::schema::{ChatSessionV1, SessionView};
use crate::storage::{Storage, StorageView};
use crate::storage::directory::{data_file_name, data_name, lookup, segments, FileView};
use crate::storage::segment::{read_segment, segment_blocks, sessions_of, BlockView};
use crate::storage::types::StorageError;
use vstd::hash_set::StringHashSet;

verus! {

/// The blocks of a segment, or none where its data file cannot be read.
pub open spec fn blocks_at(files: Seq<FileView>, segment: u32) -> Seq<BlockView> {
    match lookup(files, data_name(segment)) {
        None => Seq::empty(),
        Some(data) => match segment_blocks(data, segment) {
            Ok(blocks) => blocks,
            Err(_) => Seq::empty(),
        },
    }
}

/// The blocks of segments, in order.
pub open spec fn archive_blocks(files: Seq<FileView>, segs: Seq<u32>) -> Seq<BlockView>
    decreases segs.len(),
{
    if segs.len() == 0 {
        Seq::empty()
    } else {
        archive_blocks(files, segs.drop_last()) + blocks_at(files, segs.last())
    }
}

/// Some session has the id.
pub open spec fn has_id(sessions: Seq<SessionView>, id: Seq<char>) -> bool {
    exists|i: int| 0 <= i < sessions.len() && (#[trigger] sessions[i]).id == id
}

/// Sessions behind others, without those whose id is there already.
pub open spec fn append_new(base: Seq<SessionView>, more: Seq<SessionView>) -> Seq<SessionView>
    decreases more.len(),
{
    if more.len() == 0 {
        base
    } else {
        let front = append_new(base, more.drop_last());
        if has_id(front, more.last().id) {
            front
        } else {
            front.push(more.last())
        }
    }
}

/// The error of a full scan: it names the magic bytes.
pub open spec fn scan_error(e: StorageError) -> StorageError {
    match e {
        StorageError::InvalidFormat { segment } => StorageError::WrongMagicBytes { segment },
        _ => e,
    }
}

/// All sessions in the data files of segments, or the first error.
pub open spec fn archive_sessions(files: Seq<FileView>, segs: Seq<u32>) -> Result<
    Seq<SessionView>,
    StorageError,
>
    decreases segs.len(),
{
    if segs.len() == 0 {
        Ok(Seq::empty())
    } else {
        match archive_sessions(files, segs.drop_last()) {
            Err(e) => Err(e),
            Ok(front) => match lookup(files, data_name(segs.last())) {
                None => Ok(front),
                Some(data) => match segment_blocks(data, segs.last()) {
                    Err(e) => Err(scan_error(e)),
                    Ok(blocks) => Ok(front + sessions_of(blocks)),
                },
            },
        }
    }
}

/// Every session, each id once: the archive from the oldest segment to the
/// newest, then the pending ones.
pub open spec fn scanned(v: StorageView) -> Result<Seq<SessionView>, StorageError> {
    match archive_sessions(v.files, segments(v.files)) {
        Err(e) => Err(e),
        Ok(archive) => Ok(append_new(append_new(Seq::empty(), archive), v.pending.readable())),
    }
}

pub proof fn lemma_append_new_concat(
    base: Seq<SessionView>,
    a: Seq<SessionView>,
    b: Seq<SessionView>,
)
    ensures
        append_new(base, a + b) == append_new(append_new(base, a), b),
    decreases b.len(),
{
    if b.len() == 0 {
        assert(a + b =~= a);
    } else {
        assert((a + b).drop_last() =~= a + b.drop_last());
        lemma_append_new_concat(base, a, b.drop_last());
    }
}

pub proof fn lemma_archive_sessions_error(files: Seq<FileView>, segs: Seq<u32>, n: int)
    requires
        0 <= n <= segs.len(),
        archive_sessions(files, segs.take(n)) is Err,
    ensures
        archive_sessions(files, segs) == archive_sessions(files, segs.take(n)),
    decreases segs.len() - n,
{
    if n < segs.len() {
        assert(segs.take(n + 1).drop_last() =~= segs.take(n));
        lemma_archive_sessions_error(files, segs, n + 1);
    } else {
        assert(segs.take(n) =~= segs);
    }
}

/// Sessions without duplicates, and the set of their ids.
pub struct Gathered {
    pub sessions: Vec<ChatSessionV1>,
    pub seen: StringHashSet,
}

impl Gathered {
    pub open spec fn wf(self) -> bool {
        forall|id: Seq<char>|
            self.seen@.contains(id) <==> #[trigger] has_id(self.sessions.deep_view(), id)
    }

    pub fn new() -> (r: Self)
        ensures
            r.wf(),
            r.sessions.deep_view() == Seq::<SessionView>::empty(),
    {
        let r = Gathered { sessions: Vec::new(), seen: StringHashSet::new() };
        assert(r.sessions.deep_view() =~= Seq::<SessionView>::empty());
        r
    }

    /// Puts a session behind the others, whatever its id.
    pub fn push(&mut self, s: ChatSessionV1)
        requires
            old(self).wf(),
        ensures
            final(self).wf(),
            final(self).sessions.deep_view() == old(self).sessions.deep_view().push(s.deep_view()),
    {
        let ghost before = self.sessions.deep_view();
        let ghost view = s.deep_view();
        self.seen.insert(s.id.clone());
        self.sessions.push(s);
        proof {
            let now = self.sessions.deep_view();
            assert(now =~= before.push(view));
            assert forall|id: Seq<char>| self.seen@.contains(id) <==> #[trigger] has_id(
                now,
                id,
            ) by {
                if has_id(before, id) {
                    let i = choose|i: int| 0 <= i < before.len() && (#[trigger] before[i]).id == id;
                    assert(now[i].id == id);
                }
                if has_id(now, id) && id != view.id {
                    let i = choose|i: int| 0 <= i < now.len() && (#[trigger] now[i]).id == id;
                    assert(before[i].id == id);
                }
                if id == view.id {
                    assert(now[before.len() as int].id == id);
                }
            }
        }
    }

    /// Puts the sessions whose id is new behind the others.
    pub fn add(&mut self, more: Vec<ChatSessionV1>)
        requires
            old(self).wf(),
        ensures
            final(self).wf(),
            final(self).sessions.deep_view() == append_new(
                old(self).sessions.deep_view(),
                more.deep_view(),
            ),
    {
        let ghost all = more.deep_view();
        let ghost base = self.sessions.deep_view();
        assert(all.take(0) =~= Seq::<SessionView>::empty());
        for s in it: more.into_iter()
            invariant
                it.seq().len() == all.len(),
                forall|k: int|
                    0 <= k < all.len() ==> (#[trigger] it.seq()[k]).deep_view() == all[k],
                self.wf(),
                self.sessions.deep_view() == append_new(base, all.take(it.index() as int)),
        {
            let ghost k = it.index() as int;
            assert(s.deep_view() == it.seq()[k].deep_view());
            proof {
                let t = all.take(k + 1);
                assert(t.drop_last() =~= all.take(k));
                assert(t.last() == all[k]);
                assert(self.seen@.contains(s.id@) <==> has_id(self.sessions.deep_view(), s.id@));
            }
            if !self.seen.contains(s.id.as_str()) {
                self.push(s);
            }
        }
        assert(all.take(all.len() as int) =~= all);
    }
}

impl Storage {
    /// Reads all sessions from every segment on disk (oldest → newest)
    /// plus the pending buffer.
    ///
    /// Pending sessions come last, so callers that take "last N" see the
    /// freshest activity.
    pub fn scan_all(&self) -> (r: Result<Vec<ChatSessionV1>, StorageError>)
        ensures
            match r {
                Ok(v) => scanned(self@) == Ok::<Seq<SessionView>, StorageError>(v.deep_view()),
                Err(e) => scanned(self@) == Err::<Seq<SessionView>, StorageError>(e),
            },
            r is Ok ==> ids_distinct(r->Ok_0.deep_view()),
    {
        proof {
            if scanned(self@) is Ok {
                law_scan_has_no_duplicates(self@);
            }
        }
        let segs = self.dir.list_segments();
        let ghost files = self@.files;
        let mut found = Gathered::new();
        let ghost mut archive: Seq<SessionView> = Seq::empty();
        let mut i: usize = 0;
        assert(segs@.take(0) =~= Seq::<u32>::empty());
        while i < segs.len()
            invariant
                i <= segs@.len(),
                files == self@.files,
                segs@ == segments(files),
                archive_sessions(files, segs@.take(i as int)) == Ok::<
                    Seq<SessionView>,
                    StorageError,
                >(archive),
                found.wf(),
                found.sessions.deep_view() == append_new(Seq::empty(), archive),
            decreases segs@.len() - i,
        {
            let segment: u32 = segs[i];
            proof {
                let t = segs@.take(i + 1);
                assert(t.drop_last() =~= segs@.take(i as int));
                assert(t.last() == segment);
            }
            let name = data_file_name(segment);
            match self.dir.read(name.as_str()) {
                None => {},
                Some(data) => match read_segment(data, segment) {
                    Err(e) => {
                        proof {
                            lemma_archive_sessions_error(files, segs@, i + 1);
                        }
                        return Err(
                            match e {
                                StorageError::InvalidFormat {
                                    segment,
                                } => StorageError::WrongMagicBytes { segment },
                                other => other,
                            },
                        );
                    },
                    Ok(blocks) => {
                        let ghost all = blocks.deep_view();
                        assert(all.take(0) =~= Seq::<BlockView>::empty());
                        assert(archive + sessions_of(all.take(0)) =~= archive);
                        for block in it: blocks.into_iter()
                            invariant
                                it.seq().len() == all.len(),
                                forall|k: int|
                                    0 <= k < all.len() ==> (#[trigger] it.seq()[k]).deep_view()
                                        == all[k],
                                found.wf(),
                                found.sessions.deep_view() == append_new(
                                    Seq::empty(),
                                    archive + sessions_of(all.take(it.index() as int)),
                                ),
                        {
                            let ghost k = it.index() as int;
                            assert(block.deep_view() == it.seq()[k].deep_view());
                            let ghost stored = block.stored.deep_view();
                            proof {
                                let t = all.take(k + 1);
                                assert(t.drop_last() =~= all.take(k));
                                assert(t.last() == all[k]);
                                let front = archive + sessions_of(all.take(k));
                                lemma_append_new_concat(
                                    Seq::empty(),
                                    front,
                                    stored.sessions(),
                                );
                                assert(front + stored.sessions() =~= archive + sessions_of(t));
                            }
                            found.add(block.stored.into_sessions());
                        }
                        proof {
                            assert(all.take(all.len() as int) =~= all);
                            archive = archive + sessions_of(all);
                        }
                    },
                },
            }
            i += 1;
        }
        assert(segs@.take(i as int) =~= segs@);
        found.add(self.pending.readable());
        Ok(found.sessions)
    }
}

} // verus!
