//! Searching the archive: index entries prune blocks, and the text of every
//! session that is left decides.
use vstd::prelude::*;
use crate::codec::{unpack, unpacked};
use crate::frames::{payloads, tail, walk, Frames, Tail};
use crate::index::{entry_value, read_entry, BlockIndex, IndexView};
use crate::laws::results::{law_all_found_meet, meets};
use crate::pattern::{answers, find_pattern, is_answer, is_expression, reads_as_expression};
use crate::schema::{ChatSessionV1, SessionView};
use crate::storage::{Storage, StorageView};
use crate::storage::directory::{
    data_file_name, data_name, index_file_name, index_name, lookup, segments, FileView,
};
use crate::storage::scan::{append_new, lemma_append_new_concat, Gathered};
use crate::storage::segment::{check_header, header_error};
use crate::storage::types::StorageError;
use crate::text::{lowercased, to_lowercase};
use vstd::slice::slice_subrange;

verus! {

/// What is searched for: a text, in sessions created in a range of time.
#[verifier::ext_equal]
pub ghost struct Query {
    pub text: Seq<char>,
    pub after: Option<u64>,
    pub before: Option<u64>,
}

/// A session's creation time does not rule it out; one without passes.
pub open spec fn in_time(s: SessionView, q: Query) -> bool {
    match s.created_at {
        None => true,
        Some(t) => {
            &&& q.after is Some ==> t >= q.after->0
            &&& q.before is Some ==> t <= q.before->0
        },
    }
}

/// Some message of the session answers the query.
pub open spec fn has_text(s: SessionView, q: Query) -> bool {
    exists|i: int|
        0 <= i < s.messages.len() && answers((#[trigger] s.messages[i]).content, q.text)
}

/// The session is what is searched for.
pub open spec fn hit(s: SessionView, q: Query) -> bool {
    in_time(s, q) && has_text(s, q)
}

pub open spec fn hits(sessions: Seq<SessionView>, q: Query) -> Seq<SessionView> {
    sessions.filter(|s: SessionView| hit(s, q))
}

/// The time range of the index entry has nothing in common with the query's.
pub open spec fn outside_time(entry: IndexView, q: Query) -> bool {
    ||| q.after is Some && entry.max_time < q.after->0
    ||| q.before is Some && entry.min_time > q.before->0
}

/// Whether the block has to be read: not where its entry says that the time
/// or the words of a query that is no regular expression do not fit.
pub open spec fn admits(entry: IndexView, q: Query) -> Result<bool, StorageError> {
    if outside_time(entry, q) {
        Ok(false)
    } else if is_expression(q.text) {
        Ok(true)
    } else if !entry.searchable(q.text) {
        Err(StorageError::CorruptIndex)
    } else {
        Ok(entry.matches(q.text))
    }
}

/// The `i`th index entry, if the index has that many.
pub open spec fn entry_at(index: Seq<u8>, i: int) -> Result<Option<IndexView>, StorageError> {
    if i < payloads(index).len() {
        match entry_value(payloads(index)[i]) {
            Err(e) => Err(e),
            Ok(entry) => Ok(Some(entry)),
        }
    } else if tail(index) == Tail::Clean {
        Ok(None)
    } else {
        Err(StorageError::UnexpectedEof)
    }
}

/// Whether the `i`th block has to be read; one without an entry has to.
pub open spec fn must_read(index: Seq<u8>, i: int, q: Query) -> Result<bool, StorageError> {
    match entry_at(index, i) {
        Err(e) => Err(e),
        Ok(None) => Ok(true),
        Ok(Some(entry)) => admits(entry, q),
    }
}

/// The hits in the first `n` whole blocks, or the first error.
pub open spec fn block_hits(ps: Seq<Seq<u8>>, index: Seq<u8>, q: Query, n: nat) -> Result<
    Seq<SessionView>,
    StorageError,
>
    decreases n,
{
    if n == 0 {
        Ok(Seq::empty())
    } else {
        match block_hits(ps, index, q, (n - 1) as nat) {
            Err(e) => Err(e),
            Ok(front) => match must_read(index, n - 1, q) {
                Err(e) => Err(e),
                Ok(false) => Ok(front),
                Ok(true) => match unpacked(ps[n - 1]) {
                    Err(e) => Err(e),
                    Ok((v, _)) => Ok(front + hits(v.sessions(), q)),
                },
            },
        }
    }
}

/// What comes out behind the whole blocks: nothing, or an error. A last block
/// that is cut off does no harm where it need not be read.
pub open spec fn tail_error(rest: Tail, index: Seq<u8>, q: Query, n: int) -> Option<StorageError> {
    match entry_at(index, n) {
        Err(e) => Some(e),
        Ok(_) => match rest {
            Tail::Clean => None,
            Tail::ShortHeader => Some(StorageError::UnexpectedEof),
            Tail::ShortPayload => match must_read(index, n, q) {
                Err(e) => Some(e),
                Ok(true) => Some(StorageError::UnexpectedEof),
                Ok(false) => match entry_at(index, n + 1) {
                    Err(e) => Some(e),
                    Ok(_) => None,
                },
            },
        },
    }
}

/// The hits in one segment, or the first error.
pub open spec fn segment_hits(data: Seq<u8>, index: Seq<u8>, segment: u32, q: Query) -> Result<
    Seq<SessionView>,
    StorageError,
> {
    let ps = payloads(data.skip(8));
    match header_error(data, segment) {
        Some(e) => Err(e),
        None => match block_hits(ps, index, q, ps.len()) {
            Err(e) => Err(e),
            Ok(found) => match tail_error(tail(data.skip(8)), index, q, ps.len() as int) {
                Some(e) => Err(e),
                None => Ok(found),
            },
        },
    }
}

/// The hits in segments, or the first error. A segment without an index
/// cannot be searched.
pub open spec fn archive_hits(files: Seq<FileView>, segs: Seq<u32>, q: Query) -> Result<
    Seq<SessionView>,
    StorageError,
>
    decreases segs.len(),
{
    if segs.len() == 0 {
        Ok(Seq::empty())
    } else {
        match archive_hits(files, segs.drop_last(), q) {
            Err(e) => Err(e),
            Ok(front) => match lookup(files, data_name(segs.last())) {
                None => Ok(front),
                Some(data) => match lookup(files, index_name(segs.last())) {
                    None => Err(StorageError::IndexFileNotFound { segment: segs.last() }),
                    Some(index) => match segment_hits(data, index, segs.last(), q) {
                        Err(e) => Err(e),
                        Ok(found) => Ok(front + found),
                    },
                },
            },
        }
    }
}

/// The result of a search: pending hits first, then those of the archive from
/// the oldest segment to the newest whose id is not among the results yet.
pub open spec fn searched(v: StorageView, q: Query) -> Result<Seq<SessionView>, StorageError> {
    match archive_hits(v.files, segments(v.files), q) {
        Err(e) => Err(e),
        Ok(found) => Ok(append_new(hits(v.pending.readable(), q), found)),
    }
}

proof fn lemma_block_hits_error(ps: Seq<Seq<u8>>, index: Seq<u8>, q: Query, n: nat, m: nat)
    requires
        n <= m,
        block_hits(ps, index, q, n) is Err,
    ensures
        block_hits(ps, index, q, m) == block_hits(ps, index, q, n),
    decreases m,
{
    if n < m {
        lemma_block_hits_error(ps, index, q, n, (m - 1) as nat);
    }
}

pub proof fn lemma_archive_hits_error(files: Seq<FileView>, segs: Seq<u32>, q: Query, n: int)
    requires
        0 <= n <= segs.len(),
        archive_hits(files, segs.take(n), q) is Err,
    ensures
        archive_hits(files, segs, q) == archive_hits(files, segs.take(n), q),
    decreases segs.len() - n,
{
    if n < segs.len() {
        assert(segs.take(n + 1).drop_last() =~= segs.take(n));
        lemma_archive_hits_error(files, segs, q, n + 1);
    } else {
        assert(segs.take(n) =~= segs);
    }
}

/// A search request in executable form.
pub struct Request {
    text: String,
    lower: String,
    expression: bool,
    after: Option<u64>,
    before: Option<u64>,
}

impl Request {
    pub closed spec fn query(self) -> Query {
        Query { text: self.text@, after: self.after, before: self.before }
    }

    pub closed spec fn wf(self) -> bool {
        self.lower@ == lowercased(self.text@) && self.expression == is_expression(self.text@)
    }

    pub fn new(text: &str, after: Option<u64>, before: Option<u64>) -> (r: Self)
        ensures
            r.wf(),
            r.query() == (Query { text: text@, after, before }),
    {
        Request {
            text: text.to_owned(),
            lower: to_lowercase(text),
            expression: reads_as_expression(text),
            after,
            before,
        }
    }

    fn text_in(&self, s: &ChatSessionV1) -> (r: bool)
        requires
            self.wf(),
        ensures
            r == has_text(s.deep_view(), self.query()),
    {
        let ghost messages = s.deep_view().messages;
        let mut i: usize = 0;
        while i < s.messages.len()
            invariant
                i <= s.messages@.len(),
                self.wf(),
                messages == s.deep_view().messages,
                forall|k: int|
                    0 <= k < i ==> !answers((#[trigger] messages[k]).content, self.query().text),
            decreases s.messages@.len() - i,
        {
            assert(messages[i as int] == s.messages@[i as int].deep_view());
            let content = s.messages[i].content.as_str();
            let lower = to_lowercase(content);
            let matched = self.expression && find_pattern(self.text.as_str(), content);
            if is_answer(lower.as_str(), self.lower.as_str(), self.expression, matched) {
                return true;
            }
            i += 1;
        }
        false
    }

    fn time_fits(&self, s: &ChatSessionV1) -> (r: bool)
        ensures
            r == in_time(s.deep_view(), self.query()),
    {
        match s.created_at {
            None => true,
            Some(t) => {
                let late_enough = match self.after {
                    Some(a) => t >= a,
                    None => true,
                };
                let early_enough = match self.before {
                    Some(b) => t <= b,
                    None => true,
                };
                late_enough && early_enough
            },
        }
    }

    /// Whether the session is what is searched for.
    pub fn is_hit(&self, s: &ChatSessionV1) -> (r: bool)
        requires
            self.wf(),
        ensures
            r == hit(s.deep_view(), self.query()),
    {
        self.time_fits(s) && self.text_in(s)
    }

    /// The hits among sessions, in order.
    pub fn select(&self, sessions: Vec<ChatSessionV1>) -> (r: Vec<ChatSessionV1>)
        requires
            self.wf(),
        ensures
            r.deep_view() == hits(sessions.deep_view(), self.query()),
    {
        let ghost all = sessions.deep_view();
        let ghost q = self.query();
        let ghost p = |s: SessionView| hit(s, q);
        let mut out: Vec<ChatSessionV1> = Vec::new();
        proof {
            reveal(Seq::filter);
            assert(all.take(0) =~= Seq::<SessionView>::empty());
            assert(out.deep_view() =~= all.take(0).filter(p));
        }
        for s in it: sessions.into_iter()
            invariant
                it.seq().len() == all.len(),
                forall|k: int|
                    0 <= k < all.len() ==> (#[trigger] it.seq()[k]).deep_view() == all[k],
                self.wf(),
                q == self.query(),
                p == (|s: SessionView| hit(s, q)),
                out.deep_view() == all.take(it.index() as int).filter(p),
        {
            let ghost k = it.index() as int;
            let ghost before = out.deep_view();
            let ghost view = s.deep_view();
            proof {
                assert(view == it.seq()[k].deep_view());
                let t = all.take(k + 1);
                assert(t.drop_last() =~= all.take(k));
                assert(t.last() == all[k]);
                reveal(Seq::filter);
            }
            if self.is_hit(&s) {
                out.push(s);
                assert(out.deep_view() =~= before.push(view));
            }
        }
        assert(all.take(all.len() as int) =~= all);
        out
    }

    fn admitted_by(&self, entry: &BlockIndex) -> (r: Result<bool, StorageError>)
        requires
            self.wf(),
        ensures
            r == admits(entry.deep_view(), self.query()),
    {
        let too_old = match self.after {
            Some(a) => entry.max_time < a,
            None => false,
        };
        let too_new = match self.before {
            Some(b) => entry.min_time > b,
            None => false,
        };
        if too_old || too_new {
            Ok(false)
        } else if self.expression {
            Ok(true)
        } else if !entry.is_searchable(self.text.as_str()) {
            Err(StorageError::CorruptIndex)
        } else {
            Ok(entry.matches(self.text.as_str()))
        }
    }

    /// Whether the `i`th block has to be read, and whether the index can be
    /// read that far.
    fn must_read(&self, index: &Vec<u8>, frames: &Frames, i: usize) -> (r: Result<
        bool,
        StorageError,
    >)
        requires
            self.wf(),
            frames.describe(index@, 0),
        ensures
            r == must_read(index@, i as int, self.query()),
    {
        assert(index@.skip(0) =~= index@);
        if i < frames.spans.len() {
            let span = frames.spans[i];
            assert(payloads(index@)[i as int] == index@.subrange(
                span.start as int,
                span.end as int,
            ));
            match read_entry(slice_subrange(index.as_slice(), span.start, span.end)) {
                Err(e) => Err(e),
                Ok(entry) => self.admitted_by(&entry),
            }
        } else if frames.tail == Tail::Clean {
            Ok(true)
        } else {
            Err(StorageError::UnexpectedEof)
        }
    }

    /// The index can be read as far as the `i`th entry.
    fn check_entry(&self, index: &Vec<u8>, frames: &Frames, i: usize) -> (r: Result<
        (),
        StorageError,
    >)
        requires
            frames.describe(index@, 0),
        ensures
            match r {
                Ok(_) => entry_at(index@, i as int) is Ok,
                Err(e) => entry_at(index@, i as int) == Err::<Option<IndexView>, StorageError>(e),
            },
    {
        assert(index@.skip(0) =~= index@);
        if i < frames.spans.len() {
            let span = frames.spans[i];
            assert(payloads(index@)[i as int] == index@.subrange(
                span.start as int,
                span.end as int,
            ));
            match read_entry(slice_subrange(index.as_slice(), span.start, span.end)) {
                Err(e) => Err(e),
                Ok(_) => Ok(()),
            }
        } else if frames.tail == Tail::Clean {
            Ok(())
        } else {
            Err(StorageError::UnexpectedEof)
        }
    }

    /// Whether a segment can be read to its end behind the whole blocks.
    fn check_tail(&self, rest: Tail, index: &Vec<u8>, entries: &Frames, n: usize) -> (r: Result<
        (),
        StorageError,
    >)
        requires
            self.wf(),
            entries.describe(index@, 0),
        ensures
            match r {
                Ok(_) => tail_error(rest, index@, self.query(), n as int) is None,
                Err(e) => tail_error(rest, index@, self.query(), n as int) == Some(e),
            },
    {
        match self.check_entry(index, entries, n) {
            Err(e) => {
                return Err(e);
            },
            Ok(_) => {},
        }
        match rest {
            Tail::Clean => Ok(()),
            Tail::ShortHeader => Err(StorageError::UnexpectedEof),
            Tail::ShortPayload => match self.must_read(index, entries, n) {
                Err(e) => Err(e),
                Ok(true) => Err(StorageError::UnexpectedEof),
                Ok(false) => {
                    assert(index@.skip(0) =~= index@);
                    assert(n < entries.spans.len());
                    self.check_entry(index, entries, n + 1)
                },
            },
        }
    }

    /// Searches one segment.
    fn search_segment(
        &self,
        data: &Vec<u8>,
        index: &Vec<u8>,
        segment: u32,
        found: &mut Gathered,
    ) -> (r: Result<(), StorageError>)
        requires
            self.wf(),
            old(found).wf(),
        ensures
            final(found).wf(),
            match r {
                Ok(_) => {
                    &&& segment_hits(data@, index@, segment, self.query()) is Ok
                    &&& final(found).sessions.deep_view() == append_new(
                        old(found).sessions.deep_view(),
                        segment_hits(data@, index@, segment, self.query())->Ok_0,
                    )
                },
                Err(e) => segment_hits(data@, index@, segment, self.query()) == Err::<
                    Seq<SessionView>,
                    StorageError,
                >(e),
            },
    {
        match check_header(data, segment) {
            Some(e) => {
                return Err(e);
            },
            None => {},
        }
        let ghost q = self.query();
        let ghost ps = payloads(data@.skip(8));
        let ghost base = found.sessions.deep_view();
        let ghost mut so_far: Seq<SessionView> = Seq::empty();
        let blocks = walk(data.as_slice(), 8);
        let entries = walk(index.as_slice(), 0);
        let mut i: usize = 0;
        while i < blocks.spans.len()
            invariant
                i <= blocks.spans@.len(),
                self.wf(),
                found.wf(),
                q == self.query(),
                ps == payloads(data@.skip(8)),
                header_error(data@, segment) is None,
                blocks.describe(data@, 8),
                entries.describe(index@, 0),
                block_hits(ps, index@, q, i as nat) == Ok::<Seq<SessionView>, StorageError>(
                    so_far,
                ),
                found.sessions.deep_view() == append_new(base, so_far),
            decreases blocks.spans@.len() - i,
        {
            match self.must_read(index, &entries, i) {
                Err(e) => {
                    proof {
                        lemma_block_hits_error(ps, index@, q, (i + 1) as nat, ps.len());
                    }
                    return Err(e);
                },
                Ok(false) => {},
                Ok(true) => {
                    let span = blocks.spans[i];
                    assert(ps[i as int] == data@.subrange(span.start as int, span.end as int));
                    match unpack(slice_subrange(data.as_slice(), span.start, span.end)) {
                        Err(e) => {
                            proof {
                                lemma_block_hits_error(ps, index@, q, (i + 1) as nat, ps.len());
                            }
                            return Err(e);
                        },
                        Ok((stored, _)) => {
                            let ghost v = stored.deep_view();
                            let chosen = self.select(stored.into_sessions());
                            found.add(chosen);
                            proof {
                                lemma_append_new_concat(base, so_far, hits(v.sessions(), q));
                                so_far = so_far + hits(v.sessions(), q);
                            }
                        },
                    }
                },
            }
            i += 1;
        }
        self.check_tail(blocks.tail, index, &entries, i)
    }
}

impl Storage {
    /// Searches the archive using the Index for filtering.
    ///
    /// The query is text or, where special characters stand in it and it can
    /// be read as one, a regular expression as well; letter case does not
    /// matter.
    ///
    /// Iterates through blocks and index entries in sync.
    /// Checks time range first (cheap check), then the Bloom filter.
    /// If a match is found, decompresses and verifies the content (False Positive Check).
    pub fn search(&self, query: &str, after: Option<u64>, before: Option<u64>) -> (r: Result<
        Vec<ChatSessionV1>,
        StorageError,
    >)
        ensures
            ({
                let q = Query { text: query@, after, before };
                match r {
                    Ok(v) => searched(self@, q) == Ok::<Seq<SessionView>, StorageError>(
                        v.deep_view(),
                    ),
                    Err(e) => searched(self@, q) == Err::<Seq<SessionView>, StorageError>(e),
                }
            }),
            r is Ok ==> forall|i: int|
                0 <= i < r->Ok_0.deep_view().len() ==> meets(
                    #[trigger] r->Ok_0.deep_view()[i],
                    Query { text: query@, after, before },
                ),
    {
        let request = Request::new(query, after, before);
        let ghost q = Query { text: query@, after, before };
        let ghost files = self@.files;
        let mut found = Gathered::new();
        let pending = request.select(self.pending.readable());
        let ghost pending_hits = hits(self@.pending.readable(), q);
        assert(pending_hits.take(0) =~= Seq::<SessionView>::empty());
        for s in it: pending.into_iter()
            invariant
                it.seq().len() == pending_hits.len(),
                forall|k: int|
                    0 <= k < pending_hits.len() ==> (#[trigger] it.seq()[k]).deep_view()
                        == pending_hits[k],
                found.wf(),
                found.sessions.deep_view() == pending_hits.take(it.index() as int),
        {
            let ghost k = it.index() as int;
            assert(s.deep_view() == it.seq()[k].deep_view());
            found.push(s);
            assert(found.sessions.deep_view() =~= pending_hits.take(k + 1));
        }
        assert(pending_hits.take(pending_hits.len() as int) =~= pending_hits);
        let segs = self.dir.list_segments();
        let ghost mut so_far: Seq<SessionView> = Seq::empty();
        let mut i: usize = 0;
        assert(segs@.take(0) =~= Seq::<u32>::empty());
        while i < segs.len()
            invariant
                i <= segs@.len(),
                request.wf(),
                request.query() == q,
                q == (Query { text: query@, after, before }),
                pending_hits == hits(self@.pending.readable(), q),
                files == self@.files,
                segs@ == segments(files),
                found.wf(),
                archive_hits(files, segs@.take(i as int), q) == Ok::<
                    Seq<SessionView>,
                    StorageError,
                >(so_far),
                found.sessions.deep_view() == append_new(pending_hits, so_far),
            decreases segs@.len() - i,
        {
            let segment: u32 = segs[i];
            proof {
                let t = segs@.take(i + 1);
                assert(t.drop_last() =~= segs@.take(i as int));
                assert(t.last() == segment);
            }
            let data_file = data_file_name(segment);
            let index_file = index_file_name(segment);
            match self.dir.read(data_file.as_str()) {
                None => {},
                Some(data) => match self.dir.read(index_file.as_str()) {
                    None => {
                        proof {
                            lemma_archive_hits_error(files, segs@, q, i + 1);
                        }
                        return Err(StorageError::IndexFileNotFound { segment });
                    },
                    Some(index) => match request.search_segment(data, index, segment, &mut found) {
                        Err(e) => {
                            proof {
                                lemma_archive_hits_error(files, segs@, q, i + 1);
                            }
                            return Err(e);
                        },
                        Ok(_) => {
                            proof {
                                let more = segment_hits(data@, index@, segment, q)->Ok_0;
                                lemma_append_new_concat(pending_hits, so_far, more);
                                so_far = so_far + more;
                            }
                        },
                    },
                },
            }
            i += 1;
        }
        assert(segs@.take(i as int) =~= segs@);
        proof {
            let q = Query { text: query@, after, before };
            let all = found.sessions.deep_view();
            law_all_found_meet(self@, q);
            assert(searched(self@, q) == Ok::<Seq<SessionView>, StorageError>(all));
            assert forall|i: int| 0 <= i < all.len() implies meets(#[trigger] all[i], q) by {
                assert(searched(self@, q)->Ok_0[i] == all[i]);
            }
        }
        Ok(found.sessions)
    }
}

} // verus!
