//! The pending log: streamed events, and the sessions they add up to.
use vstd::prelude::*;
use crate::metadata::{
    clone_members, from_json, get_number, get_text, json_object, members_in, number_member,
    parse_members, push_number, push_text, reads_back, remove, text_member, without, Metadata,
    MetadataView, MetaView,
};
use crate::schema::{
    ChatSessionInput, ChatSessionV1, EventView, MessageInput, MessageInputView, MessageView,
    SessionInputView, SessionView, StreamEvent,
};
use crate::storage::types::StorageError;
use crate::text::decimal;

verus! {

/// One event with the bytes that stand for it in the pending file.
pub struct WalRecord {
    pub event: StreamEvent,
    pub payload: Vec<u8>,
}

#[verifier::ext_equal]
pub ghost struct RecordView {
    pub event: EventView,
    pub payload: Seq<u8>,
}

impl DeepView for WalRecord {
    type V = RecordView;

    open spec fn deep_view(&self) -> RecordView {
        RecordView { event: self.event.deep_view(), payload: self.payload@ }
    }
}

/// The pending file.
pub enum PendingLog {
    /// There is none.
    Absent,
    /// It has this many bytes, which are no run of framed events.
    Unreadable(u64),
    /// The events in it.
    Records(Vec<WalRecord>),
}

#[verifier::ext_equal]
pub ghost enum PendingView {
    Absent,
    Unreadable(u64),
    Records(Seq<RecordView>),
}

impl DeepView for PendingLog {
    type V = PendingView;

    open spec fn deep_view(&self) -> PendingView {
        match self {
            PendingLog::Absent => PendingView::Absent,
            PendingLog::Unreadable(n) => PendingView::Unreadable(*n),
            PendingLog::Records(r) => PendingView::Records(r.deep_view()),
        }
    }
}

/// The events of records.
pub open spec fn events_of(records: Seq<RecordView>) -> Seq<EventView> {
    records.map_values(|r: RecordView| r.event)
}

/// The bytes that records take in the pending file: a length prefix and a
/// payload each.
pub open spec fn records_size(records: Seq<RecordView>) -> nat
    decreases records.len(),
{
    if records.len() == 0 {
        0
    } else {
        records_size(records.drop_last()) + 4 + records.last().payload.len()
    }
}

/// A session under construction.
pub struct Draft {
    pub id: String,
    pub metadata: Metadata,
    pub messages: Vec<MessageInput>,
}

#[verifier::ext_equal]
pub ghost struct DraftView {
    pub id: Seq<char>,
    pub metadata: MetadataView,
    pub messages: Seq<MessageInputView>,
}

impl DeepView for Draft {
    type V = DraftView;

    open spec fn deep_view(&self) -> DraftView {
        DraftView {
            id: self.id@,
            metadata: self.metadata.deep_view(),
            messages: self.messages.deep_view(),
        }
    }
}

pub open spec fn has_draft(drafts: Seq<DraftView>, id: Seq<char>) -> bool {
    exists|i: int| 0 <= i < drafts.len() && (#[trigger] drafts[i]).id == id
}

/// The draft with one more message, if it is the one of the id.
pub open spec fn extended(d: DraftView, id: Seq<char>, message: MessageInputView) -> DraftView {
    if d.id == id {
        DraftView { messages: d.messages.push(message), ..d }
    } else {
        d
    }
}

/// What the first events add up to: the sessions that were started, in
/// order, each with the metadata of its first start event and the messages
/// that came after it.
pub open spec fn drafts(events: Seq<EventView>) -> Seq<DraftView>
    decreases events.len(),
{
    if events.len() == 0 {
        Seq::empty()
    } else {
        let front = drafts(events.drop_last());
        match events.last() {
            EventView::SessionStart { session_id, metadata } => if has_draft(front, session_id) {
                front
            } else {
                front.push(DraftView { id: session_id, metadata, messages: Seq::empty() })
            },
            EventView::AppendMessage { session_id, message } => front.map_values(
                |d: DraftView| extended(d, session_id, message),
            ),
            EventView::Finalize { .. } => front,
        }
    }
}

/// The ids that were finalised after their session had started.
pub open spec fn finalized(events: Seq<EventView>) -> Seq<Seq<char>>
    decreases events.len(),
{
    if events.len() == 0 {
        Seq::empty()
    } else {
        let front = finalized(events.drop_last());
        match events.last() {
            EventView::Finalize { session_id } => if has_draft(
                drafts(events.drop_last()),
                session_id,
            ) {
                front.push(session_id)
            } else {
                front
            },
            _ => front,
        }
    }
}

/// Each id once, in the order of first occurrence.
pub open spec fn distinct_ids(ids: Seq<Seq<char>>) -> Seq<Seq<char>>
    decreases ids.len(),
{
    if ids.len() == 0 {
        Seq::empty()
    } else {
        let front = ids.drop_last();
        if front.contains(ids.last()) {
            distinct_ids(front)
        } else {
            distinct_ids(front).push(ids.last())
        }
    }
}

/// The draft of an id.
pub open spec fn draft_of(all: Seq<DraftView>, id: Seq<char>) -> DraftView
    decreases all.len(),
{
    if all.len() == 0 {
        arbitrary()
    } else if all[0].id == id {
        all[0]
    } else {
        draft_of(all.skip(1), id)
    }
}

/// The finalised sessions, in the order in which they were finalised.
pub open spec fn completed(events: Seq<EventView>) -> Seq<DraftView> {
    distinct_ids(finalized(events)).map_values(|id: Seq<char>| draft_of(drafts(events), id))
}

/// The members that stand for fields of a session.
pub open spec fn stripped(m: MetadataView) -> MetadataView {
    without(without(without(without(m, "title"@), "source"@), "model"@), "created_at"@)
}

/// A draft read as a session: fields that were written as metadata are
/// fields again.
pub open spec fn pending_session(d: DraftView) -> SessionView {
    SessionInputView {
        id: Some(d.id),
        title: text_member(d.metadata, "title"@),
        source: text_member(d.metadata, "source"@),
        model: text_member(d.metadata, "model"@),
        created_at: number_member(d.metadata, "created_at"@),
        metadata: stripped(d.metadata),
        messages: d.messages,
    }.stored(d.id)
}

/// The metadata of a session is the object that its draft has, and so is that
/// of every message, where it came from JSON.
pub open spec fn keeps_objects(s: SessionView, d: DraftView) -> bool {
    &&& from_json(stripped(d.metadata)) ==> json_object(s.metadata_json) == Some(
        stripped(d.metadata),
    )
    &&& forall|j: int|
        0 <= j < d.messages.len() && from_json((#[trigger] d.messages[j]).metadata)
            ==> json_object(s.messages[j].metadata_json) == Some(d.messages[j].metadata)
}

/// The completed sessions of a log.
pub open spec fn pending_sessions(events: Seq<EventView>) -> Seq<SessionView> {
    completed(events).map_values(|d: DraftView| pending_session(d))
}

impl PendingView {
    /// The completed sessions, or why they cannot be read.
    pub open spec fn sessions(self) -> Result<Seq<SessionView>, StorageError> {
        match self {
            PendingView::Absent => Ok(Seq::empty()),
            PendingView::Unreadable(_) => Err(StorageError::PendingUnreadable),
            PendingView::Records(r) => Ok(pending_sessions(events_of(r))),
        }
    }

    /// Sessions have the metadata that is in the log.
    pub open spec fn keeps_objects(self, sessions: Seq<SessionView>) -> bool {
        match self {
            PendingView::Records(r) => forall|i: int|
                0 <= i < completed(events_of(r)).len() ==> keeps_objects(
                    sessions[i],
                    #[trigger] completed(events_of(r))[i],
                ),
            _ => true,
        }
    }

    /// The completed sessions, none where they cannot be read.
    pub open spec fn readable(self) -> Seq<SessionView> {
        match self.sessions() {
            Ok(s) => s,
            Err(_) => Seq::empty(),
        }
    }

    /// The size of the pending file.
    pub open spec fn size(self) -> nat {
        match self {
            PendingView::Absent => 0,
            PendingView::Unreadable(n) => n as nat,
            PendingView::Records(r) => records_size(r),
        }
    }
}

/// Drafts have different ids, and only started sessions are finalised.
pub proof fn lemma_drafts_distinct(events: Seq<EventView>)
    ensures
        forall|i: int, j: int|
            0 <= i < j < drafts(events).len() ==> (#[trigger] drafts(events)[i]).id != (
            #[trigger] drafts(events)[j]).id,
        forall|k: int|
            0 <= k < finalized(events).len() ==> has_draft(
                drafts(events),
                #[trigger] finalized(events)[k],
            ),
    decreases events.len(),
{
    if events.len() > 0 {
        let rest = events.drop_last();
        lemma_drafts_distinct(rest);
        let front = drafts(rest);
        let all = drafts(events);
        assert forall|i: int, j: int| 0 <= i < j < all.len() implies (#[trigger] all[i]).id != (
        #[trigger] all[j]).id by {
            if j < front.len() {
                assert(front[i].id != front[j].id);
            } else {
                assert(front[i].id != all[j].id);
            }
        }
        assert forall|k: int| 0 <= k < finalized(events).len() implies has_draft(
            all,
            #[trigger] finalized(events)[k],
        ) by {
            let id = finalized(events)[k];
            if k < finalized(rest).len() {
                assert(id == finalized(rest)[k]);
            }
            assert(has_draft(front, id));
            let i = choose|i: int| 0 <= i < front.len() && (#[trigger] front[i]).id == id;
            assert(all[i].id == id);
        }
    }
}

pub proof fn lemma_draft_of(all: Seq<DraftView>, id: Seq<char>, i: int)
    requires
        0 <= i < all.len(),
        all[i].id == id,
        forall|j: int| 0 <= j < i ==> (#[trigger] all[j]).id != id,
    ensures
        draft_of(all, id) == all[i],
    decreases all.len(),
{
    if i > 0 {
        let rest = all.skip(1);
        assert(all[0].id != id);
        assert(rest[i - 1] == all[i]);
        assert forall|j: int| 0 <= j < i - 1 implies (#[trigger] rest[j]).id != id by {
            assert(all[j + 1].id != id);
        }
        lemma_draft_of(rest, id, i - 1);
    }
}

/// The position of the draft of an id, or the number of drafts.
fn find_draft(all: &Vec<Draft>, id: &String) -> (r: usize)
    ensures
        r <= all@.len(),
        r < all@.len() ==> all@[r as int].id@ == id@,
        forall|j: int| 0 <= j < r ==> (#[trigger] all@[j]).id@ != id@,
        r < all@.len() <==> has_draft(all.deep_view(), id@),
{
    let mut i: usize = 0;
    while i < all.len()
        invariant
            i <= all@.len(),
            forall|j: int| 0 <= j < i ==> (#[trigger] all@[j]).id@ != id@,
        decreases all@.len() - i,
    {
        if all[i].id == *id {
            assert(all.deep_view()[i as int].id == id@);
            return i;
        }
        i += 1;
    }
    assert forall|j: int| 0 <= j < all.deep_view().len() implies (
    #[trigger] all.deep_view()[j]).id != id@ by {
        assert(all@[j].id@ != id@);
    }
    i
}

/// Replays the events of a log.
fn replay(records: &Vec<WalRecord>) -> (r: (Vec<Draft>, Vec<String>))
    ensures
        r.0.deep_view() == drafts(events_of(records.deep_view())),
        r.1.deep_view() == finalized(events_of(records.deep_view())),
{
    let ghost events = events_of(records.deep_view());
    let mut all: Vec<Draft> = Vec::new();
    let mut done: Vec<String> = Vec::new();
    let mut i: usize = 0;
    assert(events.take(0) =~= Seq::<EventView>::empty());
    assert(all.deep_view() =~= Seq::<DraftView>::empty());
    assert(done.deep_view() =~= Seq::<Seq<char>>::empty());
    while i < records.len()
        invariant
            i <= records@.len(),
            events == events_of(records.deep_view()),
            all.deep_view() == drafts(events.take(i as int)),
            done.deep_view() == finalized(events.take(i as int)),
        decreases records@.len() - i,
    {
        let ghost before = all.deep_view();
        let ghost done_before = done.deep_view();
        proof {
            let t = events.take(i + 1);
            assert(t.drop_last() =~= events.take(i as int));
            assert(t.last() == events[i as int]);
            assert(events[i as int] == records@[i as int].event.deep_view());
            lemma_drafts_distinct(events.take(i as int));
        }
        match &records[i].event {
            StreamEvent::SessionStart { session_id, metadata } => {
                let at: usize = find_draft(&all, session_id);
                if at == all.len() {
                    let draft = Draft {
                        id: session_id.clone(),
                        metadata: clone_members(metadata),
                        messages: Vec::new(),
                    };
                    let ghost view = draft.deep_view();
                    assert(view.messages =~= Seq::<MessageInputView>::empty());
                    all.push(draft);
                    assert(all.deep_view() =~= before.push(view));
                }
            },
            StreamEvent::AppendMessage { session_id, message } => {
                let at: usize = find_draft(&all, session_id);
                let ghost new = before.map_values(
                    |d: DraftView| extended(d, session_id@, message.deep_view()),
                );
                if at < all.len() {
                    let copy = message.clone();
                    let ghost was = all@[at as int].messages.deep_view();
                    all[at].messages.push(copy);
                    proof {
                        let now = all.deep_view();
                        assert(all@[at as int].messages.deep_view() =~= was.push(
                            message.deep_view(),
                        ));
                        assert forall|j: int| 0 <= j < now.len() implies #[trigger] now[j]
                            == new[j] by {
                            if j < at {
                                assert(before[j].id != before[at as int].id);
                            } else if j > at {
                                assert(before[at as int].id != before[j].id);
                            }
                        }
                        assert(now =~= new);
                    }
                } else {
                    assert(all.deep_view() =~= new);
                }
            },
            StreamEvent::Finalize { session_id } => {
                let at: usize = find_draft(&all, session_id);
                if at < all.len() {
                    done.push(session_id.clone());
                    assert(done.deep_view() =~= done_before.push(session_id@));
                }
            },
        }
        i += 1;
    }
    assert(events.take(i as int) =~= events);
    (all, done)
}

/// Whether an id is among others.
pub fn contains_id(ids: &Vec<String>, id: &String) -> (r: bool)
    ensures
        r == ids.deep_view().contains(id@),
{
    let mut i: usize = 0;
    while i < ids.len()
        invariant
            i <= ids@.len(),
            forall|j: int| 0 <= j < i ==> (#[trigger] ids@[j])@ != id@,
        decreases ids@.len() - i,
    {
        if ids[i] == *id {
            assert(ids.deep_view()[i as int] == id@);
            return true;
        }
        i += 1;
    }
    assert forall|j: int| 0 <= j < ids.deep_view().len() implies #[trigger] ids.deep_view()[j]
        != id@ by {
        assert(ids@[j]@ != id@);
    }
    false
}

fn clone_messages(messages: &Vec<MessageInput>) -> (r: Vec<MessageInput>)
    ensures
        r.deep_view() == messages.deep_view(),
{
    let r = messages.clone();
    assert(r.deep_view() =~= messages.deep_view());
    r
}

fn copy_draft(d: &Draft) -> (r: Draft)
    ensures
        r.deep_view() == d.deep_view(),
{
    Draft {
        id: d.id.clone(),
        metadata: clone_members(&d.metadata),
        messages: clone_messages(&d.messages),
    }
}

pub proof fn lemma_distinct_ids_contains(ids: Seq<Seq<char>>, id: Seq<char>)
    ensures
        distinct_ids(ids).contains(id) == ids.contains(id),
    decreases ids.len(),
{
    if ids.len() > 0 {
        let front = ids.drop_last();
        lemma_distinct_ids_contains(front, id);
        lemma_distinct_ids_contains(front, ids.last());
        assert(ids =~= front.push(ids.last()));
        let d = distinct_ids(front);
        if front.contains(id) {
            let i = choose|i: int| 0 <= i < front.len() && front[i] == id;
            assert(ids[i] == id);
            if !front.contains(ids.last()) {
                let k = choose|k: int| 0 <= k < d.len() && d[k] == id;
                assert(d.push(ids.last())[k] == id);
            }
        }
        if id == ids.last() {
            assert(ids[ids.len() - 1] == id);
            if !front.contains(id) {
                assert(d.push(id)[d.len() as int] == id);
            }
        }
        if ids.contains(id) && id != ids.last() {
            let i = choose|i: int| 0 <= i < ids.len() && ids[i] == id;
            assert(front[i] == id);
        }
        if distinct_ids(ids).contains(id) && !front.contains(id) {
            let k = choose|k: int| 0 <= k < distinct_ids(ids).len() && distinct_ids(ids)[k] == id;
            if k < d.len() {
                assert(d[k] == id);
            }
        }
    }
}

/// The finalised drafts of a log, each once, and all finalised ids.
pub fn complete(records: &Vec<WalRecord>) -> (r: (Vec<Draft>, Vec<String>))
    ensures
        r.0.deep_view() == completed(events_of(records.deep_view())),
        r.1.deep_view() == finalized(events_of(records.deep_view())),
{
    let ghost events = events_of(records.deep_view());
    let (all, done) = replay(records);
    let ghost fin = done.deep_view();
    let mut seen: Vec<String> = Vec::new();
    let mut out: Vec<Draft> = Vec::new();
    let mut i: usize = 0;
    proof {
        lemma_drafts_distinct(events);
        assert(fin.take(0) =~= Seq::<Seq<char>>::empty());
        assert(seen.deep_view() =~= distinct_ids(fin.take(0)));
    }
    while i < done.len()
        invariant
            i <= done@.len(),
            events == events_of(records.deep_view()),
            all.deep_view() == drafts(events),
            done.deep_view() == fin,
            fin == finalized(events),
            seen.deep_view() == distinct_ids(fin.take(i as int)),
            out@.len() == seen@.len(),
            forall|k: int|
                0 <= k < out@.len() ==> (#[trigger] out@[k]).deep_view() == draft_of(
                    all.deep_view(),
                    seen.deep_view()[k],
                ),
            forall|k: int|
                0 <= k < fin.len() ==> has_draft(all.deep_view(), #[trigger] fin[k]),
        decreases done@.len() - i,
    {
        let ghost id = fin[i as int];
        let ghost before = seen.deep_view();
        proof {
            assert(id == done@[i as int]@);
            let t = fin.take(i + 1);
            assert(t.drop_last() =~= fin.take(i as int));
            assert(t.last() == id);
            lemma_distinct_ids_contains(fin.take(i as int), id);
        }
        if !contains_id(&seen, &done[i]) {
            let at: usize = find_draft(&all, &done[i]);
            proof {
                let view = all.deep_view();
                assert forall|j: int| 0 <= j < at implies (#[trigger] view[j]).id != id by {
                    assert(all@[j].id@ != id);
                }
                lemma_draft_of(view, id, at as int);
            }
            out.push(copy_draft(&all[at]));
            seen.push(done[i].clone());
            assert(seen.deep_view() =~= before.push(id));
        }
        i += 1;
    }
    assert(fin.take(i as int) =~= fin);
    assert(out.deep_view() =~= completed(events));
    (out, done)
}

/// Takes the members that stand for fields of a session out.
fn strip(m: &Metadata) -> (r: Metadata)
    ensures
        r.deep_view() == stripped(m.deep_view()),
{
    let a = remove(m, "title");
    let b = remove(&a, "source");
    let c = remove(&b, "model");
    remove(&c, "created_at")
}

/// A draft read as a session.
pub fn session_of_draft(d: &Draft) -> (r: ChatSessionV1)
    ensures
        r.deep_view() == pending_session(d.deep_view()),
        keeps_objects(r.deep_view(), d.deep_view()),
{
    let input = ChatSessionInput {
        id: Some(d.id.clone()),
        title: get_text(&d.metadata, "title"),
        source: get_text(&d.metadata, "source"),
        model: get_text(&d.metadata, "model"),
        created_at: get_number(&d.metadata, "created_at"),
        metadata: strip(&d.metadata),
        messages: clone_messages(&d.messages),
    };
    let ghost view = input.deep_view();
    let session = ChatSessionV1::with_id(input, d.id.clone());
    assert forall|j: int|
        0 <= j < d.deep_view().messages.len() && from_json(
            (#[trigger] d.deep_view().messages[j]).metadata,
        ) implies json_object(session.deep_view().messages[j].metadata_json) == Some(
        d.deep_view().messages[j].metadata,
    ) by {
        assert(reads_back(view.messages[j].metadata));
    }
    session
}

impl PendingLog {
    /// Reads all completed sessions currently in the pending WAL buffer.
    pub fn sessions(&self) -> (r: Result<Vec<ChatSessionV1>, StorageError>)
        ensures
            match r {
                Ok(v) => {
                    &&& self.deep_view().sessions() == Ok::<Seq<SessionView>, StorageError>(
                        v.deep_view(),
                    )
                    &&& self.deep_view().keeps_objects(v.deep_view())
                },
                Err(e) => self.deep_view().sessions() == Err::<Seq<SessionView>, StorageError>(e),
            },
    {
        match self {
            PendingLog::Absent => {
                let none: Vec<ChatSessionV1> = Vec::new();
                assert(none.deep_view() =~= Seq::<SessionView>::empty());
                Ok(none)
            },
            PendingLog::Unreadable(_) => Err(StorageError::PendingUnreadable),
            PendingLog::Records(records) => {
                let (done, _) = complete(records);
                let mut out: Vec<ChatSessionV1> = Vec::new();
                let mut i: usize = 0;
                while i < done.len()
                    invariant
                        i <= done@.len(),
                        out@.len() == i,
                        forall|k: int|
                            0 <= k < i ==> (#[trigger] out@[k]).deep_view() == pending_session(
                                done@[k].deep_view(),
                            ) && keeps_objects(out@[k].deep_view(), done@[k].deep_view()),
                    decreases done@.len() - i,
                {
                    out.push(session_of_draft(&done[i]));
                    i += 1;
                }
                let ghost all = completed(events_of(records.deep_view()));
                assert(out.deep_view() =~= pending_sessions(events_of(records.deep_view())));
                assert forall|k: int| 0 <= k < all.len() implies keeps_objects(
                    out.deep_view()[k],
                    #[trigger] all[k],
                ) by {
                    assert(out@[k].deep_view() == out.deep_view()[k]);
                    assert(done@[k].deep_view() == all[k]);
                }
                Ok(out)
            },
        }
    }

    /// The completed sessions, none where they cannot be read.
    pub fn readable(&self) -> (r: Vec<ChatSessionV1>)
        ensures
            r.deep_view() == self.deep_view().readable(),
    {
        match self.sessions() {
            Ok(v) => v,
            Err(_) => {
                let none: Vec<ChatSessionV1> = Vec::new();
                assert(none.deep_view() =~= Seq::<SessionView>::empty());
                none
            },
        }
    }

    /// The size of the pending file, where it fits 64 bits.
    pub fn size(&self) -> (r: Option<u64>)
        ensures
            match r {
                Some(n) => n == self.deep_view().size(),
                None => self.deep_view().size() > u64::MAX,
            },
    {
        match self {
            PendingLog::Absent => Some(0),
            PendingLog::Unreadable(n) => Some(*n),
            PendingLog::Records(records) => {
                let ghost all = records.deep_view();
                let mut total: u64 = 0;
                let mut i: usize = 0;
                assert(all.take(0) =~= Seq::<RecordView>::empty());
                while i < records.len()
                    invariant
                        i <= records@.len(),
                        all == records.deep_view(),
                        self.deep_view().size() == records_size(all),
                        total == records_size(all.take(i as int)),
                    decreases records@.len() - i,
                {
                    proof {
                        let t = all.take(i + 1);
                        assert(t.drop_last() =~= all.take(i as int));
                        assert(t.last() == records@[i as int].deep_view());
                        lemma_records_size_grows(all, i + 1);
                    }
                    let n: u64 = records[i].payload.len() as u64;
                    if n > u64::MAX - 4 || total > u64::MAX - 4 - n {
                        return None;
                    }
                    total = total + 4 + n;
                    i += 1;
                }
                assert(all.take(i as int) =~= all);
                Some(total)
            },
        }
    }
}

proof fn lemma_records_size_grows(records: Seq<RecordView>, n: int)
    requires
        0 <= n <= records.len(),
    ensures
        records_size(records.take(n)) <= records_size(records),
    decreases records.len() - n,
{
    if n < records.len() {
        lemma_records_size_grows(records, n + 1);
        assert(records.take(n + 1).drop_last() =~= records.take(n));
    } else {
        assert(records.take(n) =~= records);
    }
}

/// A stored message as an incoming one.
pub open spec fn message_input(m: MessageView) -> MessageInputView {
    MessageInputView {
        role: m.role,
        content: m.content,
        tool_calls: m.tool_calls,
        tool_outputs: m.tool_outputs,
        id: m.id,
        parent_id: m.parent_id,
        metadata: members_in(m.metadata_json),
    }
}

pub open spec fn with_text(m: MetadataView, name: Seq<char>, v: Option<Seq<char>>) -> MetadataView {
    match v {
        Some(s) => m.push((name, MetaView::Text(s))),
        None => m,
    }
}

/// The metadata that carries a session through the pending log: its own
/// without the members named like fields, and then the fields that are set.
pub open spec fn pending_metadata(s: SessionView) -> MetadataView {
    let m = stripped(members_in(s.metadata_json));
    let m = with_text(m, "title"@, s.title);
    let m = with_text(m, "source"@, s.source);
    let m = with_text(m, "model"@, s.model);
    match s.created_at {
        Some(t) => m.push(("created_at"@, MetaView::Number(decimal(t as nat)))),
        None => m,
    }
}

pub open spec fn message_events(id: Seq<char>, messages: Seq<MessageView>) -> Seq<EventView> {
    messages.map_values(
        |m: MessageView|
            EventView::AppendMessage { session_id: id, message: message_input(m) },
    )
}

/// The events that bring a whole session into the pending log.
pub open spec fn session_events(s: SessionView) -> Seq<EventView> {
    seq![EventView::SessionStart { session_id: s.id, metadata: pending_metadata(s) }]
        + message_events(s.id, s.messages) + seq![EventView::Finalize { session_id: s.id }]
}

fn put_text(m: &mut Metadata, name: &str, v: &Option<String>)
    ensures
        final(m).deep_view() == with_text(old(m).deep_view(), name@, v.deep_view()),
{
    match v {
        Some(s) => push_text(m, name, s),
        None => {},
    }
}

/// The events that bring a whole session into the pending log: its start
/// with the fields as metadata, its messages, and its end.
pub fn events_of_session(session: ChatSessionV1) -> (r: Vec<StreamEvent>)
    ensures
        r.deep_view() == session_events(session.deep_view()),
{
    let ghost view = session.deep_view();
    let parsed = parse_members(session.metadata_json.as_str());
    let mut metadata = strip(&parsed);
    put_text(&mut metadata, "title", &session.title);
    put_text(&mut metadata, "source", &session.source);
    put_text(&mut metadata, "model", &session.model);
    match session.created_at {
        Some(t) => push_number(&mut metadata, "created_at", t),
        None => {},
    }
    let mut out: Vec<StreamEvent> = Vec::new();
    let start = StreamEvent::SessionStart { session_id: session.id.clone(), metadata };
    let ghost first = start.deep_view();
    out.push(start);
    let ghost all = view.messages;
    let ghost middle = message_events(view.id, all);
    assert(out.deep_view() =~= seq![first] + middle.take(0));
    let id = session.id;
    for m in it: session.messages.into_iter()
        invariant
            it.seq().len() == all.len(),
            forall|k: int| 0 <= k < all.len() ==> (#[trigger] it.seq()[k]).deep_view() == all[k],
            middle == message_events(view.id, all),
            id@ == view.id,
            out.deep_view() == seq![first] + middle.take(it.index() as int),
    {
        let ghost k = it.index() as int;
        let ghost before = out.deep_view();
        assert(m.deep_view() == it.seq()[k].deep_view());
        let metadata = parse_members(m.metadata_json.as_str());
        let message = MessageInput {
            role: m.role,
            content: m.content,
            tool_calls: m.tool_calls,
            tool_outputs: m.tool_outputs,
            id: m.id,
            parent_id: m.parent_id,
            metadata,
        };
        let event = StreamEvent::AppendMessage { session_id: id.clone(), message };
        let ghost e = event.deep_view();
        assert(e == middle[k]);
        out.push(event);
        assert(out.deep_view() =~= before.push(e));
        assert(out.deep_view() =~= seq![first] + middle.take(k + 1));
    }
    let ghost before = out.deep_view();
    let end = StreamEvent::Finalize { session_id: id };
    let ghost last = end.deep_view();
    out.push(end);
    assert(out.deep_view() =~= before.push(last));
    assert(middle.take(all.len() as int) =~= middle);
    assert(out.deep_view() =~= session_events(view));
    out
}

} // verus!
