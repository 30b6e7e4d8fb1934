//! Importing sessions from the formats in which they come.
use vstd::prelude::*;
use crate::chatgpt::{imported, ChatGptConversation, ConversationView};
use crate::laws::append::{
    contents, law_append_all_extends_contents, law_opening_changes_nothing, sound,
};
use crate::laws::import::{law_stored_form_takes_all_over, lemma_single_records, takes_over};
use crate::schema::{
    is_uuid_text, ChatSessionInput, ChatSessionV1, SessionInputView, SessionView, StoredView,
};
use crate::storage::Storage;
use crate::storage::constants::MAX_FILE_SIZE;
use crate::storage::directory::FileView;
use crate::storage::ingest::{archive_refused, archive_stopped, archived_all};
use crate::storage::types::StorageError;
use crate::storage::writer::{archived, opened, writer_segment};
use crate::text::{decimal, format_number, string_of};

verus! {

/// What an input reads as, format by format.
pub struct Candidates {
    /// One session.
    pub single: Option<ChatSessionInput>,
    /// The conversations of a ChatGPT export.
    pub export: Option<Vec<ChatGptConversation>>,
    /// A list of sessions.
    pub many: Option<Vec<ChatSessionInput>>,
}

#[verifier::ext_equal]
pub ghost struct CandidatesView {
    pub single: Option<SessionInputView>,
    pub export: Option<Seq<ConversationView>>,
    pub many: Option<Seq<SessionInputView>>,
}

impl DeepView for Candidates {
    type V = CandidatesView;

    open spec fn deep_view(&self) -> CandidatesView {
        CandidatesView {
            single: self.single.deep_view(),
            export: self.export.deep_view(),
            many: self.many.deep_view(),
        }
    }
}

/// `s` is the stored form of the input: under its id, or under a random UUID
/// where it has none.
pub open spec fn is_stored_form(input: SessionInputView, s: SessionView) -> bool {
    &&& s == input.stored(s.id)
    &&& match input.id {
        Some(id) => s.id == id,
        None => is_uuid_text(s.id),
    }
}

/// Each session is the stored form of its input.
pub open spec fn are_stored_forms(
    inputs: Seq<SessionInputView>,
    sessions: Seq<SessionView>,
) -> bool {
    &&& inputs.len() == sessions.len()
    &&& forall|i: int|
        0 <= i < inputs.len() ==> is_stored_form(inputs[i], #[trigger] sessions[i])
}

/// The sessions of the conversations that can be imported, in order.
pub open spec fn imported_all(conversations: Seq<ConversationView>) -> Seq<SessionView>
    decreases conversations.len(),
{
    if conversations.len() == 0 {
        Seq::empty()
    } else {
        let front = imported_all(conversations.drop_last());
        match imported(conversations.last()) {
            Some(s) => front.push(s),
            None => front,
        }
    }
}

/// Converts the conversations of an export; those that never end are left out.
pub fn convert_export(conversations: Vec<ChatGptConversation>) -> (r: Vec<ChatSessionV1>)
    ensures
        r.deep_view() == imported_all(conversations.deep_view()),
{
    let ghost all = conversations.deep_view();
    let mut out: Vec<ChatSessionV1> = Vec::new();
    proof {
        assert(all.take(0) =~= Seq::<ConversationView>::empty());
        assert(out.deep_view() =~= Seq::<SessionView>::empty());
    }
    for c in it: conversations.into_iter()
        invariant
            it.seq().len() == all.len(),
            forall|k: int| 0 <= k < all.len() ==> (#[trigger] it.seq()[k]).deep_view() == all[k],
            out.deep_view() == imported_all(all.take(it.index() as int)),
    {
        let ghost k = it.index() as int;
        let ghost before = out.deep_view();
        proof {
            assert(c.deep_view() == it.seq()[k].deep_view());
            let t = all.take(k + 1);
            assert(t.drop_last() =~= all.take(k));
            assert(t.last() == all[k]);
        }
        match ChatSessionV1::try_from(c) {
            Ok(s) => {
                let ghost view = s.deep_view();
                out.push(s);
                assert(out.deep_view() =~= before.push(view));
            },
            Err(_) => {},
        }
    }
    assert(all.take(all.len() as int) =~= all);
    out
}

/// Converts incoming sessions; those without an id get a random one.
pub fn convert_inputs(inputs: Vec<ChatSessionInput>) -> (r: Vec<ChatSessionV1>)
    ensures
        are_stored_forms(inputs.deep_view(), r.deep_view()),
{
    let ghost all = inputs.deep_view();
    let mut out: Vec<ChatSessionV1> = Vec::new();
    for input in it: inputs.into_iter()
        invariant
            it.seq().len() == all.len(),
            forall|k: int| 0 <= k < all.len() ==> (#[trigger] it.seq()[k]).deep_view() == all[k],
            out@.len() == it.index(),
            forall|k: int|
                0 <= k < out@.len() ==> is_stored_form(all[k], (#[trigger] out@[k]).deep_view()),
    {
        let ghost k = it.index() as int;
        assert(input.deep_view() == it.seq()[k].deep_view());
        out.push(ChatSessionV1::from(input));
    }
    assert forall|i: int| 0 <= i < all.len() implies is_stored_form(
        all[i],
        #[trigger] out.deep_view()[i],
    ) by {
        assert(out.deep_view()[i] == out@[i].deep_view());
    }
    out
}

/// What is to be done with an input file.
pub enum ImportPlan {
    /// One session, to be put into the pending log.
    Single(ChatSessionV1),
    /// A ChatGPT export of this many conversations, and the sessions in it.
    Export(usize, Vec<ChatSessionV1>),
    /// A list of sessions.
    Many(Vec<ChatSessionV1>),
    /// None of the formats.
    Unreadable,
}

/// Decides how an input is imported: the first format that it can be read as
/// counts.
pub fn plan_import(input: Candidates) -> (r: ImportPlan)
    ensures
        r is Single <==> input.single is Some,
        r is Export <==> input.single is None && input.export is Some,
        r is Many <==> input.single is None && input.export is None && input.many is Some,
        r is Single ==> takes_over(input.deep_view().single->0, r->Single_0.deep_view()),
        ({
            let v = input.deep_view();
            match r {
                ImportPlan::Single(s) => v.single is Some && is_stored_form(
                    v.single->0,
                    s.deep_view(),
                ),
                ImportPlan::Export(n, sessions) => {
                    &&& v.single is None
                    &&& v.export is Some
                    &&& n == v.export->0.len()
                    &&& sessions.deep_view() == imported_all(v.export->0)
                },
                ImportPlan::Many(sessions) => {
                    &&& v.single is None
                    &&& v.export is None
                    &&& v.many is Some
                    &&& are_stored_forms(v.many->0, sessions.deep_view())
                },
                ImportPlan::Unreadable => v.single is None && v.export is None && v.many is None,
            }
        }),
{
    match input.single {
        Some(input) => {
            let s = ChatSessionV1::from(input);
            proof {
                law_stored_form_takes_all_over(input.deep_view(), s.deep_view());
            }
            return ImportPlan::Single(s);
        },
        None => {},
    }
    match input.export {
        Some(conversations) => {
            let count: usize = conversations.len();
            return ImportPlan::Export(count, convert_export(conversations));
        },
        None => {},
    }
    match input.many {
        Some(inputs) => ImportPlan::Many(convert_inputs(inputs)),
        None => ImportPlan::Unreadable,
    }
}

/// Sessions as records of their own.
pub open spec fn single_records(sessions: Seq<SessionView>) -> Seq<StoredView> {
    sessions.map_values(|s: SessionView| StoredView::V1(s))
}

/// The outcome of appending sessions one by one to a writer.
pub open spec fn append_each_outcome(
    before: Seq<FileView>,
    after: Seq<FileView>,
    sessions: Seq<SessionView>,
    r: Result<usize, StorageError>,
) -> bool {
    match writer_segment(before, MAX_FILE_SIZE) {
        None => r == Err::<usize, StorageError>(StorageError::SegmentLimit) && after == before,
        Some(segment) => match r {
            Ok(n) => n == sessions.len() && archived_all(
                opened(before, segment),
                after,
                single_records(sessions),
            ),
            Err(e) => archive_stopped(
                opened(before, segment),
                after,
                single_records(sessions),
                e,
            ),
        },
    }
}

impl Storage {
    /// Appends sessions one by one, each as a block of its own.
    pub fn append_each(&mut self, sessions: Vec<ChatSessionV1>) -> (r: Result<
        usize,
        StorageError,
    >)
        ensures
            final(self)@.pending == old(self)@.pending,
            append_each_outcome(
                old(self)@.files,
                final(self)@.files,
                sessions.deep_view(),
                r,
            ),
            sound(old(self)@.files) && r is Ok ==> {
                &&& contents(final(self)@.files) == contents(old(self)@.files)
                    + sessions.deep_view()
                &&& r->Ok_0 == sessions@.len()
            },
    {
        let ghost all = sessions.deep_view();
        let ghost records = single_records(all);
        let count: usize = sessions.len();
        match self.get_writer() {
            Ok(_) => {},
            Err(e) => {
                return Err(e);
            },
        }
        let ghost base = self@.files;
        assert(records.take(0) =~= Seq::<StoredView>::empty());
        for s in it: sessions.into_iter()
            invariant
                it.seq().len() == all.len(),
                forall|k: int|
                    0 <= k < all.len() ==> (#[trigger] it.seq()[k]).deep_view() == all[k],
                all == sessions.deep_view(),
                records == single_records(all),
                self@.pending == old(self)@.pending,
                writer_segment(old(self)@.files, MAX_FILE_SIZE) is Some,
                base == opened(
                    old(self)@.files,
                    writer_segment(old(self)@.files, MAX_FILE_SIZE)->0,
                ),
                archived_all(base, self@.files, records.take(it.index() as int)),
        {
            let ghost k = it.index() as int;
            let ghost before = self@.files;
            assert(s.deep_view() == it.seq()[k].deep_view());
            assert(records[k] == StoredView::V1(s.deep_view()));
            match self.append_session(s) {
                Ok(_) => {
                    proof {
                        let t = records.take(k + 1);
                        assert(t.drop_last() =~= records.take(k));
                        assert(t.last() == records[k]);
                        assert(archived(before, self@.files, t.last(), MAX_FILE_SIZE));
                        assert(archived_all(base, self@.files, t));
                    }
                },
                Err(e) => {
                    assert(archived_all(base, before, records.take(k)));
                    assert(archive_refused(before, self@.files, records[k], e));
                    return Err(e);
                },
            }
        }
        assert(records.take(all.len() as int) =~= records);
        proof {
            if sound(old(self)@.files) {
                law_opening_changes_nothing(old(self)@.files, MAX_FILE_SIZE);
                law_append_all_extends_contents(base, self@.files, records);
                lemma_single_records(all);
            }
        }
        Ok(count)
    }
}

/// Why content was not taken in.
#[derive(Clone, Copy, Debug, PartialEq, Eq, Structural)]
pub enum IngestError {
    /// It is in none of the formats.
    Unreadable,
    /// The archive refused it.
    Storage(StorageError),
}

impl IngestError {
    /// The error in words, for an archive in the directory `dir`.
    pub open spec fn text_in(self, dir: Seq<char>) -> Seq<char> {
        match self {
            IngestError::Unreadable =>
                "Failed to parse input as Session, ChatGPT Export, or Session Array."@,
            IngestError::Storage(e) => e.text_in(dir),
        }
    }

    /// The error in words, for an archive in the directory `dir`.
    pub fn message_in(&self, dir: &str) -> (r: String)
        ensures
            r@ == self.text_in(dir@),
    {
        match self {
            IngestError::Unreadable =>
                "Failed to parse input as Session, ChatGPT Export, or Session Array.".to_owned(),
            IngestError::Storage(e) => e.message_in(dir),
        }
    }
}

pub open spec fn export_message(done: nat, all: nat) -> Seq<char> {
    "Imported "@ + decimal(done) + "/"@ + decimal(all) + " conversations from ChatGPT export."@
}

pub open spec fn many_message(n: nat) -> Seq<char> {
    "Imported "@ + decimal(n) + " sessions."@
}

fn say_export(done: usize, all: usize) -> (r: String)
    ensures
        r@ == export_message(done as nat, all as nat),
{
    let mut out = String::new();
    out.append("Imported ");
    let a = string_of(format_number(done as u64).as_slice());
    out.append(a.as_str());
    out.append("/");
    let b = string_of(format_number(all as u64).as_slice());
    out.append(b.as_str());
    out.append(" conversations from ChatGPT export.");
    assert(out@ =~= export_message(done as nat, all as nat));
    out
}

fn say_many(n: usize) -> (r: String)
    ensures
        r@ == many_message(n as nat),
{
    let mut out = String::new();
    out.append("Imported ");
    let a = string_of(format_number(n as u64).as_slice());
    out.append(a.as_str());
    out.append(" sessions.");
    assert(out@ =~= many_message(n as nat));
    out
}

/// The outcome of taking one session in.
pub open spec fn single_outcome(
    before: Seq<FileView>,
    after: Seq<FileView>,
    s: SessionView,
    r: Result<Seq<char>, IngestError>,
) -> bool {
    match r {
        Ok(text) => text == "Session saved."@ && archived(
            before,
            after,
            StoredView::V1(s),
            MAX_FILE_SIZE,
        ),
        Err(IngestError::Storage(e)) => archive_refused(before, after, StoredView::V1(s), e),
        Err(IngestError::Unreadable) => false,
    }
}

/// The outcome of taking several sessions in, with the words for success.
pub open spec fn many_outcome(
    before: Seq<FileView>,
    after: Seq<FileView>,
    sessions: Seq<SessionView>,
    words: Seq<char>,
    r: Result<Seq<char>, IngestError>,
) -> bool {
    match r {
        Ok(text) => text == words && exists|n: usize|
            #[trigger] append_each_outcome(
                before,
                after,
                sessions,
                Ok::<usize, StorageError>(n),
            ),
        Err(IngestError::Storage(e)) => append_each_outcome(
            before,
            after,
            sessions,
            Err::<usize, StorageError>(e),
        ),
        Err(IngestError::Unreadable) => false,
    }
}

/// The outcome of taking a list of incoming sessions in.
pub open spec fn list_outcome(
    before: Seq<FileView>,
    after: Seq<FileView>,
    inputs: Seq<SessionInputView>,
    r: Result<Seq<char>, IngestError>,
) -> bool {
    exists|sessions: Seq<SessionView>|
        #[trigger] are_stored_forms(inputs, sessions) && many_outcome(
            before,
            after,
            sessions,
            many_message(inputs.len()),
            r,
        )
}

/// The outcome of taking content in. The formats are tried in order: one
/// session, a ChatGPT export that is not empty, a list of sessions.
pub open spec fn ingest_outcome(
    before: Seq<FileView>,
    after: Seq<FileView>,
    v: CandidatesView,
    r: Result<Seq<char>, IngestError>,
) -> bool {
    match v.single {
        Some(input) => exists|s: SessionView|
            is_stored_form(input, s) && #[trigger] single_outcome(before, after, s, r),
        None => match v.export {
            Some(conversations) if conversations.len() > 0 => many_outcome(
                before,
                after,
                imported_all(conversations),
                export_message(imported_all(conversations).len(), conversations.len()),
                r,
            ),
            _ => match v.many {
                Some(inputs) => list_outcome(before, after, inputs, r),
                None => r == Err::<Seq<char>, IngestError>(IngestError::Unreadable) && after
                    == before,
            },
        },
    }
}

/// A result with its text as characters.
pub open spec fn worded(r: Result<String, IngestError>) -> Result<Seq<char>, IngestError> {
    match r {
        Ok(s) => Ok(s@),
        Err(e) => Err(e),
    }
}

/// Ingest chat session content from various formats.
///
/// Attempts to read the input in the following priority order:
/// 1. Single `ChatSessionInput` object
/// 2. Array of `ChatGptConversation` (ChatGPT export format)
/// 3. Array of `ChatSessionInput` objects
///
/// Returns a success message indicating how many sessions were imported.
pub fn ingest_content(storage: &mut Storage, content: Candidates) -> (r: Result<
    String,
    IngestError,
>)
    ensures
        final(storage)@.pending == old(storage)@.pending,
        ingest_outcome(
            old(storage)@.files,
            final(storage)@.files,
            content.deep_view(),
            worded(r),
        ),
{
    let ghost before = storage@.files;
    match content.single {
        Some(input) => {
            let session = ChatSessionV1::from(input);
            let ghost s = session.deep_view();
            let r = match storage.append_session(session) {
                Ok(_) => Ok("Session saved.".to_owned()),
                Err(e) => Err(IngestError::Storage(e)),
            };
            assert(single_outcome(before, storage@.files, s, worded(r)));
            return r;
        },
        None => {},
    }
    match content.export {
        Some(conversations) => {
            let count: usize = conversations.len();
            assert(content.deep_view().export == Some(conversations.deep_view()));
            assert(conversations.deep_view().len() == count);
            if count > 0 {
                let sessions = convert_export(conversations);
                let done: usize = sessions.len();
                return match storage.append_each(sessions) {
                    Ok(_) => Ok(say_export(done, count)),
                    Err(e) => Err(IngestError::Storage(e)),
                };
            }
        },
        None => {},
    }
    match content.many {
        Some(inputs) => {
            let count: usize = inputs.len();
            let ghost views = inputs.deep_view();
            let sessions = convert_inputs(inputs);
            let ghost all = sessions.deep_view();
            let r = match storage.append_each(sessions) {
                Ok(_) => Ok(say_many(count)),
                Err(e) => Err(IngestError::Storage(e)),
            };
            assert(many_outcome(
                before,
                storage@.files,
                all,
                many_message(views.len()),
                worded(r),
            ));
            assert(are_stored_forms(views, all));
            assert(list_outcome(before, storage@.files, views, worded(r)));
            r
        },
        None => Err(IngestError::Unreadable),
    }
}

} // verus!
