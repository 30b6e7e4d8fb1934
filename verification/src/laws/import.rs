//! What an import takes over: every text, every field and every session, in
//! order.
use vstd::prelude::*;
use crate::chatgpt::{
    ancestry, imported, law_ending_conversation_is_imported, node_at, node_messages, parts_text,
    role_named, ConversationView, NodeView, PartView,
};
use crate::import::{
    are_stored_forms, export_message, imported_all, ingest_outcome, is_stored_form, many_message,
    many_outcome, single_outcome, single_records, CandidatesView, IngestError,
};
use crate::laws::append::{
    contents, law_append_all_extends_contents, law_append_extends_contents,
    law_opening_changes_nothing, sessions_in, sound,
};
use crate::metadata::json_text;
use crate::schema::{SessionInputView, SessionView, StoredView};
use crate::storage::constants::MAX_FILE_SIZE;
use crate::storage::directory::FileView;
use crate::storage::writer::{opened, writer_segment};
use crate::text::decimal;

verus! {

/// The text of a message is the text of its parts, one behind the other.
pub proof fn law_texts_of_parts_follow_each_other(a: Seq<PartView>, b: Seq<PartView>)
    ensures
        parts_text(a + b) == parts_text(a) + parts_text(b),
        parts_text(a + b).len() == parts_text(a).len() + parts_text(b).len(),
    decreases b.len(),
{
    if b.len() == 0 {
        assert(a + b =~= a);
        assert(parts_text(a) + parts_text(b) =~= parts_text(a));
    } else {
        assert((a + b).drop_last() =~= a + b.drop_last());
        law_texts_of_parts_follow_each_other(a, b.drop_last());
        assert(parts_text(a + b) =~= parts_text(a) + parts_text(b));
    }
}

/// A part of text is that text, and any other part has none.
pub proof fn law_text_of_a_part(p: PartView)
    ensures
        match p {
            PartView::Text(s) => parts_text(seq![p]) == s,
            PartView::Other => parts_text(seq![p]).len() == 0,
        },
        parts_text(Seq::empty()).len() == 0,
{
    let one = seq![p];
    assert(one.drop_last() =~= Seq::<PartView>::empty());
    assert(parts_text(one.drop_last()) =~= Seq::<char>::empty());
    assert(one.last() == p);
    match p {
        PartView::Text(s) => {
            assert(parts_text(one) =~= s);
        },
        PartView::Other => {},
    }
}

/// Every text part stands in the text of the message, behind the texts of the
/// parts before it and in front of the texts of those after it.
pub proof fn law_no_part_is_lost(parts: Seq<PartView>, k: int)
    requires
        0 <= k < parts.len(),
        parts[k] is Text,
    ensures
        parts_text(parts) == parts_text(parts.take(k)) + parts[k]->Text_0 + parts_text(
            parts.skip(k + 1),
        ),
{
    let a = parts.take(k);
    let b = seq![parts[k]];
    let c = parts.skip(k + 1);
    assert(parts =~= a + b + c);
    law_texts_of_parts_follow_each_other(a + b, c);
    law_texts_of_parts_follow_each_other(a, b);
    law_text_of_a_part(parts[k]);
}

/// The roles of an export: an assistant is a model, and a role without a name
/// here counts as the user's.
pub proof fn law_roles_of_an_export(role: Seq<char>)
    ensures
        role_named(role) is Model <==> role == "assistant"@,
        role_named(role) is System <==> role == "system"@,
        role_named(role) is Tool <==> role == "tool"@,
        role_named(role) is User <==> role != "assistant"@ && role != "system"@ && role
            != "tool"@,
{
    reveal_strlit("user");
    reveal_strlit("assistant");
    reveal_strlit("system");
    reveal_strlit("tool");
    assert("user"@.len() == 4 && "tool"@.len() == 4 && "assistant"@.len() == 9 && "system"@.len()
        == 6);
    assert("user"@[0] == 'u' && "tool"@[0] == 't');
}

/// A node with text is one message with all of the text, and one without text
/// is none.
pub proof fn law_messages_of_a_node(n: NodeView)
    ensures
        n.message is None ==> node_messages(n).len() == 0,
        n.message is Some ==> {
            let m = n.message->0;
            let text = match m.parts {
                Some(p) => parts_text(p),
                None => Seq::empty(),
            };
            if text.len() == 0 {
                node_messages(n).len() == 0
            } else {
                &&& node_messages(n).len() == 1
                &&& node_messages(n)[0].content == text
                &&& node_messages(n)[0].role == role_named(m.role)
                &&& node_messages(n)[0].id == Some(m.id)
                &&& node_messages(n)[0].parent_id == n.parent
                &&& node_messages(n)[0].tool_calls is None
                &&& node_messages(n)[0].tool_outputs is None
            }
        },
{
}

/// A node is found by its name: the first one that has it.
pub proof fn law_nodes_go_by_their_names(
    mapping: Seq<(Seq<char>, NodeView)>,
    name: Seq<char>,
)
    ensures
        node_at(mapping, name) <= mapping.len(),
        node_at(mapping, name) < mapping.len() ==> mapping[node_at(mapping, name) as int].0
            == name,
        forall|i: int|
            0 <= i < node_at(mapping, name) && i < mapping.len() ==> (#[trigger] mapping[i]).0
                != name,
    decreases mapping.len(),
{
    if mapping.len() > 0 && mapping[0].0 != name {
        let rest = mapping.skip(1);
        law_nodes_go_by_their_names(rest, name);
        assert forall|i: int|
            0 <= i < node_at(mapping, name) && i < mapping.len() implies (#[trigger] mapping[i]).0
            != name by {
            if i > 0 {
                assert(rest[i - 1] == mapping[i]);
            }
        }
    }
}

/// A conversation is imported under its own id, title and time, as an export.
pub proof fn law_import_keeps_the_fields(c: ConversationView)
    ensures
        imported(c) is Some ==> {
            let s = imported(c)->0;
            &&& s.id == c.id
            &&& s.title == c.title
            &&& s.created_at == c.create_time
            &&& s.source == Some("chatgpt-export"@)
            &&& s.model is None
            &&& s.metadata_json.len() == 0
        },
{
}

/// A conversation whose current node is nowhere has no messages.
pub proof fn law_import_from_nowhere(c: ConversationView)
    requires
        c.current_node is None || forall|i: int|
            0 <= i < c.mapping.len() ==> (#[trigger] c.mapping[i]).0 != c.current_node->0,
    ensures
        imported(c) is Some,
        imported(c)->0.messages.len() == 0,
{
    if c.current_node is Some {
        let name = c.current_node->0;
        law_nodes_go_by_their_names(c.mapping, name);
        if node_at(c.mapping, name) < c.mapping.len() {
            assert(c.mapping[node_at(c.mapping, name) as int].0 == name);
        }
    }
}

/// The messages up to a node are those up to its parent and then its own:
/// where the one is imported, so is the other.
pub proof fn law_import_follows_the_parents(c: ConversationView, at: int)
    requires
        0 <= at < c.mapping.len(),
        c.current_node == Some(c.mapping[at].0),
        forall|i: int| 0 <= i < at ==> (#[trigger] c.mapping[i]).0 != c.mapping[at].0,
    ensures
        ({
            let up = imported(ConversationView { current_node: c.mapping[at].1.parent, ..c });
            &&& imported(c) is Some <==> up is Some
            &&& imported(c) is Some ==> imported(c)->0.messages == up->0.messages + node_messages(
                c.mapping[at].1,
            )
        }),
{
    let m = c.mapping;
    let name = m[at].0;
    let n = m.len();
    let p = ConversationView { current_node: m[at].1.parent, ..c };
    law_nodes_go_by_their_names(m, name);
    let found = node_at(m, name) as int;
    assert(found == at) by {
        if found < at {
            assert(m[found].0 != name);
        } else if found > at {
            assert(m[at].0 != name);
        }
    }
    if imported(c) is Some {
        assert(ancestry(m, p.current_node, (n - 1) as nat) is Some);
        law_ending_conversation_is_imported(p, (n - 1) as nat);
    }
    if imported(p) is Some {
        assert(ancestry(m, c.current_node, n + 1) is Some);
        law_ending_conversation_is_imported(c, n + 1);
    }
}

/// The positions of nodes from the current one to the last that has no
/// parent among the nodes.
pub open spec fn leads_up(c: ConversationView, way: Seq<int>) -> bool {
    &&& forall|i: int|
        0 <= i < way.len() ==> 0 <= #[trigger] way[i] < c.mapping.len() && (if i == 0 {
            c.current_node
        } else {
            c.mapping[way[i - 1]].1.parent
        }) == Some(c.mapping[way[i]].0)
    &&& ({
        let end = if way.len() == 0 {
            c.current_node
        } else {
            c.mapping[way.last()].1.parent
        };
        end is None || forall|i: int|
            0 <= i < c.mapping.len() ==> (#[trigger] c.mapping[i]).0 != end->0
    })
}

/// Where a conversation is imported, going from parent to parent ends.
pub proof fn law_imported_way_ends(c: ConversationView) -> (way: Seq<int>)
    requires
        imported(c) is Some,
    ensures
        leads_up(c, way),
{
    lemma_way(c, c.mapping.len())
}

proof fn lemma_way(c: ConversationView, steps: nat) -> (way: Seq<int>)
    requires
        ancestry(c.mapping, c.current_node, steps) is Some,
    ensures
        leads_up(c, way),
    decreases steps,
{
    let m = c.mapping;
    if c.current_node is None {
        Seq::empty()
    } else {
        let name = c.current_node->0;
        law_nodes_go_by_their_names(m, name);
        let at = node_at(m, name) as int;
        if at >= m.len() {
            Seq::empty()
        } else {
            let up = ConversationView { current_node: m[at].1.parent, ..c };
            let rest = lemma_way(up, (steps - 1) as nat);
            let way = seq![at] + rest;
            assert forall|i: int| 0 <= i < way.len() implies 0 <= #[trigger] way[i]
                < c.mapping.len() && (if i == 0 {
                c.current_node
            } else {
                c.mapping[way[i - 1]].1.parent
            }) == Some(c.mapping[way[i]].0) by {
                if i > 0 {
                    assert(way[i] == rest[i - 1]);
                    assert(i > 1 ==> way[i - 1] == rest[i - 2]);
                }
            }
            if rest.len() > 0 {
                assert(way.last() == rest.last());
            }
            way
        }
    }
}

/// Every conversation of an export that can be imported is, and no other, in
/// the same order.
pub proof fn law_exports_follow_each_other(a: Seq<ConversationView>, b: Seq<ConversationView>)
    ensures
        imported_all(a + b) == imported_all(a) + imported_all(b),
    decreases b.len(),
{
    if b.len() == 0 {
        assert(a + b =~= a);
        assert(imported_all(a) + imported_all(b) =~= imported_all(a));
    } else {
        assert((a + b).drop_last() =~= a + b.drop_last());
        law_exports_follow_each_other(a, b.drop_last());
        assert(imported_all(a + b) =~= imported_all(a) + imported_all(b));
    }
}

/// An export of one conversation is its session, or nothing where it has none.
pub proof fn law_export_of_one(c: ConversationView)
    ensures
        imported(c) is Some ==> imported_all(seq![c]) == seq![imported(c)->0],
        imported(c) is None ==> imported_all(seq![c]).len() == 0,
{
    let one = seq![c];
    assert(one.drop_last() =~= Seq::<ConversationView>::empty());
    assert(imported_all(one.drop_last()) =~= Seq::<SessionView>::empty());
    assert(one.last() == c);
    if imported(c) is Some {
        assert(imported_all(one) =~= seq![imported(c)->0]);
    }
}

/// A session has every field of an input and every message, in order.
pub open spec fn takes_over(input: SessionInputView, s: SessionView) -> bool {
    &&& input.id is Some ==> s.id == input.id->0
    &&& s.title == input.title
    &&& s.source == input.source
    &&& s.model == input.model
    &&& s.created_at == input.created_at
    &&& s.metadata_json == json_text(input.metadata)
    &&& s.messages.len() == input.messages.len()
    &&& forall|i: int|
        0 <= i < s.messages.len() ==> {
            &&& (#[trigger] s.messages[i]).content == input.messages[i].content
            &&& s.messages[i].role == input.messages[i].role
            &&& s.messages[i].tool_calls == input.messages[i].tool_calls
            &&& s.messages[i].tool_outputs == input.messages[i].tool_outputs
            &&& s.messages[i].id == input.messages[i].id
            &&& s.messages[i].parent_id == input.messages[i].parent_id
            &&& s.messages[i].metadata_json == json_text(input.messages[i].metadata)
        }
}

/// The stored form of an input has all that the input has.
pub proof fn law_stored_form_takes_all_over(input: SessionInputView, s: SessionView)
    requires
        is_stored_form(input, s),
    ensures
        takes_over(input, s),
        input.id is None ==> s.id.len() == 36,
{
}

pub proof fn lemma_single_records(sessions: Seq<SessionView>)
    ensures
        sessions_in(single_records(sessions)) == sessions,
    decreases sessions.len(),
{
    if sessions.len() > 0 {
        let front = sessions.drop_last();
        lemma_single_records(front);
        assert(single_records(sessions).drop_last() =~= single_records(front));
        assert(sessions =~= front + seq![sessions.last()]);
    } else {
        assert(sessions_in(single_records(sessions)) =~= sessions);
    }
}

/// `more` sessions stand in the archive behind those of before.
pub open spec fn gained(
    before: Seq<FileView>,
    after: Seq<FileView>,
    more: Seq<SessionView>,
) -> bool {
    sound(after) && contents(after) == contents(before) + more
}

proof fn lemma_many_gained(
    before: Seq<FileView>,
    after: Seq<FileView>,
    sessions: Seq<SessionView>,
    words: Seq<char>,
    text: Seq<char>,
)
    requires
        sound(before),
        many_outcome(before, after, sessions, words, Ok::<Seq<char>, IngestError>(text)),
    ensures
        text == words,
        gained(before, after, sessions),
{
    let segment = writer_segment(before, MAX_FILE_SIZE)->0;
    law_opening_changes_nothing(before, MAX_FILE_SIZE);
    law_append_all_extends_contents(opened(before, segment), after, single_records(sessions));
    lemma_single_records(sessions);
}

/// A single session that is taken in stands last in the archive, with every
/// field and message of the input.
pub proof fn law_single_session_is_taken_in(
    before: Seq<FileView>,
    after: Seq<FileView>,
    v: CandidatesView,
    text: Seq<char>,
) -> (s: SessionView)
    requires
        sound(before),
        v.single is Some,
        ingest_outcome(before, after, v, Ok::<Seq<char>, IngestError>(text)),
    ensures
        gained(before, after, seq![s]),
        takes_over(v.single->0, s),
        text == "Session saved."@,
{
    let input = v.single->0;
    let r = Ok::<Seq<char>, IngestError>(text);
    let s = choose|s: SessionView|
        is_stored_form(input, s) && #[trigger] single_outcome(before, after, s, r);
    law_stored_form_takes_all_over(input, s);
    law_append_extends_contents(before, after, StoredView::V1(s), MAX_FILE_SIZE);
    assert(StoredView::V1(s).sessions() =~= seq![s]);
    s
}

/// The conversations of an export that is taken in stand last in the archive,
/// and the answer says how many of how many they are.
pub proof fn law_export_is_taken_in(
    before: Seq<FileView>,
    after: Seq<FileView>,
    v: CandidatesView,
    text: Seq<char>,
)
    requires
        sound(before),
        v.single is None,
        v.export is Some,
        v.export->0.len() > 0,
        ingest_outcome(before, after, v, Ok::<Seq<char>, IngestError>(text)),
    ensures
        gained(before, after, imported_all(v.export->0)),
        ("Imported "@ + decimal((contents(after).len() - contents(before).len()) as nat) + "/"@
            + decimal(v.export->0.len()) + " conversations"@).is_prefix_of(text),
{
    let all = v.export->0;
    let done = imported_all(all);
    lemma_many_gained(before, after, done, export_message(done.len(), all.len()), text);
    reveal_strlit(" conversations from ChatGPT export.");
    reveal_strlit(" conversations");
    let lead = "Imported "@ + decimal(done.len()) + "/"@ + decimal(all.len()) + " conversations"@;
    assert(lead =~= text.subrange(0, lead.len() as int));
}

/// The sessions of a list that is taken in stand last in the archive, each
/// with every field and message of its input, and the answer says how many
/// they are.
pub proof fn law_list_is_taken_in(
    before: Seq<FileView>,
    after: Seq<FileView>,
    v: CandidatesView,
    text: Seq<char>,
) -> (sessions: Seq<SessionView>)
    requires
        sound(before),
        v.single is None,
        v.export is None || v.export->0.len() == 0,
        v.many is Some,
        ingest_outcome(before, after, v, Ok::<Seq<char>, IngestError>(text)),
    ensures
        gained(before, after, sessions),
        sessions.len() == v.many->0.len(),
        forall|i: int|
            0 <= i < sessions.len() ==> takes_over(v.many->0[i], #[trigger] sessions[i]),
        text == "Imported "@ + decimal(v.many->0.len()) + " sessions."@,
{
    let inputs = v.many->0;
    let r = Ok::<Seq<char>, IngestError>(text);
    let words = many_message(inputs.len());
    let sessions = choose|sessions: Seq<SessionView>|
        #[trigger] are_stored_forms(inputs, sessions) && many_outcome(
            before,
            after,
            sessions,
            words,
            r,
        );
    lemma_many_gained(before, after, sessions, words, text);
    assert forall|i: int| 0 <= i < sessions.len() implies takes_over(
        inputs[i],
        #[trigger] sessions[i],
    ) by {
        law_stored_form_takes_all_over(inputs[i], sessions[i]);
    }
    sessions
}

/// Content in none of the formats is refused, and nothing changes; content in
/// one of them is never refused for its form.
pub proof fn law_unreadable_content_is_refused(
    before: Seq<FileView>,
    after: Seq<FileView>,
    v: CandidatesView,
    r: Result<Seq<char>, IngestError>,
)
    requires
        ingest_outcome(before, after, v, r),
    ensures
        r == Err::<Seq<char>, IngestError>(IngestError::Unreadable) <==> v.single is None && (
        v.export is None || v.export->0.len() == 0) && v.many is None,
        r == Err::<Seq<char>, IngestError>(IngestError::Unreadable) ==> after == before,
{
}

} // verus!
