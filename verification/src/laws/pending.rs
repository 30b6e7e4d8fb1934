//! The pending log: a session comes out of it as it went in, and a flush
//! loses nothing and is done once.
use vstd::prelude::*;
use crate::laws::search::{ids_distinct, lemma_append_new};
use crate::metadata::{
    all_but, from_json, json_object, json_text, member, members_in, number_member, text_member,
    MetadataView, MetaView,
};
use crate::schema::{stored_messages, EventView, MessageInputView, MessageView, SessionView};
use crate::storage::StorageView;
use crate::storage::directory::segments;
use crate::storage::pending::{
    completed, distinct_ids, draft_of, drafts, events_of, extended, finalized, has_draft,
    keeps_objects, lemma_distinct_ids_contains, lemma_draft_of, lemma_drafts_distinct,
    message_events, message_input, pending_metadata, pending_session, pending_sessions,
    session_events, stripped, with_text, DraftView, PendingView,
};
use crate::storage::search::{hit, hits, searched, Query};
use crate::text::{decimal, lemma_decimal_reads_back, parsed_number, without_plus};

verus! {

pub proof fn lemma_distinct_ids_are_distinct(ids: Seq<Seq<char>>)
    ensures
        forall|i: int, j: int|
            0 <= i < j < distinct_ids(ids).len() ==> distinct_ids(ids)[i] != distinct_ids(ids)[j],
    decreases ids.len(),
{
    if ids.len() > 0 {
        let front = ids.drop_last();
        lemma_distinct_ids_are_distinct(front);
        lemma_distinct_ids_contains(front, ids.last());
        let d = distinct_ids(front);
        let all = distinct_ids(ids);
        assert forall|i: int, j: int| 0 <= i < j < all.len() implies all[i] != all[j] by {
            if j == d.len() {
                assert(d.contains(d[i]));
            }
        }
    }
}

pub proof fn lemma_draft_of_has_id(all: Seq<DraftView>, id: Seq<char>)
    requires
        has_draft(all, id),
    ensures
        draft_of(all, id).id == id,
        all.contains(draft_of(all, id)),
    decreases all.len(),
{
    let k = choose|k: int| 0 <= k < all.len() && (#[trigger] all[k]).id == id;
    if all[0].id != id {
        let rest = all.skip(1);
        assert(rest[k - 1].id == id);
        lemma_draft_of_has_id(rest, id);
        let m = choose|m: int| 0 <= m < rest.len() && rest[m] == draft_of(rest, id);
        assert(all[m + 1] == draft_of(all, id));
    } else {
        assert(all.contains(all[0]));
    }
}

/// The id of the `i`th completed session is the `i`th finalised one.
pub proof fn lemma_completed_ids(events: Seq<EventView>)
    ensures
        completed(events).len() == distinct_ids(finalized(events)).len(),
        forall|i: int|
            0 <= i < completed(events).len() ==> (#[trigger] completed(events)[i]).id
                == distinct_ids(finalized(events))[i],
{
    lemma_drafts_distinct(events);
    let fin = finalized(events);
    let d = distinct_ids(fin);
    assert forall|i: int| 0 <= i < completed(events).len() implies (
    #[trigger] completed(events)[i]).id == d[i] by {
        lemma_distinct_ids_contains(fin, d[i]);
        assert(d.contains(d[i]));
        let k = choose|k: int| 0 <= k < fin.len() && fin[k] == d[i];
        assert(has_draft(drafts(events), fin[k]));
        lemma_draft_of_has_id(drafts(events), d[i]);
    }
}

/// No two pending sessions have the same id.
pub proof fn law_pending_ids_are_distinct(events: Seq<EventView>)
    ensures
        ids_distinct(pending_sessions(events)),
{
    let all = pending_sessions(events);
    lemma_completed_ids(events);
    lemma_distinct_ids_are_distinct(finalized(events));
    assert forall|i: int, j: int| 0 <= i < j < all.len() implies (#[trigger] all[i]).id != (
    #[trigger] all[j]).id by {
        assert(all[i].id == completed(events)[i].id);
        assert(all[j].id == completed(events)[j].id);
    }
}

pub proof fn lemma_filter_keeps_ids_distinct(
    s: Seq<SessionView>,
    p: spec_fn(SessionView) -> bool,
)
    requires
        ids_distinct(s),
    ensures
        ids_distinct(s.filter(p)),
    decreases s.len(),
{
    reveal(Seq::filter);
    if s.len() > 0 {
        let front = s.drop_last();
        assert forall|i: int, j: int| 0 <= i < j < front.len() implies (#[trigger] front[i]).id != (
        #[trigger] front[j]).id by {
            assert(s[i].id != s[j].id);
        }
        lemma_filter_keeps_ids_distinct(front, p);
        let f = front.filter(p);
        let all = s.filter(p);
        assert forall|i: int, j: int| 0 <= i < j < all.len() implies (#[trigger] all[i]).id != (
        #[trigger] all[j]).id by {
            if j < f.len() {
                assert(f[i].id != f[j].id);
            } else {
                assert(f.contains(f[i]));
                front.lemma_filter_contains_rev(p, f[i]);
                let k = choose|k: int| 0 <= k < front.len() && front[k] == f[i];
                assert(s[k].id != s[s.len() - 1].id);
            }
        }
    }
}

/// A search gives every id once.
pub proof fn law_search_has_no_duplicates(v: StorageView, q: Query)
    requires
        searched(v, q) is Ok,
    ensures
        ids_distinct(searched(v, q)->Ok_0),
{
    let pending = v.pending.readable();
    match v.pending {
        PendingView::Records(r) => {
            law_pending_ids_are_distinct(events_of(r));
        },
        _ => {},
    }
    lemma_filter_keeps_ids_distinct(pending, |s: SessionView| hit(s, q));
    let found = crate::storage::search::archive_hits(v.files, segments(v.files), q)->Ok_0;
    lemma_append_new(hits(pending, q), found);
}

pub proof fn lemma_filter_step<A>(s: Seq<A>, x: A, p: spec_fn(A) -> bool)
    ensures
        s.push(x).filter(p) == if p(x) {
            s.filter(p).push(x)
        } else {
            s.filter(p)
        },
{
    reveal(Seq::filter);
    assert(s.push(x).drop_last() =~= s);
}

/// A member is not one of those that stand for fields.
pub open spec fn is_free(m: (Seq<char>, MetaView)) -> bool {
    m.0 != "title"@ && m.0 != "source"@ && m.0 != "model"@ && m.0 != "created_at"@
}

pub proof fn lemma_stripped(m: MetadataView)
    ensures
        stripped(m) == m.filter(|x: (Seq<char>, MetaView)| is_free(x)),
    decreases m.len(),
{
    let p = |x: (Seq<char>, MetaView)| is_free(x);
    reveal(Seq::filter);
    if m.len() == 0 {
        assert(stripped(m) =~= m.filter(p));
    } else {
        let front = m.drop_last();
        let x = m.last();
        lemma_stripped(front);
        assert(m =~= front.push(x));
        let a = |y: (Seq<char>, MetaView)| y.0 != "title"@;
        let b = |y: (Seq<char>, MetaView)| y.0 != "source"@;
        let c = |y: (Seq<char>, MetaView)| y.0 != "model"@;
        let d = |y: (Seq<char>, MetaView)| y.0 != "created_at"@;
        let fa = front.filter(a);
        let fb = fa.filter(b);
        let fc = fb.filter(c);
        lemma_filter_step(front, x, a);
        lemma_filter_step(fa, x, b);
        lemma_filter_step(fb, x, c);
        lemma_filter_step(fc, x, d);
        lemma_filter_step(front, x, p);
    }
}

proof fn lemma_stripped_push(m: MetadataView, x: (Seq<char>, MetaView))
    ensures
        stripped(m.push(x)) == if is_free(x) {
            stripped(m).push(x)
        } else {
            stripped(m)
        },
{
    let p = |x: (Seq<char>, MetaView)| is_free(x);
    lemma_stripped(m);
    lemma_stripped(m.push(x));
    lemma_filter_step(m, x, p);
}

proof fn lemma_stripped_twice(m: MetadataView)
    ensures
        stripped(stripped(m)) == stripped(m),
    decreases m.len(),
{
    reveal(Seq::filter);
    if m.len() == 0 {
        lemma_stripped(m);
        lemma_stripped(stripped(m));
        assert(stripped(m) =~= m);
    } else {
        let front = m.drop_last();
        assert(m =~= front.push(m.last()));
        lemma_stripped_twice(front);
        lemma_stripped_push(front, m.last());
        lemma_stripped_push(stripped(front), m.last());
    }
}

proof fn lemma_member_push(m: MetadataView, x: (Seq<char>, MetaView), name: Seq<char>)
    ensures
        member(m.push(x), name) == match member(m, name) {
            Some(v) => Some(v),
            None => if x.0 == name {
                Some(x.1)
            } else {
                None
            },
        },
    decreases m.len(),
{
    if m.len() == 0 {
        assert(m.push(x)[0] == x);
        assert(m.push(x).skip(1) =~= Seq::<(Seq<char>, MetaView)>::empty());
        assert(member(m.push(x).skip(1), name) is None);
    } else {
        assert(m.push(x)[0] == m[0]);
        assert(m.push(x).skip(1) =~= m.skip(1).push(x));
        lemma_member_push(m.skip(1), x, name);
    }
}

proof fn lemma_no_field_in_stripped(m: MetadataView, name: Seq<char>)
    requires
        name == "title"@ || name == "source"@ || name == "model"@ || name == "created_at"@,
    ensures
        member(stripped(m), name) is None,
    decreases m.len(),
{
    reveal(Seq::filter);
    if m.len() == 0 {
        lemma_stripped(m);
        assert(stripped(m) =~= m);
    } else {
        let front = m.drop_last();
        assert(m =~= front.push(m.last()));
        lemma_no_field_in_stripped(front, name);
        lemma_stripped_push(front, m.last());
        lemma_member_push(stripped(front), m.last(), name);
    }
}

/// The fields of a session are read back from the metadata that carries them,
/// and what is left is the session's own metadata without such members.
proof fn lemma_pending_metadata(s: SessionView)
    ensures
        text_member(pending_metadata(s), "title"@) == s.title,
        text_member(pending_metadata(s), "source"@) == s.source,
        text_member(pending_metadata(s), "model"@) == s.model,
        number_member(pending_metadata(s), "created_at"@) == s.created_at,
        stripped(pending_metadata(s)) == stripped(members_in(s.metadata_json)),
{
    let t = "title"@;
    let o = "source"@;
    let l = "model"@;
    let c = "created_at"@;
    reveal_strlit("title");
    reveal_strlit("source");
    reveal_strlit("model");
    reveal_strlit("created_at");
    assert(t.len() == 5 && o.len() == 6 && l.len() == 5 && c.len() == 10);
    assert(t[0] == 't' && l[0] == 'm');
    let own = members_in(s.metadata_json);
    let m0 = stripped(own);
    let m1 = with_text(m0, t, s.title);
    let m2 = with_text(m1, o, s.source);
    let m3 = with_text(m2, l, s.model);
    lemma_stripped_twice(own);
    assert forall|name: Seq<char>|
        name == t || name == o || name == l || name == c implies #[trigger] member(m0, name)
        is None by {
        lemma_no_field_in_stripped(own, name);
    }
    if s.title is Some {
        let x = (t, MetaView::Text(s.title->0));
        lemma_stripped_push(m0, x);
        lemma_member_push(m0, x, t);
        lemma_member_push(m0, x, o);
        lemma_member_push(m0, x, l);
        lemma_member_push(m0, x, c);
    }
    if s.source is Some {
        let x = (o, MetaView::Text(s.source->0));
        lemma_stripped_push(m1, x);
        lemma_member_push(m1, x, t);
        lemma_member_push(m1, x, o);
        lemma_member_push(m1, x, l);
        lemma_member_push(m1, x, c);
    }
    if s.model is Some {
        let x = (l, MetaView::Text(s.model->0));
        lemma_stripped_push(m2, x);
        lemma_member_push(m2, x, t);
        lemma_member_push(m2, x, o);
        lemma_member_push(m2, x, l);
        lemma_member_push(m2, x, c);
    }
    if s.created_at is Some {
        let n = s.created_at->0;
        let x = (c, MetaView::Number(decimal(n as nat)));
        lemma_stripped_push(m3, x);
        lemma_member_push(m3, x, t);
        lemma_member_push(m3, x, o);
        lemma_member_push(m3, x, l);
        lemma_member_push(m3, x, c);
        lemma_decimal_reads_back(n as nat);
        let d = decimal(n as nat);
        assert(crate::text::is_digit(d[0]));
        assert(without_plus(d) == d);
        assert(parsed_number(d, u64::MAX as nat) == Some(n as nat));
    }
}

/// A session as it comes out of the pending log: metadata in the notation
/// that the library writes, and without members that stand for fields.
pub open spec fn restored(s: SessionView) -> SessionView {
    SessionView {
        metadata_json: json_text(stripped(members_in(s.metadata_json))),
        messages: s.messages.map_values(
            |m: MessageView|
                MessageView { metadata_json: json_text(members_in(m.metadata_json)), ..m },
        ),
        ..s
    }
}

proof fn lemma_restored(s: SessionView, d: DraftView)
    requires
        d.id == s.id,
        d.metadata == pending_metadata(s),
        d.messages == s.messages.map_values(|m: MessageView| message_input(m)),
    ensures
        pending_session(d) == restored(s),
{
    lemma_pending_metadata(s);
    assert(stored_messages(d.messages) =~= restored(s).messages);
}

proof fn lemma_replay_messages(events: Seq<EventView>, s: SessionView, k: int)
    requires
        !has_draft(drafts(events), s.id),
        0 <= k <= s.messages.len(),
    ensures
        ({
            let start = EventView::SessionStart {
                session_id: s.id,
                metadata: pending_metadata(s),
            };
            let all = events.push(start) + message_events(s.id, s.messages).take(k);
            &&& drafts(all) == drafts(events).push(
                DraftView {
                    id: s.id,
                    metadata: pending_metadata(s),
                    messages: s.messages.map_values(|m: MessageView| message_input(m)).take(k),
                },
            )
            &&& finalized(all) == finalized(events)
        }),
    decreases k,
{
    let start = EventView::SessionStart { session_id: s.id, metadata: pending_metadata(s) };
    let middle = message_events(s.id, s.messages);
    let inputs = s.messages.map_values(|m: MessageView| message_input(m));
    let all = events.push(start) + middle.take(k);
    if k == 0 {
        assert(all =~= events.push(start));
        assert(all.drop_last() =~= events);
        assert(inputs.take(0) =~= Seq::<MessageInputView>::empty());
    } else {
        lemma_replay_messages(events, s, k - 1);
        let front = events.push(start) + middle.take(k - 1);
        assert(all.drop_last() =~= front);
        assert(all.last() == middle[k - 1]);
        let old = drafts(events);
        let m = inputs[k - 1];
        let was = drafts(front);
        let now = was.map_values(|d: DraftView| extended(d, s.id, m));
        let want = old.push(
            DraftView { id: s.id, metadata: pending_metadata(s), messages: inputs.take(k) },
        );
        assert(inputs.take(k) =~= inputs.take(k - 1).push(m));
        assert forall|i: int| 0 <= i < now.len() implies now[i] == want[i] by {
            if i < old.len() {
                assert(old[i].id != s.id);
            }
        }
        assert(now =~= want);
    }
}

/// The draft that the events of a session make.
pub open spec fn draft_of_session(s: SessionView) -> DraftView {
    DraftView {
        id: s.id,
        metadata: pending_metadata(s),
        messages: s.messages.map_values(|m: MessageView| message_input(m)),
    }
}

/// Where the metadata of a session and of its messages are JSON objects, they
/// come out of the pending log as the same objects, the session's without the
/// members that stand for fields.
pub proof fn law_pending_keeps_objects(s: SessionView, x: SessionView)
    requires
        keeps_objects(x, draft_of_session(s)),
    ensures
        json_object(s.metadata_json) is Some ==> json_object(x.metadata_json) == Some(
            stripped(json_object(s.metadata_json)->0),
        ),
        forall|j: int|
            0 <= j < s.messages.len() && json_object((#[trigger] s.messages[j]).metadata_json)
                is Some ==> json_object(x.messages[j].metadata_json) == json_object(
                s.messages[j].metadata_json,
            ),
{
    let d = draft_of_session(s);
    lemma_pending_metadata(s);
    if json_object(s.metadata_json) is Some {
        let all = json_object(s.metadata_json)->0;
        let names = seq!["title"@, "source"@, "model"@, "created_at"@];
        lemma_stripped_is_all_but(all, names);
        assert(from_json(stripped(all)));
    }
    assert forall|j: int|
        0 <= j < s.messages.len() && json_object(
            (#[trigger] s.messages[j]).metadata_json,
        ) is Some implies json_object(x.messages[j].metadata_json) == json_object(
        s.messages[j].metadata_json,
    ) by {
        let all = json_object(s.messages[j].metadata_json)->0;
        lemma_all_but_none(all);
        assert(d.messages[j].metadata == all);
        assert(from_json(d.messages[j].metadata));
    }
}

proof fn lemma_all_but_none(m: MetadataView)
    ensures
        all_but(m, Seq::empty()) == m,
    decreases m.len(),
{
    reveal(Seq::filter);
    let p = |x: (Seq<char>, MetaView)| !Seq::<Seq<char>>::empty().contains(x.0);
    if m.len() > 0 {
        lemma_all_but_none(m.drop_last());
        assert(m =~= m.drop_last().push(m.last()));
        lemma_filter_step(m.drop_last(), m.last(), p);
    } else {
        assert(all_but(m, Seq::empty()) =~= m);
    }
}

proof fn lemma_stripped_is_all_but(m: MetadataView, names: Seq<Seq<char>>)
    requires
        names == seq!["title"@, "source"@, "model"@, "created_at"@],
    ensures
        stripped(m) == all_but(m, names),
    decreases m.len(),
{
    reveal(Seq::filter);
    let p = |x: (Seq<char>, MetaView)| !names.contains(x.0);
    if m.len() > 0 {
        let front = m.drop_last();
        let x = m.last();
        lemma_stripped_is_all_but(front, names);
        assert(m =~= front.push(x));
        lemma_filter_step(front, x, p);
        lemma_stripped_push(front, x);
        assert(names[0] == "title"@ && names[1] == "source"@ && names[2] == "model"@ && names[3]
            == "created_at"@);
    } else {
        assert(stripped(m) =~= all_but(m, names));
    }
}

/// A session that is put into the pending log under an id that is new to it
/// comes out last, with every field, every message and its order; its
/// metadata comes out in the library's notation.
pub proof fn law_pending_gives_back(events: Seq<EventView>, s: SessionView)
    requires
        !has_draft(drafts(events), s.id),
    ensures
        completed(events + session_events(s)) == completed(events).push(draft_of_session(s)),
        pending_sessions(events + session_events(s)) == pending_sessions(events).push(
            restored(s),
        ),
{
    let start = EventView::SessionStart { session_id: s.id, metadata: pending_metadata(s) };
    let middle = message_events(s.id, s.messages);
    let inputs = s.messages.map_values(|m: MessageView| message_input(m));
    let n = s.messages.len() as int;
    lemma_replay_messages(events, s, n);
    assert(middle.take(n) =~= middle);
    assert(inputs.take(n) =~= inputs);
    let front = events.push(start) + middle;
    let end = EventView::Finalize { session_id: s.id };
    let all = events + session_events(s);
    assert(all =~= front.push(end));
    assert(all.drop_last() =~= front);
    let old = drafts(events);
    let new = DraftView { id: s.id, metadata: pending_metadata(s), messages: inputs };
    assert(drafts(all) == old.push(new));
    assert(old.push(new)[old.len() as int].id == s.id);
    assert(has_draft(drafts(front), s.id));
    let fin = finalized(events);
    assert(finalized(all) == fin.push(s.id));
    lemma_drafts_distinct(events);
    if fin.contains(s.id) {
        let k = choose|k: int| 0 <= k < fin.len() && fin[k] == s.id;
        assert(has_draft(old, fin[k]));
    }
    assert(fin.push(s.id).drop_last() =~= fin);
    let d = distinct_ids(fin);
    assert(distinct_ids(fin.push(s.id)) == d.push(s.id));
    lemma_draft_of_new(old, new, s.id);
    lemma_restored(s, new);
    let want = pending_sessions(events).push(restored(s));
    let got = pending_sessions(all);
    assert forall|i: int| 0 <= i < got.len() implies got[i] == want[i] by {
        if i < d.len() {
            lemma_distinct_ids_contains(fin, d[i]);
            assert(d.contains(d[i]));
            let k = choose|k: int| 0 <= k < fin.len() && fin[k] == d[i];
            assert(has_draft(old, fin[k]));
            lemma_draft_of_old(old, new, d[i]);
        }
    }
    assert(got =~= want);
    let done = completed(events).push(new);
    assert forall|i: int| 0 <= i < done.len() implies completed(all)[i] == done[i] by {
        if i < d.len() {
            lemma_distinct_ids_contains(fin, d[i]);
            assert(d.contains(d[i]));
            let k = choose|k: int| 0 <= k < fin.len() && fin[k] == d[i];
            assert(has_draft(old, fin[k]));
            lemma_draft_of_old(old, new, d[i]);
        }
    }
    assert(completed(all) =~= done);
}

proof fn lemma_draft_of_old(old: Seq<DraftView>, new: DraftView, id: Seq<char>)
    requires
        has_draft(old, id),
    ensures
        draft_of(old.push(new), id) == draft_of(old, id),
    decreases old.len(),
{
    let k = choose|k: int| 0 <= k < old.len() && (#[trigger] old[k]).id == id;
    if old[0].id != id {
        assert(old.push(new).skip(1) =~= old.skip(1).push(new));
        assert(old.skip(1)[k - 1].id == id);
        lemma_draft_of_old(old.skip(1), new, id);
    }
}

proof fn lemma_draft_of_new(old: Seq<DraftView>, new: DraftView, id: Seq<char>)
    requires
        !has_draft(old, id),
        new.id == id,
    ensures
        draft_of(old.push(new), id) == new,
{
    let all = old.push(new);
    assert forall|j: int| 0 <= j < old.len() implies (#[trigger] all[j]).id != id by {
        assert(old[j].id != id);
    }
    lemma_draft_of(all, id, old.len() as int);
}

} // verus!
