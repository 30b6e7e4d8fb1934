//! What the events of a pending log amount to, event by event.
use vstd::prelude::*;
use crate::laws::pending::{is_free, lemma_completed_ids, lemma_draft_of_has_id, lemma_stripped};
use crate::metadata::{
    json_text, member, number_member, text_member, without, MetadataView, MetaView,
};
use crate::schema::{EventView, MessageInputView, SessionView};
use crate::storage::pending::{
    completed, distinct_ids, draft_of, drafts, events_of, finalized, has_draft,
    lemma_distinct_ids_contains, lemma_drafts_distinct, pending_session, pending_sessions,
    records_size, stripped, PendingView, RecordView,
};
use crate::storage::types::StorageError;
use crate::text::parsed_number;

verus! {

/// The event at `i` starts the session `id`, and none before it does.
pub open spec fn begins_at(events: Seq<EventView>, id: Seq<char>, i: int) -> bool {
    &&& 0 <= i < events.len()
    &&& events[i] is SessionStart
    &&& events[i].session_id() == id
    &&& forall|j: int|
        0 <= j < i && (#[trigger] events[j]) is SessionStart ==> events[j].session_id() != id
}

/// The event at `f` finalizes the session `id`, which was started before.
pub open spec fn ends_at(events: Seq<EventView>, id: Seq<char>, f: int) -> bool {
    &&& 0 <= f < events.len()
    &&& events[f] == (EventView::Finalize { session_id: id })
    &&& exists|j: int|
        0 <= j < f && (#[trigger] events[j]) is SessionStart && events[j].session_id() == id
}

/// The messages are those of the session `id`, each of an event behind the
/// one at `i`, in the order of the events at `places`, and none is left out.
pub open spec fn messages_at(
    events: Seq<EventView>,
    id: Seq<char>,
    i: int,
    messages: Seq<MessageInputView>,
    places: Seq<int>,
) -> bool {
    &&& places.len() == messages.len()
    &&& forall|n: int|
        0 <= n < places.len() ==> i < #[trigger] places[n] < events.len() && events[places[n]]
            == (EventView::AppendMessage { session_id: id, message: messages[n] })
    &&& forall|m: int, n: int| 0 <= m < n < places.len() ==> places[m] < places[n]
    &&& forall|p: int|
        i < p < events.len() && (#[trigger] events[p]) is AppendMessage
            && events[p].session_id() == id ==> places.contains(p)
}

/// There is a draft of a session exactly where it was started.
proof fn lemma_started(events: Seq<EventView>, id: Seq<char>)
    ensures
        has_draft(drafts(events), id) <==> exists|j: int|
            0 <= j < events.len() && (#[trigger] events[j]) is SessionStart
                && events[j].session_id() == id,
    decreases events.len(),
{
    if events.len() > 0 {
        let rest = events.drop_last();
        let front = drafts(rest);
        let all = drafts(events);
        lemma_started(rest, id);
        assert forall|j: int| 0 <= j < rest.len() implies rest[j] == #[trigger] events[j] by {}
        match events.last() {
            EventView::SessionStart { session_id, metadata } => {
                if has_draft(front, id) {
                    let k = choose|k: int| 0 <= k < front.len() && (#[trigger] front[k]).id == id;
                    assert(all[k].id == id);
                } else if session_id == id {
                    assert(all[front.len() as int].id == id);
                    assert(events[events.len() - 1] is SessionStart);
                }
                if has_draft(all, id) && !has_draft(front, id) {
                    let k = choose|k: int| 0 <= k < all.len() && (#[trigger] all[k]).id == id;
                    if k < front.len() {
                        assert(front[k].id == id);
                    }
                    assert(session_id == id);
                }
            },
            EventView::AppendMessage { session_id, message } => {
                if has_draft(front, id) {
                    let k = choose|k: int| 0 <= k < front.len() && (#[trigger] front[k]).id == id;
                    assert(all[k].id == id);
                }
                if has_draft(all, id) {
                    let k = choose|k: int| 0 <= k < all.len() && (#[trigger] all[k]).id == id;
                    assert(front[k].id == id);
                }
            },
            EventView::Finalize { .. } => {},
        }
    }
}

proof fn lemma_draft(events: Seq<EventView>, k: int) -> (r: (int, Seq<int>))
    requires
        0 <= k < drafts(events).len(),
    ensures
        begins_at(events, drafts(events)[k].id, r.0),
        events[r.0] == (EventView::SessionStart {
            session_id: drafts(events)[k].id,
            metadata: drafts(events)[k].metadata,
        }),
        messages_at(events, drafts(events)[k].id, r.0, drafts(events)[k].messages, r.1),
    decreases events.len(),
{
    let rest = events.drop_last();
    let n = rest.len() as int;
    let front = drafts(rest);
    let d = drafts(events)[k];
    assert forall|j: int| 0 <= j < rest.len() implies rest[j] == #[trigger] events[j] by {}
    if k == front.len() {
        lemma_started(rest, d.id);
        assert forall|j: int| 0 <= j < n && (#[trigger] events[j]) is SessionStart implies
            events[j].session_id() != d.id by {
            assert(rest[j] == events[j]);
        }
        (n, Seq::empty())
    } else {
        let (i, places) = lemma_draft(rest, k);
        assert(front[k].id == d.id);
        assert(begins_at(events, d.id, i));
        match events.last() {
            EventView::AppendMessage { session_id, message } => {
                if session_id == d.id {
                    let more = places.push(n);
                    assert forall|p: int|
                        i < p < events.len() && (#[trigger] events[p]) is AppendMessage
                            && events[p].session_id() == d.id implies more.contains(p) by {
                        if p == n {
                            assert(more[places.len() as int] == p);
                        } else {
                            assert(rest[p] == events[p]);
                            let m = choose|m: int| 0 <= m < places.len() && places[m] == p;
                            assert(more[m] == p);
                        }
                    }
                    assert(messages_at(events, d.id, i, d.messages, more)) by {
                        assert forall|m: int| 0 <= m < more.len() implies i < #[trigger] more[m]
                            < events.len() && events[more[m]] == (EventView::AppendMessage {
                            session_id: d.id,
                            message: d.messages[m],
                        }) by {
                            if m < places.len() {
                                assert(more[m] == places[m]);
                            }
                        }
                    }
                    (i, more)
                } else {
                    (i, places)
                }
            },
            _ => (i, places),
        }
    }
}

/// A waiting session is one that was started and then finalized. Its fields
/// are those of the event that started it first, and its messages are all
/// those that were added to it behind that event, in their order.
pub proof fn law_waiting_session_is_what_was_logged(events: Seq<EventView>, k: int) -> (r: (
    int,
    int,
    Seq<MessageInputView>,
    Seq<int>,
))
    requires
        0 <= k < pending_sessions(events).len(),
    ensures
        ({
            let s = pending_sessions(events)[k];
            let m = events[r.0]->metadata;
            &&& begins_at(events, s.id, r.0)
            &&& ends_at(events, s.id, r.1)
            &&& messages_at(events, s.id, r.0, r.2, r.3)
            &&& s.messages.len() == r.2.len()
            &&& forall|n: int|
                0 <= n < r.2.len() ==> (#[trigger] s.messages[n]) == r.2[n].stored()
            &&& s.title == text_member(m, "title"@)
            &&& s.source == text_member(m, "source"@)
            &&& s.model == text_member(m, "model"@)
            &&& s.created_at == number_member(m, "created_at"@)
            &&& s.metadata_json == json_text(stripped(m))
        }),
{
    let s = pending_sessions(events)[k];
    lemma_completed_ids(events);
    lemma_drafts_distinct(events);
    let d = completed(events)[k];
    let id = distinct_ids(finalized(events))[k];
    assert(d == draft_of(drafts(events), id));
    assert(distinct_ids(finalized(events)).contains(id));
    lemma_distinct_ids_contains(finalized(events), id);
    let f = choose|f: int| 0 <= f < finalized(events).len() && finalized(events)[f] == id;
    assert(has_draft(drafts(events), finalized(events)[f]));
    lemma_draft_of_has_id(drafts(events), id);
    let at = choose|at: int| 0 <= at < drafts(events).len() && drafts(events)[at] == d;
    let (i, places) = lemma_draft(events, at);
    assert(s == pending_session(d));
    let ends = lemma_finalized(events);
    (i, ends[k], d.messages, places)
}

/// The finished sessions in the order in which they were finalized first.
proof fn lemma_finalized(events: Seq<EventView>) -> (ends: Seq<int>)
    ensures
        ends.len() == distinct_ids(finalized(events)).len(),
        forall|k: int|
            0 <= k < ends.len() ==> ends_at(
                events,
                distinct_ids(finalized(events))[k],
                #[trigger] ends[k],
            ),
        forall|k: int, g: int|
            0 <= k < ends.len() && g < #[trigger] ends[k] ==> !#[trigger] ends_at(
                events,
                distinct_ids(finalized(events))[k],
                g,
            ),
        forall|j: int, k: int| 0 <= j < k < ends.len() ==> ends[j] < ends[k],
        forall|id: Seq<char>, f: int| #[trigger]
            ends_at(events, id, f) ==> distinct_ids(finalized(events)).contains(id),
    decreases events.len(),
{
    if events.len() == 0 {
        Seq::empty()
    } else {
        let rest = events.drop_last();
        let n = rest.len() as int;
        let before = lemma_finalized(rest);
        let ids = distinct_ids(finalized(rest));
        let all = distinct_ids(finalized(events));
        assert forall|id: Seq<char>, g: int| g < n implies (#[trigger] ends_at(events, id, g)
            <==> ends_at(rest, id, g)) by {
            if ends_at(rest, id, g) {
                let j = choose|j: int|
                    0 <= j < g && (#[trigger] rest[j]) is SessionStart && rest[j].session_id()
                        == id;
                assert(events[j] == rest[j]);
            }
            if ends_at(events, id, g) {
                let j = choose|j: int|
                    0 <= j < g && (#[trigger] events[j]) is SessionStart && events[j].session_id()
                        == id;
                assert(events[j] == rest[j]);
            }
        }
        let id = events.last().session_id();
        lemma_started(rest, id);
        lemma_distinct_ids_contains(finalized(rest), id);
        assert forall|j: int| 0 <= j < rest.len() implies rest[j] == #[trigger] events[j] by {}
        if events.last() is Finalize {
            assert(ends_at(events, id, n) <==> has_draft(drafts(rest), id)) by {
                if has_draft(drafts(rest), id) {
                    let j = choose|j: int|
                        0 <= j < rest.len() && (#[trigger] rest[j]) is SessionStart
                            && rest[j].session_id() == id;
                    assert(events[j] == rest[j]);
                }
                if ends_at(events, id, n) {
                    let j = choose|j: int|
                        0 <= j < n && (#[trigger] events[j]) is SessionStart
                            && events[j].session_id() == id;
                    assert(events[j] == rest[j]);
                }
            }
        }
        if events.last() is Finalize && has_draft(drafts(rest), id) {
            assert(finalized(events) == finalized(rest).push(id));
            assert(finalized(events).drop_last() =~= finalized(rest));
        }
        if events.last() is Finalize && has_draft(drafts(rest), id) && !finalized(rest).contains(
            id,
        ) {
            let ends = before.push(n);
            assert(all =~= ids.push(id));
            assert forall|k: int, g: int|
                0 <= k < ends.len() && g < #[trigger] ends[k] implies !#[trigger] ends_at(
                events,
                all[k],
                g,
            ) by {
                if k == before.len() {
                    if ends_at(events, all[k], g) {
                        assert(ends_at(rest, id, g));
                    }
                } else {
                    assert(ends[k] == before[k]);
                    assert(all[k] == ids[k]);
                    assert(!ends_at(rest, ids[k], g));
                }
            }
            assert forall|x: Seq<char>, f: int| #[trigger] ends_at(events, x, f) implies
                all.contains(x) by {
                if f < n {
                    assert(ends_at(rest, x, f));
                    let m = choose|m: int| 0 <= m < ids.len() && ids[m] == x;
                    assert(all[m] == x);
                } else {
                    assert(all[ids.len() as int] == x);
                }
            }
            assert forall|k: int| 0 <= k < ends.len() implies ends_at(
                events,
                all[k],
                #[trigger] ends[k],
            ) by {
                if k < before.len() {
                    assert(ends[k] == before[k] && all[k] == ids[k]);
                    assert(ends_at(rest, ids[k], before[k]));
                }
            }
            ends
        } else {
            assert(all == ids);
            assert forall|x: Seq<char>, f: int| #[trigger] ends_at(events, x, f) implies
                all.contains(x) by {
                if f < n {
                    assert(ends_at(rest, x, f));
                }
            }
            assert forall|k: int, g: int|
                0 <= k < before.len() && g < #[trigger] before[k] implies !#[trigger] ends_at(
                events,
                all[k],
                g,
            ) by {
                assert(!ends_at(rest, ids[k], g));
            }
            assert forall|k: int| 0 <= k < before.len() implies ends_at(
                events,
                all[k],
                #[trigger] before[k],
            ) by {
                assert(ends_at(rest, ids[k], before[k]));
            }
            before
        }
    }
}

/// The sessions wait in the order in which they were finalized first.
pub proof fn law_sessions_wait_in_order(events: Seq<EventView>) -> (ends: Seq<int>)
    ensures
        ends.len() == pending_sessions(events).len(),
        forall|k: int|
            0 <= k < ends.len() ==> ends_at(
                events,
                pending_sessions(events)[k].id,
                #[trigger] ends[k],
            ),
        forall|k: int, g: int|
            0 <= k < ends.len() && g < #[trigger] ends[k] ==> !#[trigger] ends_at(
                events,
                pending_sessions(events)[k].id,
                g,
            ),
        forall|j: int, k: int| 0 <= j < k < ends.len() ==> ends[j] < ends[k],
{
    lemma_completed_ids(events);
    let ends = lemma_finalized(events);
    assert forall|k: int| 0 <= k < ends.len() implies #[trigger] pending_sessions(events)[k].id
        == distinct_ids(finalized(events))[k] by {
        assert(completed(events)[k].id == distinct_ids(finalized(events))[k]);
    }
    assert forall|k: int| 0 <= k < ends.len() implies ends_at(
        events,
        pending_sessions(events)[k].id,
        #[trigger] ends[k],
    ) by {}
    assert forall|k: int, g: int|
        0 <= k < ends.len() && g < #[trigger] ends[k] implies !#[trigger] ends_at(
        events,
        pending_sessions(events)[k].id,
        g,
    ) by {
        assert(!ends_at(events, distinct_ids(finalized(events))[k], g));
    }
    ends
}

/// Every session that was started and then finalized waits.
pub proof fn law_no_finished_session_is_lost(events: Seq<EventView>, id: Seq<char>, f: int) -> (k:
    int)
    requires
        ends_at(events, id, f),
    ensures
        0 <= k < pending_sessions(events).len(),
        pending_sessions(events)[k].id == id,
{
    let ends = lemma_finalized(events);
    lemma_completed_ids(events);
    let ids = distinct_ids(finalized(events));
    let k = choose|k: int| 0 <= k < ids.len() && ids[k] == id;
    assert(completed(events)[k].id == ids[k]);
    k
}

/// A log that is not there or cannot be read has no session that can be read,
/// and one that is there has those of its events.
pub proof fn law_sessions_of_a_log(v: PendingView)
    ensures
        v is Absent ==> v.sessions() == Ok::<Seq<SessionView>, StorageError>(Seq::empty())
            && v.readable().len() == 0,
        v is Unreadable ==> v.sessions() == Err::<Seq<SessionView>, StorageError>(
            StorageError::PendingUnreadable,
        ) && v.readable().len() == 0,
        v is Records ==> v.sessions() is Ok && v.sessions()->Ok_0 == v.readable() && v.readable()
            == pending_sessions(events_of(v->Records_0)),
{
}

/// The events of a log are those of its records, one each, in their order.
pub proof fn law_one_event_each(records: Seq<RecordView>)
    ensures
        events_of(records).len() == records.len(),
        forall|i: int|
            0 <= i < records.len() ==> #[trigger] events_of(records)[i] == records[i].event,
{
}

/// Each record of a log takes four bytes and those of its event.
pub proof fn law_sizes_add_up(a: Seq<RecordView>, b: Seq<RecordView>)
    ensures
        records_size(a + b) == records_size(a) + records_size(b),
        a.len() == 1 ==> records_size(a) == 4 + a[0].payload.len(),
    decreases b.len(),
{
    reveal_with_fuel(records_size, 2);
    if b.len() == 0 {
        assert(a + b =~= a);
    } else {
        law_sizes_add_up(a, b.drop_last());
        assert((a + b).drop_last() =~= a + b.drop_last());
        assert((a + b).last() == b.last());
    }
}

/// The member of a name is the first of that name, and there is none where no
/// member has the name.
pub proof fn law_first_member_counts(members: MetadataView, name: Seq<char>, i: int)
    requires
        0 <= i < members.len() ==> members[i].0 == name,
        0 <= i <= members.len(),
        forall|j: int| 0 <= j < i ==> (#[trigger] members[j]).0 != name,
    ensures
        i < members.len() ==> member(members, name) == Some(members[i].1),
        i == members.len() ==> member(members, name) is None,
    decreases i,
{
    if i > 0 {
        let rest = members.skip(1);
        assert(members[0].0 != name);
        assert forall|j: int| 0 <= j < i - 1 implies (#[trigger] rest[j]).0 != name by {
            assert(members[j + 1].0 != name);
        }
        law_first_member_counts(rest, name, i - 1);
    }
}

/// A member is a text where it was written as one, and a number where it was
/// written as a whole number that is not too large.
pub proof fn law_members_by_kind(members: MetadataView, name: Seq<char>)
    ensures
        text_member(members, name) is Some <==> member(members, name) is Some && member(
            members,
            name,
        )->0 is Text,
        text_member(members, name) is Some ==> member(members, name)->0 == MetaView::Text(
            text_member(members, name)->0,
        ),
        forall|n: u64| #[trigger]
            number_matches(members, name, n) <==> number_member(members, name) == Some(n),
{
}

/// The member is a number whose digits say `n`.
pub open spec fn number_matches(members: MetadataView, name: Seq<char>, n: u64) -> bool {
    match member(members, name) {
        Some(MetaView::Number(s)) => parsed_number(s, 0xffff_ffff_ffff_ffff) == Some(n as nat),
        _ => false,
    }
}

/// Taking a name out takes out its members and no others, and leaves the
/// others in their order.
pub proof fn law_name_is_taken_out(members: MetadataView, name: Seq<char>) -> (places: Seq<int>)
    ensures
        places.len() == without(members, name).len(),
        forall|k: int|
            0 <= k < places.len() ==> 0 <= #[trigger] places[k] < members.len() && without(
                members,
                name,
            )[k] == members[places[k]] && members[places[k]].0 != name,
        forall|j: int, k: int| 0 <= j < k < places.len() ==> places[j] < places[k],
        forall|i: int|
            0 <= i < members.len() && (#[trigger] members[i]).0 != name ==> places.contains(i),
    decreases members.len(),
{
    reveal(Seq::filter);
    if members.len() == 0 {
        Seq::empty()
    } else {
        let front = members.drop_last();
        let n = front.len() as int;
        let before = law_name_is_taken_out(front, name);
        assert forall|i: int| 0 <= i < n implies front[i] == #[trigger] members[i] by {}
        if members.last().0 != name {
            let places = before.push(n);
            assert forall|i: int|
                0 <= i < members.len() && (#[trigger] members[i]).0 != name implies
                places.contains(i) by {
                if i == n {
                    assert(places[before.len() as int] == n);
                } else {
                    assert(front[i].0 != name);
                    let k = choose|k: int| 0 <= k < before.len() && before[k] == i;
                    assert(places[k] == i);
                }
            }
            assert forall|k: int| 0 <= k < places.len() implies 0 <= #[trigger] places[k]
                < members.len() && without(members, name)[k] == members[places[k]]
                && members[places[k]].0 != name by {
                if k < before.len() {
                    assert(places[k] == before[k]);
                    assert(front[before[k]] == members[before[k]]);
                }
            }
            places
        } else {
            assert forall|k: int| 0 <= k < before.len() implies front[#[trigger] before[k]]
                == members[before[k]] by {}
            before
        }
    }
}

/// The metadata that is kept as such is what has no field of its own: it has
/// no title, source, model or time of creation, and every other member.
pub proof fn law_fields_are_taken_out(members: MetadataView, m: (Seq<char>, MetaView))
    ensures
        stripped(members).contains(m) <==> members.contains(m) && m.0 != "title"@ && m.0
            != "source"@ && m.0 != "model"@ && m.0 != "created_at"@,
{
    lemma_stripped(members);
    let p = |x: (Seq<char>, MetaView)| is_free(x);
    lemma_filter_contains(members, p, m);
}

proof fn lemma_filter_contains<A>(s: Seq<A>, p: spec_fn(A) -> bool, x: A)
    ensures
        s.filter(p).contains(x) <==> s.contains(x) && p(x),
    decreases s.len(),
{
    reveal(Seq::filter);
    if s.len() > 0 {
        let front = s.drop_last();
        lemma_filter_contains(front, p, x);
        assert(s =~= front.push(s.last()));
        if s.contains(x) && !front.contains(x) {
            let i = choose|i: int| 0 <= i < s.len() && s[i] == x;
            if i < front.len() {
                assert(front[i] == x);
            }
        }
        if front.contains(x) {
            let i = choose|i: int| 0 <= i < front.len() && front[i] == x;
            assert(s[i] == x);
        }
        if p(s.last()) {
            let f = front.filter(p);
            assert(s.filter(p) == f.push(s.last()));
            if f.contains(x) {
                let i = choose|i: int| 0 <= i < f.len() && f[i] == x;
                assert(f.push(s.last())[i] == x);
            }
            if s.last() == x {
                assert(f.push(s.last())[f.len() as int] == x);
                assert(s[s.len() - 1] == x);
            }
            if f.push(s.last()).contains(x) {
                let i = choose|i: int| 0 <= i < f.len() + 1 && f.push(s.last())[i] == x;
                if i < f.len() {
                    assert(f[i] == x);
                } else {
                    assert(s[s.len() - 1] == x);
                }
            }
        }
    }
}

} // verus!
