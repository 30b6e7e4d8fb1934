//! What a search result is: what every session in it has, where it comes
//! from, and in which order it stands there.
use vstd::prelude::*;
use crate::codec::unpacked;
use crate::frames::payloads;
use crate::laws::append::contents;
use crate::laws::notation::{law_containment, stands_at};
use crate::laws::search::{law_search_finds_only_hits, lemma_append_new};
use crate::pattern::{answers, is_expression, is_pattern, is_plain, is_special, pattern_found};
use crate::schema::{SessionView, StoredView};
use crate::storage::StorageView;
use crate::storage::directory::{data_name, index_name, lookup, segments, FileView};
use crate::storage::scan::{append_new, archive_sessions, has_id, lemma_append_new_concat, scanned};
use crate::storage::search::{
    archive_hits, block_hits, hit, hits, must_read, searched, segment_hits, Query,
};
use crate::storage::segment::{lemma_blocks_in, segment_blocks, sessions_of};
use crate::storage::types::StorageError;
use crate::text::lowercased;

verus! {

/// A text holds the whole query in lower case, one character behind the
/// other.
pub open spec fn holds_query(text: Seq<char>, query: Seq<char>) -> bool {
    exists|p: int| #[trigger] stands_at(lowercased(text), lowercased(query), p)
}

/// A query is a regular expression where it can be read as one and a
/// character stands in it that means more than itself.
pub proof fn law_expressions(query: Seq<char>)
    ensures
        is_expression(query) <==> is_pattern(query) && exists|i: int|
            0 <= i < query.len() && "\\.+*?()|[]{}^$"@.contains(#[trigger] query[i]),
{
    reveal_strlit("\\.+*?()|[]{}^$");
    let marks = "\\.+*?()|[]{}^$"@;
    assert forall|c: char| is_special(c) <==> marks.contains(c) by {
        if is_special(c) {
            assert(marks[0] == '\\' && marks[1] == '.' && marks[2] == '+' && marks[3] == '*'
                && marks[4] == '?' && marks[5] == '(' && marks[6] == ')' && marks[7] == '|'
                && marks[8] == '[' && marks[9] == ']' && marks[10] == '{' && marks[11] == '}'
                && marks[12] == '^' && marks[13] == '$');
        }
        if marks.contains(c) {
            let k = choose|k: int| 0 <= k < marks.len() && marks[k] == c;
            assert(marks.len() == 14);
        }
    }
    if !is_plain(query) {
        let i = choose|i: int| 0 <= i < query.len() && is_special(#[trigger] query[i]);
        assert(marks.contains(query[i]));
    }
    if exists|i: int| 0 <= i < query.len() && marks.contains(#[trigger] query[i]) {
        let i = choose|i: int| 0 <= i < query.len() && marks.contains(#[trigger] query[i]);
        assert(is_special(query[i]));
    }
}

/// A text answers a query that is no regular expression exactly where it
/// holds the whole query, in any letter case.
pub proof fn law_text_answers_what_it_holds(text: Seq<char>, query: Seq<char>)
    ensures
        !is_expression(query) ==> (answers(text, query) <==> holds_query(text, query)),
        is_expression(query) ==> (answers(text, query) <==> holds_query(text, query)
            || pattern_found(query, text)),
{
    law_containment(lowercased(text), lowercased(query));
}

/// A session is searched for where its time is within the bounds, if it says
/// when it was created, and one of its messages answers.
pub proof fn law_session_is_hit(s: SessionView, q: Query)
    ensures
        hit(s, q) <==> {
            &&& s.created_at is Some && q.after is Some ==> q.after->0 <= s.created_at->0
            &&& s.created_at is Some && q.before is Some ==> s.created_at->0 <= q.before->0
            &&& exists|k: int|
                0 <= k < s.messages.len() && (holds_query(
                    (#[trigger] s.messages[k]).content,
                    q.text,
                ) || is_expression(q.text) && pattern_found(q.text, s.messages[k].content))
        },
{
    if exists|k: int|
        0 <= k < s.messages.len() && answers((#[trigger] s.messages[k]).content, q.text) {
        let k = choose|k: int|
            0 <= k < s.messages.len() && answers((#[trigger] s.messages[k]).content, q.text);
        law_text_answers_what_it_holds(s.messages[k].content, q.text);
    }
    if exists|k: int|
        0 <= k < s.messages.len() && (holds_query((#[trigger] s.messages[k]).content, q.text)
            || is_expression(q.text) && pattern_found(q.text, s.messages[k].content)) {
        let k = choose|k: int|
            0 <= k < s.messages.len() && (holds_query((#[trigger] s.messages[k]).content, q.text)
                || is_expression(q.text) && pattern_found(q.text, s.messages[k].content));
        law_text_answers_what_it_holds(s.messages[k].content, q.text);
    }
}

/// Every session that a search for text gives has a message that holds the
/// whole text, in any letter case, and is from the time that was asked for
/// or says no time.
pub proof fn law_found_sessions_hold_the_text(v: StorageView, q: Query, i: int) -> (k: int)
    requires
        searched(v, q) is Ok,
        0 <= i < searched(v, q)->Ok_0.len(),
        !is_expression(q.text),
    ensures
        ({
            let s = searched(v, q)->Ok_0[i];
            &&& 0 <= k < s.messages.len()
            &&& exists|p: int|
                #[trigger] stands_at(
                    lowercased(s.messages[k].content),
                    lowercased(q.text),
                    p,
                )
            &&& s.created_at is Some && q.after is Some ==> q.after->0 <= s.created_at->0
            &&& s.created_at is Some && q.before is Some ==> s.created_at->0 <= q.before->0
        }),
{
    let s = searched(v, q)->Ok_0[i];
    assert(searched(v, q)->Ok_0.contains(s));
    law_search_finds_only_hits(v, q, s);
    law_session_is_hit(s, q);
    choose|k: int|
        0 <= k < s.messages.len() && (holds_query((#[trigger] s.messages[k]).content, q.text)
            || is_expression(q.text) && pattern_found(q.text, s.messages[k].content))
}

/// Every session that a search by a regular expression gives has a message
/// that the expression matches or that holds it as it stands.
pub proof fn law_found_sessions_match(v: StorageView, q: Query, i: int) -> (k: int)
    requires
        searched(v, q) is Ok,
        0 <= i < searched(v, q)->Ok_0.len(),
        is_expression(q.text),
    ensures
        ({
            let s = searched(v, q)->Ok_0[i];
            &&& 0 <= k < s.messages.len()
            &&& pattern_found(q.text, s.messages[k].content) || holds_query(
                s.messages[k].content,
                q.text,
            )
            &&& s.created_at is Some && q.after is Some ==> q.after->0 <= s.created_at->0
            &&& s.created_at is Some && q.before is Some ==> s.created_at->0 <= q.before->0
        }),
{
    let s = searched(v, q)->Ok_0[i];
    assert(searched(v, q)->Ok_0.contains(s));
    law_search_finds_only_hits(v, q, s);
    law_session_is_hit(s, q);
    choose|k: int|
        0 <= k < s.messages.len() && (holds_query((#[trigger] s.messages[k]).content, q.text)
            || is_expression(q.text) && pattern_found(q.text, s.messages[k].content))
}

/// A session says what a query asks for: one of its messages holds the whole
/// text, in any letter case, or is matched where the text is a regular
/// expression; and its time, where it says one, is within the bounds.
pub open spec fn meets(s: SessionView, q: Query) -> bool {
    &&& s.created_at is Some && q.after is Some ==> q.after->0 <= s.created_at->0
    &&& s.created_at is Some && q.before is Some ==> s.created_at->0 <= q.before->0
    &&& exists|k: int|
        0 <= k < s.messages.len() && (holds_query((#[trigger] s.messages[k]).content, q.text)
            || is_expression(q.text) && pattern_found(q.text, s.messages[k].content))
}

/// Every session that a search gives says what was asked for.
pub proof fn law_all_found_meet(v: StorageView, q: Query)
    ensures
        searched(v, q) is Ok ==> forall|i: int|
            0 <= i < searched(v, q)->Ok_0.len() ==> meets(
                #[trigger] searched(v, q)->Ok_0[i],
                q,
            ),
{
    if searched(v, q) is Ok {
        let found = searched(v, q)->Ok_0;
        assert forall|i: int| 0 <= i < found.len() implies meets(#[trigger] found[i], q) by {
            assert(found.contains(found[i]));
            law_search_finds_only_hits(v, q, found[i]);
            law_session_is_hit(found[i], q);
        }
    }
}

/// The items of `part` are items of `whole`, at ascending places.
pub open spec fn stand_at(
    part: Seq<SessionView>,
    whole: Seq<SessionView>,
    places: Seq<int>,
) -> bool {
    &&& places.len() == part.len()
    &&& forall|k: int|
        0 <= k < places.len() ==> 0 <= #[trigger] places[k] < whole.len() && part[k]
            == whole[places[k]]
    &&& forall|j: int, k: int| 0 <= j < k < places.len() ==> places[j] < places[k]
}

/// Putting sessions behind others leaves the others as they are and adds, in
/// their order, exactly those whose id is new: not among the others, and not
/// among those that came before.
pub proof fn law_new_sessions_in_order(base: Seq<SessionView>, more: Seq<SessionView>) -> (places:
    Seq<int>)
    ensures
        base.is_prefix_of(append_new(base, more)),
        stand_at(append_new(base, more).skip(base.len() as int), more, places),
        forall|k: int, i: int|
            0 <= k < places.len() && 0 <= i < #[trigger] places[k] ==> (#[trigger] more[i]).id
                != more[places[k]].id,
        forall|k: int, i: int|
            0 <= k < places.len() && 0 <= i < base.len() ==> (#[trigger] base[i]).id
                != more[#[trigger] places[k]].id,
        forall|i: int|
            0 <= i < more.len() ==> has_id(append_new(base, more), (#[trigger] more[i]).id),
    decreases more.len(),
{
    let all = append_new(base, more);
    lemma_append_new(base, more);
    assert forall|i: int| 0 <= i < more.len() implies has_id(all, (#[trigger] more[i]).id) by {
        assert(more.contains(more[i]));
    }
    if more.len() == 0 {
        assert(all.skip(base.len() as int) =~= Seq::<SessionView>::empty());
        Seq::empty()
    } else {
        let less = more.drop_last();
        let last = more.last();
        let n = less.len() as int;
        let front = append_new(base, less);
        let before = law_new_sessions_in_order(base, less);
        assert forall|k: int| 0 <= k < before.len() implies less[#[trigger] before[k]]
            == more[before[k]] by {}
        if has_id(front, last.id) {
            assert forall|k: int, i: int|
                0 <= k < before.len() && 0 <= i < #[trigger] before[k] implies (
            #[trigger] more[i]).id != more[before[k]].id by {
                assert(less[i] == more[i]);
            }
            before
        } else {
            let places = before.push(n);
            let tail = all.skip(base.len() as int);
            assert(tail =~= front.skip(base.len() as int).push(last));
            assert forall|k: int, i: int|
                0 <= k < places.len() && 0 <= i < #[trigger] places[k] implies (
            #[trigger] more[i]).id != more[places[k]].id by {
                assert(less[i] == more[i]);
                if k < before.len() {
                    assert(before[k] == places[k]);
                } else {
                    assert(has_id(front, less[i].id));
                }
            }
            assert forall|k: int, i: int|
                0 <= k < places.len() && 0 <= i < base.len() implies (#[trigger] base[i]).id
                != more[#[trigger] places[k]].id by {
                if k < before.len() {
                    assert(before[k] == places[k]);
                } else {
                    assert(front[i] == base[i]);
                }
            }
            places
        }
    }
}

/// A scan gives the archived sessions from the oldest to the newest and then
/// the waiting ones, of each id the first.
pub proof fn law_scan_in_order(v: StorageView) -> (places: Seq<int>)
    requires
        scanned(v) is Ok,
    ensures
        stand_at(scanned(v)->Ok_0, contents(v.files) + v.pending.readable(), places),
        forall|k: int, i: int|
            #![trigger places[k], (contents(v.files) + v.pending.readable())[i]]
            0 <= k < places.len() && 0 <= i < places[k] ==> (contents(v.files)
                + v.pending.readable())[i].id != scanned(v)->Ok_0[k].id,
        forall|i: int|
            0 <= i < (contents(v.files) + v.pending.readable()).len() ==> has_id(
                scanned(v)->Ok_0,
                (#[trigger] (contents(v.files) + v.pending.readable())[i]).id,
            ),
{
    let none = Seq::<SessionView>::empty();
    let archive = contents(v.files);
    let pending = v.pending.readable();
    lemma_append_new_concat(none, archive, pending);
    let places = law_new_sessions_in_order(none, archive + pending);
    let all = append_new(none, archive + pending);
    assert(all.skip(0) =~= all);
    assert(all == scanned(v)->Ok_0);
    assert forall|k: int, i: int|
        #![trigger places[k], (archive + pending)[i]]
        0 <= k < places.len() && 0 <= i < places[k] implies (archive + pending)[i].id
        != scanned(v)->Ok_0[k].id by {
        assert((archive + pending)[i].id != (archive + pending)[places[k]].id);
    }
    places
}

proof fn lemma_places_concat(
    a: Seq<SessionView>,
    x: Seq<SessionView>,
    p: Seq<int>,
    b: Seq<SessionView>,
    y: Seq<SessionView>,
    q: Seq<int>,
) -> (places: Seq<int>)
    requires
        stand_at(a, x, p),
        stand_at(b, y, q),
    ensures
        stand_at(a + b, x + y, places),
{
    let n = x.len() as int;
    let places = p + q.map_values(|k: int| k + n);
    assert forall|k: int| 0 <= k < places.len() implies 0 <= #[trigger] places[k] < (x + y).len()
        && (a + b)[k] == (x + y)[places[k]] by {
        if k < p.len() {
            assert(places[k] == p[k]);
        } else {
            assert(places[k] == q[k - p.len()] + n);
        }
    }
    assert forall|j: int, k: int| 0 <= j < k < places.len() implies places[j] < places[k] by {
        if k < p.len() {
            assert(places[k] == p[k] && places[j] == p[j]);
        } else if j < p.len() {
            assert(places[j] == p[j]);
            assert(places[k] == q[k - p.len()] + n);
        } else {
            assert(places[j] == q[j - p.len()] + n);
            assert(places[k] == q[k - p.len()] + n);
        }
    }
    places
}

/// Hits stand in the order of the sessions.
proof fn lemma_hits_in_order(sessions: Seq<SessionView>, q: Query) -> (places: Seq<int>)
    ensures
        stand_at(hits(sessions, q), sessions, places),
    decreases sessions.len(),
{
    reveal(Seq::filter);
    if sessions.len() == 0 {
        Seq::empty()
    } else {
        let front = sessions.drop_last();
        let p = lemma_hits_in_order(front, q);
        assert forall|k: int| 0 <= k < p.len() implies front[#[trigger] p[k]] == sessions[p[k]] by {
        }
        if hit(sessions.last(), q) {
            p.push(sessions.len() - 1)
        } else {
            p
        }
    }
}

proof fn lemma_no_places(whole: Seq<SessionView>)
    ensures
        stand_at(Seq::empty(), whole, Seq::empty()),
{
}

proof fn lemma_block_hits_in_order(
    data: Seq<u8>,
    segment: u32,
    index: Seq<u8>,
    q: Query,
    n: nat,
) -> (places: Seq<int>)
    requires
        segment_blocks(data, segment) is Ok,
        block_hits(payloads(data.skip(8)), index, q, n) is Ok,
        n <= payloads(data.skip(8)).len(),
    ensures
        stand_at(
            block_hits(payloads(data.skip(8)), index, q, n)->Ok_0,
            sessions_of(segment_blocks(data, segment)->Ok_0.take(n as int)),
            places,
        ),
    decreases n,
{
    let ps = payloads(data.skip(8));
    let blocks = segment_blocks(data, segment)->Ok_0;
    lemma_blocks_in(ps);
    if n == 0 {
        Seq::empty()
    } else {
        let i = n - 1;
        let p = lemma_block_hits_in_order(data, segment, index, q, i as nat);
        let t = blocks.take(n as int);
        assert(t.drop_last() =~= blocks.take(i));
        assert(t.last() == blocks[i]);
        let front = block_hits(ps, index, q, i as nat)->Ok_0;
        let all = block_hits(ps, index, q, n)->Ok_0;
        let newer = blocks[i].stored.sessions();
        assert(unpacked(ps[i]) == Ok::<(StoredView, nat), StorageError>(
            (blocks[i].stored, blocks[i].raw),
        ));
        let h = lemma_hits_in_order(newer, q);
        lemma_no_places(newer);
        let none = Seq::<SessionView>::empty();
        if all == front {
            assert(all =~= front + none);
            lemma_places_concat(front, sessions_of(blocks.take(i)), p, none, newer, Seq::empty())
        } else {
            lemma_places_concat(
                front,
                sessions_of(blocks.take(i)),
                p,
                hits(newer, q),
                newer,
                h,
            )
        }
    }
}

proof fn lemma_archive_hits_in_order(files: Seq<FileView>, segs: Seq<u32>, q: Query) -> (places: Seq<
    int,
>)
    requires
        archive_hits(files, segs, q) is Ok,
        archive_sessions(files, segs) is Ok,
    ensures
        stand_at(
            archive_hits(files, segs, q)->Ok_0,
            archive_sessions(files, segs)->Ok_0,
            places,
        ),
    decreases segs.len(),
{
    if segs.len() == 0 {
        Seq::empty()
    } else {
        let p = lemma_archive_hits_in_order(files, segs.drop_last(), q);
        match lookup(files, data_name(segs.last())) {
            None => p,
            Some(data) => {
                let index = lookup(files, index_name(segs.last()))->0;
                let ps = payloads(data.skip(8));
                let blocks = segment_blocks(data, segs.last())->Ok_0;
                lemma_blocks_in(ps);
                let h = lemma_block_hits_in_order(data, segs.last(), index, q, ps.len());
                assert(blocks.take(ps.len() as int) =~= blocks);
                lemma_places_concat(
                    archive_hits(files, segs.drop_last(), q)->Ok_0,
                    archive_sessions(files, segs.drop_last())->Ok_0,
                    p,
                    segment_hits(data, index, segs.last(), q)->Ok_0,
                    sessions_of(blocks),
                    h,
                )
            },
        }
    }
}

/// A search gives waiting sessions first, in their order, and then archived
/// ones from the oldest to the newest, and nothing that is in neither.
pub proof fn law_search_in_order(v: StorageView, q: Query) -> (r: (int, Seq<int>, Seq<int>))
    requires
        searched(v, q) is Ok,
        archive_sessions(v.files, segments(v.files)) is Ok,
    ensures
        0 <= r.0 <= searched(v, q)->Ok_0.len(),
        stand_at(searched(v, q)->Ok_0.take(r.0), v.pending.readable(), r.1),
        stand_at(searched(v, q)->Ok_0.skip(r.0), contents(v.files), r.2),
{
    let pending = hits(v.pending.readable(), q);
    let found = archive_hits(v.files, segments(v.files), q)->Ok_0;
    let all = searched(v, q)->Ok_0;
    let n = pending.len() as int;
    let p = lemma_hits_in_order(v.pending.readable(), q);
    let h = lemma_archive_hits_in_order(v.files, segments(v.files), q);
    let w = law_new_sessions_in_order(pending, found);
    assert(all.take(n) =~= pending);
    let places = w.map_values(|k: int| h[k]);
    assert(stand_at(all.skip(n), contents(v.files), places)) by {
        assert forall|k: int| 0 <= k < places.len() implies 0 <= #[trigger] places[k] < contents(
            v.files,
        ).len() && all.skip(n)[k] == contents(v.files)[places[k]] by {
            assert(0 <= w[k] < found.len());
            assert(places[k] == h[w[k]]);
            assert(all.skip(n)[k] == found[w[k]]);
        }
        assert forall|j: int, k: int| 0 <= j < k < places.len() implies places[j] < places[k] by {
            assert(w[j] < w[k]);
            assert(places[j] == h[w[j]] && places[k] == h[w[k]]);
        }
    }
    (n, p, places)
}

/// The session is in the block at `i` of a segment, which its index entry does
/// not rule out.
pub open spec fn admitted_at(
    data: Seq<u8>,
    index: Seq<u8>,
    q: Query,
    s: SessionView,
    i: int,
) -> bool {
    &&& 0 <= i < payloads(data.skip(8)).len()
    &&& must_read(index, i, q) == Ok::<bool, StorageError>(true)
    &&& unpacked(payloads(data.skip(8))[i]) is Ok
    &&& unpacked(payloads(data.skip(8))[i])->Ok_0.0.sessions().contains(s)
}

/// The session is in a block of the segment that is not ruled out.
pub open spec fn admitted_in(files: Seq<FileView>, segment: u32, q: Query, s: SessionView) -> bool {
    match (lookup(files, data_name(segment)), lookup(files, index_name(segment))) {
        (Some(data), Some(index)) => exists|i: int| #[trigger] admitted_at(data, index, q, s, i),
        _ => false,
    }
}

proof fn lemma_block_hits_admitted(
    data: Seq<u8>,
    index: Seq<u8>,
    q: Query,
    n: nat,
    s: SessionView,
)
    requires
        n <= payloads(data.skip(8)).len(),
        block_hits(payloads(data.skip(8)), index, q, n) is Ok,
        block_hits(payloads(data.skip(8)), index, q, n)->Ok_0.contains(s),
    ensures
        exists|i: int| #[trigger] admitted_at(data, index, q, s, i),
    decreases n,
{
    let ps = payloads(data.skip(8));
    if n > 0 {
        let i = n - 1;
        let front = block_hits(ps, index, q, i as nat)->Ok_0;
        if front.contains(s) {
            lemma_block_hits_admitted(data, index, q, i as nat, s);
        } else {
            let all = block_hits(ps, index, q, n)->Ok_0;
            let sessions = unpacked(ps[i])->Ok_0.0.sessions();
            let k = choose|k: int| 0 <= k < all.len() && all[k] == s;
            if k < front.len() {
                assert(front[k] == s);
            }
            assert(must_read(index, i, q) == Ok::<bool, StorageError>(true));
            let places = lemma_hits_in_order(sessions, q);
            let at = places[k - front.len()];
            assert(sessions[at] == s);
            assert(admitted_at(data, index, q, s, i));
        }
    }
}

proof fn lemma_archive_hits_admitted(
    files: Seq<FileView>,
    segs: Seq<u32>,
    q: Query,
    s: SessionView,
) -> (k: int)
    requires
        archive_hits(files, segs, q) is Ok,
        archive_hits(files, segs, q)->Ok_0.contains(s),
    ensures
        0 <= k < segs.len(),
        admitted_in(files, segs[k], q, s),
    decreases segs.len(),
{
    let less = segs.drop_last();
    let front = archive_hits(files, less, q)->Ok_0;
    let all = archive_hits(files, segs, q)->Ok_0;
    if front.contains(s) {
        let k = lemma_archive_hits_admitted(files, less, q, s);
        assert(less[k] == segs[k]);
        k
    } else {
        let data = lookup(files, data_name(segs.last()))->0;
        let index = lookup(files, index_name(segs.last()))->0;
        let found = segment_hits(data, index, segs.last(), q)->Ok_0;
        let k = choose|k: int| 0 <= k < all.len() && all[k] == s;
        if k < front.len() {
            assert(front[k] == s);
        }
        assert(found[k - front.len()] == s);
        lemma_block_hits_admitted(data, index, q, payloads(data.skip(8)).len(), s);
        segs.len() - 1
    }
}

/// A search gives no archived session of a block that the index rules out: a
/// session that it gives waits, or is in a block that is not ruled out.
pub proof fn law_ruled_out_blocks_are_passed_over(v: StorageView, q: Query, i: int)
    requires
        searched(v, q) is Ok,
        0 <= i < searched(v, q)->Ok_0.len(),
    ensures
        ({
            let s = searched(v, q)->Ok_0[i];
            ||| v.pending.readable().contains(s)
            ||| exists|k: int|
                0 <= k < segments(v.files).len() && #[trigger] admitted_in(
                    v.files,
                    segments(v.files)[k],
                    q,
                    s,
                )
        }),
{
    let pending = hits(v.pending.readable(), q);
    let found = archive_hits(v.files, segments(v.files), q)->Ok_0;
    let all = searched(v, q)->Ok_0;
    let s = all[i];
    let n = pending.len() as int;
    let p = lemma_hits_in_order(v.pending.readable(), q);
    let w = law_new_sessions_in_order(pending, found);
    if i < n {
        assert(all.subrange(0, n)[i] == pending[i]);
        assert(v.pending.readable()[p[i]] == s);
    } else {
        assert(all.skip(n)[i - n] == s);
        assert(found[w[i - n]] == s);
        let k = lemma_archive_hits_admitted(v.files, segments(v.files), q, s);
    }
}

} // verus!
