//! What a search finds: nothing but hits, each id once, and every session
//! whose words the query asks for.
use vstd::prelude::*;
use crate::codec::unpacked;
use crate::frames::{payloads, tail, Tail};
use crate::index::{entry_value, IndexView};
use crate::laws::append::{contents, law_append_extends_contents, sound};
use crate::pattern::{answers, is_expression, pattern_found};
use crate::schema::{text_of, MessageView, SessionView, StoredView};
use crate::storage::StorageView;
use crate::storage::blocks::{block_text, describes, earliest, has_undated, latest, time_range};
use crate::storage::directory::{data_name, index_name, lookup, segments, FileView};
use crate::storage::scan::{append_new, archive_sessions, has_id, scanned};
use crate::storage::search::{
    admits, archive_hits, block_hits, hit, hits, in_time, outside_time, searched, segment_hits,
    Query,
};
use crate::storage::segment::{lemma_blocks_in, segment_blocks, sessions_of, BlockView};
use crate::storage::sync::{entry_for, in_sync};
use crate::storage::types::StorageError;
use crate::storage::writer::archived;
use crate::text::{
    all_ascii, ascii_lower, contains_text, is_ascii, is_white, lemma_pieces_nonempty,
    lemma_pieces_single, lemma_tokens_concat, lowercased, pieces, tokens, trimmed_end,
    trimmed_start, words, Separator,
};

verus! {

/// The index file describes the first blocks of the data file, and perhaps
/// not the last ones.
pub open spec fn indexes_front(index: Seq<u8>, blocks: Seq<BlockView>) -> bool {
    &&& tail(index) == Tail::Clean
    &&& payloads(index).len() <= blocks.len()
    &&& forall|i: int|
        0 <= i < payloads(index).len() ==> entry_for(#[trigger] payloads(index)[i], blocks[i])
}

/// A segment can be searched: its data file can be read, and its index file
/// describes the blocks as far as it goes.
pub open spec fn searchable(files: Seq<FileView>, segment: u32) -> bool {
    match lookup(files, data_name(segment)) {
        None => true,
        Some(data) => {
            &&& segment_blocks(data, segment) is Ok
            &&& lookup(files, index_name(segment)) is Some
            &&& indexes_front(
                lookup(files, index_name(segment))->0,
                segment_blocks(data, segment)->Ok_0,
            )
        },
    }
}

/// Every segment of a sound archive can be searched.
pub proof fn law_sound_is_searchable(files: Seq<FileView>, segment: u32)
    requires
        sound(files),
    ensures
        searchable(files, segment),
{
    assert(in_sync(files, segment));
}

/// A query that is no regular expression asks for words of the session only.
pub open spec fn asks_for_words_of(q: Query, s: SessionView) -> bool {
    !is_expression(q.text) ==> forall|i: int|
        0 <= i < tokens(q.text).len() ==> tokens(text_of(s.messages)).contains(
            #[trigger] tokens(q.text)[i],
        )
}

pub open spec fn ends_white(t: Seq<char>) -> bool {
    t.len() == 0 || is_white(t.last())
}

proof fn lemma_no_tokens()
    ensures
        tokens(Seq::empty()) == Seq::<Seq<char>>::empty(),
{
    let none = Seq::<char>::empty();
    let parts = pieces(none, Separator::White);
    assert(parts =~= seq![none]);
    assert(parts.drop_last() =~= Seq::<Seq<char>>::empty());
    assert(words(parts.drop_last()) == Seq::<Seq<char>>::empty());
    assert(trimmed_end(trimmed_start(none)) == none);
}

proof fn lemma_tokens_after_white(a: Seq<char>, b: Seq<char>)
    requires
        ends_white(a),
    ensures
        tokens(a + b) == tokens(a) + tokens(b),
{
    lemma_no_tokens();
    if a.len() == 0 {
        assert(a =~= Seq::<char>::empty());
        assert(a + b =~= b);
        assert(tokens(a) + tokens(b) =~= tokens(b));
    } else {
        let front = a.drop_last();
        let c = a.last();
        assert(a =~= front.push(c));
        lemma_tokens_concat(front, c, b);
        lemma_tokens_concat(front, c, Seq::empty());
        assert(front.push(c) + Seq::<char>::empty() =~= a);
        assert(tokens(front) + Seq::<Seq<char>>::empty() =~= tokens(front));
    }
}

proof fn lemma_text_ends_white(messages: Seq<MessageView>)
    ensures
        ends_white(text_of(messages)),
{
    if messages.len() > 0 {
        let t = text_of(messages);
        assert(t.last() == ' ');
    }
}

proof fn lemma_block_text_ends_white(sessions: Seq<SessionView>)
    ensures
        ends_white(block_text(sessions)),
    decreases sessions.len(),
{
    if sessions.len() > 0 {
        lemma_block_text_ends_white(sessions.drop_last());
        lemma_text_ends_white(sessions.last().messages);
        let a = block_text(sessions.drop_last());
        let b = text_of(sessions.last().messages);
        if b.len() == 0 {
            assert(a + b =~= a);
        } else {
            assert((a + b).last() == b.last());
        }
    }
}

/// Every word of a session is a word of its block.
pub proof fn lemma_words_of_block(sessions: Seq<SessionView>, k: int, word: Seq<char>)
    requires
        0 <= k < sessions.len(),
        tokens(text_of(sessions[k].messages)).contains(word),
    ensures
        tokens(block_text(sessions)).contains(word),
    decreases sessions.len(),
{
    let front = sessions.drop_last();
    let a = tokens(block_text(front));
    let b = tokens(text_of(sessions.last().messages));
    lemma_block_text_ends_white(front);
    lemma_tokens_after_white(block_text(front), text_of(sessions.last().messages));
    if k < front.len() {
        assert(front[k] == sessions[k]);
        lemma_words_of_block(front, k, word);
        let i = choose|i: int| 0 <= i < a.len() && a[i] == word;
        assert((a + b)[i] == word);
    } else {
        let i = choose|i: int| 0 <= i < b.len() && b[i] == word;
        assert((a + b)[a.len() + i] == word);
    }
}

proof fn lemma_range_bounds(sessions: Seq<SessionView>, k: int)
    requires
        0 <= k < sessions.len(),
        sessions[k].created_at is Some,
    ensures
        earliest(sessions) <= sessions[k].created_at->0 <= latest(sessions),
    decreases sessions.len(),
{
    if k < sessions.len() - 1 {
        let front = sessions.drop_last();
        assert(front[k] == sessions[k]);
        lemma_range_bounds(front, k);
    }
}

/// A block's time range never rules out a session in the range that is asked
/// for.
pub proof fn law_block_range_keeps_sessions(v: StoredView, k: int, q: Query, entry: IndexView)
    requires
        0 <= k < v.sessions().len(),
        (entry.min_time, entry.max_time) == time_range(v),
        in_time(v.sessions()[k], q),
    ensures
        !outside_time(entry, q),
{
    let s = v.sessions()[k];
    match v {
        StoredView::V1(_) => {},
        StoredView::Block(all) | StoredView::V2(all) => {
            if !has_undated(all) {
                assert(s.created_at is Some);
                lemma_range_bounds(all, k);
            }
        },
    }
}

/// An index entry never rules out a session that is searched for by its words.
proof fn lemma_entry_admits(entry: IndexView, b: BlockView, k: int, q: Query)
    requires
        describes(entry, b.stored, b.offset as int, b.compressed as int, b.raw as int),
        0 <= k < b.stored.sessions().len(),
        in_time(b.stored.sessions()[k], q),
        asks_for_words_of(q, b.stored.sessions()[k]),
    ensures
        admits(entry, q) == Ok::<bool, StorageError>(true),
{
    let sessions = b.stored.sessions();
    law_block_range_keeps_sessions(b.stored, k, q, entry);
    assert forall|i: int|
        !is_expression(q.text) && 0 <= i < tokens(q.text).len() implies entry.accepts(
        #[trigger] tokens(q.text)[i],
    ) by {
        let word = tokens(q.text)[i];
        lemma_words_of_block(sessions, k, word);
        let all = tokens(block_text(sessions));
        let j = choose|j: int| 0 <= j < all.len() && all[j] == word;
        assert(entry.accepts(all[j]));
    }
}

/// Filtering keeps exactly the hits.
pub proof fn lemma_hits(sessions: Seq<SessionView>, q: Query)
    ensures
        forall|s: SessionView|
            #[trigger] hits(sessions, q).contains(s) <==> sessions.contains(s) && hit(s, q),
{
    let p = |s: SessionView| hit(s, q);
    let f = sessions.filter(p);
    assert forall|s: SessionView|
        #[trigger] hits(sessions, q).contains(s) <==> sessions.contains(s) && hit(s, q) by {
        if f.contains(s) {
            sessions.lemma_filter_contains_rev(p, s);
            let i = choose|i: int| 0 <= i < f.len() && f[i] == s;
            sessions.lemma_filter_pred(p, i);
        }
        if sessions.contains(s) && hit(s, q) {
            let i = choose|i: int| 0 <= i < sessions.len() && sessions[i] == s;
            sessions.lemma_filter_contains(p, i);
        }
    }
}

/// Only hits come out of the first `n` blocks.
proof fn lemma_block_hits_sound(ps: Seq<Seq<u8>>, index: Seq<u8>, q: Query, n: nat)
    requires
        block_hits(ps, index, q, n) is Ok,
    ensures
        forall|s: SessionView|
            #[trigger] block_hits(ps, index, q, n)->Ok_0.contains(s) ==> hit(s, q),
    decreases n,
{
    if n > 0 {
        lemma_block_hits_sound(ps, index, q, (n - 1) as nat);
        let front = block_hits(ps, index, q, (n - 1) as nat)->Ok_0;
        let all = block_hits(ps, index, q, n)->Ok_0;
        assert forall|s: SessionView| #[trigger] all.contains(s) implies hit(s, q) by {
            let i = choose|i: int| 0 <= i < all.len() && all[i] == s;
            if i < front.len() {
                assert(front.contains(s)) by {
                    assert(front[i] == s);
                }
            } else {
                let v = unpacked(ps[n - 1])->Ok_0.0;
                lemma_hits(v.sessions(), q);
                assert(hits(v.sessions(), q)[i - front.len()] == s);
                assert(hits(v.sessions(), q).contains(s));
            }
        }
    }
}

proof fn lemma_archive_hits_sound(files: Seq<FileView>, segs: Seq<u32>, q: Query)
    requires
        archive_hits(files, segs, q) is Ok,
    ensures
        forall|s: SessionView|
            #[trigger] archive_hits(files, segs, q)->Ok_0.contains(s) ==> hit(s, q),
    decreases segs.len(),
{
    if segs.len() > 0 {
        lemma_archive_hits_sound(files, segs.drop_last(), q);
        let front = archive_hits(files, segs.drop_last(), q)->Ok_0;
        let all = archive_hits(files, segs, q)->Ok_0;
        assert forall|s: SessionView| #[trigger] all.contains(s) implies hit(s, q) by {
            let i = choose|i: int| 0 <= i < all.len() && all[i] == s;
            if i < front.len() {
                assert(front.contains(s)) by {
                    assert(front[i] == s);
                }
            } else {
                let data = lookup(files, data_name(segs.last()))->0;
                let index = lookup(files, index_name(segs.last()))->0;
                let ps = payloads(data.skip(8));
                lemma_block_hits_sound(ps, index, q, ps.len());
                let found = segment_hits(data, index, segs.last(), q)->Ok_0;
                assert(found[i - front.len()] == s);
                assert(found.contains(s));
            }
        }
    }
}

/// No two sessions have the same id.
pub open spec fn ids_distinct(sessions: Seq<SessionView>) -> bool {
    forall|i: int, j: int|
        0 <= i < j < sessions.len() ==> (#[trigger] sessions[i]).id != (#[trigger] sessions[j]).id
}

/// Sessions come from the two lists, every id of the lists is there, and no
/// id comes in twice.
pub proof fn lemma_append_new(base: Seq<SessionView>, more: Seq<SessionView>)
    ensures
        forall|s: SessionView|
            #[trigger] append_new(base, more).contains(s) ==> base.contains(s) || more.contains(s),
        forall|s: SessionView| more.contains(s) ==> has_id(append_new(base, more), #[trigger] s.id),
        base.is_prefix_of(append_new(base, more)),
        ids_distinct(base) ==> ids_distinct(append_new(base, more)),
    decreases more.len(),
{
    let all = append_new(base, more);
    if more.len() > 0 {
        let less = more.drop_last();
        let last = more.last();
        lemma_append_new(base, less);
        let front = append_new(base, less);
        assert forall|s: SessionView| #[trigger] all.contains(s) implies base.contains(s)
            || more.contains(s) by {
            let i = choose|i: int| 0 <= i < all.len() && all[i] == s;
            if i < front.len() {
                assert(front[i] == s);
                assert(front.contains(s));
                if less.contains(s) {
                    let k = choose|k: int| 0 <= k < less.len() && less[k] == s;
                    assert(more[k] == s);
                }
            } else {
                assert(more[more.len() - 1] == s);
            }
        }
        assert forall|s: SessionView| more.contains(s) implies has_id(all, #[trigger] s.id) by {
            let k = choose|k: int| 0 <= k < more.len() && more[k] == s;
            if k < less.len() {
                assert(less[k] == s);
                assert(less.contains(s));
                assert(has_id(front, s.id));
                let i = choose|i: int| 0 <= i < front.len() && (#[trigger] front[i]).id == s.id;
                assert(all[i].id == s.id);
            } else if !has_id(front, last.id) {
                assert(all[front.len() as int].id == s.id);
            } else {
                let i = choose|i: int| 0 <= i < front.len() && (#[trigger] front[i]).id == s.id;
                assert(all[i].id == s.id);
            }
        }
        if ids_distinct(base) {
            assert forall|i: int, j: int| 0 <= i < j < all.len() implies (#[trigger] all[i]).id != (
            #[trigger] all[j]).id by {
                if j < front.len() {
                    assert(front[i].id != front[j].id);
                } else {
                    assert(front[i].id != last.id);
                }
            }
        }
    }
}

/// Every result of a search is a hit: its creation time is in the range that
/// was asked for, or unknown, and a message of it holds the text.
pub proof fn law_search_finds_only_hits(v: StorageView, q: Query, s: SessionView)
    requires
        searched(v, q) is Ok,
        searched(v, q)->Ok_0.contains(s),
    ensures
        hit(s, q),
{
    let pending = hits(v.pending.readable(), q);
    let found = archive_hits(v.files, segments(v.files), q)->Ok_0;
    lemma_append_new(pending, found);
    lemma_hits(v.pending.readable(), q);
    lemma_archive_hits_sound(v.files, segments(v.files), q);
}

/// The hits of the first `n` blocks of a searchable segment can be told, and
/// a session in them that is searched for by its words is among them.
proof fn lemma_block_hits_complete(
    data: Seq<u8>,
    segment: u32,
    index: Seq<u8>,
    q: Query,
    n: nat,
    s: SessionView,
)
    requires
        segment_blocks(data, segment) is Ok,
        indexes_front(index, segment_blocks(data, segment)->Ok_0),
        n <= payloads(data.skip(8)).len(),
    ensures
        block_hits(payloads(data.skip(8)), index, q, n) is Ok,
        sessions_of(segment_blocks(data, segment)->Ok_0.take(n as int)).contains(s) && hit(s, q)
            && asks_for_words_of(q, s) ==> block_hits(
            payloads(data.skip(8)),
            index,
            q,
            n,
        )->Ok_0.contains(s),
    decreases n,
{
    let ps = payloads(data.skip(8));
    let blocks = segment_blocks(data, segment)->Ok_0;
    lemma_blocks_in(ps);
    if n == 0 {
        assert(blocks.take(0) =~= Seq::<BlockView>::empty());
    } else {
        let i = n - 1;
        lemma_block_hits_complete(data, segment, index, q, i as nat, s);
        let b = blocks[i];
        let t = blocks.take(n as int);
        let front = block_hits(ps, index, q, i as nat)->Ok_0;
        let older = sessions_of(blocks.take(i));
        let newer = b.stored.sessions();
        assert(t.drop_last() =~= blocks.take(i));
        assert(t.last() == b);
        assert(unpacked(ps[i]) == Ok::<(StoredView, nat), StorageError>((b.stored, b.raw)));
        if i < payloads(index).len() {
            assert(entry_for(payloads(index)[i], b));
        }
        let wanted = hit(s, q) && asks_for_words_of(q, s);
        if wanted && (older + newer).contains(s) {
            let k = choose|k: int| 0 <= k < (older + newer).len() && (older + newer)[k] == s;
            let all = block_hits(ps, index, q, n)->Ok_0;
            if k < older.len() {
                assert(older[k] == s);
                assert(older.contains(s));
                let m = choose|m: int| 0 <= m < front.len() && front[m] == s;
                assert(all[m] == s);
            } else {
                let j = k - older.len();
                assert(newer[j] == s);
                if i < payloads(index).len() {
                    lemma_entry_admits(entry_value(payloads(index)[i])->Ok_0, b, j, q);
                }
                lemma_hits(newer, q);
                assert(newer.contains(s));
                let found = hits(newer, q);
                assert(found.contains(s));
                let m = choose|m: int| 0 <= m < found.len() && found[m] == s;
                assert(all == front + found);
                assert(all[front.len() + m] == s);
            }
        }
    }
}

proof fn lemma_archive_hits_complete(
    files: Seq<FileView>,
    segs: Seq<u32>,
    q: Query,
    s: SessionView,
)
    requires
        forall|n: u32| searchable(files, n),
    ensures
        archive_sessions(files, segs) is Ok,
        archive_hits(files, segs, q) is Ok,
        archive_sessions(files, segs)->Ok_0.contains(s) && hit(s, q) && asks_for_words_of(q, s)
            ==> archive_hits(files, segs, q)->Ok_0.contains(s),
    decreases segs.len(),
{
    if segs.len() > 0 {
        let n = segs.last();
        lemma_archive_hits_complete(files, segs.drop_last(), q, s);
        assert(searchable(files, n));
        match lookup(files, data_name(n)) {
            None => {},
            Some(data) => {
                let index = lookup(files, index_name(n))->0;
                let blocks = segment_blocks(data, n)->Ok_0;
                let ps = payloads(data.skip(8));
                lemma_blocks_in(ps);
                lemma_block_hits_complete(data, n, index, q, ps.len(), s);
                assert(blocks.take(ps.len() as int) =~= blocks);
                let older = archive_sessions(files, segs.drop_last())->Ok_0;
                let newer = sessions_of(blocks);
                let front = archive_hits(files, segs.drop_last(), q)->Ok_0;
                let found = segment_hits(data, index, n, q)->Ok_0;
                let wanted = hit(s, q) && asks_for_words_of(q, s);
                if wanted && (older + newer).contains(s) {
                    let k = choose|k: int|
                        0 <= k < (older + newer).len() && (older + newer)[k] == s;
                    if k < older.len() {
                        assert(older[k] == s);
                        assert(older.contains(s));
                        let m = choose|m: int| 0 <= m < front.len() && front[m] == s;
                        assert((front + found)[m] == s);
                    } else {
                        assert(newer[k - older.len()] == s);
                        assert(newer.contains(s));
                        let m = choose|m: int| 0 <= m < found.len() && found[m] == s;
                        assert((front + found)[front.len() + m] == s);
                    }
                }
            },
        }
    }
}

/// An archived session is found by its words: where it answers the query,
/// every word of a query that is no regular expression is a word of it, and its
/// time is in the range, the result has a session of its id. This also holds where index entries
/// for the last blocks of a segment are missing.
pub proof fn law_search_finds_words(v: StorageView, q: Query, s: SessionView)
    requires
        forall|n: u32| searchable(v.files, n),
        contents(v.files).contains(s),
        hit(s, q),
        asks_for_words_of(q, s),
    ensures
        searched(v, q) is Ok,
        has_id(searched(v, q)->Ok_0, s.id),
{
    lemma_archive_hits_complete(v.files, segments(v.files), q, s);
    lemma_append_new(
        hits(v.pending.readable(), q),
        archive_hits(v.files, segments(v.files), q)->Ok_0,
    );
}

/// An appended session is found by its words.
pub proof fn law_appended_session_is_searched(
    before: Seq<FileView>,
    after: StorageView,
    v: StoredView,
    max_size: u64,
    q: Query,
    s: SessionView,
)
    requires
        sound(before),
        archived(before, after.files, v, max_size),
        v.sessions().contains(s),
        hit(s, q),
        asks_for_words_of(q, s),
    ensures
        searched(after, q) is Ok,
        has_id(searched(after, q)->Ok_0, s.id),
{
    law_append_extends_contents(before, after.files, v, max_size);
    assert forall|n: u32| searchable(after.files, n) by {
        law_sound_is_searchable(after.files, n);
    }
    let k = choose|k: int| 0 <= k < v.sessions().len() && v.sessions()[k] == s;
    assert(contents(after.files)[contents(before).len() + k] == s);
    law_search_finds_words(after, q, s);
}

proof fn lemma_words_contain(parts: Seq<Seq<char>>, p: Seq<char>)
    requires
        parts.contains(p),
        trimmed_end(trimmed_start(p)).len() > 0,
    ensures
        words(parts).contains(lowercased(trimmed_end(trimmed_start(p)))),
    decreases parts.len(),
{
    let word = lowercased(trimmed_end(trimmed_start(p)));
    let front = parts.drop_last();
    let k = choose|k: int| 0 <= k < parts.len() && parts[k] == p;
    if k < front.len() {
        assert(front[k] == p);
        lemma_words_contain(front, p);
        let i = choose|i: int| 0 <= i < words(front).len() && words(front)[i] == word;
        assert(words(parts)[i] == word);
    } else {
        assert(words(parts)[words(front).len() as int] == word);
    }
}

proof fn lemma_no_white_in_pieces(s: Seq<char>, k: int)
    requires
        0 <= k < pieces(s, Separator::White).len(),
    ensures
        forall|i: int|
            0 <= i < pieces(s, Separator::White)[k].len() ==> !is_white(
                #[trigger] pieces(s, Separator::White)[k][i],
            ),
    decreases s.len(),
{
    if s.len() > 0 {
        lemma_pieces_nonempty(s.drop_last(), Separator::White);
        let front = pieces(s.drop_last(), Separator::White);
        if k < front.len() {
            lemma_no_white_in_pieces(s.drop_last(), k);
        }
    }
}

/// A word of a message is a word of the session.
proof fn lemma_words_of_message(messages: Seq<MessageView>, k: int, word: Seq<char>)
    requires
        0 <= k < messages.len(),
        tokens(messages[k].content).contains(word),
    ensures
        tokens(text_of(messages)).contains(word),
    decreases messages.len(),
{
    let front = messages.drop_last();
    let last = messages.last().content;
    let a = tokens(text_of(front));
    let b = tokens(last);
    lemma_text_ends_white(front);
    lemma_tokens_after_white(text_of(front), last.push(' '));
    lemma_no_tokens();
    lemma_tokens_concat(last, ' ', Seq::empty());
    assert(last.push(' ') + Seq::<char>::empty() =~= last.push(' '));
    assert(b + Seq::<Seq<char>>::empty() =~= b);
    if k < front.len() {
        assert(front[k] == messages[k]);
        lemma_words_of_message(front, k, word);
        let i = choose|i: int| 0 <= i < a.len() && a[i] == word;
        assert((a + b)[i] == word);
    } else {
        let i = choose|i: int| 0 <= i < b.len() && b[i] == word;
        assert((a + b)[a.len() + i] == word);
    }
}

/// A session is found by the whole text of any of its messages.
pub proof fn law_search_finds_whole_messages(v: StorageView, q: Query, s: SessionView, k: int)
    requires
        forall|n: u32| searchable(v.files, n),
        contents(v.files).contains(s),
        0 <= k < s.messages.len(),
        q.text == s.messages[k].content,
        in_time(s, q),
    ensures
        searched(v, q) is Ok,
        has_id(searched(v, q)->Ok_0, s.id),
{
    let lower = lowercased(q.text);
    assert(lower.subrange(0, 0int + lower.len()) =~= lower);
    assert(contains_text(lower, lower));
    assert(answers(s.messages[k].content, q.text));
    assert forall|i: int| 0 <= i < tokens(q.text).len() implies tokens(
        text_of(s.messages),
    ).contains(#[trigger] tokens(q.text)[i]) by {
        let word = tokens(q.text)[i];
        assert(tokens(s.messages[k].content)[i] == word);
        lemma_words_of_message(s.messages, k, word);
    }
    law_search_finds_words(v, q, s);
}

/// A session is found by any part of a message between white space, with or
/// without the punctuation round it.
pub proof fn law_search_finds_parts_of_messages(
    v: StorageView,
    q: Query,
    s: SessionView,
    k: int,
)
    requires
        forall|n: u32| searchable(v.files, n),
        contents(v.files).contains(s),
        0 <= k < s.messages.len(),
        pieces(s.messages[k].content, Separator::White).contains(q.text),
        hit(s, q),
    ensures
        searched(v, q) is Ok,
        has_id(searched(v, q)->Ok_0, s.id),
{
    let parts = pieces(s.messages[k].content, Separator::White);
    let at = choose|i: int| 0 <= i < parts.len() && parts[i] == q.text;
    lemma_no_white_in_pieces(s.messages[k].content, at);
    assert forall|i: int| 0 <= i < q.text.len() implies !Separator::White.picks(
        #[trigger] q.text[i],
    ) by {
        assert(!is_white(parts[at][i]));
    }
    lemma_pieces_single(q.text, Separator::White);
    let one = seq![q.text];
    assert(one.drop_last() =~= Seq::<Seq<char>>::empty());
    assert(words(one.drop_last()) =~= Seq::<Seq<char>>::empty());
    assert forall|i: int| 0 <= i < tokens(q.text).len() implies tokens(
        text_of(s.messages),
    ).contains(#[trigger] tokens(q.text)[i]) by {
        let word = tokens(q.text)[i];
        assert(word == lowercased(trimmed_end(trimmed_start(q.text))));
        lemma_words_contain(parts, q.text);
        lemma_words_of_message(s.messages, k, word);
    }
    law_search_finds_words(v, q, s);
}

/// A session that was appended is found by any part of its messages between
/// white space.
pub proof fn law_appended_part_is_searched(
    before: Seq<FileView>,
    after: StorageView,
    v: StoredView,
    max_size: u64,
    q: Query,
    s: SessionView,
    k: int,
)
    requires
        sound(before),
        archived(before, after.files, v, max_size),
        v.sessions().contains(s),
        0 <= k < s.messages.len(),
        pieces(s.messages[k].content, Separator::White).contains(q.text),
        hit(s, q),
    ensures
        searched(after, q) is Ok,
        has_id(searched(after, q)->Ok_0, s.id),
{
    law_append_extends_contents(before, after.files, v, max_size);
    assert forall|n: u32| searchable(after.files, n) by {
        law_sound_is_searchable(after.files, n);
    }
    let i = choose|i: int| 0 <= i < v.sessions().len() && v.sessions()[i] == s;
    assert(contents(after.files)[contents(before).len() + i] == s);
    law_search_finds_parts_of_messages(after, q, s, k);
}

/// A part of a text between white space stands in it.
proof fn lemma_piece_stands_in_text(s: Seq<char>, k: int) -> (at: int)
    requires
        0 <= k < pieces(s, Separator::White).len(),
    ensures
        0 <= at <= at + pieces(s, Separator::White)[k].len() <= s.len(),
        s.subrange(at, at + pieces(s, Separator::White)[k].len()) == pieces(
            s,
            Separator::White,
        )[k],
        k == pieces(s, Separator::White).len() - 1 ==> at + pieces(s, Separator::White)[k].len()
            == s.len(),
    decreases s.len(),
{
    let parts = pieces(s, Separator::White);
    if s.len() == 0 {
        assert(s.subrange(0, 0) =~= parts[k]);
        0
    } else {
        let less = s.drop_last();
        let front = pieces(less, Separator::White);
        lemma_pieces_nonempty(less, Separator::White);
        if k < front.len() {
            let at = lemma_piece_stands_in_text(less, k);
            assert(s.subrange(at, at + parts[k].len()) =~= parts[k]);
            at
        } else {
            assert(s.subrange(s.len() as int, s.len() as int) =~= parts[k]);
            s.len() as int
        }
    }
}

/// In ASCII, a part of a text is a part of it in lower case.
proof fn lemma_ascii_part(text: Seq<char>, part: Seq<char>, at: int)
    requires
        all_ascii(text),
        0 <= at <= at + part.len() <= text.len(),
        text.subrange(at, at + part.len()) == part,
    ensures
        contains_text(lowercased(text), lowercased(part)),
{
    assert forall|i: int| 0 <= i < part.len() implies is_ascii(#[trigger] part[i]) by {
        assert(part[i] == text[at + i]);
    }
    let a = lowercased(text);
    let b = lowercased(part);
    assert forall|i: int| 0 <= i < b.len() implies a.subrange(at, at + b.len())[i] == b[i] by {
        assert(part[i] == text[at + i]);
    }
    assert(a.subrange(at, at + b.len()) =~= b);
}

/// A session is found by any word of a message in ASCII: whatever is asked
/// for that stands between white space in the message.
pub proof fn law_search_finds_ascii_words(v: StorageView, q: Query, s: SessionView, k: int)
    requires
        forall|n: u32| searchable(v.files, n),
        contents(v.files).contains(s),
        0 <= k < s.messages.len(),
        all_ascii(s.messages[k].content),
        pieces(s.messages[k].content, Separator::White).contains(q.text),
        in_time(s, q),
    ensures
        searched(v, q) is Ok,
        has_id(searched(v, q)->Ok_0, s.id),
{
    lemma_ascii_word_is_hit(q, s, k);
    law_search_finds_parts_of_messages(v, q, s, k);
}

proof fn lemma_ascii_word_is_hit(q: Query, s: SessionView, k: int)
    requires
        0 <= k < s.messages.len(),
        all_ascii(s.messages[k].content),
        pieces(s.messages[k].content, Separator::White).contains(q.text),
        in_time(s, q),
    ensures
        hit(s, q),
{
    let text = s.messages[k].content;
    let parts = pieces(text, Separator::White);
    let i = choose|i: int| 0 <= i < parts.len() && parts[i] == q.text;
    let at = lemma_piece_stands_in_text(text, i);
    lemma_ascii_part(text, q.text, at);
    assert(answers(s.messages[k].content, q.text));
}

/// A session that was appended is found by any word of its messages in ASCII.
pub proof fn law_appended_ascii_word_is_searched(
    before: Seq<FileView>,
    after: StorageView,
    v: StoredView,
    max_size: u64,
    q: Query,
    s: SessionView,
    k: int,
)
    requires
        sound(before),
        archived(before, after.files, v, max_size),
        v.sessions().contains(s),
        0 <= k < s.messages.len(),
        all_ascii(s.messages[k].content),
        pieces(s.messages[k].content, Separator::White).contains(q.text),
        in_time(s, q),
    ensures
        searched(after, q) is Ok,
        has_id(searched(after, q)->Ok_0, s.id),
{
    lemma_ascii_word_is_hit(q, s, k);
    law_appended_part_is_searched(before, after, v, max_size, q, s, k);
}

/// In ASCII, letter case does not matter: two queries that differ in it alone
/// are answered by the same text.
pub proof fn law_case_does_not_matter(text: Seq<char>, a: Seq<char>, b: Seq<char>)
    requires
        all_ascii(a),
        all_ascii(b),
        a.len() == b.len(),
        forall|i: int| 0 <= i < a.len() ==> ascii_lower(#[trigger] a[i]) == ascii_lower(b[i]),
        !is_expression(a),
        !is_expression(b),
    ensures
        answers(text, a) == answers(text, b),
{
    assert(lowercased(a) =~= lowercased(b));
}

/// A session is found by a regular expression that matches one of its
/// messages.
pub proof fn law_search_finds_patterns(v: StorageView, q: Query, s: SessionView, k: int)
    requires
        forall|n: u32| searchable(v.files, n),
        contents(v.files).contains(s),
        0 <= k < s.messages.len(),
        is_expression(q.text),
        pattern_found(q.text, s.messages[k].content),
        in_time(s, q),
    ensures
        searched(v, q) is Ok,
        has_id(searched(v, q)->Ok_0, s.id),
{
    assert(answers(s.messages[k].content, q.text));
    law_search_finds_words(v, q, s);
}

/// A pending session that is searched for is found as it is.
pub proof fn law_search_finds_pending(v: StorageView, q: Query, s: SessionView)
    requires
        searched(v, q) is Ok,
        v.pending.readable().contains(s),
        hit(s, q),
    ensures
        searched(v, q)->Ok_0.contains(s),
{
    let pending = hits(v.pending.readable(), q);
    let found = archive_hits(v.files, segments(v.files), q)->Ok_0;
    lemma_hits(v.pending.readable(), q);
    lemma_append_new(pending, found);
    assert(pending.contains(s));
    let k = choose|k: int| 0 <= k < pending.len() && pending[k] == s;
    assert(append_new(pending, found)[k] == s);
}

/// A scan gives every id once.
pub proof fn law_scan_has_no_duplicates(v: StorageView)
    requires
        scanned(v) is Ok,
    ensures
        ids_distinct(scanned(v)->Ok_0),
{
    let archive = archive_sessions(v.files, segments(v.files))->Ok_0;
    let none = Seq::<SessionView>::empty();
    lemma_append_new(none, archive);
    lemma_append_new(append_new(none, archive), v.pending.readable());
}

/// A scan shows every archived and every pending id.
pub proof fn law_scan_is_complete(v: StorageView, s: SessionView)
    requires
        scanned(v) is Ok,
        contents(v.files).contains(s) || v.pending.readable().contains(s),
    ensures
        has_id(scanned(v)->Ok_0, s.id),
{
    let archive = archive_sessions(v.files, segments(v.files))->Ok_0;
    let none = Seq::<SessionView>::empty();
    let first = append_new(none, archive);
    let all = append_new(first, v.pending.readable());
    lemma_append_new(none, archive);
    lemma_append_new(first, v.pending.readable());
    if archive.contains(s) {
        assert(has_id(first, s.id));
        let i = choose|i: int| 0 <= i < first.len() && (#[trigger] first[i]).id == s.id;
        assert(all[i].id == s.id);
    }
}

} // verus!
