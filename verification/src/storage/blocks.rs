//! Blocks of sessions and the index entries that describe them.
use vstd::prelude::*;
use crate::index::{is_usable, BlockIndex, BlockIndexParams, IndexView};
use crate::schema::{text_of, ChatSessionV1, SessionView, StoredSession, StoredView};
use crate::text::{chars_of, join_ids, joined, pieces, split, tokens, Separator};

verus! {

/// The earliest creation time, `u64::MAX` where there is none.
pub open spec fn earliest(sessions: Seq<SessionView>) -> u64
    decreases sessions.len(),
{
    if sessions.len() == 0 {
        u64::MAX
    } else {
        let front = earliest(sessions.drop_last());
        match sessions.last().created_at {
            Some(t) if t < front => t,
            _ => front,
        }
    }
}

/// The latest creation time, zero where there is none.
pub open spec fn latest(sessions: Seq<SessionView>) -> u64
    decreases sessions.len(),
{
    if sessions.len() == 0 {
        0
    } else {
        let front = latest(sessions.drop_last());
        match sessions.last().created_at {
            Some(t) if t > front => t,
            _ => front,
        }
    }
}

/// Some session does not say when it was created.
pub open spec fn has_undated(sessions: Seq<SessionView>) -> bool {
    exists|i: int| 0 <= i < sessions.len() && (#[trigger] sessions[i]).created_at is None
}

/// The time range of a block of sessions.
pub open spec fn block_range(sessions: Seq<SessionView>) -> (u64, u64) {
    if has_undated(sessions) {
        (0, u64::MAX)
    } else if sessions.len() == 0 {
        (0, 0)
    } else {
        (earliest(sessions), latest(sessions))
    }
}

/// The time range in a stored record's index entry: a single session counts
/// as created at any time if it does not say when.
pub open spec fn time_range(v: StoredView) -> (u64, u64) {
    match v {
        StoredView::V1(s) => match s.created_at {
            Some(t) => (t, t),
            None => (0, u64::MAX),
        },
        StoredView::Block(s) => block_range(s),
        StoredView::V2(s) => block_range(s),
    }
}

/// The ids of sessions, in order.
pub open spec fn ids_of(sessions: Seq<SessionView>) -> Seq<Seq<char>> {
    sessions.map_values(|s: SessionView| s.id)
}

/// The text of all messages of all sessions.
pub open spec fn block_text(sessions: Seq<SessionView>) -> Seq<char>
    decreases sessions.len(),
{
    if sessions.len() == 0 {
        Seq::empty()
    } else {
        block_text(sessions.drop_last()) + text_of(sessions.last().messages)
    }
}

/// The number of messages in all sessions.
pub open spec fn message_total(sessions: Seq<SessionView>) -> nat
    decreases sessions.len(),
{
    if sessions.len() == 0 {
        0
    } else {
        message_total(sessions.drop_last()) + sessions.last().messages.len()
    }
}

/// How many values a 32-bit counter has: index entries keep sizes and counts
/// modulo this.
pub const COUNTER_RANGE: u64 = 0x1_0000_0000;

/// `entry` is an index entry for the record `v`, whose block of
/// `compressed` bytes starts at `offset` and holds `raw` bytes.
pub open spec fn describes(
    entry: IndexView,
    v: StoredView,
    offset: int,
    compressed: int,
    raw: int,
) -> bool {
    &&& entry.session_id == joined(ids_of(v.sessions()))
    &&& entry.data_offset == offset
    &&& entry.compressed_size == compressed
    &&& entry.uncompressed_size == raw % COUNTER_RANGE as int
    &&& entry.message_count == message_total(v.sessions()) as int % COUNTER_RANGE as int
    &&& (entry.min_time, entry.max_time) == time_range(v)
    &&& is_usable(entry.filter)
    &&& entry.accepts(entry.session_id)
    &&& forall|i: int|
        0 <= i < tokens(block_text(v.sessions())).len() ==> entry.accepts(
            #[trigger] tokens(block_text(v.sessions()))[i],
        )
}

/// Computes the (min_time, max_time) range for a block of sessions.
///
/// Rule: if any session in the block has no `created_at`, we cannot safely
/// exclude the block from time-filtered queries, so we widen the range to
/// `[0, u64::MAX]`.
pub fn compute_block_time_range(sessions: &Vec<ChatSessionV1>) -> (r: (u64, u64))
    ensures
        r == block_range(sessions.deep_view()),
{
    let ghost all = sessions.deep_view();
    let mut min_time: u64 = u64::MAX;
    let mut max_time: u64 = 0;
    let mut has_missing = false;
    let mut i: usize = 0;
    while i < sessions.len()
        invariant
            i <= sessions@.len(),
            all == sessions.deep_view(),
            min_time == earliest(all.take(i as int)),
            max_time == latest(all.take(i as int)),
            has_missing == exists|k: int| 0 <= k < i && (#[trigger] all[k]).created_at is None,
        decreases sessions@.len() - i,
    {
        proof {
            let t = all.take(i + 1);
            assert(t.drop_last() =~= all.take(i as int));
            assert(t.last() == all[i as int]);
            assert(all[i as int] == sessions@[i as int].deep_view());
        }
        match sessions[i].created_at {
            Some(ts) => {
                if ts < min_time {
                    min_time = ts;
                }
                if ts > max_time {
                    max_time = ts;
                }
            },
            None => {
                has_missing = true;
            },
        }
        i += 1;
    }
    assert(all.take(i as int) =~= all);
    if has_missing {
        (0, u64::MAX)
    } else if sessions.len() == 0 {
        (0, 0)
    } else {
        (min_time, max_time)
    }
}

/// The number of ids in a joined list.
pub open spec fn id_count(list: Seq<char>) -> nat {
    if list.len() == 0 {
        0
    } else {
        pieces(list, Separator::Comma).len()
    }
}

/// Number of session IDs encoded in a BlockIndex.session_id field.
/// Block indexes join IDs with ",", a single-session V1 entry has no separator.
pub fn count_sessions_in_index_id(list: &str) -> (r: u64)
    ensures
        r == id_count(list@),
{
    let chars = chars_of(list);
    if chars.len() == 0 {
        0
    } else {
        let parts = split(chars.as_slice(), Separator::Comma);
        parts.len() as u64
    }
}

/// Whether an id stands in a joined list.
pub fn lists_id(list: &str, id: &str) -> (r: bool)
    ensures
        r == pieces(list@, Separator::Comma).contains(id@),
{
    let chars = chars_of(list);
    let wanted = chars_of(id);
    let parts = split(chars.as_slice(), Separator::Comma);
    let ghost all = parts.deep_view();
    let mut i: usize = 0;
    while i < parts.len()
        invariant
            i <= parts@.len(),
            all == parts.deep_view(),
            all == pieces(list@, Separator::Comma),
            wanted@ == id@,
            forall|k: int| 0 <= k < i ==> #[trigger] all[k] != id@,
        decreases parts@.len() - i,
    {
        assert(all[i as int] == parts@[i as int].deep_view());
        assert(parts@[i as int].deep_view() =~= parts@[i as int]@);
        if same_chars(&parts[i], &wanted) {
            assert(all[i as int] == id@);
            return true;
        }
        i += 1;
    }
    false
}

fn same_chars(a: &Vec<char>, b: &Vec<char>) -> (r: bool)
    ensures
        r == (a@ == b@),
{
    if a.len() != b.len() {
        return false;
    }
    let mut i: usize = 0;
    while i < a.len()
        invariant
            i <= a@.len() == b@.len(),
            forall|k: int| 0 <= k < i ==> a@[k] == b@[k],
        decreases a@.len() - i,
    {
        if a[i] != b[i] {
            return false;
        }
        i += 1;
    }
    assert(a@ =~= b@);
    true
}

/// What the index says of a list of sessions: the joined ids, the text and
/// the number of messages.
fn summary(sessions: &Vec<ChatSessionV1>) -> (r: (String, String, u32))
    ensures
        r.0@ == joined(ids_of(sessions.deep_view())),
        r.1@ == block_text(sessions.deep_view()),
        r.2 == message_total(sessions.deep_view()) as int % COUNTER_RANGE as int,
{
    let ghost all = sessions.deep_view();
    let mut ids: Vec<String> = Vec::new();
    let mut text = String::new();
    let mut count: u32 = 0;
    let mut i: usize = 0;
    assert(all.take(0) =~= Seq::<SessionView>::empty());
    while i < sessions.len()
        invariant
            i <= sessions@.len(),
            all == sessions.deep_view(),
            ids@.len() == i,
            forall|k: int| 0 <= k < i ==> (#[trigger] ids@[k])@ == all[k].id,
            text@ == block_text(all.take(i as int)),
            count == message_total(all.take(i as int)) as int % COUNTER_RANGE as int,
        decreases sessions@.len() - i,
    {
        let s = &sessions[i];
        proof {
            let t = all.take(i + 1);
            assert(t.drop_last() =~= all.take(i as int));
            assert(t.last() == all[i as int]);
            assert(all[i as int] == s.deep_view());
        }
        ids.push(s.id.clone());
        let full = s.extract_full_text();
        text.append(full.as_str());
        let more: u64 = s.messages.len() as u64 % COUNTER_RANGE;
        count = ((count as u64 + more) % COUNTER_RANGE) as u32;
        i += 1;
    }
    assert(all.take(i as int) =~= all);
    assert(ids.deep_view() =~= ids_of(all));
    (join_ids(&ids), text, count)
}

fn index_of(
    sessions: &Vec<ChatSessionV1>,
    range: (u64, u64),
    data_offset: u64,
    compressed_size: u32,
    raw_len: usize,
) -> (r: BlockIndex)
    ensures
        r.session_id@ == joined(ids_of(sessions.deep_view())),
        r.data_offset == data_offset,
        r.compressed_size == compressed_size,
        r.uncompressed_size == raw_len as int % COUNTER_RANGE as int,
        r.message_count == message_total(sessions.deep_view()) as int % COUNTER_RANGE as int,
        (r.min_time, r.max_time) == range,
        is_usable(r.deep_view().filter),
        r.deep_view().accepts(r.session_id@),
        forall|i: int|
            0 <= i < tokens(block_text(sessions.deep_view())).len()
                ==> r.deep_view().accepts(
                #[trigger] tokens(block_text(sessions.deep_view()))[i],
            ),
{
    let (ids, text, message_count) = summary(sessions);
    let content = text.as_str();
    let params = BlockIndexParams {
        content,
        min_time: range.0,
        max_time: range.1,
        data_offset,
        compressed_size,
        uncompressed_size: (raw_len as u64 % COUNTER_RANGE) as u32,
        message_count,
    };
    let r = BlockIndex::new(ids, params);
    proof {
        let words = tokens(block_text(sessions.deep_view()));
        assert(content@ == block_text(sessions.deep_view()));
        assert(words == tokens(params.content@));
        assert forall|i: int| 0 <= i < words.len() implies r.deep_view().accepts(
            #[trigger] words[i],
        ) by {
            assert(words[i] == tokens(params.content@)[i]);
        }
    }
    r
}

/// The index entry of a stored record.
pub fn build_index(
    stored: &StoredSession,
    data_offset: u64,
    compressed_size: u32,
    raw_len: usize,
) -> (r: BlockIndex)
    ensures
        describes(
            r.deep_view(),
            stored.deep_view(),
            data_offset as int,
            compressed_size as int,
            raw_len as int,
        ),
{
    match stored {
        StoredSession::V1(session) => {
            let mut one: Vec<ChatSessionV1> = Vec::new();
            one.push(session.clone());
            assert(one.deep_view() =~= stored.deep_view().sessions());
            let range = match session.created_at {
                Some(t) => (t, t),
                None => (0, u64::MAX),
            };
            index_of(&one, range, data_offset, compressed_size, raw_len)
        },
        StoredSession::Block(sessions) => {
            let range = compute_block_time_range(sessions);
            index_of(sessions, range, data_offset, compressed_size, raw_len)
        },
        StoredSession::V2(block) => {
            let range = compute_block_time_range(&block.sessions);
            index_of(&block.sessions, range, data_offset, compressed_size, raw_len)
        },
    }
}

} // verus!
