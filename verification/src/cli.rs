//! What the command line tool decides and says.
use vstd::prelude::*;
use crate::laws::display::{law_stats_text_tells_the_counts, tells};
use crate::schema::{ChatSessionV1, MessageRole, MessageV1, MessageView, SessionView};
use crate::storage::types::{Counts, DbStats};
use crate::text::{
    chars_of, decimal, format_number, is_white, is_whitespace, parse_number, parsed_number,
    string_of,
};
use vstd::utf8::{encode_utf8, is_char_boundary};

verus! {

/// The form in which dates are given.
pub const DATE_FORMAT: &'static str = "%Y-%m-%d";

/// The form in which moments are shown.
pub const MOMENT_FORMAT: &'static str = "%Y-%m-%d %H:%M:%S UTC";

/// Bytes of a preview.
pub const PREVIEW_BYTES: usize = 60;

/// Why the arguments of a command were refused.
#[derive(Clone, Copy, Debug, PartialEq, Eq, Structural)]
pub enum CliError {
    InvalidDate,
    ZeroChunk,
    ChunkTooLarge,
}

impl CliError {
    /// The error in words.
    pub open spec fn text(self) -> Seq<char> {
        match self {
            CliError::InvalidDate => "Invalid date format. Use YYYY-MM-DD or Unix timestamp"@,
            CliError::ZeroChunk => "chunk_kb must be greater than 0"@,
            CliError::ChunkTooLarge => "chunk_kb is too large"@,
        }
    }

    /// The error in words.
    pub fn message(&self) -> (r: String)
        ensures
            r@ == self.text(),
    {
        match self {
            CliError::InvalidDate =>
                "Invalid date format. Use YYYY-MM-DD or Unix timestamp".to_owned(),
            CliError::ZeroChunk => "chunk_kb must be greater than 0".to_owned(),
            CliError::ChunkTooLarge => "chunk_kb is too large".to_owned(),
        }
    }
}

/// The Unix time of the midnight at which the date in a text begins in UTC,
/// as `chrono::NaiveDate::parse_from_str` reads the text by the format.
pub uninterp spec fn midnight(text: Seq<char>, format: Seq<char>) -> Option<i64>;

/// `chrono::NaiveDate::parse_from_str`, taken to midnight in UTC by
/// `and_hms_opt` and `and_utc`: text and format alone determine the outcome.
#[verifier::external_body]
fn parse_midnight(text: &str, format: &str) -> (r: Option<i64>)
    ensures
        r == midnight(text@, format@),
{
    let date = chrono::NaiveDate::parse_from_str(text, format).ok()?;
    Some(date.and_hms_opt(0, 0, 0)?.and_utc().timestamp())
}

/// The seconds that an input means: a number of them, or else those of the
/// date that it is.
pub open spec fn time_meant(input: Seq<char>, date: Option<i64>) -> Result<u64, CliError> {
    match parsed_number(input, u64::MAX as nat) {
        Some(n) => Ok(n as u64),
        None => match date {
            Some(t) => Ok(t as u64),
            None => Err(CliError::InvalidDate),
        },
    }
}

/// The time that an argument gives, where it is a number of seconds or else
/// the date of the given midnight.
pub fn time_of(input: &str, date: Option<i64>) -> (r: Result<u64, CliError>)
    ensures
        r == time_meant(input@, date),
        r == match parsed_number(input@, u64::MAX as nat) {
            Some(n) => Ok::<u64, CliError>(n as u64),
            None => match date {
                Some(t) => Ok::<u64, CliError>(t as u64),
                None => Err::<u64, CliError>(CliError::InvalidDate),
            },
        },
{
    let chars = chars_of(input);
    match parse_number(chars.as_slice(), u64::MAX) {
        Some(n) => Ok(n),
        None => match date {
            Some(t) => Ok(
                #[verifier::truncate]
                (t as u64),
            ),
            None => Err(CliError::InvalidDate),
        },
    }
}

/// Parse date string (YYYY-MM-DD) or Unix timestamp
pub fn parse_date_or_timestamp(input: &str) -> (r: Result<u64, CliError>)
    ensures
        r == time_meant(input@, midnight(input@, "%Y-%m-%d"@)),
        r == match parsed_number(input@, u64::MAX as nat) {
            Some(n) => Ok::<u64, CliError>(n as u64),
            None => match midnight(input@, DATE_FORMAT@) {
                Some(t) => Ok::<u64, CliError>(t as u64),
                None => Err::<u64, CliError>(CliError::InvalidDate),
            },
        },
{
    let date = parse_midnight(input, DATE_FORMAT);
    time_of(input, date)
}

/// Whether a line holds white space only.
pub open spec fn all_white(s: Seq<char>) -> bool {
    forall|i: int| 0 <= i < s.len() ==> is_white(#[trigger] s[i])
}

/// Whether a line of input is to be skipped: it holds white space only.
pub fn is_blank(line: &str) -> (r: bool)
    ensures
        r == all_white(line@),
{
    let chars = chars_of(line);
    let mut i: usize = 0;
    while i < chars.len()
        invariant
            i <= chars@.len(),
            chars@ == line@,
            forall|k: int| 0 <= k < i ==> is_white(#[trigger] line@[k]),
        decreases chars@.len() - i,
    {
        if !is_whitespace(chars[i]) {
            assert(!is_white(line@[i as int]));
            return false;
        }
        i += 1;
    }
    true
}

/// Whether an answer is yes: a single `y`, in either case, with white space
/// round it or not.
pub open spec fn says_yes(s: Seq<char>) -> bool {
    exists|i: int|
        {
            &&& 0 <= i < s.len()
            &&& (#[trigger] s[i] == 'y' || s[i] == 'Y')
            &&& all_white(s.take(i))
            &&& all_white(s.skip(i + 1))
        }
}

/// Whether an answer to `Continue? (y/N)` is yes.
pub fn is_yes(answer: &str) -> (r: bool)
    ensures
        r == says_yes(answer@),
{
    let chars = chars_of(answer);
    let ghost s = answer@;
    let mut start: usize = 0;
    while start < chars.len() && is_whitespace(chars[start])
        invariant
            start <= chars@.len(),
            chars@ == s,
            forall|k: int| 0 <= k < start ==> is_white(#[trigger] s[k]),
        decreases chars@.len() - start,
    {
        start += 1;
    }
    if start == chars.len() || (chars[start] != 'y' && chars[start] != 'Y') {
        proof {
            if says_yes(s) {
                let i = choose|i: int|
                    {
                        &&& 0 <= i < s.len()
                        &&& (#[trigger] s[i] == 'y' || s[i] == 'Y')
                        &&& all_white(s.take(i))
                        &&& all_white(s.skip(i + 1))
                    };
                if i > start {
                    assert(is_white(s.take(i)[start as int]));
                }
            }
        }
        return false;
    }
    let mut i: usize = start + 1;
    while i < chars.len()
        invariant
            start < i <= chars@.len(),
            chars@ == s,
            s == answer@,
            forall|k: int| 0 <= k < start ==> is_white(#[trigger] s[k]),
            s[start as int] == 'y' || s[start as int] == 'Y',
            forall|k: int| start < k < i ==> is_white(#[trigger] s[k]),
        decreases chars@.len() - i,
    {
        if !is_whitespace(chars[i]) {
            proof {
                if says_yes(s) {
                    let j = choose|j: int|
                        {
                            &&& 0 <= j < s.len()
                            &&& (#[trigger] s[j] == 'y' || s[j] == 'Y')
                            &&& all_white(s.take(j))
                            &&& all_white(s.skip(j + 1))
                        };
                    if j < start {
                        assert(is_white(s[j]));
                    } else if j == start {
                        assert(is_white(s.skip(j + 1)[i - (j + 1)]));
                    } else {
                        assert(is_white(s.take(j)[start as int]));
                    }
                }
            }
            return false;
        }
        i += 1;
    }
    proof {
        let k = start as int;
        assert(s[k] == 'y' || s[k] == 'Y');
        assert forall|j: int| 0 <= j < s.take(k).len() implies is_white(#[trigger] s.take(k)[j]) by {
            assert(s.take(k)[j] == s[j]);
        }
        assert forall|j: int| 0 <= j < s.skip(k + 1).len() implies is_white(
            #[trigger] s.skip(k + 1)[j],
        ) by {
            assert(s.skip(k + 1)[j] == s[k + 1 + j]);
        }
    }
    true
}

/// So many kilobytes in bytes.
pub open spec fn kilobytes(n: nat) -> nat {
    n * 1024
}

/// The block size that is asked for, in bytes.
pub fn target_bytes(chunk_kb: usize) -> (r: Result<usize, CliError>)
    ensures
        r is Ok <==> 0 < chunk_kb && kilobytes(chunk_kb as nat) <= usize::MAX,
        r is Ok ==> r->Ok_0 == kilobytes(chunk_kb as nat),
        match r {
            Ok(n) => chunk_kb > 0 && n == chunk_kb * 1024,
            Err(CliError::ZeroChunk) => chunk_kb == 0,
            Err(CliError::ChunkTooLarge) => chunk_kb * 1024 > usize::MAX,
            Err(_) => false,
        },
{
    if chunk_kb == 0 {
        return Err(CliError::ZeroChunk);
    }
    if chunk_kb > usize::MAX / 1024 {
        return Err(CliError::ChunkTooLarge);
    }
    Ok(chunk_kb * 1024)
}

/// The part of `len` sessions that is shown: the first or the last `count`.
pub open spec fn shown_range(len: nat, count: nat, first: bool) -> (nat, nat) {
    if first {
        (
            0,
            if len <= count {
                len
            } else {
                count
            },
        )
    } else {
        (
            if len <= count {
                0
            } else {
                (len - count) as nat
            },
            len,
        )
    }
}

/// Which sessions are shown: the first or the last `count` of them.
pub fn display_range(len: usize, count: usize, first: bool) -> (r: (usize, usize))
    ensures
        (r.0 as nat, r.1 as nat) == shown_range(len as nat, count as nat, first),
        r.1 - r.0 == if len < count {
            len
        } else {
            count
        },
        first ==> r.0 == 0,
        !first ==> r.1 == len,
        r.0 <= r.1 <= len,
{
    if first {
        (
            0,
            if len <= count {
                len
            } else {
                count
            },
        )
    } else {
        (len.saturating_sub(count), len)
    }
}

/// The title of a session, or a word for none.
pub open spec fn title_or_untitled(s: SessionView) -> Seq<char> {
    match s.title {
        Some(t) => t,
        None => "Untitled"@,
    }
}

/// One line for a session: its id and its title.
pub open spec fn headline(s: SessionView) -> Seq<char> {
    "["@ + s.id + "] "@ + title_or_untitled(s)
}

fn title_of(s: &ChatSessionV1) -> (r: String)
    ensures
        r@ == title_or_untitled(s.deep_view()),
{
    match &s.title {
        Some(t) => t.clone(),
        None => "Untitled".to_owned(),
    }
}

/// One line for a session: its id and its title.
pub fn session_headline(s: &ChatSessionV1) -> (r: String)
    ensures
        r@ == headline(s.deep_view()),
{
    let mut out = String::new();
    out.append("[");
    out.append(s.id.as_str());
    out.append("] ");
    let title = title_of(s);
    out.append(title.as_str());
    assert(out@ =~= headline(s.deep_view()));
    out
}

/// A text can be previewed: it is short, or a character ends where the
/// preview does.
pub open spec fn previewable(content: Seq<char>) -> bool {
    encode_utf8(content).len() <= PREVIEW_BYTES || is_char_boundary(
        encode_utf8(content),
        PREVIEW_BYTES as int,
    )
}

/// `p` is the preview of a text: the text itself, or its first 60 bytes and
/// three dots.
pub open spec fn is_preview(p: Seq<char>, content: Seq<char>) -> bool {
    if encode_utf8(content).len() <= PREVIEW_BYTES {
        p == content
    } else {
        exists|head: Seq<char>|
            {
                &&& #[trigger] encode_utf8(head) == encode_utf8(content).take(
                    PREVIEW_BYTES as int,
                )
                &&& p == head + "..."@
            }
    }
}

/// Whether a text can be previewed.
pub fn can_preview(content: &str) -> (r: bool)
    ensures
        r == previewable(content@),
{
    content.as_bytes().len() <= PREVIEW_BYTES || content.is_char_boundary(PREVIEW_BYTES)
}

/// The preview of a text.
pub fn preview(content: &str) -> (r: String)
    requires
        previewable(content@),
    ensures
        is_preview(r@, content@),
{
    if content.as_bytes().len() <= PREVIEW_BYTES {
        content.to_owned()
    } else {
        let (head, _) = content.split_at(PREVIEW_BYTES);
        let mut out = head.to_owned();
        out.append("...");
        assert(encode_utf8(head@) =~= encode_utf8(content@).take(PREVIEW_BYTES as int));
        assert(out@ =~= head@ + "..."@);
        out
    }
}

/// `text` lists a session: its headline, the number of its messages, a
/// preview of the first one, and an empty line.
pub open spec fn is_listing(text: Seq<char>, s: SessionView) -> bool {
    let head = headline(s) + "\n  Messages: "@ + decimal(s.messages.len()) + "\n"@;
    if s.messages.len() == 0 {
        text == head + "\n"@
    } else {
        exists|p: Seq<char>|
            #[trigger] is_preview(p, s.messages[0].content) && text == head + "  Preview: "@ + p
                + "\n\n"@
    }
}

/// The listing of a session.
pub fn session_listing(s: &ChatSessionV1) -> (r: String)
    requires
        s.messages@.len() > 0 ==> previewable(s.messages@[0].content@),
    ensures
        is_listing(r@, s.deep_view()),
{
    let ghost v = s.deep_view();
    assert(v.messages.len() == s.messages@.len());
    let mut out = session_headline(s);
    out.append("\n  Messages: ");
    let count = string_of(format_number(s.messages.len() as u64).as_slice());
    out.append(count.as_str());
    out.append("\n");
    let ghost head = headline(v) + "\n  Messages: "@ + decimal(v.messages.len()) + "\n"@;
    assert(out@ =~= head);
    if s.messages.len() > 0 {
        assert(v.messages[0].content == s.messages@[0].content@);
        let p = preview(s.messages[0].content.as_str());
        out.append("  Preview: ");
        out.append(p.as_str());
        out.append("\n\n");
        assert(is_preview(p@, v.messages[0].content));
        assert(out@ =~= head + "  Preview: "@ + p@ + "\n\n"@);
    } else {
        out.append("\n");
        assert(out@ =~= head + "\n"@);
    }
    out
}

/// The line above the listings.
pub open spec fn display_heading_text(shown: nat, len: nat, first: bool) -> Seq<char> {
    "Showing "@ + (if first {
        "first"@
    } else {
        "last"@
    }) + " "@ + decimal(shown) + " of "@ + decimal(len) + " sessions:\n"@
}

/// The line above the listings.
pub fn display_heading(shown: usize, len: usize, first: bool) -> (r: String)
    ensures
        r@ == display_heading_text(shown as nat, len as nat, first),
{
    let mut out = String::new();
    out.append("Showing ");
    if first {
        out.append("first");
    } else {
        out.append("last");
    }
    out.append(" ");
    let a = string_of(format_number(shown as u64).as_slice());
    out.append(a.as_str());
    out.append(" of ");
    let b = string_of(format_number(len as u64).as_slice());
    out.append(b.as_str());
    out.append(" sessions:\n");
    assert(out@ =~= display_heading_text(shown as nat, len as nat, first));
    out
}

/// A moment, written in the given form by `chrono`; none where the calendar
/// does not reach that far.
pub uninterp spec fn moment_text(seconds: i64, format: Seq<char>) -> Option<Seq<char>>;

/// `chrono::DateTime::from_timestamp` and `format`: the seconds and the form
/// alone determine the text.
#[verifier::external_body]
fn format_moment(seconds: i64, format: &str) -> (r: Option<String>)
    requires
        format@ == "%Y-%m-%d %H:%M:%S UTC"@,
    ensures
        r.deep_view() == moment_text(seconds, format@),
{
    let moment = chrono::DateTime::from_timestamp(seconds, 0)?;
    Some(moment.format(format).to_string())
}

/// A moment as `chrono` prints it by itself; none where the calendar does not
/// reach that far.
pub uninterp spec fn moment_plain(seconds: i64) -> Option<Seq<char>>;

/// `chrono::DateTime::from_timestamp` and `to_string`: the seconds alone
/// determine the text.
#[verifier::external_body]
fn print_moment(seconds: i64) -> (r: Option<String>)
    ensures
        r.deep_view() == moment_plain(seconds),
{
    let moment = chrono::DateTime::from_timestamp(seconds, 0)?;
    Some(moment.to_string())
}

/// The word for a role.
pub open spec fn role_word(role: MessageRole) -> Seq<char> {
    match role {
        MessageRole::User => "User"@,
        MessageRole::System => "System"@,
        MessageRole::Model => "Model"@,
        MessageRole::Thought => "Thought"@,
        MessageRole::Tool => "Tool"@,
    }
}

fn word_for(role: MessageRole) -> (r: String)
    ensures
        r@ == role_word(role),
{
    match role {
        MessageRole::User => "User".to_owned(),
        MessageRole::System => "System".to_owned(),
        MessageRole::Model => "Model".to_owned(),
        MessageRole::Thought => "Thought".to_owned(),
        MessageRole::Tool => "Tool".to_owned(),
    }
}

/// A line with a label, where there is something to say.
pub open spec fn labelled(label: Seq<char>, value: Option<Seq<char>>) -> Seq<char> {
    match value {
        Some(v) => label + v + "\n"@,
        None => Seq::empty(),
    }
}

/// The line that says when a session was created.
pub open spec fn created_line(created: Option<u64>, moment: Option<Seq<char>>) -> Seq<char> {
    match created {
        None => Seq::empty(),
        Some(t) => match moment {
            Some(m) => "Created: "@ + decimal(t as nat) + " ("@ + m + ")\n"@,
            None => "Created: "@ + decimal(t as nat) + "\n"@,
        },
    }
}

/// The messages in full, numbered from one.
pub open spec fn messages_text(messages: Seq<MessageView>) -> Seq<char>
    decreases messages.len(),
{
    if messages.len() == 0 {
        Seq::empty()
    } else {
        messages_text(messages.drop_last()) + "--- Message "@ + decimal(messages.len()) + " ("@
            + role_word(messages.last().role) + ") ---\n"@ + messages.last().content + "\n\n"@
    }
}

/// A session in full; `moment` is the time of its creation in words.
pub open spec fn details(s: SessionView, moment: Option<Seq<char>>) -> Seq<char> {
    "Session: "@ + s.id + "\nTitle: "@ + title_or_untitled(s) + "\n"@ + labelled(
        "Source: "@,
        s.source,
    ) + labelled("Model: "@, s.model) + created_line(s.created_at, moment) + "\nMessages ("@
        + decimal(s.messages.len()) + "):\n\n"@ + messages_text(s.messages)
}

fn put_labelled(out: &mut String, label: &str, value: &Option<String>)
    ensures
        final(out)@ == old(out)@ + labelled(label@, value.deep_view()),
{
    let ghost before = out@;
    match value {
        Some(v) => {
            out.append(label);
            out.append(v.as_str());
            out.append("\n");
            assert(out@ =~= before + labelled(label@, value.deep_view()));
        },
        None => {
            assert(out@ =~= before + labelled(label@, value.deep_view()));
        },
    }
}

fn put_number(out: &mut String, n: u64)
    ensures
        final(out)@ == old(out)@ + decimal(n as nat),
{
    let digits = string_of(format_number(n).as_slice());
    out.append(digits.as_str());
}

fn put_created(out: &mut String, created: Option<u64>, moment: &Option<String>)
    ensures
        final(out)@ == old(out)@ + created_line(created, moment.deep_view()),
{
    let ghost before = out@;
    match created {
        None => {},
        Some(t) => {
            out.append("Created: ");
            put_number(out, t);
            match moment {
                Some(m) => {
                    out.append(" (");
                    out.append(m.as_str());
                    out.append(")\n");
                },
                None => {
                    out.append("\n");
                },
            }
        },
    }
    assert(out@ =~= before + created_line(created, moment.deep_view()));
}

fn put_messages(out: &mut String, messages: &Vec<MessageV1>)
    ensures
        final(out)@ == old(out)@ + messages_text(messages.deep_view()),
{
    let ghost before = out@;
    let ghost all = messages.deep_view();
    let mut i: usize = 0;
    assert(all.take(0) =~= Seq::<MessageView>::empty());
    assert(out@ =~= before + messages_text(all.take(0)));
    while i < messages.len()
        invariant
            i <= messages@.len(),
            all == messages.deep_view(),
            out@ == before + messages_text(all.take(i as int)),
        decreases messages@.len() - i,
    {
        let ghost so_far = out@;
        let ghost t = all.take(i + 1);
        proof {
            assert(t.drop_last() =~= all.take(i as int));
            assert(t.last() == messages@[i as int].deep_view());
        }
        out.append("--- Message ");
        put_number(out, i as u64 + 1);
        out.append(" (");
        let word = word_for(messages[i].role);
        out.append(word.as_str());
        out.append(") ---\n");
        out.append(messages[i].content.as_str());
        out.append("\n\n");
        assert(out@ =~= before + messages_text(t));
        i += 1;
    }
    assert(all.take(i as int) =~= all);
}

/// A session in full, with the time of its creation in words.
pub fn describe_session(s: &ChatSessionV1, moment: &Option<String>) -> (r: String)
    ensures
        r@ == details(s.deep_view(), moment.deep_view()),
{
    let ghost v = s.deep_view();
    assert(v.messages.len() == s.messages@.len());
    let mut out = String::new();
    out.append("Session: ");
    out.append(s.id.as_str());
    out.append("\nTitle: ");
    let title = title_of(s);
    out.append(title.as_str());
    out.append("\n");
    put_labelled(&mut out, "Source: ", &s.source);
    put_labelled(&mut out, "Model: ", &s.model);
    put_created(&mut out, s.created_at, moment);
    out.append("\nMessages (");
    put_number(&mut out, s.messages.len() as u64);
    out.append("):\n\n");
    put_messages(&mut out, &s.messages);
    assert(out@ =~= details(v, moment.deep_view()));
    out
}

/// The time of a session's creation in words.
pub open spec fn creation_moment(created: Option<u64>) -> Option<Seq<char>> {
    match created {
        Some(t) => moment_text(t as i64, MOMENT_FORMAT@),
        None => None,
    }
}

/// A session in full.
pub fn show_session(s: &ChatSessionV1) -> (r: String)
    ensures
        r@ == details(s.deep_view(), creation_moment(s.deep_view().created_at)),
{
    let moment = match s.created_at {
        Some(t) => format_moment(
            #[verifier::truncate]
            (t as i64),
            MOMENT_FORMAT,
        ),
        None => None,
    };
    describe_session(s, &moment)
}

/// The first lines of the statistics.
pub open spec fn stats_lines(file_name: Seq<char>, c: Counts) -> Seq<char> {
    "Database Statistics\n===================\nActive File:      "@ + file_name
        + "\nTotal Sessions:   "@ + decimal(c.sessions) + "\nTotal Messages:   "@ + decimal(
        c.messages,
    ) + "\n"@
}

/// The first lines of the statistics.
pub fn stats_head(stats: &DbStats) -> (r: String)
    ensures
        r@ == stats_lines(stats.file_name@, stats.counts()),
        tells(r@, "Total Sessions:   "@, stats.session_count as nat),
        tells(r@, "Total Messages:   "@, stats.message_count as nat),
{
    proof {
        law_stats_text_tells_the_counts(stats.file_name@, stats.counts());
    }
    let mut out = String::new();
    out.append("Database Statistics\n===================\nActive File:      ");
    out.append(stats.file_name.as_str());
    out.append("\nTotal Sessions:   ");
    put_number(&mut out, stats.session_count);
    out.append("\nTotal Messages:   ");
    put_number(&mut out, stats.message_count);
    out.append("\n");
    assert(out@ =~= stats_lines(stats.file_name@, stats.counts()));
    out
}

/// A moment in words, or its number of seconds where there are none.
pub open spec fn moment_or_number(t: u64, moment: Option<Seq<char>>) -> Seq<char> {
    match moment {
        Some(m) => m,
        None => decimal(t as nat),
    }
}

/// The line with the time range: from the first moment to the last one.
pub open spec fn range_line(
    min: u64,
    first: Option<Seq<char>>,
    max: u64,
    last: Option<Seq<char>>,
) -> Seq<char> {
    "Time Range:       "@ + moment_or_number(min, first) + " to "@ + moment_or_number(max, last)
        + "\n"@
}

fn put_moment(out: &mut String, t: u64, moment: &Option<String>)
    ensures
        final(out)@ == old(out)@ + moment_or_number(t, moment.deep_view()),
{
    match moment {
        Some(m) => out.append(m.as_str()),
        None => put_number(out, t),
    }
}

/// The line with the time range, from moments in words.
pub fn describe_range(min: u64, first: &Option<String>, max: u64, last: &Option<String>) -> (r:
    String)
    ensures
        r@ == range_line(min, first.deep_view(), max, last.deep_view()),
{
    let mut out = String::new();
    out.append("Time Range:       ");
    put_moment(&mut out, min, first);
    out.append(" to ");
    put_moment(&mut out, max, last);
    out.append("\n");
    assert(out@ =~= range_line(min, first.deep_view(), max, last.deep_view()));
    out
}

/// The line for a counted time range, where there is one.
pub open spec fn range_told(min: u64, max: u64) -> Option<Seq<char>> {
    if min > 0 {
        Some(range_line(min, moment_plain(min as i64), max, moment_plain(max as i64)))
    } else {
        None
    }
}

/// The line with the time range of the statistics, if there is one to show.
pub fn stats_range(stats: &DbStats) -> (r: Option<String>)
    ensures
        r.deep_view() == range_told(stats.min_time, stats.max_time),
        r.deep_view() == if stats.min_time > 0 {
            Some(
                range_line(
                    stats.min_time,
                    moment_plain(stats.min_time as i64),
                    stats.max_time,
                    moment_plain(stats.max_time as i64),
                ),
            )
        } else {
            None
        },
{
    if stats.min_time == 0 {
        return None;
    }
    let first = print_moment(
        #[verifier::truncate]
        (stats.min_time as i64),
    );
    let last = print_moment(
        #[verifier::truncate]
        (stats.max_time as i64),
    );
    Some(describe_range(stats.min_time, &first, stats.max_time, &last))
}

/// What a command says when it is done.
#[derive(Debug)]
pub enum Notice {
    /// A session was put into the archive at a path.
    Saved(String),
    /// So many conversations of an export were.
    ImportedConversations(usize, String),
    /// So many sessions of a list were.
    ImportedSessions(usize, String),
    /// So many streamed sessions were archived.
    Archived(usize),
    /// So many pending sessions were archived.
    Flushed(usize),
    /// So many sessions were indexed.
    Reindexed(usize),
    /// So many sessions went into so many blocks of about so many kilobytes.
    Optimised(usize, usize, usize),
    /// A search found nothing.
    NoMatches,
    /// There is no session of this id.
    NotFound(String),
    /// The answer was no.
    Cancelled,
    /// An input is in none of the formats; this is what the last one said.
    Unparsed(String),
}

impl Notice {
    /// The notice in words.
    pub open spec fn words(self) -> Seq<char> {
        match self {
            Notice::Saved(path) => "Session saved to "@ + path@,
            Notice::ImportedConversations(n, path) => "Imported "@ + decimal(n as nat)
                + " ChatGPT conversations to "@ + path@,
            Notice::ImportedSessions(n, path) => "Imported "@ + decimal(n as nat)
                + " sessions to "@ + path@,
            Notice::Archived(n) => "Archived "@ + decimal(n as nat) + " sessions."@,
            Notice::Flushed(n) => "Flushed "@ + decimal(n as nat) + " sessions to database."@,
            Notice::Reindexed(n) => "✓ Reindexed "@ + decimal(n as nat) + " sessions"@,
            Notice::Optimised(sessions, blocks, kb) => "Optimised "@ + decimal(sessions as nat)
                + " sessions into "@ + decimal(blocks as nat) + " blocks (~"@ + decimal(kb as nat)
                + " KB target)."@,
            Notice::NoMatches => "No matches found."@,
            Notice::NotFound(id) => "Session not found: "@ + id@,
            Notice::Cancelled => "Cancelled."@,
            Notice::Unparsed(why) =>
                "Failed to parse input. Tried formats: Single Session, ChatGPT Export, Array of Sessions.\nLast error: "@
                + why@,
        }
    }

    /// The notice in words.
    pub fn text(&self) -> (r: String)
        ensures
            r@ == self.words(),
    {
        let mut out = String::new();
        match self {
            Notice::Saved(path) => {
                out.append("Session saved to ");
                out.append(path.as_str());
            },
            Notice::ImportedConversations(n, path) => {
                out.append("Imported ");
                put_number(&mut out, *n as u64);
                out.append(" ChatGPT conversations to ");
                out.append(path.as_str());
            },
            Notice::ImportedSessions(n, path) => {
                out.append("Imported ");
                put_number(&mut out, *n as u64);
                out.append(" sessions to ");
                out.append(path.as_str());
            },
            Notice::Archived(n) => {
                out.append("Archived ");
                put_number(&mut out, *n as u64);
                out.append(" sessions.");
            },
            Notice::Flushed(n) => {
                out.append("Flushed ");
                put_number(&mut out, *n as u64);
                out.append(" sessions to database.");
            },
            Notice::Reindexed(n) => {
                out.append("✓ Reindexed ");
                put_number(&mut out, *n as u64);
                out.append(" sessions");
            },
            Notice::Optimised(sessions, blocks, kb) => {
                out.append("Optimised ");
                put_number(&mut out, *sessions as u64);
                out.append(" sessions into ");
                put_number(&mut out, *blocks as u64);
                out.append(" blocks (~");
                put_number(&mut out, *kb as u64);
                out.append(" KB target).");
            },
            Notice::NoMatches => {
                out.append("No matches found.");
            },
            Notice::NotFound(id) => {
                out.append("Session not found: ");
                out.append(id.as_str());
            },
            Notice::Cancelled => {
                out.append("Cancelled.");
            },
            Notice::Unparsed(why) => {
                out.append(
                    "Failed to parse input. Tried formats: Single Session, ChatGPT Export, Array of Sessions.\nLast error: ",
                );
                out.append(why.as_str());
            },
        }
        assert(out@ =~= self.words());
        out
    }
}

} // verus!
