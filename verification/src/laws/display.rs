//! What is shown of sessions and counts, and what can be read from it again.
use vstd::prelude::*;
use vstd::utf8::encode_utf8;
use crate::cli::{
    all_white, created_line, details, display_heading_text, headline, is_listing, is_preview,
    labelled, messages_text, moment_or_number, range_line, role_word, says_yes, shown_range,
    stats_lines, title_or_untitled, Notice,
};
use crate::laws::notation::{law_decimal_notation, law_decimal_tells_numbers_apart};
use crate::schema::{MessageRole, MessageView, SessionView};
use crate::storage::types::Counts;
use crate::text::{all_digits, decimal, digits_value, is_white, lemma_decimal_reads_back};

verus! {

/// As many sessions are shown as were asked for, or all where there are
/// fewer: from the first one on, or up to the last one.
pub proof fn law_range_holds_what_was_asked_for(len: nat, count: nat, first: bool)
    ensures
        ({
            let (start, end) = shown_range(len, count, first);
            &&& end - start == if count < len {
                count
            } else {
                len
            }
            &&& start <= end <= len
            &&& first ==> start == 0
            &&& !first ==> end == len
        }),
        count >= len ==> shown_range(len, count, first) == (0nat, len),
{
}

/// The first ones and the last ones together are all sessions, each once,
/// where their numbers add up.
pub proof fn law_ranges_meet(len: nat, count: nat)
    requires
        count <= len,
    ensures
        shown_range(len, count, true).1 == shown_range(len, (len - count) as nat, false).0,
{
}

/// A text holds a line: it starts the text or stands behind a line break, and
/// a line break stands behind it.
pub open spec fn has_line(text: Seq<char>, line: Seq<char>) -> bool {
    exists|a: Seq<char>, b: Seq<char>|
        {
            &&& text == #[trigger] (a + line + b)
            &&& a.len() == 0 || a.last() == '\n'
            &&& b.len() > 0 && b[0] == '\n'
        }
}

/// A text holds a line that is made of a label and a number in digits.
pub open spec fn tells(text: Seq<char>, label: Seq<char>, n: nat) -> bool {
    exists|d: Seq<char>|
        {
            &&& all_digits(d)
            &&& d.len() > 0
            &&& digits_value(d) == n
            &&& #[trigger] has_line(text, label + d)
        }
}

proof fn lemma_line(text: Seq<char>, a: Seq<char>, line: Seq<char>, b: Seq<char>)
    requires
        text == a + line + b,
        a.len() == 0 || a.last() == '\n',
        b.len() > 0 && b[0] == '\n',
    ensures
        has_line(text, line),
{
}

proof fn lemma_tells(text: Seq<char>, a: Seq<char>, label: Seq<char>, n: nat, b: Seq<char>)
    requires
        text == a + label + decimal(n) + b,
        a.len() == 0 || a.last() == '\n',
        b.len() > 0 && b[0] == '\n',
    ensures
        tells(text, label, n),
{
    lemma_decimal_reads_back(n);
    assert(text =~= a + (label + decimal(n)) + b);
    lemma_line(text, a, label + decimal(n), b);
}

/// Digits end where no digit follows, so that texts which agree up to two
/// numbers agree in the numbers and in what follows.
proof fn lemma_numbers_agree(m: nat, x: Seq<char>, n: nat, y: Seq<char>)
    requires
        decimal(m) + x == decimal(n) + y,
        x.len() > 0 && !('0' <= x[0] <= '9'),
        y.len() > 0 && !('0' <= y[0] <= '9'),
    ensures
        m == n,
        x == y,
{
    law_decimal_notation(m);
    law_decimal_notation(n);
    let a = decimal(m);
    let b = decimal(n);
    let t = a + x;
    assert(t[a.len() as int] == x[0]);
    assert(t[b.len() as int] == y[0]) by {
        assert((b + y)[b.len() as int] == y[0]);
    }
    if a.len() < b.len() {
        assert((b + y)[a.len() as int] == b[a.len() as int]);
    } else if b.len() < a.len() {
        assert(t[b.len() as int] == a[b.len() as int]);
    }
    assert(a =~= t.take(a.len() as int));
    assert(b =~= t.take(a.len() as int)) by {
        assert((b + y).take(b.len() as int) =~= b);
    }
    assert(x =~= t.skip(a.len() as int));
    assert(y =~= t.skip(a.len() as int)) by {
        assert((b + y).skip(b.len() as int) =~= y);
    }
    law_decimal_tells_numbers_apart(m, n);
}

/// The text of the statistics names the active file, and has a line with the
/// number of sessions and a line with the number of messages, which ends it.
pub proof fn law_stats_text_tells_the_counts(file_name: Seq<char>, c: Counts)
    ensures
        has_line(stats_lines(file_name, c), "Active File:      "@ + file_name),
        tells(stats_lines(file_name, c), "Total Sessions:   "@, c.sessions),
        tells(stats_lines(file_name, c), "Total Messages:   "@, c.messages),
        ("\nTotal Messages:   "@ + decimal(c.messages) + "\n"@).is_suffix_of(
            stats_lines(file_name, c),
        ),
{
    let text = stats_lines(file_name, c);
    reveal_strlit("Database Statistics\n===================\nActive File:      ");
    reveal_strlit("\nTotal Sessions:   ");
    reveal_strlit("\nTotal Messages:   ");
    reveal_strlit("Active File:      ");
    reveal_strlit("Total Sessions:   ");
    reveal_strlit("Total Messages:   ");
    reveal_strlit("\n");
    let head = "Database Statistics\n===================\nActive File:      "@.take(40);
    let file = "Active File:      "@;
    let s = "\nTotal Sessions:   "@;
    let m = "\nTotal Messages:   "@;
    let ds = decimal(c.sessions);
    let dm = decimal(c.messages);
    assert(head.last() == '\n');
    assert("Database Statistics\n===================\nActive File:      "@ =~= head + file);
    assert(s =~= "\n"@ + "Total Sessions:   "@);
    assert(m =~= "\n"@ + "Total Messages:   "@);
    assert(text =~= head + (file + file_name) + (s + ds + m + dm + "\n"@));
    lemma_line(text, head, file + file_name, s + ds + m + dm + "\n"@);
    let before = head + file + file_name + "\n"@;
    assert(before.last() == '\n');
    assert(text =~= before + "Total Sessions:   "@ + ds + (m + dm + "\n"@));
    lemma_tells(text, before, "Total Sessions:   "@, c.sessions, m + dm + "\n"@);
    let later = head + file + file_name + s + ds + "\n"@;
    assert(later.last() == '\n');
    assert(text =~= later + "Total Messages:   "@ + dm + "\n"@);
    lemma_tells(text, later, "Total Messages:   "@, c.messages, "\n"@);
    let end = m + dm + "\n"@;
    assert(end =~= text.subrange(text.len() - end.len(), text.len() as int));
}

/// Statistics that differ in a count have different texts.
pub proof fn law_stats_texts_tell_counts_apart(file_name: Seq<char>, a: Counts, b: Counts)
    requires
        stats_lines(file_name, a) == stats_lines(file_name, b),
    ensures
        a.sessions == b.sessions,
        a.messages == b.messages,
{
    reveal_strlit("\nTotal Sessions:   ");
    reveal_strlit("\nTotal Messages:   ");
    reveal_strlit("\n");
    let head = "Database Statistics\n===================\nActive File:      "@ + file_name
        + "\nTotal Sessions:   "@;
    let m = "\nTotal Messages:   "@;
    let x = m + decimal(a.messages) + "\n"@;
    let y = m + decimal(b.messages) + "\n"@;
    let text = stats_lines(file_name, a);
    assert(text =~= head + (decimal(a.sessions) + x));
    assert(stats_lines(file_name, b) =~= head + (decimal(b.sessions) + y));
    assert(decimal(a.sessions) + x =~= text.skip(head.len() as int));
    assert(decimal(b.sessions) + y =~= text.skip(head.len() as int));
    lemma_numbers_agree(a.sessions, x, b.sessions, y);
    assert(x =~= m + (decimal(a.messages) + "\n"@));
    assert(y =~= m + (decimal(b.messages) + "\n"@));
    assert(decimal(a.messages) + "\n"@ =~= x.skip(m.len() as int));
    assert(decimal(b.messages) + "\n"@ =~= x.skip(m.len() as int));
    lemma_numbers_agree(a.messages, "\n"@, b.messages, "\n"@);
}

proof fn lemma_heading(shown: nat, len: nat, first: bool)
    ensures
        display_heading_text(shown, len, first) == (if first {
            "Showing first "@
        } else {
            "Showing last "@
        }) + (decimal(shown) + (" of "@ + (decimal(len) + " sessions:\n"@))),
{
    reveal_strlit("Showing ");
    reveal_strlit("first");
    reveal_strlit("last");
    reveal_strlit(" ");
    reveal_strlit("Showing first ");
    reveal_strlit("Showing last ");
    assert("Showing "@ + "first"@ + " "@ =~= "Showing first "@);
    assert("Showing "@ + "last"@ + " "@ =~= "Showing last "@);
    let lead = if first {
        "Showing first "@
    } else {
        "Showing last "@
    };
    assert(display_heading_text(shown, len, first) =~= lead + (decimal(shown) + (" of "@ + (
    decimal(len) + " sessions:\n"@))));
}

/// The heading of a list says which end it shows, how many sessions are
/// shown, and how many there are.
pub proof fn law_heading_tells_the_numbers(shown: nat, len: nat, first: bool)
    ensures
        first ==> ("Showing first "@ + decimal(shown) + " of "@ + decimal(len)).is_prefix_of(
            display_heading_text(shown, len, first),
        ),
        !first ==> ("Showing last "@ + decimal(shown) + " of "@ + decimal(len)).is_prefix_of(
            display_heading_text(shown, len, first),
        ),
{
    lemma_heading(shown, len, first);
    let lead = if first {
        "Showing first "@
    } else {
        "Showing last "@
    };
    lemma_prefix(
        display_heading_text(shown, len, first),
        lead + decimal(shown) + " of "@ + decimal(len),
    );
}

/// Lists with other numbers have other headings.
pub proof fn law_headings_tell_lists_apart(a: (nat, nat), b: (nat, nat), first: bool)
    requires
        display_heading_text(a.0, a.1, first) == display_heading_text(b.0, b.1, first),
    ensures
        a == b,
{
    reveal_strlit(" of ");
    reveal_strlit(" sessions:\n");
    let s = display_heading_text(a.0, a.1, first);
    let lead = if first {
        "Showing first "@
    } else {
        "Showing last "@
    };
    lemma_heading(a.0, a.1, first);
    lemma_heading(b.0, b.1, first);
    let end = " sessions:\n"@;
    let x = " of "@ + (decimal(a.1) + end);
    let y = " of "@ + (decimal(b.1) + end);
    lemma_behind(lead, decimal(a.0) + x);
    lemma_behind(lead, decimal(b.0) + y);
    assert(x[0] == ' ' && y[0] == ' ');
    lemma_numbers_agree(a.0, x, b.0, y);
    lemma_behind(" of "@, decimal(a.1) + end);
    lemma_behind(" of "@, decimal(b.1) + end);
    lemma_numbers_agree(a.1, end, b.1, end);
}

proof fn lemma_behind(a: Seq<char>, b: Seq<char>)
    ensures
        (a + b).skip(a.len() as int) == b,
{
    assert((a + b).skip(a.len() as int) =~= b);
}

/// The line for a session holds its id between square brackets and behind it
/// its title, or a word for none.
pub proof fn law_headline_names_the_session(s: SessionView)
    ensures
        headline(s).len() >= s.id.len() + 3,
        headline(s)[0] == '[',
        headline(s).subrange(1, 1int + s.id.len()) == s.id,
        headline(s)[1int + s.id.len()] == ']',
        headline(s)[2int + s.id.len()] == ' ',
        s.title is Some ==> headline(s).skip(3int + s.id.len()) == s.title->0,
        s.title is None ==> headline(s).skip(3int + s.id.len()) == "Untitled"@,
{
    reveal_strlit("[");
    reveal_strlit("] ");
    let h = headline(s);
    assert(h.subrange(1, 1int + s.id.len()) =~= s.id);
    match s.title {
        Some(t) => {
            assert(h.skip(3int + s.id.len()) =~= t);
        },
        None => {
            assert(h.skip(3int + s.id.len()) =~= "Untitled"@);
        },
    }
}

/// A role goes by its own name.
pub proof fn law_role_words(role: MessageRole)
    ensures
        role is User <==> role_word(role) == "User"@,
        role is System <==> role_word(role) == "System"@,
        role is Model <==> role_word(role) == "Model"@,
        role is Thought <==> role_word(role) == "Thought"@,
        role is Tool <==> role_word(role) == "Tool"@,
{
    reveal_strlit("User");
    reveal_strlit("System");
    reveal_strlit("Model");
    reveal_strlit("Thought");
    reveal_strlit("Tool");
    assert("User"@[0] == 'U');
    assert("System"@[0] == 'S');
    assert("Model"@[0] == 'M');
    assert("Thought"@[1] == 'h');
    assert("Tool"@[1] == 'o');
    assert("Tool"@[0] == 'T' && "Thought"@[0] == 'T');
}

/// The messages of two lists are shown one behind the other, and every
/// message with its number, its role and its whole content.
pub proof fn law_every_message_is_shown(messages: Seq<MessageView>, k: int) -> (r: (
    Seq<char>,
    Seq<char>,
))
    requires
        0 <= k < messages.len(),
    ensures
        messages_text(messages) == r.0 + ("--- Message "@ + decimal((k + 1) as nat) + " ("@
            + role_word(messages[k].role) + ") ---\n"@ + messages[k].content + "\n\n"@) + r.1,
        r.0 == messages_text(messages.take(k)),
        k == messages.len() - 1 ==> r.1.len() == 0,
    decreases messages.len(),
{
    let front = messages.drop_last();
    let entry = "--- Message "@ + decimal((k + 1) as nat) + " ("@ + role_word(messages[k].role)
        + ") ---\n"@ + messages[k].content + "\n\n"@;
    if k == messages.len() - 1 {
        assert(messages.take(k) =~= front);
        assert(messages_text(messages) =~= messages_text(front) + entry + Seq::<char>::empty());
        (messages_text(front), Seq::empty())
    } else {
        let (a, b) = law_every_message_is_shown(front, k);
        assert(front[k] == messages[k]);
        assert(front.take(k) =~= messages.take(k));
        let last = "--- Message "@ + decimal(messages.len()) + " ("@ + role_word(
            messages.last().role,
        ) + ") ---\n"@ + messages.last().content + "\n\n"@;
        assert(messages_text(messages) =~= messages_text(front) + last);
        assert(messages_text(messages) =~= a + entry + (b + last));
        (a, b + last)
    }
}

/// The details of a session start with its id and its title.
pub proof fn law_details_name_the_session(s: SessionView, moment: Option<Seq<char>>)
    ensures
        s.title is Some ==> ("Session: "@ + s.id + "\nTitle: "@ + s.title->0
            + "\n"@).is_prefix_of(details(s, moment)),
        s.title is None ==> ("Session: "@ + s.id + "\nTitle: "@ + "Untitled"@
            + "\n"@).is_prefix_of(details(s, moment)),
{
    let title = title_or_untitled(s);
    lemma_prefix(details(s, moment), "Session: "@ + s.id + "\nTitle: "@ + title + "\n"@);
}

/// The lines above the source.
spec fn details_head(s: SessionView) -> Seq<char> {
    "Session: "@ + s.id + "\nTitle: "@ + title_or_untitled(s) + "\n"@
}

/// What follows the time.
spec fn details_rest(s: SessionView) -> Seq<char> {
    "\nMessages ("@ + decimal(s.messages.len()) + "):\n\n"@ + messages_text(s.messages)
}

proof fn lemma_details_parts(s: SessionView, moment: Option<Seq<char>>)
    ensures
        details(s, moment) == details_head(s) + labelled("Source: "@, s.source) + labelled(
            "Model: "@,
            s.model,
        ) + created_line(s.created_at, moment) + details_rest(s),
        details_head(s).len() > 0,
        details_head(s).last() == '\n',
        details_rest(s).len() > 0,
        details_rest(s)[0] == '\n',
{
    reveal_strlit("\n");
    reveal_strlit("\nMessages (");
    assert(details(s, moment) =~= details_head(s) + labelled("Source: "@, s.source) + labelled(
        "Model: "@,
        s.model,
    ) + created_line(s.created_at, moment) + details_rest(s));
}

proof fn lemma_labelled(label: Seq<char>, value: Option<Seq<char>>)
    ensures
        value is Some ==> {
            &&& labelled(label, value) == (label + value->0).push('\n')
            &&& labelled(label, value).last() == '\n'
        },
        value is None ==> labelled(label, value).len() == 0,
{
    reveal_strlit("\n");
    if value is Some {
        assert(labelled(label, value) =~= (label + value->0).push('\n'));
    }
}

/// The source of a session and its model have lines of their own.
pub proof fn law_details_tell_source_and_model(s: SessionView, moment: Option<Seq<char>>)
    ensures
        s.source is Some ==> has_line(details(s, moment), "Source: "@ + s.source->0),
        s.model is Some ==> has_line(details(s, moment), "Model: "@ + s.model->0),
{
    let text = details(s, moment);
    let head = details_head(s);
    let source = labelled("Source: "@, s.source);
    let model = labelled("Model: "@, s.model);
    let end = created_line(s.created_at, moment) + details_rest(s);
    lemma_details_parts(s, moment);
    lemma_labelled("Source: "@, s.source);
    lemma_labelled("Model: "@, s.model);
    if s.source is Some {
        let line = "Source: "@ + s.source->0;
        let rest = seq!['\n'] + model + end;
        assert(text =~= head + line + rest);
        lemma_line(text, head, line, rest);
    }
    if s.model is Some {
        let line = "Model: "@ + s.model->0;
        let rest = seq!['\n'] + end;
        let above = head + source;
        assert(above.last() == '\n');
        assert(text =~= above + line + rest);
        lemma_line(text, above, line, rest);
    }
}

/// The time of a session has a line of its own: the number of seconds, and
/// the time in words where there are any.
pub proof fn law_details_tell_the_time(s: SessionView, moment: Option<Seq<char>>)
    requires
        s.created_at is Some,
    ensures
        moment is None ==> tells(details(s, moment), "Created: "@, s.created_at->0 as nat),
        moment is Some ==> has_line(
            details(s, moment),
            "Created: "@ + decimal(s.created_at->0 as nat) + " ("@ + moment->0 + ")"@,
        ),
{
    reveal_strlit("\n");
    reveal_strlit(")\n");
    reveal_strlit(")");
    let text = details(s, moment);
    let above = details_head(s) + labelled("Source: "@, s.source) + labelled("Model: "@, s.model);
    let t = decimal(s.created_at->0 as nat);
    lemma_details_parts(s, moment);
    lemma_labelled("Source: "@, s.source);
    lemma_labelled("Model: "@, s.model);
    assert(above.last() == '\n');
    let rest = seq!['\n'] + details_rest(s);
    match moment {
        None => {
            assert(text =~= above + "Created: "@ + t + rest);
            lemma_tells(text, above, "Created: "@, s.created_at->0 as nat, rest);
        },
        Some(m) => {
            let line = "Created: "@ + t + " ("@ + m + ")"@;
            assert(")\n"@ =~= ")"@ + seq!['\n']);
            assert(text =~= above + line + rest);
            lemma_line(text, above, line, rest);
        },
    }
}

/// The details say how many messages there are, and end with all of them.
pub proof fn law_details_end_with_the_messages(s: SessionView, moment: Option<Seq<char>>)
    ensures
        ("\nMessages ("@ + decimal(s.messages.len()) + "):\n\n"@ + messages_text(
            s.messages,
        )).is_suffix_of(details(s, moment)),
{
    lemma_details_parts(s, moment);
    lemma_suffix(details(s, moment), details_rest(s));
}

/// What a session does not say is not shown: the details without a source, a
/// model or a time are shorter by the line for it.
pub proof fn law_details_show_nothing_else(s: SessionView, moment: Option<Seq<char>>)
    ensures
        s.source is Some ==> details(s, moment).len() == details(
            SessionView { source: None, ..s },
            moment,
        ).len() + "Source: "@.len() + s.source->0.len() + 1,
        s.model is Some ==> details(s, moment).len() == details(
            SessionView { model: None, ..s },
            moment,
        ).len() + "Model: "@.len() + s.model->0.len() + 1,
        s.source is None && s.model is None && s.created_at is None && s.messages.len() == 0
            && s.title is Some ==> details(s, moment) == "Session: "@ + s.id + "\nTitle: "@
            + s.title->0 + "\n\nMessages (0):\n\n"@,
{
    reveal_strlit("\n");
    reveal_strlit("\nMessages (");
    reveal_strlit("):\n\n");
    reveal_strlit("\n\nMessages (0):\n\n");
    law_decimal_notation(0);
    if s.source is None && s.model is None && s.created_at is None && s.messages.len() == 0
        && s.title is Some {
        assert(messages_text(s.messages) =~= Seq::<char>::empty());
        assert(decimal(0) =~= seq!['0']);
        assert("\n"@ + "\nMessages ("@ + decimal(0) + "):\n\n"@ =~= "\n\nMessages (0):\n\n"@);
        assert(details(s, moment) =~= "Session: "@ + s.id + "\nTitle: "@ + s.title->0
            + "\n\nMessages (0):\n\n"@);
    }
}

/// A preview is the text itself up to 60 bytes; a longer text is cut behind
/// its first 60 bytes, and three dots say so.
pub proof fn law_preview_is_the_start(p: Seq<char>, content: Seq<char>)
    requires
        is_preview(p, content),
    ensures
        encode_utf8(content).len() <= 60 ==> p == content,
        encode_utf8(content).len() > 60 ==> {
            &&& p.len() >= 3
            &&& "..."@.is_suffix_of(p)
            &&& encode_utf8(p.take(p.len() - 3)).len() == 60
            &&& encode_utf8(p.take(p.len() - 3)).is_prefix_of(encode_utf8(content))
        },
{
    reveal_strlit("...");
    if encode_utf8(content).len() > 60 {
        let head = choose|head: Seq<char>|
            {
                &&& #[trigger] encode_utf8(head) == encode_utf8(content).take(60)
                &&& p == head + "..."@
            };
        assert(p.take(p.len() - 3) =~= head);
        assert("..."@ =~= p.subrange(p.len() - 3, p.len() as int));
    }
}

/// The listing of a session starts with its headline, says how many messages
/// it has, and previews the first of them.
pub proof fn law_listing_tells_the_session(text: Seq<char>, s: SessionView)
    requires
        is_listing(text, s),
    ensures
        headline(s).is_prefix_of(text),
        (headline(s) + "\n  Messages: "@ + decimal(s.messages.len()) + "\n"@).is_prefix_of(text),
        s.messages.len() > 0 && encode_utf8(s.messages[0].content).len() <= 60 ==> (
        "\n  Preview: "@ + s.messages[0].content + "\n\n"@).is_suffix_of(text),
        s.messages.len() == 0 ==> text.len() == headline(s).len() + "\n  Messages: 0\n\n"@.len(),
{
    reveal_strlit("\n");
    reveal_strlit("\n\n");
    reveal_strlit("\n  Messages: ");
    reveal_strlit("\n  Messages: 0\n\n");
    reveal_strlit("  Preview: ");
    reveal_strlit("\n  Preview: ");
    law_decimal_notation(0);
    let h = headline(s);
    let head = h + "\n  Messages: "@ + decimal(s.messages.len()) + "\n"@;
    if s.messages.len() > 0 {
        let p = choose|p: Seq<char>|
            #[trigger] is_preview(p, s.messages[0].content) && text == head + "  Preview: "@ + p
                + "\n\n"@;
        law_preview_is_the_start(p, s.messages[0].content);
        let end = "\n  Preview: "@ + p + "\n\n"@;
        assert(end =~= text.subrange(text.len() - end.len(), text.len() as int));
    }
    assert(h =~= text.subrange(0, h.len() as int));
    assert(head =~= text.subrange(0, head.len() as int));
}

/// The time range runs from the first moment to the last one, each in words
/// or, where there are none, in seconds.
pub proof fn law_range_line_tells_both_ends(
    min: u64,
    first: Option<Seq<char>>,
    max: u64,
    last: Option<Seq<char>>,
)
    ensures
        first is Some ==> ("Time Range:       "@ + first->0 + " to "@).is_prefix_of(
            range_line(min, first, max, last),
        ),
        first is None ==> ("Time Range:       "@ + decimal(min as nat) + " to "@).is_prefix_of(
            range_line(min, first, max, last),
        ),
        last is Some ==> (" to "@ + last->0 + "\n"@).is_suffix_of(
            range_line(min, first, max, last),
        ),
        last is None ==> (" to "@ + decimal(max as nat) + "\n"@).is_suffix_of(
            range_line(min, first, max, last),
        ),
{
    let text = range_line(min, first, max, last);
    let a = "Time Range:       "@ + moment_or_number(min, first) + " to "@;
    let b = " to "@ + moment_or_number(max, last) + "\n"@;
    assert(a =~= text.subrange(0, a.len() as int));
    assert(b =~= text.subrange(text.len() - b.len(), text.len() as int));
}

/// An answer is yes exactly where a single `y`, in either case, is all that
/// it holds besides white space.
pub proof fn law_yes_is_a_single_letter(s: Seq<char>)
    ensures
        says_yes(s) <==> ({
            let rest = s.filter(|c: char| !is_white(c));
            rest == seq!['y'] || rest == seq!['Y']
        }),
{
    let black = |c: char| !is_white(c);
    let rest = s.filter(black);
    if says_yes(s) {
        let i = choose|i: int|
            {
                &&& 0 <= i < s.len()
                &&& (#[trigger] s[i] == 'y' || s[i] == 'Y')
                &&& all_white(s.take(i))
                &&& all_white(s.skip(i + 1))
            };
        lemma_all_white(s.take(i));
        lemma_all_white(s.skip(i + 1));
        assert(s =~= s.take(i) + seq![s[i]] + s.skip(i + 1));
        lemma_filter_parts(s.take(i), s[i], s.skip(i + 1));
        assert(rest =~= seq![s[i]]);
    }
    if rest == seq!['y'] || rest == seq!['Y'] {
        let i = lemma_single_black(s);
        assert(s[i] == rest[0]);
        assert(says_yes(s));
    }
}

proof fn lemma_all_white(s: Seq<char>)
    requires
        all_white(s),
    ensures
        s.filter(|c: char| !is_white(c)) == Seq::<char>::empty(),
    decreases s.len(),
{
    reveal(Seq::filter);
    if s.len() > 0 {
        assert(is_white(s[s.len() - 1]));
        assert forall|i: int| 0 <= i < s.drop_last().len() implies is_white(
            #[trigger] s.drop_last()[i],
        ) by {
            assert(is_white(s[i]));
        }
        lemma_all_white(s.drop_last());
    }
}

proof fn lemma_filter_parts(a: Seq<char>, c: char, b: Seq<char>)
    requires
        a.filter(|c: char| !is_white(c)) == Seq::<char>::empty(),
        b.filter(|c: char| !is_white(c)) == Seq::<char>::empty(),
        !is_white(c),
    ensures
        (a + seq![c] + b).filter(|c: char| !is_white(c)) == seq![c],
    decreases b.len(),
{
    reveal(Seq::filter);
    let p = |c: char| !is_white(c);
    let t = a + seq![c] + b;
    if b.len() == 0 {
        assert(t =~= a.push(c));
        assert(t.drop_last() =~= a);
        assert(t.filter(p) =~= seq![c]);
    } else {
        assert(t.drop_last() =~= a + seq![c] + b.drop_last());
        let less = b.drop_last().filter(p);
        if p(b.last()) {
            assert(b.filter(p) == less.push(b.last()));
            assert(b.filter(p).len() == 0);
        }
        lemma_filter_parts(a, c, b.drop_last());
    }
}

/// Where all but one character is white space, that character stands alone.
proof fn lemma_single_black(s: Seq<char>) -> (i: int)
    requires
        s.filter(|c: char| !is_white(c)).len() == 1,
    ensures
        0 <= i < s.len(),
        s[i] == s.filter(|c: char| !is_white(c))[0],
        all_white(s.take(i)),
        all_white(s.skip(i + 1)),
    decreases s.len(),
{
    reveal(Seq::filter);
    let p = |c: char| !is_white(c);
    if s.len() > 0 {
        let front = s.drop_last();
        let n = s.len() as int;
        if p(s.last()) {
            assert(front.filter(p).len() == 0);
            lemma_nothing_black(front);
            assert(s.take(n - 1) =~= front);
            assert(s.skip(n) =~= Seq::<char>::empty());
            n - 1
        } else {
            let i = lemma_single_black(front);
            assert(front.take(i) =~= s.take(i));
            assert forall|j: int| 0 <= j < s.skip(i + 1).len() implies is_white(
                #[trigger] s.skip(i + 1)[j],
            ) by {
                if i + 1 + j < n - 1 {
                    assert(front.skip(i + 1)[j] == s.skip(i + 1)[j]);
                }
            }
            i
        }
    } else {
        0
    }
}

proof fn lemma_nothing_black(s: Seq<char>)
    requires
        s.filter(|c: char| !is_white(c)).len() == 0,
    ensures
        all_white(s),
    decreases s.len(),
{
    reveal(Seq::filter);
    let p = |c: char| !is_white(c);
    if s.len() > 0 {
        assert(!p(s.last()));
        lemma_nothing_black(s.drop_last());
        assert forall|i: int| 0 <= i < s.len() implies is_white(#[trigger] s[i]) by {
            if i < s.len() - 1 {
                assert(is_white(s.drop_last()[i]));
            }
        }
    }
}

/// A notice says what was done, how many sessions it was done to, and where.
pub proof fn law_notices_tell_the_numbers(notice: Notice)
    ensures
        match notice {
            Notice::Saved(path) => path@.is_suffix_of(notice.words()),
            Notice::ImportedConversations(n, path) => {
                &&& ("Imported "@ + decimal(n as nat) + " ChatGPT "@).is_prefix_of(notice.words())
                &&& (" to "@ + path@).is_suffix_of(notice.words())
            },
            Notice::ImportedSessions(n, path) => {
                &&& ("Imported "@ + decimal(n as nat) + " sessions "@).is_prefix_of(notice.words())
                &&& (" to "@ + path@).is_suffix_of(notice.words())
            },
            Notice::Archived(n) => ("Archived "@ + decimal(n as nat) + " "@).is_prefix_of(
                notice.words(),
            ),
            Notice::Flushed(n) => ("Flushed "@ + decimal(n as nat) + " "@).is_prefix_of(
                notice.words(),
            ),
            Notice::Reindexed(n) => (" Reindexed "@ + decimal(n as nat) + " sessions"@)
                .is_suffix_of(notice.words()),
            Notice::Optimised(sessions, blocks, kb) => {
                &&& ("Optimised "@ + decimal(sessions as nat) + " sessions into "@ + decimal(
                    blocks as nat,
                ) + " blocks"@).is_prefix_of(notice.words())
                &&& ("(~"@ + decimal(kb as nat) + " KB target)."@).is_suffix_of(notice.words())
            },
            Notice::NotFound(id) => (": "@ + id@).is_suffix_of(notice.words()),
            Notice::Unparsed(why) => ("\nLast error: "@ + why@).is_suffix_of(notice.words()),
            Notice::NoMatches => notice.words() == "No matches found."@,
            Notice::Cancelled => notice.words() == "Cancelled."@,
        },
{
    let w = notice.words();
    reveal_strlit(" ");
    reveal_strlit(" to ");
    reveal_strlit(": ");
    match notice {
        Notice::Saved(path) => {
            lemma_suffix(w, path@);
        },
        Notice::ImportedConversations(n, path) => {
            reveal_strlit(" ChatGPT conversations to ");
            reveal_strlit(" ChatGPT ");
            lemma_prefix(w, "Imported "@ + decimal(n as nat) + " ChatGPT "@);
            lemma_suffix(w, " to "@ + path@);
        },
        Notice::ImportedSessions(n, path) => {
            reveal_strlit(" sessions to ");
            reveal_strlit(" sessions ");
            lemma_prefix(w, "Imported "@ + decimal(n as nat) + " sessions "@);
            lemma_suffix(w, " to "@ + path@);
        },
        Notice::Archived(n) => {
            reveal_strlit(" sessions.");
            lemma_prefix(w, "Archived "@ + decimal(n as nat) + " "@);
        },
        Notice::Flushed(n) => {
            reveal_strlit(" sessions to database.");
            lemma_prefix(w, "Flushed "@ + decimal(n as nat) + " "@);
        },
        Notice::Reindexed(n) => {
            reveal_strlit("✓ Reindexed ");
            reveal_strlit(" Reindexed ");
            lemma_suffix(w, " Reindexed "@ + decimal(n as nat) + " sessions"@);
        },
        Notice::Optimised(sessions, blocks, kb) => {
            reveal_strlit(" blocks (~");
            reveal_strlit(" blocks");
            reveal_strlit("(~");
            lemma_prefix(
                w,
                "Optimised "@ + decimal(sessions as nat) + " sessions into "@ + decimal(
                    blocks as nat,
                ) + " blocks"@,
            );
            lemma_suffix(w, "(~"@ + decimal(kb as nat) + " KB target)."@);
        },
        Notice::NotFound(id) => {
            reveal_strlit("Session not found: ");
            lemma_suffix(w, ": "@ + id@);
        },
        Notice::Unparsed(why) => {
            reveal_strlit("\nLast error: ");
            reveal_strlit(
                "Failed to parse input. Tried formats: Single Session, ChatGPT Export, Array of Sessions.\nLast error: ",
            );
            lemma_suffix(w, "\nLast error: "@ + why@);
        },
        _ => {},
    }
}

/// A line is blank where nothing in it is anything but white space.
pub proof fn law_blank_lines(a: Seq<char>, b: Seq<char>, c: char)
    ensures
        all_white(a + b) <==> all_white(a) && all_white(b),
        all_white(seq![c]) <==> is_white(c),
        all_white(Seq::empty()),
{
    if all_white(a + b) {
        assert forall|i: int| 0 <= i < a.len() implies is_white(#[trigger] a[i]) by {
            assert((a + b)[i] == a[i]);
        }
        assert forall|i: int| 0 <= i < b.len() implies is_white(#[trigger] b[i]) by {
            assert((a + b)[a.len() + i] == b[i]);
        }
    }
    if all_white(seq![c]) {
        assert(is_white(seq![c][0]));
    }
}

proof fn lemma_prefix(text: Seq<char>, part: Seq<char>)
    requires
        part.len() <= text.len(),
        forall|i: int| 0 <= i < part.len() ==> #[trigger] part[i] == text[i],
    ensures
        part.is_prefix_of(text),
{
    assert(part =~= text.subrange(0, part.len() as int));
}

proof fn lemma_suffix(text: Seq<char>, part: Seq<char>)
    requires
        part.len() <= text.len(),
        forall|i: int|
            0 <= i < part.len() ==> #[trigger] part[i] == text[text.len() - part.len() + i],
    ensures
        part.is_suffix_of(text),
{
    assert(part =~= text.subrange(text.len() - part.len(), text.len() as int));
}

} // verus!
