//! Strings as sequences of characters: decimal numbers, splitting and
//! joining, words, and substring search.
use vstd::prelude::*;

verus! {

/// `String::push` puts one character at the end.
pub assume_specification[ String::push ](s: &mut String, c: char)
    ensures
        final(s)@ == old(s)@.push(c),
;

/// The characters of a string, in order.
pub fn chars_of(s: &str) -> (r: Vec<char>)
    ensures
        r@ == s@,
{
    let mut out: Vec<char> = Vec::new();
    for c in it: s.chars()
        invariant
            it.seq() == s@,
            out@ == s@.take(it.index() as int),
    {
        out.push(c);
        assert(out@ =~= s@.take(it.index() + 1));
    }
    assert(s@.take(s@.len() as int) =~= s@);
    out
}

/// The string that holds the given characters.
pub fn string_of(chars: &[char]) -> (r: String)
    ensures
        r@ == chars@,
{
    let mut out = String::new();
    let mut i: usize = 0;
    while i < chars.len()
        invariant
            i <= chars@.len(),
            out@ == chars@.take(i as int),
        decreases chars@.len() - i,
    {
        out.push(chars[i]);
        i += 1;
        assert(out@ =~= chars@.take(i as int));
    }
    assert(chars@.take(i as int) =~= chars@);
    out
}

/// Whether two texts are the same.
pub fn same_text(a: &str, b: &str) -> (r: bool)
    ensures
        r == (a@ == b@),
{
    a.to_owned() == b.to_owned()
}

/// Whether `c` is one of `0` to `9`.
pub open spec fn is_digit(c: char) -> bool {
    '0' <= c <= '9'
}

/// The digit character of a number below ten.
pub open spec fn digit(d: nat) -> char {
    (48 + d) as char
}

/// The shortest decimal notation of `n`.
pub open spec fn decimal(n: nat) -> Seq<char>
    decreases n,
{
    if n < 10 {
        seq![digit(n)]
    } else {
        decimal(n / 10).push(digit(n % 10))
    }
}

/// The number that a sequence of digits writes down.
pub open spec fn digits_value(s: Seq<char>) -> nat
    decreases s.len(),
{
    if s.len() == 0 {
        0
    } else {
        digits_value(s.drop_last()) * 10 + (s.last() as nat - 48) as nat
    }
}

pub open spec fn all_digits(s: Seq<char>) -> bool {
    forall|i: int| 0 <= i < s.len() ==> is_digit(#[trigger] s[i])
}

/// What is left of a number's text once one leading plus sign is taken off.
pub open spec fn without_plus(s: Seq<char>) -> Seq<char> {
    if s.len() > 0 && s[0] == '+' {
        s.skip(1)
    } else {
        s
    }
}

/// An unsigned number: an optional plus sign, then one or more digits, of a
/// value no larger than `max`.
pub open spec fn parsed_number(s: Seq<char>, max: nat) -> Option<nat> {
    let d = without_plus(s);
    if d.len() > 0 && all_digits(d) && digits_value(d) <= max {
        Some(digits_value(d))
    } else {
        None
    }
}

/// Appending digits never makes the number smaller.
pub proof fn lemma_digits_value_grows(s: Seq<char>, n: int)
    requires
        0 <= n <= s.len(),
        all_digits(s),
    ensures
        digits_value(s.take(n)) <= digits_value(s),
    decreases s.len() - n,
{
    if n < s.len() {
        lemma_digits_value_grows(s, n + 1);
        let t = s.take(n + 1);
        assert(t.drop_last() =~= s.take(n));
        assert(is_digit(s[n]));
    } else {
        assert(s.take(n) =~= s);
    }
}

/// Reads an unsigned number of at most `max`.
pub fn parse_number(s: &[char], max: u64) -> (r: Option<u64>)
    ensures
        match r {
            Some(v) => parsed_number(s@, max as nat) == Some(v as nat),
            None => parsed_number(s@, max as nat) is None,
        },
{
    let start: usize = if s.len() > 0 && s[0] == '+' {
        1
    } else {
        0
    };
    let ghost d = without_plus(s@);
    assert(d =~= s@.skip(start as int));
    if start == s.len() {
        return None;
    }
    let mut value: u64 = 0;
    let mut i: usize = start;
    while i < s.len()
        invariant
            start <= i <= s@.len(),
            d == s@.skip(start as int),
            d == without_plus(s@),
            d.len() > 0,
            all_digits(d.take(i - start)),
            digits_value(d.take(i - start)) == value,
            value <= max,
        decreases s@.len() - i,
    {
        let c: char = s[i];
        let ghost k = i - start;
        assert(d[k] == c);
        if c < '0' || c > '9' {
            assert(!is_digit(d[k]));
            return None;
        }
        let v: u64 = (c as u32 - 48) as u64;
        assert(d.take(k + 1).drop_last() =~= d.take(k));
        assert(d.take(k + 1).last() == c);
        assert(digits_value(d.take(k + 1)) == value * 10 + v);
        assert(all_digits(d.take(k + 1)));
        if v > max || value > (max - v) / 10 {
            proof {
                if all_digits(d) {
                    lemma_digits_value_grows(d, k + 1);
                }
            }
            return None;
        }
        value = value * 10 + v;
        i += 1;
    }
    assert(d.take(i - start) =~= d);
    Some(value)
}

/// A number's decimal notation consists of digits and reads back as it.
pub proof fn lemma_decimal_reads_back(n: nat)
    ensures
        decimal(n).len() > 0,
        all_digits(decimal(n)),
        digits_value(decimal(n)) == n,
    decreases n,
{
    if n < 10 {
        let s = seq![digit(n)];
        assert(s.drop_last() =~= Seq::<char>::empty());
        assert(digits_value(s.drop_last()) == 0);
    } else {
        lemma_decimal_reads_back(n / 10);
        let s = decimal(n / 10).push(digit(n % 10));
        assert(s.drop_last() =~= decimal(n / 10));
        assert(digit(n % 10) as nat == 48 + n % 10);
    }
}

/// Decimal notation, filled up with zeros on the left to `width` characters.
pub open spec fn padded_decimal(n: nat, width: nat) -> Seq<char> {
    let d = decimal(n);
    if d.len() >= width {
        d
    } else {
        Seq::new((width - d.len()) as nat, |i: int| '0') + d
    }
}

/// Leading zeros change nothing of the value.
pub proof fn lemma_leading_zeros(k: nat, s: Seq<char>)
    ensures
        digits_value(Seq::new(k, |i: int| '0') + s) == digits_value(s),
    decreases s.len(), k,
{
    let z = Seq::new(k, |i: int| '0');
    let t = z + s;
    if s.len() > 0 {
        assert(t.drop_last() =~= z + s.drop_last());
        lemma_leading_zeros(k, s.drop_last());
    } else if k > 0 {
        let zz = Seq::new((k - 1) as nat, |i: int| '0');
        assert(t.drop_last() =~= zz + s);
        lemma_leading_zeros((k - 1) as nat, s);
        assert(t.last() == '0');
    } else {
        assert(t =~= s);
    }
}

/// A padded number is read back as the number.
pub proof fn lemma_padded_parses(n: nat, width: nat, max: nat)
    requires
        n <= max,
    ensures
        parsed_number(padded_decimal(n, width), max) == Some(n),
{
    lemma_decimal_reads_back(n);
    let d = decimal(n);
    let p = padded_decimal(n, width);
    if d.len() < width {
        lemma_leading_zeros((width - d.len()) as nat, d);
        assert forall|i: int| 0 <= i < p.len() implies is_digit(#[trigger] p[i]) by {
            if i >= width - d.len() {
                assert(p[i] == d[i - (width - d.len())]);
            }
        }
    }
    assert(is_digit(p[0]));
    assert(without_plus(p) == p);
}

/// Writes a number in decimal.
pub fn format_number(n: u64) -> (r: Vec<char>)
    ensures
        r@ == decimal(n as nat),
    decreases n,
{
    let d: u8 = (n % 10) as u8;
    let c: char = (48 + d) as char;
    if n < 10 {
        let mut out: Vec<char> = Vec::new();
        out.push(c);
        assert(out@ =~= seq![digit(n as nat)]);
        out
    } else {
        let mut out = format_number(n / 10);
        out.push(c);
        out
    }
}

/// Writes a number in decimal, filled up with zeros on the left.
pub fn format_padded(n: u64, width: usize) -> (r: Vec<char>)
    ensures
        r@ == padded_decimal(n as nat, width as nat),
{
    let mut d = format_number(n);
    let mut out: Vec<char> = Vec::new();
    let ghost digits = d@;
    while out.len() < width && width - out.len() > d.len()
        invariant
            d@ == digits,
            out@.len() <= width,
            out@.len() > 0 ==> out@.len() + digits.len() <= width,
            forall|i: int| 0 <= i < out@.len() ==> out@[i] == '0',
        decreases width - out@.len(),
    {
        out.push('0');
    }
    out.append(&mut d);
    assert(out@ =~= padded_decimal(n as nat, width as nat));
    out
}

/// Unicode's `White_Space` property.
pub open spec fn is_white(c: char) -> bool {
    ||| '\u{9}' <= c <= '\u{d}'
    ||| c == ' '
    ||| c == '\u{85}'
    ||| c == '\u{a0}'
    ||| c == '\u{1680}'
    ||| '\u{2000}' <= c <= '\u{200a}'
    ||| c == '\u{2028}'
    ||| c == '\u{2029}'
    ||| c == '\u{202f}'
    ||| c == '\u{205f}'
    ||| c == '\u{3000}'
}

/// Whether a character is white space.
pub fn is_whitespace(c: char) -> (r: bool)
    ensures
        r == is_white(c),
{
    ('\u{9}' <= c && c <= '\u{d}') || c == ' ' || c == '\u{85}' || c == '\u{a0}' || c
        == '\u{1680}' || ('\u{2000}' <= c && c <= '\u{200a}') || c == '\u{2028}' || c
        == '\u{2029}' || c == '\u{202f}' || c == '\u{205f}' || c == '\u{3000}'
}

/// What parts a text: the comma of an id list, or the white space between words.
#[derive(Clone, Copy, Debug, PartialEq, Eq, Structural)]
pub enum Separator {
    Comma,
    White,
}

impl Separator {
    pub open spec fn picks(self, c: char) -> bool {
        match self {
            Separator::Comma => c == ',',
            Separator::White => is_white(c),
        }
    }

    fn separates(self, c: char) -> (r: bool)
        ensures
            r == self.picks(c),
    {
        match self {
            Separator::Comma => c == ',',
            Separator::White => is_whitespace(c),
        }
    }
}

/// The parts of a text between the characters that `sep` picks out; parts may
/// be empty, and there is always at least one.
pub open spec fn pieces(s: Seq<char>, sep: Separator) -> Seq<Seq<char>>
    decreases s.len(),
{
    if s.len() == 0 {
        seq![Seq::empty()]
    } else {
        let front = pieces(s.drop_last(), sep);
        if sep.picks(s.last()) {
            front.push(Seq::empty())
        } else {
            front.drop_last().push(front.last().push(s.last()))
        }
    }
}

pub proof fn lemma_pieces_nonempty(s: Seq<char>, sep: Separator)
    ensures
        pieces(s, sep).len() >= 1,
    decreases s.len(),
{
    if s.len() > 0 {
        lemma_pieces_nonempty(s.drop_last(), sep);
    }
}

/// A separator splits what stands before it from what stands after it.
pub proof fn lemma_pieces_concat(a: Seq<char>, c: char, b: Seq<char>, sep: Separator)
    requires
        sep.picks(c),
    ensures
        pieces(a.push(c) + b, sep) == pieces(a, sep) + pieces(b, sep),
    decreases b.len(),
{
    let t = a.push(c) + b;
    if b.len() == 0 {
        assert(t =~= a.push(c));
        assert(t.drop_last() =~= a);
        assert(pieces(a, sep).push(Seq::empty()) =~= pieces(a, sep) + pieces(b, sep));
    } else {
        assert(t.drop_last() =~= a.push(c) + b.drop_last());
        lemma_pieces_concat(a, c, b.drop_last(), sep);
        lemma_pieces_nonempty(b.drop_last(), sep);
        assert(t.last() == b.last());
        assert(pieces(t, sep) =~= pieces(a, sep) + pieces(b, sep));
    }
}

/// A text without separators is one piece.
pub proof fn lemma_pieces_single(s: Seq<char>, sep: Separator)
    requires
        forall|i: int| 0 <= i < s.len() ==> !sep.picks(#[trigger] s[i]),
    ensures
        pieces(s, sep) == seq![s],
    decreases s.len(),
{
    if s.len() > 0 {
        let f = s.drop_last();
        assert forall|i: int| 0 <= i < f.len() implies !sep.picks(#[trigger] f[i]) by {
            assert(f[i] == s[i]);
        }
        lemma_pieces_single(f, sep);
        assert(!sep.picks(s[s.len() - 1]));
        assert(seq![f].drop_last().push(f.push(s.last())) =~= seq![f.push(s.last())]);
        assert(f.push(s.last()) =~= s);
    } else {
        assert(s =~= Seq::<char>::empty());
    }
}

/// Ids joined by commas.
pub open spec fn joined(ids: Seq<Seq<char>>) -> Seq<char>
    decreases ids.len(),
{
    if ids.len() == 0 {
        Seq::empty()
    } else if ids.len() == 1 {
        ids[0]
    } else {
        joined(ids.drop_last()).push(',') + ids.last()
    }
}

pub open spec fn no_comma(id: Seq<char>) -> bool {
    forall|i: int| 0 <= i < id.len() ==> #[trigger] id[i] != ','
}

/// Splitting a joined list gives the list back, unless an id holds a comma.
pub proof fn lemma_split_of_joined(ids: Seq<Seq<char>>)
    requires
        ids.len() > 0,
        forall|k: int| 0 <= k < ids.len() ==> no_comma(#[trigger] ids[k]),
    ensures
        pieces(joined(ids), Separator::Comma) == ids,
    decreases ids.len(),
{
    let last = ids.last();
    assert(no_comma(ids[ids.len() - 1]));
    lemma_pieces_single(last, Separator::Comma);
    if ids.len() == 1 {
        assert(seq![last] =~= ids);
    } else {
        let front = ids.drop_last();
        assert forall|k: int| 0 <= k < front.len() implies no_comma(#[trigger] front[k]) by {
            assert(front[k] == ids[k]);
        }
        lemma_split_of_joined(front);
        lemma_pieces_concat(joined(front), ',', last, Separator::Comma);
        assert(front + seq![last] =~= ids);
    }
}

/// An id without a comma is among the parts of every joined list that it was
/// joined into.
pub proof fn lemma_joined_lists_id(ids: Seq<Seq<char>>, id: Seq<char>)
    requires
        ids.contains(id),
        no_comma(id),
    ensures
        pieces(joined(ids), Separator::Comma).contains(id),
    decreases ids.len(),
{
    let k = choose|k: int| 0 <= k < ids.len() && ids[k] == id;
    lemma_pieces_single(id, Separator::Comma);
    if ids.len() == 1 {
        assert(pieces(ids[0], Separator::Comma)[0] == id);
    } else {
        let front = ids.drop_last();
        let a = pieces(joined(front), Separator::Comma);
        let b = pieces(ids.last(), Separator::Comma);
        lemma_pieces_concat(joined(front), ',', ids.last(), Separator::Comma);
        if k < front.len() {
            assert(front[k] == id);
            lemma_joined_lists_id(front, id);
            let i = choose|i: int| 0 <= i < a.len() && a[i] == id;
            assert((a + b)[i] == id);
        } else {
            assert(b[0] == id);
            assert((a + b)[a.len() as int] == id);
        }
    }
}

/// Joins ids with commas.
pub fn join_ids(ids: &Vec<String>) -> (r: String)
    ensures
        r@ == joined(ids.deep_view()),
{
    let mut out = String::new();
    let mut i: usize = 0;
    let ghost all = ids.deep_view();
    assert(all.take(0) =~= Seq::<Seq<char>>::empty());
    while i < ids.len()
        invariant
            i <= ids@.len(),
            all == ids.deep_view(),
            out@ == joined(all.take(i as int)),
        decreases ids@.len() - i,
    {
        if i > 0 {
            out.push(',');
        }
        out.append(ids[i].as_str());
        proof {
            let t = all.take(i + 1);
            assert(t.drop_last() =~= all.take(i as int));
            assert(t.last() == ids@[i as int]@);
            assert(joined(all.take(0)) =~= Seq::<char>::empty());
            assert(Seq::<char>::empty() + t.last() =~= t.last());
        }
        i += 1;
    }
    assert(all.take(i as int) =~= all);
    out
}

/// Parts a text at every separator.
pub fn split(s: &[char], sep: Separator) -> (r: Vec<Vec<char>>)
    ensures
        r.deep_view() == pieces(s@, sep),
{
    let mut out: Vec<Vec<char>> = Vec::new();
    let mut piece: Vec<char> = Vec::new();
    let mut i: usize = 0;
    assert(s@.take(0) =~= Seq::<char>::empty());
    assert(out.deep_view().push(piece@) =~= pieces(s@.take(0), sep));
    while i < s.len()
        invariant
            i <= s@.len(),
            out.deep_view().push(piece@) == pieces(s@.take(i as int), sep),
        decreases s@.len() - i,
    {
        let c: char = s[i];
        let ghost before = out.deep_view();
        let ghost t = s@.take(i + 1);
        assert(t.drop_last() =~= s@.take(i as int));
        assert(t.last() == c);
        if sep.separates(c) {
            let ghost done = piece@;
            assert(piece.deep_view() =~= done);
            out.push(piece);
            piece = Vec::new();
            assert(out.deep_view() =~= before.push(done));
            assert(piece@ =~= Seq::<char>::empty());
        } else {
            let ghost part = piece@;
            piece.push(c);
            assert(before.push(part).drop_last() =~= before);
        }
        i += 1;
    }
    assert(s@.take(i as int) =~= s@);
    let ghost before = out.deep_view();
    let ghost part = piece@;
    assert(piece.deep_view() =~= part);
    out.push(piece);
    assert(out.deep_view() =~= before.push(part));
    out
}

/// A character of ASCII.
pub open spec fn is_ascii(c: char) -> bool {
    (c as u32) < 128
}

/// A text in ASCII.
pub open spec fn all_ascii(s: Seq<char>) -> bool {
    forall|i: int| 0 <= i < s.len() ==> is_ascii(#[trigger] s[i])
}

/// What `char::is_alphanumeric` says of a character outside ASCII.
pub uninterp spec fn unicode_is_alphanumeric(c: char) -> bool;

/// A letter or a digit.
pub open spec fn char_is_alphanumeric(c: char) -> bool {
    if is_ascii(c) {
        'a' <= c <= 'z' || 'A' <= c <= 'Z' || '0' <= c <= '9'
    } else {
        unicode_is_alphanumeric(c)
    }
}

/// `char::is_alphanumeric`: in ASCII, letters and digits are alphanumeric and
/// nothing else is; elsewhere it is a fixed property of the character.
#[verifier::external_body]
fn is_alphanumeric(c: char) -> (r: bool)
    ensures
        is_ascii(c) ==> r == char_is_alphanumeric(c),
        !is_ascii(c) ==> r == unicode_is_alphanumeric(c),
{
    c.is_alphanumeric()
}

/// What `str::to_lowercase` makes of a text with characters outside ASCII.
pub uninterp spec fn unicode_lowercased(s: Seq<char>) -> Seq<char>;

/// The lower-case form of a character of ASCII.
pub open spec fn ascii_lower(c: char) -> char {
    if 'A' <= c <= 'Z' {
        ((c as u32) + 32) as char
    } else {
        c
    }
}

/// A text in lower case.
pub open spec fn lowercased(s: Seq<char>) -> Seq<char> {
    if all_ascii(s) {
        s.map_values(|c: char| ascii_lower(c))
    } else {
        unicode_lowercased(s)
    }
}

/// `str::to_lowercase`: a text in ASCII is lowered character by character;
/// any other text alone determines its Unicode lower-case form.
#[verifier::external_body]
pub(crate) fn to_lowercase(s: &str) -> (r: String)
    ensures
        all_ascii(s@) ==> r@ == lowercased(s@),
        !all_ascii(s@) ==> r@ == unicode_lowercased(s@),
{
    s.to_lowercase()
}

/// A text without the characters at its end that are not alphanumeric.
pub open spec fn trimmed_end(s: Seq<char>) -> Seq<char>
    decreases s.len(),
{
    if s.len() > 0 && !char_is_alphanumeric(s.last()) {
        trimmed_end(s.drop_last())
    } else {
        s
    }
}

/// A text without the characters at its start that are not alphanumeric.
pub open spec fn trimmed_start(s: Seq<char>) -> Seq<char>
    decreases s.len(),
{
    if s.len() > 0 && !char_is_alphanumeric(s[0]) {
        trimmed_start(s.skip(1))
    } else {
        s
    }
}

/// The words among the parts of a text: punctuation round a part is taken
/// off, empty parts are left out, and the rest is in lower case.
pub open spec fn words(parts: Seq<Seq<char>>) -> Seq<Seq<char>>
    decreases parts.len(),
{
    if parts.len() == 0 {
        Seq::empty()
    } else {
        let front = words(parts.drop_last());
        let word = trimmed_end(trimmed_start(parts.last()));
        if word.len() > 0 {
            front.push(lowercased(word))
        } else {
            front
        }
    }
}

/// The words of a text.
pub open spec fn tokens(s: Seq<char>) -> Seq<Seq<char>> {
    words(pieces(s, Separator::White))
}

pub proof fn lemma_words_concat(a: Seq<Seq<char>>, b: Seq<Seq<char>>)
    ensures
        words(a + b) == words(a) + words(b),
    decreases b.len(),
{
    if b.len() == 0 {
        assert(a + b =~= a);
        assert(words(a) + words(b) =~= words(a));
    } else {
        assert((a + b).drop_last() =~= a + b.drop_last());
        lemma_words_concat(a, b.drop_last());
        assert(words(a + b) =~= words(a) + words(b));
    }
}

/// Between two texts with white space between them no word is lost or made.
pub proof fn lemma_tokens_concat(a: Seq<char>, c: char, b: Seq<char>)
    requires
        is_white(c),
    ensures
        tokens(a.push(c) + b) == tokens(a) + tokens(b),
{
    lemma_pieces_concat(a, c, b, Separator::White);
    lemma_words_concat(pieces(a, Separator::White), pieces(b, Separator::White));
}

fn trim(s: &Vec<char>) -> (r: Vec<char>)
    ensures
        r@ == trimmed_end(trimmed_start(s@)),
{
    let mut start: usize = 0;
    assert(s@.skip(0) =~= s@);
    while start < s.len() && !is_alphanumeric(s[start])
        invariant
            start <= s@.len(),
            trimmed_start(s@.skip(start as int)) == trimmed_start(s@),
        decreases s@.len() - start,
    {
        assert(s@.skip(start as int).skip(1) =~= s@.skip(start + 1));
        start += 1;
    }
    let ghost kept = s@.skip(start as int);
    assert(trimmed_start(s@) == kept);
    let mut end: usize = s.len();
    assert(s@.subrange(start as int, end as int) =~= kept);
    while start < end && !is_alphanumeric(s[end - 1])
        invariant
            start <= end <= s@.len(),
            trimmed_end(s@.subrange(start as int, end as int)) == trimmed_end(kept),
        decreases end,
    {
        assert(s@.subrange(start as int, end as int).drop_last() =~= s@.subrange(
            start as int,
            end - 1,
        ));
        end -= 1;
    }
    let mut out: Vec<char> = Vec::new();
    let mut i: usize = start;
    while i < end
        invariant
            start <= i <= end <= s@.len(),
            out@ == s@.subrange(start as int, i as int),
        decreases end - i,
    {
        out.push(s[i]);
        i += 1;
        assert(out@ =~= s@.subrange(start as int, i as int));
    }
    out
}

/// The words of a text, in order.
pub fn tokens_of(s: &str) -> (r: Vec<String>)
    ensures
        r.deep_view() == tokens(s@),
{
    let chars = chars_of(s);
    let parts = split(chars.as_slice(), Separator::White);
    let ghost all = parts.deep_view();
    let mut out: Vec<String> = Vec::new();
    let mut i: usize = 0;
    assert(all.take(0) =~= Seq::<Seq<char>>::empty());
    assert(out.deep_view() =~= words(all.take(0)));
    while i < parts.len()
        invariant
            i <= parts@.len(),
            all == parts.deep_view(),
            out.deep_view() == words(all.take(i as int)),
        decreases parts@.len() - i,
    {
        let word = trim(&parts[i]);
        proof {
            let t = all.take(i + 1);
            assert(t.drop_last() =~= all.take(i as int));
            assert(t.last() == parts@[i as int].deep_view());
            assert(parts@[i as int].deep_view() =~= parts@[i as int]@);
        }
        if word.len() > 0 {
            let ghost before = out.deep_view();
            let text = string_of(word.as_slice());
            let lower = to_lowercase(text.as_str());
            let ghost l = lower@;
            out.push(lower);
            assert(out.deep_view() =~= before.push(l));
        }
        i += 1;
    }
    assert(all.take(i as int) =~= all);
    out
}

/// Whether `needle` stands somewhere in `hay`.
pub open spec fn contains_text(hay: Seq<char>, needle: Seq<char>) -> bool {
    exists|i: int|
        0 <= i <= hay.len() - needle.len() && #[trigger] hay.subrange(i, i + needle.len())
            == needle
}

fn stands_at(hay: &Vec<char>, at: usize, needle: &Vec<char>) -> (r: bool)
    requires
        at + needle.len() <= hay.len(),
    ensures
        r == (hay@.subrange(at as int, at + needle@.len()) == needle@),
{
    let mut j: usize = 0;
    while j < needle.len()
        invariant
            j <= needle@.len(),
            at + needle.len() <= hay.len(),
            forall|k: int| 0 <= k < j ==> hay@[at + k] == needle@[k],
        decreases needle@.len() - j,
    {
        if hay[at + j] != needle[j] {
            assert(hay@.subrange(at as int, at + needle@.len())[j as int] != needle@[j as int]);
            return false;
        }
        j += 1;
    }
    assert(hay@.subrange(at as int, at + needle@.len()) =~= needle@);
    true
}

/// Whether a text holds another one.
pub fn contains(hay: &str, needle: &str) -> (r: bool)
    ensures
        r == contains_text(hay@, needle@),
{
    let h = chars_of(hay);
    let n = chars_of(needle);
    if n.len() > h.len() {
        return false;
    }
    let last: usize = h.len() - n.len();
    let mut i: usize = 0;
    while i <= last
        invariant
            i <= last + 1,
            last == h@.len() - n@.len(),
            h@ == hay@,
            n@ == needle@,
            forall|k: int|
                0 <= k < i ==> #[trigger] h@.subrange(k, k + n@.len()) != n@,
        decreases last + 1 - i,
    {
        if stands_at(&h, i, &n) {
            return true;
        }
        if i == last {
            return false;
        }
        i += 1;
    }
    false
}

} // verus!
