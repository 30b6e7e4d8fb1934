//! How numbers are written and read, and how a text is taken apart.
use vstd::prelude::*;
use crate::text::{
    all_ascii, all_digits, char_is_alphanumeric, contains_text, decimal, digits_value, is_digit,
    is_white, lemma_decimal_reads_back, lowercased, padded_decimal, parsed_number, trimmed_end,
    trimmed_start, without_plus, words,
};

verus! {

/// A number is written in digits, without a zero in front of others, and the
/// last digit is what is left of the number after the tens.
pub proof fn law_decimal_notation(n: nat)
    ensures
        decimal(n).len() > 0,
        forall|i: int| 0 <= i < decimal(n).len() ==> '0' <= #[trigger] decimal(n)[i] <= '9',
        n > 0 ==> decimal(n)[0] != '0',
        decimal(n).last() as int == '0' as int + n % 10,
        n < 10 ==> decimal(n).len() == 1,
        n >= 10 ==> decimal(n).drop_last() == decimal(n / 10),
    decreases n,
{
    lemma_decimal_reads_back(n);
    assert forall|i: int| 0 <= i < decimal(n).len() implies '0' <= #[trigger] decimal(n)[i]
        <= '9' by {
        assert(is_digit(decimal(n)[i]));
    }
    if n >= 10 {
        law_decimal_notation(n / 10);
        assert(decimal(n).drop_last() =~= decimal(n / 10));
    }
}

/// Different numbers are written differently.
pub proof fn law_decimal_tells_numbers_apart(a: nat, b: nat)
    requires
        decimal(a) == decimal(b),
    ensures
        a == b,
{
    lemma_decimal_reads_back(a);
    lemma_decimal_reads_back(b);
}

/// One more digit makes ten times the number and the digit.
pub proof fn law_digit_by_digit(s: Seq<char>, c: char, max: nat)
    requires
        parsed_number(s, max) is Some,
        '0' <= c <= '9',
    ensures
        parsed_number(s.push(c), max) == if parsed_number(s, max)->0 * 10 + (c as int - '0' as int)
            <= max {
            Some((parsed_number(s, max)->0 * 10 + (c as int - '0' as int)) as nat)
        } else {
            None
        },
{
    let d = without_plus(s);
    let t = without_plus(s.push(c));
    assert(t =~= d.push(c));
    assert(t.drop_last() =~= d);
    assert(all_digits(t)) by {
        assert forall|i: int| 0 <= i < t.len() implies is_digit(#[trigger] t[i]) by {
            if i < d.len() {
                assert(is_digit(d[i]));
            }
        }
    }
}

/// A single digit is its own value.
pub proof fn law_single_digit(c: char, max: nat)
    requires
        '0' <= c <= '9',
        c as int - '0' as int <= max,
    ensures
        parsed_number(seq![c], max) == Some((c as int - '0' as int) as nat),
{
    let s = seq![c];
    assert(without_plus(s) =~= s);
    assert(s.drop_last() =~= Seq::<char>::empty());
    assert(digits_value(s.drop_last()) == 0);
    assert(all_digits(s));
}

/// Only digits are read as a number, behind a plus sign or not, and only up
/// to the limit.
pub proof fn law_only_digits_are_numbers(s: Seq<char>, max: nat)
    requires
        parsed_number(s, max) is Some,
    ensures
        s.len() > 0,
        parsed_number(s, max)->0 <= max,
        forall|i: int| 0 < i < s.len() ==> '0' <= #[trigger] s[i] <= '9',
        '0' <= s[0] <= '9' || s[0] == '+' && s.len() > 1,
{
    let d = without_plus(s);
    if s[0] == '+' {
        assert forall|i: int| 0 < i < s.len() implies '0' <= #[trigger] s[i] <= '9' by {
            assert(is_digit(d[i - 1]));
        }
    } else {
        assert forall|i: int| 0 <= i < s.len() implies '0' <= #[trigger] s[i] <= '9' by {
            assert(is_digit(d[i]));
        }
    }
}

/// What was written as a number is read as the number, up to the limit, and a
/// plus sign in front changes nothing.
pub proof fn law_written_numbers_are_read(n: nat, max: nat)
    ensures
        parsed_number(decimal(n), max) == if n <= max {
            Some(n)
        } else {
            None
        },
        parsed_number(seq!['+'] + decimal(n), max) == parsed_number(decimal(n), max),
{
    law_decimal_notation(n);
    lemma_decimal_reads_back(n);
    let d = decimal(n);
    let p = seq!['+'] + d;
    assert('0' <= d[0] <= '9');
    assert(without_plus(d) =~= d);
    assert(p.skip(1) =~= d);
}

/// A padded number is the number with zeros in front, up to the width.
pub proof fn law_padding(n: nat, width: nat)
    ensures
        padded_decimal(n, width).len() >= width,
        decimal(n).is_suffix_of(padded_decimal(n, width)),
        padded_decimal(n, width).len() == width || padded_decimal(n, width) == decimal(n),
        forall|i: int|
            0 <= i < padded_decimal(n, width).len() - decimal(n).len()
                ==> #[trigger] padded_decimal(n, width)[i] == '0',
{
}

/// White space is what Unicode calls so.
pub proof fn law_white_space(c: char)
    ensures
        is_white(c) <==> {
            let n = c as u32;
            ||| 9 <= n <= 13
            ||| n == 32
            ||| n == 133
            ||| n == 160
            ||| n == 5760
            ||| 8192 <= n <= 8202
            ||| n == 8232
            ||| n == 8233
            ||| n == 8239
            ||| n == 8287
            ||| n == 12288
        },
{
}

/// Taking punctuation off the ends of a part leaves what stands between the
/// first and the last letter or digit, and nothing where there is none.
pub proof fn law_trimming(s: Seq<char>) -> (r: (int, int))
    ensures
        0 <= r.0 <= r.1 <= s.len(),
        trimmed_end(trimmed_start(s)) == s.subrange(r.0, r.1),
        forall|i: int| 0 <= i < r.0 ==> !char_is_alphanumeric(#[trigger] s[i]),
        forall|i: int| r.1 <= i < s.len() ==> !char_is_alphanumeric(#[trigger] s[i]),
        r.0 < r.1 ==> char_is_alphanumeric(s[r.0]) && char_is_alphanumeric(s[r.1 - 1]),
{
    let start = lemma_trimmed_start(s);
    let t = s.skip(start);
    let len = lemma_trimmed_end(t);
    assert(t.take(len) =~= s.subrange(start, start + len));
    assert forall|i: int| start + len <= i < s.len() implies !char_is_alphanumeric(
        #[trigger] s[i],
    ) by {
        assert(t[i - start] == s[i]);
    }
    if len > 0 {
        assert(t[0] == s[start]);
        assert(t[len - 1] == s[start + len - 1]);
    }
    (start, start + len)
}

proof fn lemma_trimmed_start(s: Seq<char>) -> (n: int)
    ensures
        0 <= n <= s.len(),
        trimmed_start(s) == s.skip(n),
        forall|i: int| 0 <= i < n ==> !char_is_alphanumeric(#[trigger] s[i]),
        n < s.len() ==> char_is_alphanumeric(s[n]),
    decreases s.len(),
{
    if s.len() > 0 && !char_is_alphanumeric(s[0]) {
        let n = lemma_trimmed_start(s.skip(1));
        assert(s.skip(1).skip(n) =~= s.skip(n + 1));
        assert forall|i: int| 0 <= i < n + 1 implies !char_is_alphanumeric(#[trigger] s[i]) by {
            if i > 0 {
                assert(s.skip(1)[i - 1] == s[i]);
            }
        }
        n + 1
    } else {
        assert(s.skip(0) =~= s);
        0
    }
}

proof fn lemma_trimmed_end(s: Seq<char>) -> (n: int)
    ensures
        0 <= n <= s.len(),
        trimmed_end(s) == s.take(n),
        forall|i: int| n <= i < s.len() ==> !char_is_alphanumeric(#[trigger] s[i]),
        n > 0 ==> char_is_alphanumeric(s[n - 1]),
    decreases s.len(),
{
    if s.len() > 0 && !char_is_alphanumeric(s.last()) {
        let n = lemma_trimmed_end(s.drop_last());
        assert(s.drop_last().take(n) =~= s.take(n));
        assert forall|i: int| n <= i < s.len() implies !char_is_alphanumeric(#[trigger] s[i]) by {
            if i < s.len() - 1 {
                assert(s.drop_last()[i] == s[i]);
            }
        }
        n
    } else {
        assert(s.take(s.len() as int) =~= s);
        s.len() as int
    }
}

/// A part makes one word, itself in lower case without the punctuation round
/// it, or none where it is all punctuation.
pub proof fn law_word_of_part(p: Seq<char>)
    ensures
        (forall|i: int| 0 <= i < p.len() ==> !char_is_alphanumeric(#[trigger] p[i])) ==> words(
            seq![p],
        ).len() == 0,
        p.len() > 0 && char_is_alphanumeric(p[0]) && char_is_alphanumeric(p.last()) ==> words(
            seq![p],
        ) == seq![lowercased(p)],
        words(seq![p]).len() <= 1,
{
    let one = seq![p];
    assert(one.drop_last() =~= Seq::<Seq<char>>::empty());
    assert(words(one.drop_last()) =~= Seq::<Seq<char>>::empty());
    assert(one.last() == p);
    let (a, b) = law_trimming(p);
    if p.len() > 0 && char_is_alphanumeric(p[0]) && char_is_alphanumeric(p.last()) {
        assert(a == 0 && b == p.len());
        assert(p.subrange(0, p.len() as int) =~= p);
        assert(words(one) =~= seq![lowercased(p)]);
    }
}

/// In ASCII, lower case changes the capital letters and nothing else.
pub proof fn law_ascii_lower_case(s: Seq<char>, i: int)
    requires
        all_ascii(s),
        0 <= i < s.len(),
    ensures
        lowercased(s).len() == s.len(),
        'A' <= s[i] <= 'Z' ==> lowercased(s)[i] as int == s[i] as int + ('a' as int - 'A' as int),
        !('A' <= s[i] <= 'Z') ==> lowercased(s)[i] == s[i],
{
}

/// A text holds another where its characters stand in it one behind the other.
pub proof fn law_containment(hay: Seq<char>, needle: Seq<char>)
    ensures
        contains_text(hay, needle) <==> exists|p: int| #[trigger] stands_at(hay, needle, p),
{
    if contains_text(hay, needle) {
        let p = choose|i: int|
            0 <= i <= hay.len() - needle.len() && #[trigger] hay.subrange(i, i + needle.len())
                == needle;
        assert forall|j: int| 0 <= j < needle.len() implies hay[p + j] == #[trigger] needle[j] by {
            assert(hay.subrange(p, p + needle.len())[j] == hay[p + j]);
        }
        assert(stands_at(hay, needle, p));
    }
    if exists|p: int| #[trigger] stands_at(hay, needle, p) {
        let p = choose|p: int| #[trigger] stands_at(hay, needle, p);
        assert(hay.subrange(p, p + needle.len()) =~= needle);
    }
}

/// The characters of `needle` stand in `hay` from position `p` on.
pub open spec fn stands_at(hay: Seq<char>, needle: Seq<char>, p: int) -> bool {
    &&& 0 <= p <= p + needle.len() <= hay.len()
    &&& forall|j: int| 0 <= j < needle.len() ==> hay[p + j] == #[trigger] needle[j]
}

} // verus!
