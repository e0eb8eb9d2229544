//! What searching, counting, trimming and cutting texts give.

use crate::text;
use vstd::prelude::*;
use vstd::utf8::*;

verus! {

/// A search finds the first place from a given one on at which the text that is looked
/// for stands, and finds none exactly if it stands at none.
pub proof fn searches_find_the_first_place(hay: Seq<char>, needle: Seq<char>, from: int)
    requires
        0 <= from,
    ensures
        match text::find_from(hay, needle, from) {
            Some(at) => from <= at && at + needle.len() <= hay.len() && hay.subrange(
                at,
                at + needle.len(),
            ) == needle && forall|i: int|
                from <= i < at ==> hay.subrange(i, #[trigger] (i + needle.len())) != needle,
            None => forall|i: int|
                from <= i && #[trigger] (i + needle.len()) <= hay.len() ==> hay.subrange(
                    i,
                    i + needle.len(),
                ) != needle,
        },
    decreases hay.len() + 1 - from,
{
    if from + needle.len() <= hay.len() && !text::occurs_at(hay, needle, from) {
        searches_find_the_first_place(hay, needle, from + 1);
    }
}

/// A text that stands nowhere is counted zero times.
pub proof fn absent_texts_are_not_counted(hay: Seq<char>, needle: Seq<char>, from: int)
    requires
        0 <= from,
        needle.len() > 0,
        forall|i: int|
            from <= i && #[trigger] (i + needle.len()) <= hay.len() ==> hay.subrange(
                i,
                i + needle.len(),
            ) != needle,
    ensures
        text::occurrences_from(hay, needle, from) == 0,
    decreases hay.len() - from,
{
    if from + needle.len() <= hay.len() {
        absent_texts_are_not_counted(hay, needle, from + 1);
    }
}

/// A text that stands at one place alone is counted once.
pub proof fn single_texts_are_counted_once(hay: Seq<char>, needle: Seq<char>, from: int, at: int)
    requires
        0 <= from <= at,
        needle.len() > 0,
        at + needle.len() <= hay.len(),
        hay.subrange(at, at + needle.len()) == needle,
        forall|i: int|
            from <= i && i != at && #[trigger] (i + needle.len()) <= hay.len() ==> hay.subrange(
                i,
                i + needle.len(),
            ) != needle,
    ensures
        text::occurrences_from(hay, needle, from) == 1,
    decreases hay.len() - from,
{
    if from == at {
        absent_texts_are_not_counted(hay, needle, at + needle.len());
    } else {
        assert(from + needle.len() <= hay.len());
        single_texts_are_counted_once(hay, needle, from + 1, at);
    }
}

/// A text that stands at two places that do not overlap is counted twice at least.
pub proof fn repeated_texts_are_counted_each(
    hay: Seq<char>,
    needle: Seq<char>,
    from: int,
    at: int,
    again: int,
)
    requires
        0 <= from <= at,
        needle.len() > 0,
        at + needle.len() <= again,
        again + needle.len() <= hay.len(),
        hay.subrange(at, at + needle.len()) == needle,
        hay.subrange(again, again + needle.len()) == needle,
    ensures
        text::occurrences_from(hay, needle, from) >= 2,
    decreases hay.len() - from,
{
    if text::occurs_at(hay, needle, from) {
        lemma_found_is_counted(hay, needle, from + needle.len(), again);
    } else {
        repeated_texts_are_counted_each(hay, needle, from + 1, at, again);
    }
}

proof fn lemma_found_is_counted(hay: Seq<char>, needle: Seq<char>, from: int, at: int)
    requires
        0 <= from <= at,
        needle.len() > 0,
        at + needle.len() <= hay.len(),
        hay.subrange(at, at + needle.len()) == needle,
    ensures
        text::occurrences_from(hay, needle, from) >= 1,
    decreases hay.len() - from,
{
    if !text::occurs_at(hay, needle, from) {
        lemma_found_is_counted(hay, needle, from + 1, at);
    }
}

/// A text counted at all stands somewhere.
pub proof fn counted_texts_stand_somewhere(hay: Seq<char>, needle: Seq<char>, from: int) -> (at:
    int)
    requires
        0 <= from,
        text::occurrences_from(hay, needle, from) >= 1,
    ensures
        from <= at,
        at + needle.len() <= hay.len(),
        hay.subrange(at, at + needle.len()) == needle,
    decreases hay.len() - from,
{
    if text::occurs_at(hay, needle, from) {
        from
    } else {
        counted_texts_stand_somewhere(hay, needle, from + 1)
    }
}

/// Whether a character is white space: one of the twenty-five that Unicode names.
pub open spec fn blank(c: char) -> bool {
    c == ' ' || c == '\t' || c == '\n' || c == '\r' || c == '\u{b}' || c == '\u{c}' || c == '\u{85}'
        || c == '\u{a0}' || c == '\u{1680}' || ('\u{2000}' <= c && c <= '\u{200a}') || c
        == '\u{2028}' || c == '\u{2029}' || c == '\u{202f}' || c == '\u{205f}' || c == '\u{3000}'
}

/// Trimming takes exactly the white space off either end: what lies between stays, as it
/// begins and ends with something else.
pub proof fn trimming_takes_white_space_off(before: Seq<char>, inner: Seq<char>, after: Seq<char>)
    requires
        forall|i: int| 0 <= i < before.len() ==> blank(#[trigger] before[i]),
        forall|i: int| 0 <= i < after.len() ==> blank(#[trigger] after[i]),
        inner.len() > 0 ==> !blank(inner[0]) && !blank(inner.last()),
        inner.len() == 0 ==> after.len() == 0,
    ensures
        text::trimmed(before + inner + after) == inner,
{
    lemma_trim_start(before, inner + after);
    assert(before + inner + after =~= before + (inner + after));
    if inner.len() == 0 {
        assert(inner + after =~= Seq::<char>::empty());
        assert(inner =~= Seq::<char>::empty());
    } else {
        assert((inner + after)[0] == inner[0]);
    }
    lemma_trim_end(inner, after);
}

proof fn lemma_trim_start(before: Seq<char>, rest: Seq<char>)
    requires
        forall|i: int| 0 <= i < before.len() ==> blank(#[trigger] before[i]),
        rest.len() > 0 ==> !blank(rest[0]),
    ensures
        text::trim_start(before + rest) == rest,
    decreases before.len(),
{
    if before.len() == 0 {
        assert(before + rest =~= rest);
    } else {
        assert(blank(before[0]));
        lemma_trim_start(before.drop_first(), rest);
        assert((before + rest).drop_first() =~= before.drop_first() + rest);
    }
}

proof fn lemma_trim_end(inner: Seq<char>, after: Seq<char>)
    requires
        forall|i: int| 0 <= i < after.len() ==> blank(#[trigger] after[i]),
        inner.len() > 0 ==> !blank(inner.last()),
    ensures
        text::trim_end(inner + after) == inner,
    decreases after.len(),
{
    if after.len() == 0 {
        assert(inner + after =~= inner);
    } else {
        assert(blank(after[after.len() - 1]));
        lemma_trim_end(inner, after.drop_last());
        assert((inner + after).drop_last() =~= inner + after.drop_last());
    }
}

/// A text cut to so many bytes is the longest of its beginnings that takes no more.
pub proof fn cut_texts_are_the_longest_beginnings(s: Seq<char>, limit: nat, n: int)
    requires
        0 <= n <= s.len(),
        encode_utf8(s.take(n)).len() <= limit,
        n < s.len() ==> encode_utf8(s.take(n + 1)).len() > limit,
    ensures
        text::prefix_within(s, limit) == s.take(n),
{
    text::lemma_prefix_within(s, limit);
    let m = text::prefix_within(s, limit).len() as int;
    if n < m {
        lemma_longer_takes_more(s, n + 1, m);
    } else if m < n {
        assert(text::utf8_len(s.take(n)) > limit);
    }
}

/// A longer beginning takes no fewer bytes.
pub proof fn lemma_longer_takes_more(s: Seq<char>, n: int, m: int)
    requires
        0 <= n <= m <= s.len(),
    ensures
        text::utf8_len(s.take(n)) <= text::utf8_len(s.take(m)),
{
    assert(s.take(m) =~= s.take(n) + s.subrange(n, m));
    text::lemma_encode_concat(s.take(n), s.subrange(n, m));
}

/// A text is as long in bytes as its UTF-8 form, and joined texts are as long as both.
pub proof fn lengths_add_up(a: Seq<char>, b: Seq<char>)
    ensures
        text::utf8_len(a) == encode_utf8(a).len(),
        text::utf8_len(a + b) == text::utf8_len(a) + text::utf8_len(b),
        a.len() <= text::utf8_len(a) <= 4 * a.len(),
{
    text::lemma_encode_concat(a, b);
    lemma_bytes_of_characters(a);
}

proof fn lemma_bytes_of_characters(s: Seq<char>)
    ensures
        s.len() <= encode_utf8(s).len() <= 4 * s.len(),
    decreases s.len(),
{
    if s.len() > 0 {
        lemma_bytes_of_characters(s.drop_first());
        assert(1 <= encode_scalar(s[0] as u32).len() <= 4);
    }
}

/// A text starts or ends with another exactly if it is that text with something behind
/// or before it.
pub proof fn beginnings_and_ends_are_found(a: Seq<char>, b: Seq<char>, s: Seq<char>)
    ensures
        text::starts_with(a + b, a),
        text::ends_with(a + b, b),
        text::starts_with(s, a) ==> s == a + s.skip(a.len() as int),
        text::ends_with(s, b) ==> s == s.take(s.len() - b.len()) + b,
{
    assert((a + b).subrange(0, a.len() as int) =~= a);
    assert((a + b).subrange((a + b).len() - b.len(), (a + b).len() as int) =~= b);
    if text::starts_with(s, a) {
        assert(s =~= s.subrange(0, a.len() as int) + s.skip(a.len() as int));
    }
    if text::ends_with(s, b) {
        assert(s =~= s.take(s.len() - b.len()) + s.subrange(s.len() - b.len(), s.len() as int));
    }
}

/// The last digit of a number in decimal is its remainder by ten, and the digits before
/// are those of its tenth.
pub proof fn numbers_are_written_digit_by_digit(n: nat)
    ensures
        text::decimal(n).last() == ('0' as int + n % 10) as char,
        n < 10 ==> text::decimal(n).len() == 1,
        n >= 10 ==> text::decimal(n).drop_last() == text::decimal(n / 10),
{
    if n >= 10 {
        assert(text::decimal(n / 10).push(text::digit(n % 10)).drop_last() =~= text::decimal(
            n / 10,
        ));
    }
}

} // verus!
