//! Text as sequences of characters, and the few string operations the rest of
//! the crate is written with.

use vstd::prelude::*;
use vstd::string::*;
use vstd::utf8::*;

verus! {

/// The number of bytes that UTF-8 spends on `s`.
pub open spec fn utf8_len(s: Seq<char>) -> nat {
    encode_utf8(s).len()
}

/// The length of `s` in bytes.
pub fn byte_length(s: &str) -> (n: usize)
    ensures
        n == utf8_len(s@),
{
    s.as_bytes().len()
}

/// Whether two texts hold the same characters.
pub fn same_text(a: &str, b: &str) -> (same: bool)
    ensures
        same == (a@ == b@),
{
    let left: &[u8] = a.as_bytes();
    let right: &[u8] = b.as_bytes();
    proof {
        encode_utf8_decode_utf8(a@);
        encode_utf8_decode_utf8(b@);
    }
    if left.len() != right.len() {
        return false;
    }
    let mut i: usize = 0;
    while i < left.len()
        invariant
            i <= left@.len(),
            left@.len() == right@.len(),
            left@ == encode_utf8(a@),
            right@ == encode_utf8(b@),
            forall|j: int| 0 <= j < i ==> left@[j] == right@[j],
        decreases left@.len() - i,
    {
        if left[i] != right[i] {
            return false;
        }
        i = i + 1;
    }
    assert(left@ =~= right@);
    true
}

/// The characters of `s`, in order.
pub fn characters(s: &str) -> (chars: Vec<char>)
    ensures
        chars@ == s@,
{
    let mut chars: Vec<char> = Vec::new();
    for c in it: s.chars()
        invariant
            it.seq() == s@,
            chars@ == s@.take(it.index() as int),
    {
        chars.push(c);
    }
    assert(s@.take(s@.len() as int) =~= s@);
    chars
}

/// The elements of `items` from `from` up to `to`.
pub fn portion(items: &Vec<char>, from: usize, to: usize) -> (part: Vec<char>)
    requires
        from <= to <= items@.len(),
    ensures
        part@ == items@.subrange(from as int, to as int),
{
    let mut part: Vec<char> = Vec::new();
    let mut i: usize = from;
    while i < to
        invariant
            from <= i <= to <= items@.len(),
            part@ == items@.subrange(from as int, i as int),
        decreases to - i,
    {
        part.push(items[i]);
        i = i + 1;
        assert(part@ =~= items@.subrange(from as int, i as int));
    }
    part
}

// ---------------------------------------------------------------------------
// Byte order
// ---------------------------------------------------------------------------

/// Lexicographic order of byte strings.
pub open spec fn bytes_le(a: Seq<u8>, b: Seq<u8>) -> bool
    decreases a.len(),
{
    if a.len() == 0 {
        true
    } else if b.len() == 0 {
        false
    } else if a[0] != b[0] {
        a[0] < b[0]
    } else {
        bytes_le(a.drop_first(), b.drop_first())
    }
}

/// The order of texts: that of their UTF-8 bytes.
pub open spec fn text_le(a: Seq<char>, b: Seq<char>) -> bool {
    bytes_le(encode_utf8(a), encode_utf8(b))
}

/// Whether `a` comes no later than `b` in the order of texts.
pub fn not_after(a: &str, b: &str) -> (le: bool)
    ensures
        le == text_le(a@, b@),
{
    let left: &[u8] = a.as_bytes();
    let right: &[u8] = b.as_bytes();
    let mut i: usize = 0;
    assert(left@.skip(0) =~= left@);
    assert(right@.skip(0) =~= right@);
    while i < left.len()
        invariant
            i <= left@.len(),
            i <= right@.len(),
            left@ == encode_utf8(a@),
            right@ == encode_utf8(b@),
            bytes_le(left@, right@) == bytes_le(left@.skip(i as int), right@.skip(i as int)),
        decreases left@.len() - i,
    {
        if i >= right.len() {
            return false;
        }
        if left[i] != right[i] {
            return left[i] < right[i];
        }
        assert(left@.skip(i as int).drop_first() =~= left@.skip(i + 1));
        assert(right@.skip(i as int).drop_first() =~= right@.skip(i + 1));
        i = i + 1;
    }
    true
}

/// Of two byte strings one comes no later than the other.
pub proof fn lemma_bytes_le_total(a: Seq<u8>, b: Seq<u8>)
    ensures
        bytes_le(a, b) || bytes_le(b, a),
    decreases a.len(),
{
    if a.len() > 0 && b.len() > 0 && a[0] == b[0] {
        lemma_bytes_le_total(a.drop_first(), b.drop_first());
    }
}

/// Byte strings that come no later than each other are the same.
pub proof fn lemma_bytes_le_antisymmetric(a: Seq<u8>, b: Seq<u8>)
    requires
        bytes_le(a, b),
        bytes_le(b, a),
    ensures
        a == b,
    decreases a.len(),
{
    if a.len() > 0 && b.len() > 0 {
        lemma_bytes_le_antisymmetric(a.drop_first(), b.drop_first());
        assert(a =~= seq![a[0]] + a.drop_first());
        assert(b =~= seq![b[0]] + b.drop_first());
    } else {
        assert(a =~= b);
    }
}

/// What comes no later than something comes no later than what follows that.
pub proof fn lemma_bytes_le_transitive(a: Seq<u8>, b: Seq<u8>, c: Seq<u8>)
    requires
        bytes_le(a, b),
        bytes_le(b, c),
    ensures
        bytes_le(a, c),
    decreases a.len(),
{
    if a.len() > 0 && b.len() > 0 && c.len() > 0 && a[0] == b[0] && b[0] == c[0] {
        lemma_bytes_le_transitive(a.drop_first(), b.drop_first(), c.drop_first());
    }
}

/// The order of texts is total, and texts that come no later than each other
/// are the same.
pub proof fn lemma_text_order(a: Seq<char>, b: Seq<char>, c: Seq<char>)
    ensures
        text_le(a, a),
        text_le(a, b) || text_le(b, a),
        text_le(a, b) && text_le(b, a) ==> a == b,
        text_le(a, b) && text_le(b, c) ==> text_le(a, c),
{
    lemma_bytes_le_total(encode_utf8(a), encode_utf8(a));
    lemma_bytes_le_total(encode_utf8(a), encode_utf8(b));
    if text_le(a, b) && text_le(b, a) {
        lemma_bytes_le_antisymmetric(encode_utf8(a), encode_utf8(b));
        encode_utf8_decode_utf8(a);
        encode_utf8_decode_utf8(b);
    }
    if text_le(a, b) && text_le(b, c) {
        lemma_bytes_le_transitive(encode_utf8(a), encode_utf8(b), encode_utf8(c));
    }
}

// ---------------------------------------------------------------------------
// Truncation
// ---------------------------------------------------------------------------

/// The longest prefix of `s` that takes no more than `limit` bytes.
pub open spec fn prefix_within(s: Seq<char>, limit: nat) -> Seq<char>
    decreases s.len(),
{
    if utf8_len(s) <= limit || s.len() == 0 {
        s
    } else {
        prefix_within(s.drop_last(), limit)
    }
}

/// The bytes of two texts one after the other are those of the texts joined.
pub proof fn lemma_encode_concat(a: Seq<char>, b: Seq<char>)
    ensures
        encode_utf8(a + b) == encode_utf8(a) + encode_utf8(b),
    decreases a.len(),
{
    if a.len() == 0 {
        assert(a + b =~= b);
        assert(encode_utf8(a) + encode_utf8(b) =~= encode_utf8(b));
    } else {
        lemma_encode_concat(a.drop_first(), b);
        assert((a + b).drop_first() =~= a.drop_first() + b);
        assert(encode_utf8(a + b) =~= encode_utf8(a) + encode_utf8(b));
    }
}

/// Where a prefix of the characters ends, a character begins or the text ends.
proof fn lemma_prefix_ends_on_boundary(a: Seq<char>, b: Seq<char>)
    ensures
        is_char_boundary(encode_utf8(a + b), utf8_len(a) as int),
    decreases a.len(),
{
    encode_utf8_valid_utf8(a + b);
    if a.len() > 0 {
        let whole = encode_utf8(a + b);
        encode_utf8_first_scalar(a + b);
        assert((a + b)[0] == a[0]);
        assert((a + b).drop_first() =~= a.drop_first() + b);
        lemma_prefix_ends_on_boundary(a.drop_first(), b);
        assert(pop_first_scalar(whole) =~= encode_utf8(a.drop_first() + b));
        lemma_encode_concat(a, b);
        assert(utf8_len(a) == encode_scalar(a[0] as u32).len() + utf8_len(a.drop_first()));
    }
}

/// What `prefix_within` gives is a prefix, fits, and no longer prefix fits.
pub proof fn lemma_prefix_within(s: Seq<char>, limit: nat)
    ensures
        prefix_within(s, limit).len() <= s.len(),
        prefix_within(s, limit) == s.take(prefix_within(s, limit).len() as int),
        utf8_len(prefix_within(s, limit)) <= limit,
        forall|k: int|
            prefix_within(s, limit).len() < k <= s.len() ==> utf8_len(#[trigger] s.take(k)) > limit,
    decreases s.len(),
{
    if utf8_len(s) <= limit || s.len() == 0 {
        assert(s.take(s.len() as int) =~= s);
    } else {
        let shorter = s.drop_last();
        lemma_prefix_within(shorter, limit);
        let kept = prefix_within(s, limit);
        assert(shorter.take(kept.len() as int) =~= s.take(kept.len() as int));
        assert forall|k: int| kept.len() < k <= s.len() implies utf8_len(#[trigger] s.take(k))
            > limit by {
            if k == s.len() {
                assert(s.take(k) =~= s);
            } else {
                assert(s.take(k) =~= shorter.take(k));
            }
        }
    }
}

/// The longest prefix of `s` that takes no more than `limit` bytes.
pub fn truncated(s: &str, limit: usize) -> (kept: String)
    ensures
        kept@ == prefix_within(s@, limit as nat),
{
    let ghost bytes = encode_utf8(s@);
    proof {
        encode_utf8_valid_utf8(s@);
        is_char_boundary_start_end_of_seq(bytes);
    }
    if byte_length(s) <= limit {
        return s.to_owned();
    }
    let mut boundary: usize = limit;
    while !s.is_char_boundary(boundary)
        invariant
            boundary <= limit < bytes.len(),
            bytes == encode_utf8(s@),
            is_char_boundary(bytes, 0),
            forall|m: int| boundary < m <= limit ==> !is_char_boundary(bytes, m),
        decreases boundary,
    {
        boundary = boundary - 1;
    }
    let (head, tail) = s.split_at(boundary);
    proof {
        decode_utf8_split(bytes, boundary as int);
        encode_utf8_decode_utf8(s@);
        encode_utf8_decode_utf8(head@);
        encode_utf8_decode_utf8(tail@);
        assert(s@ =~= head@ + tail@);
        lemma_prefix_within(s@, limit as nat);
        let kept = prefix_within(s@, limit as nat);
        assert(s@.take(head@.len() as int) =~= head@);
        assert(utf8_len(head@) == boundary);
        assert(head@.len() <= kept.len());
        if head@.len() < kept.len() {
            let rest = s@.skip(kept.len() as int);
            assert(kept + rest =~= s@);
            lemma_prefix_ends_on_boundary(kept, rest);
            let between = s@.subrange(head@.len() as int, kept.len() as int);
            assert(head@ + between =~= kept);
            lemma_encode_concat(head@, between);
            assert(utf8_len(between) > 0) by {
                encode_utf8_decode_utf8(between);
                assert(between.len() > 0);
                if encode_utf8(between).len() == 0 {
                    assert(encode_utf8(between) =~= encode_utf8(Seq::<char>::empty()));
                    encode_utf8_decode_utf8(Seq::<char>::empty());
                }
            }
        }
        assert(head@ =~= kept);
    }
    head.to_owned()
}

/// The empty text takes no bytes.
pub proof fn lemma_empty_text_has_no_bytes()
    ensures
        utf8_len(Seq::empty()) == 0,
{
}

// ---------------------------------------------------------------------------
// White space
// ---------------------------------------------------------------------------

/// Whether a character has the Unicode property `White_Space`.
pub open spec fn white_space(c: char) -> bool {
    ('\u{9}' <= c && c <= '\u{d}') || c == '\u{20}' || c == '\u{85}' || c == '\u{a0}' || c
        == '\u{1680}' || ('\u{2000}' <= c && c <= '\u{200a}') || c == '\u{2028}' || c == '\u{2029}'
        || c == '\u{202f}' || c == '\u{205f}' || c == '\u{3000}'
}

/// Whether a character has the Unicode property `White_Space`.
fn is_white_space(c: char) -> (answer: bool)
    ensures
        answer == white_space(c),
{
    ('\u{9}' <= c && c <= '\u{d}') || c == '\u{20}' || c == '\u{85}' || c == '\u{a0}' || c
        == '\u{1680}' || ('\u{2000}' <= c && c <= '\u{200a}') || c == '\u{2028}' || c == '\u{2029}'
        || c == '\u{202f}' || c == '\u{205f}' || c == '\u{3000}'
}

/// `s` without the white space it starts with.
pub open spec fn trim_start(s: Seq<char>) -> Seq<char>
    decreases s.len(),
{
    if s.len() > 0 && white_space(s[0]) {
        trim_start(s.drop_first())
    } else {
        s
    }
}

/// `s` without the white space it ends with.
pub open spec fn trim_end(s: Seq<char>) -> Seq<char>
    decreases s.len(),
{
    if s.len() > 0 && white_space(s.last()) {
        trim_end(s.drop_last())
    } else {
        s
    }
}

/// `s` without white space at either end.
pub open spec fn trimmed(s: Seq<char>) -> Seq<char> {
    trim_end(trim_start(s))
}

/// Where the trimmed form of `chars` from `from` up to `to` begins and ends.
pub fn trim_range(chars: &Vec<char>, from: usize, to: usize) -> (range: (usize, usize))
    requires
        from <= to <= chars@.len(),
    ensures
        from <= range.0 <= range.1 <= to,
        chars@.subrange(range.0 as int, range.1 as int) == trimmed(
            chars@.subrange(from as int, to as int),
        ),
{
    let ghost whole = chars@.subrange(from as int, to as int);
    let mut start: usize = from;
    while start < to && is_white_space(chars[start])
        invariant
            from <= start <= to <= chars@.len(),
            whole == chars@.subrange(from as int, to as int),
            trim_start(whole) == trim_start(chars@.subrange(start as int, to as int)),
        decreases to - start,
    {
        assert(chars@.subrange(start as int, to as int).drop_first() =~= chars@.subrange(
            start + 1,
            to as int,
        ));
        start = start + 1;
    }
    let ghost rest = chars@.subrange(start as int, to as int);
    assert(rest == trim_start(whole));
    let mut end: usize = to;
    while start < end && is_white_space(chars[end - 1])
        invariant
            start <= end <= to <= chars@.len(),
            trim_end(rest) == trim_end(chars@.subrange(start as int, end as int)),
        decreases end,
    {
        assert(chars@.subrange(start as int, end as int).drop_last() =~= chars@.subrange(
            start as int,
            end - 1,
        ));
        end = end - 1;
    }
    (start, end)
}

// ---------------------------------------------------------------------------
// Search
// ---------------------------------------------------------------------------

/// Whether `needle` stands in `hay` at position `i`.
pub open spec fn occurs_at(hay: Seq<char>, needle: Seq<char>, i: int) -> bool {
    &&& 0 <= i
    &&& i + needle.len() <= hay.len()
    &&& hay.subrange(i, i + needle.len()) == needle
}

/// The first position from `i` on at which `needle` stands in `hay`.
pub open spec fn find_from(hay: Seq<char>, needle: Seq<char>, i: int) -> Option<int>
    decreases hay.len() + 1 - i,
{
    if i < 0 || i + needle.len() > hay.len() {
        None
    } else if occurs_at(hay, needle, i) {
        Some(i)
    } else {
        find_from(hay, needle, i + 1)
    }
}

/// How many times `needle` stands in `hay` from `i` on, counted from the left
/// without overlap.
pub open spec fn occurrences_from(hay: Seq<char>, needle: Seq<char>, i: int) -> nat
    decreases hay.len() - i,
{
    if i < 0 || needle.len() == 0 || i + needle.len() > hay.len() {
        0
    } else if occurs_at(hay, needle, i) {
        1 + occurrences_from(hay, needle, i + needle.len())
    } else {
        occurrences_from(hay, needle, i + 1)
    }
}

/// Whether `needle` stands in `hay` at position `i`.
pub fn stands_at(hay: &Vec<char>, needle: &Vec<char>, i: usize) -> (found: bool)
    ensures
        found == occurs_at(hay@, needle@, i as int),
{
    if needle.len() > hay.len() || i > hay.len() - needle.len() {
        return false;
    }
    let mut j: usize = 0;
    while j < needle.len()
        invariant
            j <= needle@.len(),
            i + needle@.len() <= hay.len(),
            forall|k: int| 0 <= k < j ==> hay@[i + k] == needle@[k],
        decreases needle@.len() - j,
    {
        if hay[i + j] != needle[j] {
            assert(hay@.subrange(i as int, i + needle@.len())[j as int] != needle@[j as int]);
            return false;
        }
        j = j + 1;
    }
    assert(hay@.subrange(i as int, i + needle@.len()) =~= needle@);
    true
}

/// The first position from `from` on at which `needle` stands in `hay`.
pub fn find(hay: &Vec<char>, needle: &Vec<char>, from: usize) -> (found: Option<usize>)
    ensures
        match found {
            Some(i) => find_from(hay@, needle@, from as int) == Some(i as int)
                && i + needle@.len() <= hay@.len() && from <= i,
            None => find_from(hay@, needle@, from as int) is None,
        },
{
    if needle.len() > hay.len() {
        return None;
    }
    let last: usize = hay.len() - needle.len();
    let mut i: usize = from;
    while i <= last
        invariant
            last == hay@.len() - needle@.len(),
            from <= i,
            from <= last ==> i <= last + 1,
            find_from(hay@, needle@, from as int) == find_from(hay@, needle@, i as int),
        decreases last + 1 - i,
    {
        if stands_at(hay, needle, i) {
            return Some(i);
        }
        if i == last {
            assert(find_from(hay@, needle@, i + 1) is None);
            return None;
        }
        i = i + 1;
    }
    None
}

/// How many times `needle` stands in `hay`, counted from the left without
/// overlap.
pub fn occurrences(hay: &Vec<char>, needle: &Vec<char>) -> (count: usize)
    requires
        needle@.len() > 0,
    ensures
        count == occurrences_from(hay@, needle@, 0),
{
    if needle.len() > hay.len() {
        return 0;
    }
    let mut count: usize = 0;
    let mut i: usize = 0;
    while i < hay.len() && needle.len() <= hay.len() - i
        invariant
            needle@.len() > 0,
            count <= i <= hay@.len(),
            occurrences_from(hay@, needle@, 0) == count + occurrences_from(
                hay@,
                needle@,
                i as int,
            ),
        decreases hay@.len() - i,
    {
        if stands_at(hay, needle, i) {
            count = count + 1;
            i = i + needle.len();
        } else {
            i = i + 1;
        }
    }
    count
}

/// Whether `s` starts with `prefix`.
pub open spec fn starts_with(s: Seq<char>, prefix: Seq<char>) -> bool {
    occurs_at(s, prefix, 0)
}

/// Whether `s` ends with `suffix`.
pub open spec fn ends_with(s: Seq<char>, suffix: Seq<char>) -> bool {
    occurs_at(s, suffix, s.len() - suffix.len())
}

/// Whether `s` starts with `prefix`.
pub fn has_prefix(s: &Vec<char>, prefix: &str) -> (answer: bool)
    ensures
        answer == starts_with(s@, prefix@),
{
    stands_at(s, &characters(prefix), 0)
}

/// Whether `s` ends with `suffix`.
pub fn has_suffix(s: &Vec<char>, suffix: &str) -> (answer: bool)
    ensures
        answer == ends_with(s@, suffix@),
{
    let end: Vec<char> = characters(suffix);
    if end.len() > s.len() {
        return false;
    }
    stands_at(s, &end, s.len() - end.len())
}

// ---------------------------------------------------------------------------
// Numbers
// ---------------------------------------------------------------------------

/// The decimal digit of a number below ten.
pub open spec fn digit(n: nat) -> char {
    (48 + n) as char
}

/// A number in decimal digits.
pub open spec fn decimal(n: nat) -> Seq<char>
    decreases n,
{
    if n < 10 {
        seq![digit(n)]
    } else {
        decimal(n / 10).push(digit(n % 10))
    }
}

/// The decimal digit of a number below ten.
fn digit_text(n: usize) -> (written: &'static str)
    requires
        n < 10,
    ensures
        written@ == seq![digit(n as nat)],
{
    proof {
        reveal_strlit("0");
        reveal_strlit("1");
        reveal_strlit("2");
        reveal_strlit("3");
        reveal_strlit("4");
        reveal_strlit("5");
        reveal_strlit("6");
        reveal_strlit("7");
        reveal_strlit("8");
        reveal_strlit("9");
    }
    match n {
        0 => "0",
        1 => "1",
        2 => "2",
        3 => "3",
        4 => "4",
        5 => "5",
        6 => "6",
        7 => "7",
        8 => "8",
        _ => "9",
    }
}

/// A number in decimal digits.
pub fn decimal_text(n: usize) -> (written: String)
    ensures
        written@ == decimal(n as nat),
    decreases n,
{
    if n < 10 {
        digit_text(n).to_owned()
    } else {
        let mut written: String = decimal_text(n / 10);
        written.append(digit_text(n % 10));
        assert(written@ =~= decimal(n as nat));
        written
    }
}

} // verus!
