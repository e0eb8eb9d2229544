//! How JSON values are written.

use crate::json;
use crate::text;
use vstd::prelude::*;
use vstd::string::*;
use vstd::utf8::*;

verus! {

/// What is neither a text, an array nor an object is written as JSON has it.
pub proof fn plain_values_are_written_as_they_are(number: Seq<char>)
    ensures
        json::stable_text(json::Json::Null) == "null"@,
        json::stable_text(json::Json::Bool(true)) == "true"@,
        json::stable_text(json::Json::Bool(false)) == "false"@,
        json::stable_text(json::Json::Number(number)) == number,
{
}

proof fn lemma_escaped_adds_up(a: Seq<char>, b: Seq<char>)
    ensures
        json::escaped_all(a + b) == json::escaped_all(a) + json::escaped_all(b),
    decreases b.len(),
{
    if b.len() == 0 {
        assert(a + b =~= a);
        assert(json::escaped_all(a) + json::escaped_all(b) =~= json::escaped_all(a));
    } else {
        lemma_escaped_adds_up(a, b.drop_last());
        assert((a + b).drop_last() =~= a + b.drop_last());
        assert((a + b).last() == b.last());
        assert(json::escaped_all(a + b) =~= json::escaped_all(a) + json::escaped_all(b));
    }
}

/// A text stands in quotes, and is written character by character.
pub proof fn texts_stand_in_quotes(a: Seq<char>, b: Seq<char>)
    ensures
        json::stable_text(json::Json::Text(Seq::empty())) == seq!['"', '"'],
        json::stable_text(json::Json::Text(a)).len() >= 2,
        json::stable_text(json::Json::Text(a + b)) == json::stable_text(
            json::Json::Text(a),
        ).drop_last() + json::stable_text(json::Json::Text(b)).drop_first(),
{
    lemma_escaped_adds_up(a, b);
    assert(json::quoted(Seq::empty()) =~= seq!['"', '"']);
    assert(json::quoted(a + b) =~= json::quoted(a).drop_last() + json::quoted(b).drop_first());
}

/// How a character is written in a text: quotes and backslashes behind a backslash, the
/// usual letters for the usual controls, four hexadecimal digits for the others, and
/// everything else as it is.
pub proof fn characters_are_escaped(c: char)
    ensures
        json::stable_text(json::Json::Text(seq![c])) == if c == '"' || c == '\\' {
            seq!['"', '\\', c, '"']
        } else if c == '\n' {
            seq!['"', '\\', 'n', '"']
        } else if c == '\r' {
            seq!['"', '\\', 'r', '"']
        } else if c == '\t' {
            seq!['"', '\\', 't', '"']
        } else if c == '\u{8}' {
            seq!['"', '\\', 'b', '"']
        } else if c == '\u{c}' {
            seq!['"', '\\', 'f', '"']
        } else if (c as int) < 32 {
            seq![
                '"',
                '\\',
                'u',
                '0',
                '0',
                if (c as int) < 16 {
                    '0'
                } else {
                    '1'
                },
                "0123456789abcdef"@[c as int % 16],
                '"',
            ]
        } else {
            seq!['"', c, '"']
        },
{
    reveal_strlit("0123456789abcdef");
    let one = seq![c];
    assert(one.drop_last() =~= Seq::<char>::empty());
    assert(json::escaped_all(one.drop_last()) =~= Seq::<char>::empty());
    assert(json::escaped_all(one) =~= json::escaped(c));
    if (c as int) < 32 {
        let n = c as int % 16;
        let digits = "0123456789abcdef"@;
        assert(digits[0] == '0' && digits[1] == '1' && digits[2] == '2' && digits[3] == '3');
        assert(digits[4] == '4' && digits[5] == '5' && digits[6] == '6' && digits[7] == '7');
        assert(digits[8] == '8' && digits[9] == '9' && digits[10] == 'a' && digits[11] == 'b');
        assert(digits[12] == 'c' && digits[13] == 'd' && digits[14] == 'e' && digits[15] == 'f');
        assert(json::hex_digit(n) == digits[n]);
    }
    assert(json::quoted(one) =~= seq!['"'] + json::escaped(c) + seq!['"']);
}

proof fn lemma_texts_add_up(a: Seq<json::Json>, b: Seq<json::Json>)
    ensures
        json::stable_texts(a + b) == json::stable_texts(a) + json::stable_texts(b),
{
    json::lemma_stable_texts(a);
    json::lemma_stable_texts(b);
    json::lemma_stable_texts(a + b);
    assert(json::stable_texts(a + b) =~= json::stable_texts(a) + json::stable_texts(b));
}

/// Texts are joined one after the other.
pub proof fn lemma_joined_adds_up(a: Seq<Seq<char>>, b: Seq<Seq<char>>)
    requires
        a.len() > 0,
        b.len() > 0,
    ensures
        json::comma_joined(a + b) == json::comma_joined(a) + ","@ + json::comma_joined(b),
    decreases b.len(),
{
    let all = a + b;
    assert(all.drop_last() =~= a + b.drop_last());
    if b.len() == 1 {
        assert(a + b.drop_last() =~= a);
    } else {
        lemma_joined_adds_up(a, b.drop_last());
        assert(json::comma_joined(all) =~= json::comma_joined(a) + ","@ + json::comma_joined(b));
    }
}

/// An array stands in square brackets, with a comma between one element and the next.
pub proof fn arrays_stand_in_brackets(item: json::Json, a: Seq<json::Json>, b: Seq<json::Json>)
    ensures
        json::stable_text(json::Json::Array(Seq::empty())) == seq!['[', ']'],
        json::stable_text(json::Json::Array(seq![item])) == seq!['['] + json::stable_text(item)
            + seq![']'],
        a.len() > 0 && b.len() > 0 ==> json::stable_text(json::Json::Array(a + b))
            == json::stable_text(json::Json::Array(a)).drop_last() + seq![','] + json::stable_text(
            json::Json::Array(b),
        ).drop_first(),
{
    reveal_strlit("[");
    reveal_strlit("]");
    reveal_strlit(",");
    assert("["@ =~= seq!['[']);
    assert("]"@ =~= seq![']']);
    assert(","@ =~= seq![',']);
    let none = Seq::<json::Json>::empty();
    json::lemma_stable_texts(none);
    assert(json::stable_texts(none) =~= Seq::<Seq<char>>::empty());
    assert(json::stable_text(json::Json::Array(none)) =~= seq!['[', ']']);
    json::lemma_stable_texts(seq![item]);
    assert(json::stable_texts(seq![item]) =~= seq![json::stable_text(item)]);
    if a.len() > 0 && b.len() > 0 {
        lemma_texts_add_up(a, b);
        json::lemma_stable_texts(a);
        json::lemma_stable_texts(b);
        lemma_joined_adds_up(json::stable_texts(a), json::stable_texts(b));
        assert(json::stable_text(json::Json::Array(a + b)) =~= json::stable_text(
            json::Json::Array(a),
        ).drop_last() + seq![','] + json::stable_text(json::Json::Array(b)).drop_first());
    }
}

/// Whether a text comes before another: up to some byte they are the same, and there the
/// first ends or has the smaller byte.
pub open spec fn comes_before(a: Seq<char>, b: Seq<char>) -> bool {
    let x = encode_utf8(a);
    let y = encode_utf8(b);
    exists|k: int|
        0 <= k <= x.len() && k < y.len() && #[trigger] x.take(k) == y.take(k) && (x.len() == k
            || x[k] < y[k])
}

proof fn lemma_before(x: Seq<u8>, y: Seq<u8>, k: int)
    requires
        0 <= k <= x.len(),
        k < y.len(),
        x.take(k) == y.take(k),
        x.len() == k || x[k] < y[k],
    ensures
        text::bytes_le(x, y),
        !text::bytes_le(y, x),
    decreases k,
{
    if k > 0 {
        assert(x[0] == x.take(k)[0]);
        assert(y[0] == y.take(k)[0]);
        assert(x.drop_first().take(k - 1) =~= x.take(k).drop_first());
        assert(y.drop_first().take(k - 1) =~= y.take(k).drop_first());
        lemma_before(x.drop_first(), y.drop_first(), k - 1);
    }
}

/// Texts are ordered by their bytes: of two of which one comes before the other, that one
/// is not after the other, and the other is after it.
pub proof fn texts_are_ordered_by_their_bytes(a: Seq<char>, b: Seq<char>)
    requires
        comes_before(a, b),
    ensures
        text::text_le(a, b),
        !text::text_le(b, a),
{
    let x = encode_utf8(a);
    let y = encode_utf8(b);
    let k = choose|k: int|
        0 <= k <= x.len() && k < y.len() && #[trigger] x.take(k) == y.take(k) && (x.len() == k
            || x[k] < y[k]);
    lemma_before(x, y, k);
}

proof fn lemma_sorted_from(entries: Seq<(Seq<char>, Seq<char>)>)
    requires
        forall|i: int, j: int|
            0 <= i < j < entries.len() ==> comes_before(
                (#[trigger] entries[i]).0,
                (#[trigger] entries[j]).0,
            ),
    ensures
        json::sort_by_name(entries) == entries,
    decreases entries.len(),
{
    if entries.len() > 0 {
        let shorter = entries.drop_last();
        assert forall|i: int, j: int| 0 <= i < j < shorter.len() implies comes_before(
            (#[trigger] shorter[i]).0,
            (#[trigger] shorter[j]).0,
        ) by {
            assert(shorter[i] == entries[i] && shorter[j] == entries[j]);
        }
        lemma_sorted_from(shorter);
        if shorter.len() > 0 {
            let i = shorter.len() - 1;
            assert(shorter.last() == entries[i]);
            assert(comes_before(entries[i].0, entries[i + 1].0));
            texts_are_ordered_by_their_bytes(entries[i].0, entries[i + 1].0);
        }
        assert(shorter.push(entries.last()) =~= entries);
    }
}

/// The text of an object whose members stand in order of name.
proof fn lemma_object_text(members: Seq<(Seq<char>, json::Json)>)
    requires
        forall|i: int, j: int|
            0 <= i < j < members.len() ==> comes_before(
                (#[trigger] members[i]).0,
                (#[trigger] members[j]).0,
            ),
    ensures
        json::stable_text(json::Json::Object(members)) == seq!['{'] + json::comma_joined(
            Seq::new(
                members.len(),
                |i: int|
                    json::stable_text(json::Json::Text(members[i].0)) + seq![':']
                        + json::stable_text(members[i].1),
            ),
        ) + seq!['}'],
{
    reveal_strlit("{");
    reveal_strlit("}");
    reveal_strlit(":");
    assert("{"@ =~= seq!['{']);
    assert("}"@ =~= seq!['}']);
    assert(":"@ =~= seq![':']);
    json::lemma_named_texts(members);
    let named = json::named_texts(members);
    assert forall|i: int, j: int| 0 <= i < j < named.len() implies comes_before(
        (#[trigger] named[i]).0,
        (#[trigger] named[j]).0,
    ) by {
        assert(comes_before(members[i].0, members[j].0));
    }
    lemma_sorted_from(named);
    assert(named.map_values(|member: (Seq<char>, Seq<char>)| json::member_text(member))
        =~= Seq::new(
        members.len(),
        |i: int|
            json::stable_text(json::Json::Text(members[i].0)) + seq![':'] + json::stable_text(
                members[i].1,
            ),
    ));
}

/// An object stands in braces, each member with its name as a text, a colon and its value,
/// in order of name, with a comma between one and the next.
pub proof fn objects_stand_in_braces(
    members: Seq<(Seq<char>, json::Json)>,
    name: Seq<char>,
    value: json::Json,
)
    requires
        forall|i: int, j: int|
            0 <= i < j < members.len() ==> comes_before(
                (#[trigger] members[i]).0,
                (#[trigger] members[j]).0,
            ),
        forall|i: int| 0 <= i < members.len() ==> comes_before((#[trigger] members[i]).0, name),
    ensures
        json::stable_text(json::Json::Object(Seq::empty())) == seq!['{', '}'],
        json::stable_text(json::Json::Object(seq![(name, value)])) == seq!['{'] + json::stable_text(
            json::Json::Text(name),
        ) + seq![':'] + json::stable_text(value) + seq!['}'],
        members.len() > 0 ==> json::stable_text(json::Json::Object(members.push((name, value))))
            == json::stable_text(json::Json::Object(members)).drop_last() + seq![',']
            + json::stable_text(json::Json::Text(name)) + seq![':'] + json::stable_text(value)
            + seq!['}'],
{
    reveal_strlit(",");
    assert(","@ =~= seq![',']);
    let none = Seq::<(Seq<char>, json::Json)>::empty();
    let one = seq![(name, value)];
    let all = members.push((name, value));
    let written = |m: Seq<(Seq<char>, json::Json)>|
        Seq::new(
            m.len(),
            |i: int|
                json::stable_text(json::Json::Text(m[i].0)) + seq![':'] + json::stable_text(m[i].1),
        );
    let last = json::stable_text(json::Json::Text(name)) + seq![':'] + json::stable_text(value);
    lemma_object_text(none);
    assert(written(none) =~= Seq::<Seq<char>>::empty());
    assert(json::comma_joined(Seq::<Seq<char>>::empty()) =~= Seq::<char>::empty());
    assert(json::stable_text(json::Json::Object(none)) =~= seq!['{', '}']);
    lemma_object_text(one);
    assert(written(one) =~= seq![last]);
    assert(json::stable_text(json::Json::Object(one)) =~= seq!['{'] + json::stable_text(
        json::Json::Text(name),
    ) + seq![':'] + json::stable_text(value) + seq!['}']);
    if members.len() > 0 {
        assert forall|i: int, j: int| 0 <= i < j < all.len() implies comes_before(
            (#[trigger] all[i]).0,
            (#[trigger] all[j]).0,
        ) by {
            assert(all[i] == members[i]);
            if j < members.len() {
                assert(all[j] == members[j]);
                assert(comes_before(members[i].0, members[j].0));
            } else {
                assert(comes_before(members[i].0, name));
            }
        }
        lemma_object_text(all);
        lemma_object_text(members);
        assert(written(all) =~= written(members).push(last));
        assert(written(members).push(last).drop_last() =~= written(members));
        assert(json::stable_text(json::Json::Object(all)) =~= json::stable_text(
            json::Json::Object(members),
        ).drop_last() + seq![','] + json::stable_text(json::Json::Text(name)) + seq![':']
            + json::stable_text(value) + seq!['}']);
    }
}

} // verus!
