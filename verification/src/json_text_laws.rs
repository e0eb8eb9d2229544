//! Stable texts tell JSON values apart: values with the same stable text are the
//! same. The text of a value ends where the value ends, so texts that stand one
//! after the other, with commas between them, can be parted again in one way only.

use crate::json;
use crate::json::Json;
use crate::json_laws;
use vstd::prelude::*;
use vstd::string::*;

verus! {

// ---------------------------------------------------------------------------
// Strings
// ---------------------------------------------------------------------------

/// Equal texts with parts of the same length in front have the same parts.
proof fn lemma_same_front(p: Seq<char>, x: Seq<char>, q: Seq<char>, y: Seq<char>)
    requires
        p + x == q + y,
        p.len() == q.len(),
    ensures
        p == q,
        x == y,
{
    assert(p =~= (p + x).take(p.len() as int));
    assert(q =~= (q + y).take(q.len() as int));
    assert(x =~= (p + x).skip(p.len() as int));
    assert(y =~= (q + y).skip(q.len() as int));
}

/// A character that stands in front of the rest of a JSON string can be told from
/// the text.
proof fn lemma_escaped_front(c: char, d: char, x: Seq<char>, y: Seq<char>)
    requires
        json::escaped(c) + x == json::escaped(d) + y,
    ensures
        c == d,
        x == y,
{
    let l = json::escaped(c) + x;
    let r = json::escaped(d) + y;
    assert(l[0] == json::escaped(c)[0]);
    assert(r[0] == json::escaped(d)[0]);
    if l[0] == '\\' {
        assert(json::escaped(c).len() >= 2 && json::escaped(d).len() >= 2);
        assert(l[1] == json::escaped(c)[1]);
        assert(r[1] == json::escaped(d)[1]);
        if l[1] == 'u' {
            assert(json::escaped(c).len() == 6 && json::escaped(d).len() == 6);
            assert(l[4] == json::escaped(c)[4]);
            assert(r[4] == json::escaped(d)[4]);
            assert(l[5] == json::escaped(c)[5]);
            assert(r[5] == json::escaped(d)[5]);
            assert(c as int / 16 == d as int / 16);
            assert(c as int % 16 == d as int % 16);
            assert(c as int == d as int);
        }
    }
    lemma_same_front(json::escaped(c), x, json::escaped(d), y);
}

proof fn lemma_escaped_all_front(s: Seq<char>)
    requires
        s.len() > 0,
    ensures
        json::escaped_all(s) == json::escaped(s[0]) + json::escaped_all(s.drop_first()),
    decreases s.len(),
{
    if s.len() == 1 {
        assert(s.drop_last() =~= Seq::<char>::empty());
        assert(s.drop_first() =~= Seq::<char>::empty());
        assert(json::escaped_all(Seq::<char>::empty()) =~= Seq::<char>::empty());
        assert(json::escaped_all(s) =~= json::escaped(s[0]) + json::escaped_all(s.drop_first()));
    } else {
        lemma_escaped_all_front(s.drop_last());
        assert(s.drop_last().drop_first() =~= s.drop_first().drop_last());
        assert(json::escaped_all(s) =~= json::escaped(s[0]) + json::escaped_all(s.drop_first()));
    }
}

/// Where a JSON string ends can be told from the text.
proof fn lemma_escaped_all_split(s: Seq<char>, t: Seq<char>, x: Seq<char>, y: Seq<char>)
    requires
        json::escaped_all(s) + (seq!['"'] + x) == json::escaped_all(t) + (seq!['"'] + y),
    ensures
        s == t,
        x == y,
    decreases s.len(),
{
    let l = json::escaped_all(s) + (seq!['"'] + x);
    let r = json::escaped_all(t) + (seq!['"'] + y);
    if s.len() > 0 {
        lemma_escaped_all_front(s);
        assert(l[0] == json::escaped(s[0])[0]);
    } else {
        assert(l =~= seq!['"'] + x);
        assert(l[0] == '"');
    }
    if t.len() > 0 {
        lemma_escaped_all_front(t);
        assert(r[0] == json::escaped(t[0])[0]);
    } else {
        assert(r =~= seq!['"'] + y);
        assert(r[0] == '"');
    }
    if s.len() == 0 {
        assert(t.len() == 0);
        assert(s =~= t);
        lemma_same_front(seq!['"'], x, seq!['"'], y);
    } else {
        assert(t.len() > 0);
        let rest_s = json::escaped_all(s.drop_first()) + (seq!['"'] + x);
        let rest_t = json::escaped_all(t.drop_first()) + (seq!['"'] + y);
        assert(l =~= json::escaped(s[0]) + rest_s);
        assert(r =~= json::escaped(t[0]) + rest_t);
        lemma_escaped_front(s[0], t[0], rest_s, rest_t);
        lemma_escaped_all_split(s.drop_first(), t.drop_first(), x, y);
        assert(s =~= seq![s[0]] + s.drop_first());
        assert(t =~= seq![t[0]] + t.drop_first());
    }
}

proof fn lemma_quoted_split(s: Seq<char>, t: Seq<char>, x: Seq<char>, y: Seq<char>)
    requires
        json::quoted(s) + x == json::quoted(t) + y,
    ensures
        s == t,
        x == y,
{
    let l = json::escaped_all(s) + (seq!['"'] + x);
    let r = json::escaped_all(t) + (seq!['"'] + y);
    assert(json::quoted(s) + x =~= seq!['"'] + l);
    assert(json::quoted(t) + y =~= seq!['"'] + r);
    lemma_same_front(seq!['"'], l, seq!['"'], r);
    lemma_escaped_all_split(s, t, x, y);
}

// ---------------------------------------------------------------------------
// Values
// ---------------------------------------------------------------------------

/// How deep the arrays and objects of a value are nested.
pub open spec fn height(value: Json) -> nat
    decreases value,
{
    match value {
        Json::Array(items) => 1 + items_height(items),
        Json::Object(members) => 1 + members_height(members),
        _ => 0,
    }
}

/// The height of the highest of some values.
pub open spec fn items_height(items: Seq<Json>) -> nat
    decreases items,
{
    if items.len() == 0 {
        0
    } else {
        let before = items_height(items.drop_last());
        let last = height(items[items.len() - 1]);
        if before > last {
            before
        } else {
            last
        }
    }
}

/// The height of the highest of some members.
pub open spec fn members_height(members: Seq<(Seq<char>, Json)>) -> nat
    decreases members,
{
    if members.len() == 0 {
        0
    } else {
        let before = members_height(members.drop_last());
        let last = height(members[members.len() - 1].1);
        if before > last {
            before
        } else {
            last
        }
    }
}

proof fn lemma_items_height(items: Seq<Json>, i: int)
    requires
        0 <= i < items.len(),
    ensures
        height(items[i]) <= items_height(items),
    decreases items.len(),
{
    if i < items.len() - 1 {
        lemma_items_height(items.drop_last(), i);
    }
}

proof fn lemma_members_height(members: Seq<(Seq<char>, Json)>, i: int)
    requires
        0 <= i < members.len(),
    ensures
        height(members[i].1) <= members_height(members),
    decreases members.len(),
{
    if i < members.len() - 1 {
        lemma_members_height(members.drop_last(), i);
    }
}

/// Whether nothing follows, or what can follow a value.
pub open spec fn delimited(x: Seq<char>) -> bool {
    x.len() == 0 || x[0] == ',' || x[0] == ']' || x[0] == '}'
}

/// With which character the text of a value begins.
proof fn lemma_first_char(value: Json)
    requires
        json::proper(value),
    ensures
        json::stable_text(value).len() > 0,
        match value {
            Json::Null => json::stable_text(value)[0] == 'n',
            Json::Bool(b) => json::stable_text(value)[0] == if b {
                't'
            } else {
                'f'
            },
            Json::Number(_) => json::number_char(json::stable_text(value)[0]),
            Json::Text(_) => json::stable_text(value)[0] == '"',
            Json::Array(_) => json::stable_text(value)[0] == '[',
            Json::Object(_) => json::stable_text(value)[0] == '{',
        },
{
    reveal_strlit("null");
    reveal_strlit("true");
    reveal_strlit("false");
    reveal_strlit("[");
    reveal_strlit("{");
}

proof fn lemma_joined_front(texts: Seq<Seq<char>>)
    requires
        texts.len() > 0,
    ensures
        json::comma_joined(texts) == texts[0] + joined_rest(texts),
    decreases texts.len(),
{
    if texts.len() == 1 {
        assert(texts[0] + Seq::<char>::empty() =~= texts[0]);
    } else {
        let shorter = texts.drop_last();
        lemma_joined_front(shorter);
        assert(shorter.drop_first() =~= texts.drop_first().drop_last());
        let rest = texts.drop_first();
        if texts.len() == 2 {
            assert(rest.len() == 1);
            assert(json::comma_joined(texts) =~= texts[0] + joined_rest(texts));
        } else {
            assert(json::comma_joined(rest) == json::comma_joined(rest.drop_last()) + ","@
                + rest.last());
            assert(json::comma_joined(texts) =~= texts[0] + joined_rest(texts));
        }
    }
}

/// What follows the first of some texts with commas between them.
pub open spec fn joined_rest(texts: Seq<Seq<char>>) -> Seq<char> {
    if texts.len() <= 1 {
        Seq::empty()
    } else {
        ","@ + json::comma_joined(texts.drop_first())
    }
}

/// What follows the first of some texts, and what follows them all, can be told
/// from the text once the first has been.
proof fn lemma_rest_split(
    ts: Seq<Seq<char>>,
    us: Seq<Seq<char>>,
    end: Seq<char>,
    x: Seq<char>,
    y: Seq<char>,
)
    requires
        ts.len() > 0,
        us.len() > 0,
        end == "]"@ || end == "}"@,
        joined_rest(ts) + (end + x) == joined_rest(us) + (end + y),
    ensures
        (ts.len() == 1) == (us.len() == 1),
        ts.len() == 1 ==> x == y,
        ts.len() > 1 ==> json::comma_joined(ts.drop_first()) + (end + x) == json::comma_joined(
            us.drop_first(),
        ) + (end + y),
{
    reveal_strlit(",");
    reveal_strlit("]");
    reveal_strlit("}");
    let l = joined_rest(ts) + (end + x);
    let r = joined_rest(us) + (end + y);
    if ts.len() == 1 {
        assert(l =~= end + x);
        assert(l[0] == end[0]);
    } else {
        assert(l[0] == ',');
        assert(l =~= ","@ + (json::comma_joined(ts.drop_first()) + (end + x)));
    }
    if us.len() == 1 {
        assert(r =~= end + y);
        assert(r[0] == end[0]);
    } else {
        assert(r[0] == ',');
        assert(r =~= ","@ + (json::comma_joined(us.drop_first()) + (end + y)));
    }
    if ts.len() == 1 {
        lemma_same_front(end, x, end, y);
    } else {
        lemma_same_front(
            ","@,
            json::comma_joined(ts.drop_first()) + (end + x),
            ","@,
            json::comma_joined(us.drop_first()) + (end + y),
        );
    }
}

proof fn lemma_number_split(s: Seq<char>, t: Seq<char>, x: Seq<char>, y: Seq<char>)
    requires
        json::number_text(s),
        json::number_text(t),
        delimited(x),
        delimited(y),
        s + x == t + y,
    ensures
        s == t,
        x == y,
{
    let l = s + x;
    let r = t + y;
    if s.len() < t.len() {
        assert(r[s.len() as int] == t[s.len() as int]);
        assert(l[s.len() as int] == x[0]);
    }
    if t.len() < s.len() {
        assert(l[t.len() as int] == s[t.len() as int]);
        assert(r[t.len() as int] == y[0]);
    }
    lemma_same_front(s, x, t, y);
}

/// Where the text of a value ends can be told from the text.
proof fn lemma_value_split(a: Json, b: Json, x: Seq<char>, y: Seq<char>)
    requires
        json::proper(a),
        json::proper(b),
        delimited(x),
        delimited(y),
        json::stable_text(a) + x == json::stable_text(b) + y,
    ensures
        json::stable_text(a) == json::stable_text(b),
        x == y,
    decreases height(a), 1int, 0int,
{
    lemma_first_char(a);
    lemma_first_char(b);
    let l = json::stable_text(a) + x;
    let r = json::stable_text(b) + y;
    assert(l[0] == json::stable_text(a)[0]);
    assert(r[0] == json::stable_text(b)[0]);
    match (a, b) {
        (Json::Number(s), Json::Number(t)) => {
            lemma_number_split(s, t, x, y);
        },
        (Json::Text(s), Json::Text(t)) => {
            lemma_quoted_split(s, t, x, y);
        },
        (Json::Array(items), Json::Array(others)) => {
            let inner = json::comma_joined(json::stable_texts(items));
            let other = json::comma_joined(json::stable_texts(others));
            assert(l =~= "["@ + (inner + ("]"@ + x)));
            assert(r =~= "["@ + (other + ("]"@ + y)));
            lemma_same_front("["@, inner + ("]"@ + x), "["@, other + ("]"@ + y));
            assert forall|i: int| 0 <= i < items.len() implies height(#[trigger] items[i]) < height(
                a,
            ) by {
                lemma_items_height(items, i);
            }
            lemma_items_split(items, others, height(a), x, y);
        },
        (Json::Object(members), Json::Object(others)) => {
            lemma_object_texts(members);
            lemma_object_texts(others);
            let ms = json::sort_by_name(members);
            let ns = json::sort_by_name(others);
            let inner = json::comma_joined(member_texts(ms));
            let other = json::comma_joined(member_texts(ns));
            assert(l =~= "{"@ + (inner + ("}"@ + x)));
            assert(r =~= "{"@ + (other + ("}"@ + y)));
            lemma_same_front("{"@, inner + ("}"@ + x), "{"@, other + ("}"@ + y));
            assert forall|i: int| 0 <= i < ms.len() implies json::proper((#[trigger] ms[i]).1)
                && height(ms[i].1) < height(a) by {
                let k = lemma_sorted_member(members, i);
                lemma_members_height(members, k);
            }
            assert forall|i: int| 0 <= i < ns.len() implies json::proper(
                (#[trigger] ns[i]).1,
            ) by {
                let _ = lemma_sorted_member(others, i);
            }
            lemma_members_split(ms, ns, height(a), x, y);
        },
        _ => {
            assert(json::stable_text(a) == json::stable_text(b));
            lemma_same_front(json::stable_text(a), x, json::stable_text(b), y);
        },
    }
}

proof fn lemma_items_split(
    items: Seq<Json>,
    others: Seq<Json>,
    bound: nat,
    x: Seq<char>,
    y: Seq<char>,
)
    requires
        forall|i: int|
            0 <= i < items.len() ==> json::proper(#[trigger] items[i]) && height(items[i]) < bound,
        forall|i: int| 0 <= i < others.len() ==> json::proper(#[trigger] others[i]),
        json::comma_joined(json::stable_texts(items)) + ("]"@ + x) == json::comma_joined(
            json::stable_texts(others),
        ) + ("]"@ + y),
    ensures
        json::stable_texts(items) == json::stable_texts(others),
        x == y,
    decreases bound, 0int, items.len(),
{
    reveal_strlit("]");
    reveal_strlit(",");
    let ts = json::stable_texts(items);
    let us = json::stable_texts(others);
    json::lemma_stable_texts(items);
    json::lemma_stable_texts(others);
    let l = json::comma_joined(ts) + ("]"@ + x);
    let r = json::comma_joined(us) + ("]"@ + y);
    if items.len() > 0 {
        lemma_joined_front(ts);
        lemma_first_char(items[0]);
        assert(l[0] == ts[0][0]);
    } else {
        assert(l =~= "]"@ + x);
        assert(l[0] == ']');
    }
    if others.len() > 0 {
        lemma_joined_front(us);
        lemma_first_char(others[0]);
        assert(r[0] == us[0][0]);
    } else {
        assert(r =~= "]"@ + y);
        assert(r[0] == ']');
    }
    if items.len() == 0 {
        assert(others.len() == 0);
        assert(ts =~= us);
        lemma_same_front("]"@, x, "]"@, y);
    } else {
        assert(others.len() > 0);
        assert(l =~= ts[0] + (joined_rest(ts) + ("]"@ + x)));
        assert(r =~= us[0] + (joined_rest(us) + ("]"@ + y)));
        assert(delimited(joined_rest(ts) + ("]"@ + x)));
        assert(delimited(joined_rest(us) + ("]"@ + y)));
        lemma_value_split(
            items[0],
            others[0],
            joined_rest(ts) + ("]"@ + x),
            joined_rest(us) + ("]"@ + y),
        );
        lemma_rest_split(ts, us, "]"@, x, y);
        let rest_i = items.drop_first();
        let rest_o = others.drop_first();
        json::lemma_stable_texts(rest_i);
        json::lemma_stable_texts(rest_o);
        assert(json::stable_texts(rest_i) =~= ts.drop_first());
        assert(json::stable_texts(rest_o) =~= us.drop_first());
        if items.len() > 1 {
            lemma_items_split(rest_i, rest_o, bound, x, y);
        }
        assert(ts =~= seq![ts[0]] + ts.drop_first());
        assert(us =~= seq![us[0]] + us.drop_first());
    }
}

// ---------------------------------------------------------------------------
// Members
// ---------------------------------------------------------------------------

/// The texts of some members, in order.
pub open spec fn member_texts(members: Seq<(Seq<char>, Json)>) -> Seq<Seq<char>> {
    Seq::new(
        members.len(),
        |i: int| json::member_text((members[i].0, json::stable_text(members[i].1))),
    )
}

/// The text of an object is made of the texts of its members in ascending order of
/// name.
proof fn lemma_object_texts(members: Seq<(Seq<char>, Json)>)
    ensures
        json::stable_text(Json::Object(members)) == "{"@ + json::comma_joined(
            member_texts(json::sort_by_name(members)),
        ) + "}"@,
{
    let text_of = |v: Json| json::stable_text(v);
    json_laws::lemma_named_texts_mapped(members);
    json_laws::lemma_sort_mapped(members, text_of);
    let sorted = json::sort_by_name(json::named_texts(members));
    assert(sorted.map_values(|member: (Seq<char>, Seq<char>)| json::member_text(member))
        =~= member_texts(json::sort_by_name(members)));
}

/// A member of a sorted object is a member of the object.
pub proof fn lemma_sorted_member(members: Seq<(Seq<char>, Json)>, i: int) -> (k: int)
    requires
        0 <= i < json::sort_by_name(members).len(),
    ensures
        0 <= k < members.len(),
        members[k] == json::sort_by_name(members)[i],
{
    let sorted = json::sort_by_name(members);
    json_laws::sorting_orders_and_keeps_entries(members);
    sorted.to_multiset_ensures();
    members.to_multiset_ensures();
    assert(sorted.contains(sorted[i]));
    assert(sorted.to_multiset().count(sorted[i]) > 0);
    assert(members.contains(sorted[i]));
    choose|k: int| 0 <= k < members.len() && members[k] == sorted[i]
}

proof fn lemma_member_split(
    a: (Seq<char>, Json),
    b: (Seq<char>, Json),
    bound: nat,
    x: Seq<char>,
    y: Seq<char>,
)
    requires
        json::proper(a.1),
        json::proper(b.1),
        height(a.1) < bound,
        delimited(x),
        delimited(y),
        json::member_text((a.0, json::stable_text(a.1))) + x == json::member_text(
            (b.0, json::stable_text(b.1)),
        ) + y,
    ensures
        a.0 == b.0,
        json::stable_text(a.1) == json::stable_text(b.1),
        x == y,
    decreases bound, 0int, 0int,
{
    let s = json::stable_text(a.1) + x;
    let t = json::stable_text(b.1) + y;
    assert(json::member_text((a.0, json::stable_text(a.1))) + x =~= json::quoted(a.0) + (":"@ + s));
    assert(json::member_text((b.0, json::stable_text(b.1))) + y =~= json::quoted(b.0) + (":"@ + t));
    lemma_quoted_split(a.0, b.0, ":"@ + s, ":"@ + t);
    lemma_same_front(":"@, s, ":"@, t);
    lemma_value_split(a.1, b.1, x, y);
}

proof fn lemma_members_split(
    members: Seq<(Seq<char>, Json)>,
    others: Seq<(Seq<char>, Json)>,
    bound: nat,
    x: Seq<char>,
    y: Seq<char>,
)
    requires
        forall|i: int|
            0 <= i < members.len() ==> json::proper((#[trigger] members[i]).1) && height(
                members[i].1,
            ) < bound,
        forall|i: int| 0 <= i < others.len() ==> json::proper((#[trigger] others[i]).1),
        json::comma_joined(member_texts(members)) + ("}"@ + x) == json::comma_joined(
            member_texts(others),
        ) + ("}"@ + y),
    ensures
        members.len() == others.len(),
        forall|i: int|
            0 <= i < members.len() ==> (#[trigger] members[i]).0 == others[i].0
                && json::stable_text(members[i].1) == json::stable_text(others[i].1),
        member_texts(members) == member_texts(others),
        x == y,
    decreases bound, 0int, members.len() + 1,
{
    reveal_strlit("}");
    reveal_strlit(",");
    let ts = member_texts(members);
    let us = member_texts(others);
    let l = json::comma_joined(ts) + ("}"@ + x);
    let r = json::comma_joined(us) + ("}"@ + y);
    if members.len() > 0 {
        lemma_joined_front(ts);
        assert(ts[0][0] == '"');
        assert(l[0] == ts[0][0]);
    } else {
        assert(l =~= "}"@ + x);
        assert(l[0] == '}');
    }
    if others.len() > 0 {
        lemma_joined_front(us);
        assert(us[0][0] == '"');
        assert(r[0] == us[0][0]);
    } else {
        assert(r =~= "}"@ + y);
        assert(r[0] == '}');
    }
    if members.len() == 0 {
        assert(others.len() == 0);
        assert(ts =~= us);
        lemma_same_front("}"@, x, "}"@, y);
    } else {
        assert(others.len() > 0);
        assert(l =~= ts[0] + (joined_rest(ts) + ("}"@ + x)));
        assert(r =~= us[0] + (joined_rest(us) + ("}"@ + y)));
        assert(delimited(joined_rest(ts) + ("}"@ + x)));
        assert(delimited(joined_rest(us) + ("}"@ + y)));
        lemma_member_split(
            members[0],
            others[0],
            bound,
            joined_rest(ts) + ("}"@ + x),
            joined_rest(us) + ("}"@ + y),
        );
        lemma_rest_split(ts, us, "}"@, x, y);
        let rest_m = members.drop_first();
        let rest_o = others.drop_first();
        assert(member_texts(rest_m) =~= ts.drop_first());
        assert(member_texts(rest_o) =~= us.drop_first());
        if members.len() > 1 {
            lemma_members_split(rest_m, rest_o, bound, x, y);
            assert forall|i: int| 0 <= i < members.len() implies (#[trigger] members[i]).0
                == others[i].0 && json::stable_text(members[i].1) == json::stable_text(
                others[i].1,
            ) by {
                if i > 0 {
                    assert(rest_m[i - 1] == members[i]);
                    assert(rest_o[i - 1] == others[i]);
                }
            }
        }
        assert(ts =~= us);
    }
}

// ---------------------------------------------------------------------------
// The law
// ---------------------------------------------------------------------------

/// Values that can be read and have the same stable text are the same.
pub proof fn stable_text_tells_values_apart(a: Json, b: Json)
    requires
        json::proper(a),
        json::proper(b),
        json::stable_text(a) == json::stable_text(b),
    ensures
        json::same_json(a, b),
    decreases height(a),
{
    lemma_first_char(a);
    lemma_first_char(b);
    let none = Seq::<char>::empty();
    match (a, b) {
        (Json::Text(s), Json::Text(t)) => {
            lemma_quoted_split(s, t, none, none);
        },
        (Json::Array(items), Json::Array(others)) => {
            let inner = json::comma_joined(json::stable_texts(items));
            let other = json::comma_joined(json::stable_texts(others));
            assert(json::stable_text(a) =~= "["@ + (inner + ("]"@ + none)));
            assert(json::stable_text(b) =~= "["@ + (other + ("]"@ + none)));
            lemma_same_front("["@, inner + ("]"@ + none), "["@, other + ("]"@ + none));
            assert forall|i: int| 0 <= i < items.len() implies height(#[trigger] items[i]) < height(
                a,
            ) by {
                lemma_items_height(items, i);
            }
            lemma_items_split(items, others, height(a), none, none);
            json::lemma_stable_texts(items);
            json::lemma_stable_texts(others);
            json::lemma_normal_forms(items);
            json::lemma_normal_forms(others);
            assert forall|i: int| 0 <= i < items.len() implies json::normal_forms(items)[i]
                == json::normal_forms(others)[i] by {
                assert(json::stable_texts(items)[i] == json::stable_texts(others)[i]);
                assert(json::proper(items[i]));
                assert(json::proper(others[i]));
                assert(height(items[i]) < height(a));
                stable_text_tells_values_apart(items[i], others[i]);
            }
            assert(json::normal_forms(items) =~= json::normal_forms(others));
        },
        (Json::Object(members), Json::Object(others)) => {
            lemma_object_texts(members);
            lemma_object_texts(others);
            let ms = json::sort_by_name(members);
            let ns = json::sort_by_name(others);
            let inner = json::comma_joined(member_texts(ms));
            let other = json::comma_joined(member_texts(ns));
            assert(json::stable_text(a) =~= "{"@ + (inner + ("}"@ + none)));
            assert(json::stable_text(b) =~= "{"@ + (other + ("}"@ + none)));
            lemma_same_front("{"@, inner + ("}"@ + none), "{"@, other + ("}"@ + none));
            assert forall|i: int| 0 <= i < ms.len() implies json::proper((#[trigger] ms[i]).1)
                && height(ms[i].1) < height(a) by {
                let k = lemma_sorted_member(members, i);
                lemma_members_height(members, k);
            }
            assert forall|i: int| 0 <= i < ns.len() implies json::proper(
                (#[trigger] ns[i]).1,
            ) by {
                let _ = lemma_sorted_member(others, i);
            }
            lemma_members_split(ms, ns, height(a), none, none);
            let form_of = |v: Json| json::normal_form(v);
            assert forall|i: int| 0 <= i < ms.len() implies json::normal_form(
                (#[trigger] ms[i]).1,
            ) == json::normal_form(ns[i].1) by {
                assert(json::proper(ns[i].1));
                stable_text_tells_values_apart(ms[i].1, ns[i].1);
            }
            assert(json_laws::mapped(ms, form_of) =~= json_laws::mapped(ns, form_of));
            json_laws::lemma_sort_mapped(members, form_of);
            json_laws::lemma_sort_mapped(others, form_of);
            json_laws::lemma_named_forms_mapped(members);
            json_laws::lemma_named_forms_mapped(others);
        },
        _ => {
            assert(a == b);
        },
    }
}

} // verus!
