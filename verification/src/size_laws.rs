//! How large items are as JSON.

use crate::json;
use crate::request;
use crate::text;
use crate::writing_laws;
use vstd::prelude::*;
use vstd::string::*;
use vstd::utf8::*;

verus! {

/// The size of items is that of their JSON text in UTF-8: two brackets, the text of each
/// item, and a comma between one and the next.
pub proof fn sizes_add_up(
    a: Seq<request::Item>,
    b: Seq<request::Item>,
    item: request::Item,
)
    ensures
        request::items_bytes(Seq::empty()) == 2,
        request::items_bytes(seq![item]) == 2 + encode_utf8(
            json::stable_text(request::item_json(item)),
        ).len(),
        a.len() > 0 && b.len() > 0 ==> request::items_bytes(a + b) == request::items_bytes(a)
            + request::items_bytes(b) - 1,
{
    reveal_strlit("[");
    reveal_strlit("]");
    reveal_strlit(",");
    let none = Seq::<request::Item>::empty();
    lemma_bytes(none);
    assert(texts(none) =~= Seq::<Seq<char>>::empty());
    lemma_bytes(seq![item]);
    assert(texts(seq![item]) =~= seq![json::stable_text(request::item_json(item))]);
    text::lemma_empty_text_has_no_bytes();
    if a.len() > 0 && b.len() > 0 {
        lemma_bytes(a);
        lemma_bytes(b);
        lemma_bytes(a + b);
        assert(texts(a + b) =~= texts(a) + texts(b));
        writing_laws::lemma_joined_adds_up(texts(a), texts(b));
        let x = json::comma_joined(texts(a));
        let y = json::comma_joined(texts(b));
        text::lemma_encode_concat(x + ","@, y);
        text::lemma_encode_concat(x, ","@);
        lemma_one_byte(",");
    }
}

/// The texts of items.
spec fn texts(items: Seq<request::Item>) -> Seq<Seq<char>> {
    Seq::new(items.len(), |i: int| json::stable_text(request::item_json(items[i])))
}

proof fn lemma_one_byte(s: &str)
    requires
        s@.len() == 1,
        (s@[0] as u32) < 128,
    ensures
        text::utf8_len(s@) == 1,
{
    assert(s@.drop_first() =~= Seq::<char>::empty());
    text::lemma_empty_text_has_no_bytes();
    assert(encode_scalar(s@[0] as u32).len() == 1);
}

proof fn lemma_bytes(items: Seq<request::Item>)
    ensures
        request::items_bytes(items) == 2 + text::utf8_len(json::comma_joined(texts(items))),
{
    reveal_strlit("[");
    reveal_strlit("]");
    let values = Seq::new(items.len(), |i: int| request::item_json(items[i]));
    json::lemma_stable_texts(values);
    assert(json::stable_texts(values) =~= texts(items));
    let inner = json::comma_joined(texts(items));
    text::lemma_encode_concat("["@ + inner, "]"@);
    text::lemma_encode_concat("["@, inner);
    lemma_one_byte("[");
    lemma_one_byte("]");
}

} // verus!
