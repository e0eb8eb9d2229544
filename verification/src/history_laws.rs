//! What is read of messages, and what of a conversation is kept.

use crate::history;
use crate::request;
use crate::text;
use crate::text_laws;
use vstd::prelude::*;
use vstd::string::*;
use vstd::utf8::*;

verus! {

// ---------------------------------------------------------------------------
// What is said
// ---------------------------------------------------------------------------

/// The text of a message is made of the texts of all its parts, in order. An image has
/// no text.
pub proof fn all_parts_are_read(a: Seq<request::Part>, b: Seq<request::Part>, t: Seq<char>)
    ensures
        history::joined_text(a + b) == history::joined_text(a) + history::joined_text(b),
        history::joined_text(seq![request::Part::InputText(t)]) == t,
        history::joined_text(seq![request::Part::OutputText(t)]) == t,
        history::joined_text(seq![request::Part::InputImage(t)]) == Seq::<char>::empty(),
        history::joined_text(Seq::empty()) == Seq::<char>::empty(),
    decreases b.len(),
{
    let none = Seq::<request::Part>::empty();
    assert(history::joined_text(none) =~= Seq::<char>::empty());
    lemma_joined_one(request::Part::InputText(t));
    lemma_joined_one(request::Part::OutputText(t));
    lemma_joined_one(request::Part::InputImage(t));
    if b.len() == 0 {
        assert(a + b =~= a);
        assert(history::joined_text(a) + history::joined_text(b) =~= history::joined_text(a));
    } else {
        all_parts_are_read(a, b.drop_last(), t);
        assert((a + b).drop_last() =~= a + b.drop_last());
        assert((a + b).last() == b.last());
        assert(history::joined_text(a + b) =~= history::joined_text(a) + history::joined_text(b));
    }
}

proof fn lemma_joined_one(part: request::Part)
    ensures
        history::joined_text(seq![part]) == history::part_text(part),
{
    let none = Seq::<request::Part>::empty();
    assert(seq![part].drop_last() =~= none);
    assert(history::joined_text(none) + history::part_text(part) =~= history::part_text(part));
}

/// A text that stands in one of the parts of a message stands in the text of the
/// message.
pub proof fn what_a_part_says_is_found(
    before: Seq<request::Part>,
    part: request::Part,
    after: Seq<request::Part>,
    head: Seq<char>,
    told: Seq<char>,
    tail: Seq<char>,
)
    requires
        part == request::Part::InputText(head + told + tail) || part == request::Part::OutputText(
            head + told + tail,
        ),
    ensures
        history::joined_text(before.push(part) + after) == history::joined_text(before) + head
            + told + tail + history::joined_text(after),
{
    let t = head + told + tail;
    all_parts_are_read(before.push(part), after, t);
    all_parts_are_read(before, seq![part], t);
    assert(before.push(part) =~= before + seq![part]);
    assert(history::joined_text(before.push(part) + after) =~= history::joined_text(before) + head
        + told + tail + history::joined_text(after));
}

/// Messages have a text whoever sent them, and nothing else has one.
pub proof fn only_messages_have_a_text(
    item: request::Item,
    role: Seq<char>,
    content: Seq<request::Part>,
)
    ensures
        history::said(request::Item::Message { role, content }) == Some(
            history::joined_text(content),
        ),
        history::said(item) is Some == (item is Message),
{
}

/// What the assistant says is what stands in all of its messages, one after the other,
/// and in nothing else.
pub proof fn all_answers_are_read(
    before: Seq<request::Item>,
    role: Seq<char>,
    content: Seq<request::Part>,
    other: request::Item,
)
    ensures
        history::assistant_text(Seq::empty()) == Seq::<char>::empty(),
        history::assistant_text(before.push(request::Item::Message { role, content }))
            == history::assistant_text(before) + if role == "assistant"@ {
            history::joined_text(content)
        } else {
            Seq::empty()
        },
        !(other is Message) ==> history::assistant_text(before.push(other))
            == history::assistant_text(before),
{
    let message = request::Item::Message { role, content };
    assert(before.push(message).drop_last() =~= before);
    assert(before.push(other).drop_last() =~= before);
    assert(history::assistant_text(before.push(message)) =~= history::assistant_text(before)
        + if role == "assistant"@ {
        history::joined_text(content)
    } else {
        Seq::empty()
    });
}

/// What stands before a conversation are tools and messages of the developer, and
/// nothing else.
pub proof fn tools_and_developers_come_first(
    item: request::Item,
    role: Seq<char>,
    content: Seq<request::Part>,
)
    ensures
        history::in_envelope(request::Item::Message { role, content }) == (role == "developer"@),
        item is AdditionalTools ==> history::in_envelope(item),
        !(item is AdditionalTools) && !(item is Message) ==> !history::in_envelope(item),
{
}

/// Between the first opening tag of a summary and the first closing tag behind it stands
/// the summary, without white space at either end. A text without such tags, or with
/// nothing between them, is a summary itself.
pub proof fn summaries_stand_between_tags(t: Seq<char>, i: int, j: int)
    requires
        text::trimmed(t) == t,
        0 <= i,
        i + 9 <= j,
        j + 10 <= t.len(),
        t.subrange(i, i + 9) == "<summary>"@,
        t.subrange(j, j + 10) == "</summary>"@,
        forall|k: int| 0 <= k < i ==> t.subrange(k, #[trigger] (k + 9)) != "<summary>"@,
        forall|k: int| i + 9 <= k < j ==> t.subrange(k, #[trigger] (k + 10)) != "</summary>"@,
    ensures
        history::summary_in(t) == if text::trimmed(t.subrange(i + 9, j)).len() > 0 {
            text::trimmed(t.subrange(i + 9, j))
        } else {
            t
        },
{
    reveal_strlit("<summary>");
    reveal_strlit("</summary>");
    assert("<summary>"@.len() == 9);
    assert("</summary>"@.len() == 10);
    text_laws::searches_find_the_first_place(t, "<summary>"@, 0);
    text_laws::searches_find_the_first_place(t, "</summary>"@, i + 9);
    match text::find_from(t, "<summary>"@, 0) {
        Some(at) => {
            if at < i {
                assert(t.subrange(at, at + 9) != "<summary>"@);
            } else if i < at {
                assert(t.subrange(i, i + "<summary>"@.len()) != "<summary>"@);
            }
        },
        None => {
            assert(t.subrange(i, i + "<summary>"@.len()) != "<summary>"@);
        },
    }
    match text::find_from(t, "</summary>"@, i + 9) {
        Some(at) => {
            if at < j {
                assert(t.subrange(at, at + 10) != "</summary>"@);
            } else if j < at {
                assert(t.subrange(j, j + "</summary>"@.len()) != "</summary>"@);
            }
        },
        None => {
            assert(t.subrange(j, j + "</summary>"@.len()) != "</summary>"@);
        },
    }
}

/// A text in which no opening tag stands is a summary itself, without white space at
/// either end.
pub proof fn texts_without_tags_are_summaries(t: Seq<char>)
    requires
        forall|k: int|
            0 <= k && #[trigger] (k + 9) <= text::trimmed(t).len() ==> text::trimmed(t).subrange(
                k,
                k + 9,
            ) != "<summary>"@,
    ensures
        history::summary_in(t) == text::trimmed(t),
{
    reveal_strlit("<summary>");
    assert("<summary>"@.len() == 9);
    text_laws::searches_find_the_first_place(text::trimmed(t), "<summary>"@, 0);
    match text::find_from(text::trimmed(t), "<summary>"@, 0) {
        Some(at) => {
            assert(text::trimmed(t).subrange(at, at + 9) != "<summary>"@);
        },
        None => {},
    }
}

/// An opening tag behind which no closing tag stands opens nothing: the text is a summary
/// itself.
pub proof fn unclosed_tags_open_nothing(t: Seq<char>, i: int)
    requires
        text::trimmed(t) == t,
        0 <= i,
        i + 9 <= t.len(),
        t.subrange(i, i + 9) == "<summary>"@,
        forall|k: int| 0 <= k < i ==> t.subrange(k, #[trigger] (k + 9)) != "<summary>"@,
        forall|k: int|
            i + 9 <= k && #[trigger] (k + 10) <= t.len() ==> t.subrange(k, k + 10)
                != "</summary>"@,
    ensures
        history::summary_in(t) == t,
{
    reveal_strlit("<summary>");
    reveal_strlit("</summary>");
    assert("<summary>"@.len() == 9);
    assert("</summary>"@.len() == 10);
    text_laws::searches_find_the_first_place(t, "<summary>"@, 0);
    text_laws::searches_find_the_first_place(t, "</summary>"@, i + 9);
    if let Some(at) = text::find_from(t, "<summary>"@, 0) {
        if at < i {
            assert(t.subrange(at, at + 9) != "<summary>"@);
        } else if i < at {
            assert(t.subrange(i, i + "<summary>"@.len()) != "<summary>"@);
        }
    }
    if let Some(at) = text::find_from(t, "</summary>"@, i + 9) {
        assert(t.subrange(at, at + 10) != "</summary>"@);
    }
}

/// White space around a text does not matter to the summary in it.
pub proof fn summaries_are_found_in_white_space(
    before: Seq<char>,
    t: Seq<char>,
    after: Seq<char>,
)
    requires
        forall|i: int| 0 <= i < before.len() ==> text_laws::blank(#[trigger] before[i]),
        forall|i: int| 0 <= i < after.len() ==> text_laws::blank(#[trigger] after[i]),
        t.len() > 0,
        !text_laws::blank(t[0]),
        !text_laws::blank(t.last()),
    ensures
        text::trimmed(t) == t,
        history::summary_in(before + t + after) == history::summary_in(t),
{
    let none = Seq::<char>::empty();
    text_laws::trimming_takes_white_space_off(before, t, after);
    text_laws::trimming_takes_white_space_off(none, t, none);
    assert(none + t + none =~= t);
}

/// What the assistant says is a portable summary if it takes thirty-two bytes at least.
pub proof fn portable_summaries_are_long_enough(output: Seq<request::Item>)
    ensures
        history::portable_summary(output) == if encode_utf8(
            history::summary_in(history::assistant_text(output)),
        ).len() >= 32 {
            Some(history::summary_in(history::assistant_text(output)))
        } else {
            None
        },
{
}

// ---------------------------------------------------------------------------
// What it costs
// ---------------------------------------------------------------------------

/// A message costs what its parts cost together: a token for every four bytes of text
/// that are begun, and two thousand for an image.
pub proof fn tokens_add_up(
    role: Seq<char>,
    a: Seq<request::Part>,
    b: Seq<request::Part>,
    t: Seq<char>,
)
    ensures
        history::item_tokens(request::Item::Message { role, content: a + b })
            == history::item_tokens(request::Item::Message { role, content: a })
            + history::item_tokens(request::Item::Message { role, content: b }),
        ({
            let n = history::item_tokens(
                request::Item::Message { role, content: seq![request::Part::InputText(t)] },
            );
            encode_utf8(t).len() <= 4 * n < encode_utf8(t).len() + 4
        }),
        history::item_tokens(
            request::Item::Message { role, content: seq![request::Part::OutputText(t)] },
        ) == history::item_tokens(
            request::Item::Message { role, content: seq![request::Part::InputText(t)] },
        ),
        history::item_tokens(
            request::Item::Message { role, content: seq![request::Part::InputImage(t)] },
        ) == 2000,
{
    lemma_tokens_add_up(a, b);
    lemma_tokens_one(request::Part::InputText(t));
    lemma_tokens_one(request::Part::OutputText(t));
    lemma_tokens_one(request::Part::InputImage(t));
}

proof fn lemma_tokens_one(part: request::Part)
    ensures
        history::parts_tokens(seq![part]) == history::part_tokens(part),
{
    let none = Seq::<request::Part>::empty();
    assert(seq![part].drop_last() =~= none);
    assert(history::parts_tokens(none) == 0);
}

proof fn lemma_tokens_add_up(a: Seq<request::Part>, b: Seq<request::Part>)
    ensures
        history::parts_tokens(a + b) == history::parts_tokens(a) + history::parts_tokens(b),
    decreases b.len(),
{
    if b.len() == 0 {
        assert(a + b =~= a);
    } else {
        lemma_tokens_add_up(a, b.drop_last());
        assert((a + b).drop_last() =~= a + b.drop_last());
        assert((a + b).last() == b.last());
    }
}

/// What items take of a budget together: what each of them costs, and one token at
/// least.
pub open spec fn total_cost(items: Seq<request::Item>) -> nat
    decreases items.len(),
{
    if items.len() == 0 {
        0
    } else {
        total_cost(items.drop_last()) + if history::item_tokens(items.last()) == 0 {
            1
        } else {
            history::item_tokens(items.last())
        }
    }
}

// ---------------------------------------------------------------------------
// What is kept
// ---------------------------------------------------------------------------

/// Whether an item is a message of the user, the developer or the system.
pub open spec fn from_the_client(item: request::Item) -> bool {
    item matches request::Item::Message { role, content } && (role == "user"@ || role
        == "developer"@ || role == "system"@)
}

/// The messages of the user, the developer and the system are all messages that one of
/// them sent, in order, and nothing else.
pub proof fn all_messages_of_the_client_are_found(items: Seq<request::Item>)
    ensures
        history::client_messages(items) == items.filter(|item: request::Item| from_the_client(item)),
    decreases items.len(),
{
    reveal(Seq::filter);
    if items.len() > 0 {
        all_messages_of_the_client_are_found(items.drop_last());
    }
}

/// Where the budget allows it, everything is kept as it is.
pub proof fn everything_is_kept_within_the_budget(items: Seq<request::Item>, budget: u64)
    requires
        total_cost(items) <= budget,
    ensures
        history::retained(items, budget) == items,
    decreases items.len(),
{
    if items.len() > 0 {
        let last = items.last();
        everything_is_kept_within_the_budget(
            items.drop_last(),
            (budget - history::item_cost(last)) as u64,
        );
        assert(items.drop_last().push(last) =~= items);
    } else {
        assert(history::retained(items, budget) =~= items);
    }
}

/// What is kept are the last items, exactly as they were, and before them at most a
/// message that is cut to what is left of the budget because it costs more than that.
/// What is not kept did not fit.
pub proof fn the_last_items_are_kept(items: Seq<request::Item>, budget: u64) -> (k: int)
    requires
        4 * budget <= usize::MAX,
    ensures
        0 <= k <= items.len(),
        total_cost(items.skip(k)) <= budget,
        ({
            let kept = history::retained(items, budget);
            let left = (budget - total_cost(items.skip(k))) as u64;
            ||| kept == items.skip(k) && (k == 0 || left == 0)
            ||| k > 0 && left > 0 && history::item_tokens(items[k - 1]) > left
                && history::cut_message(items[k - 1], left) is Some && kept == seq![
                history::cut_message(items[k - 1], left)->0,
            ] + items.skip(k)
        }),
    decreases items.len(),
{
    let n = items.len() as int;
    let none = Seq::<request::Item>::empty();
    assert(items.skip(n) =~= none);
    assert(total_cost(none) == 0);
    if items.len() == 0 || budget == 0 {
        n
    } else {
        let last = items.last();
        let shorter = items.drop_last();
        if history::item_cost(last) <= budget {
            let left = (budget - history::item_cost(last)) as u64;
            let k = the_last_items_are_kept(shorter, left);
            assert(items.skip(k).drop_last() =~= shorter.skip(k));
            assert(items.skip(k).last() == last);
            assert(items.skip(k) =~= shorter.skip(k).push(last));
            if k > 0 {
                assert(shorter[k - 1] == items[k - 1]);
                if history::cut_message(items[k - 1], (left - total_cost(shorter.skip(k))) as u64)
                    is Some {
                    let cut = history::cut_message(
                        items[k - 1],
                        (left - total_cost(shorter.skip(k))) as u64,
                    )->0;
                    assert((seq![cut] + shorter.skip(k)).push(last) =~= seq![cut] + items.skip(k));
                }
            }
            k
        } else {
            lemma_something_is_left(last, budget);
            assert(seq![history::cut_message(last, budget)->0] + none =~= seq![
                history::cut_message(last, budget)->0,
            ]);
            assert(items.skip(n) =~= none);
            n
        }
    }
}

/// Of a message that costs more than a budget, something is left when it is cut to the
/// budget.
proof fn lemma_something_is_left(item: request::Item, budget: u64)
    requires
        budget > 0,
        4 * budget <= usize::MAX,
        history::item_cost(item) > budget,
    ensures
        history::cut_message(item, budget) is Some,
        history::item_tokens(item) > budget,
{
    match item {
        request::Item::Message { content, .. } => {
            if history::cut_parts(content, history::allowed_bytes(budget) as nat).len() == 0 {
                lemma_nothing_left(content, history::allowed_bytes(budget) as nat);
            }
        },
        _ => {},
    }
}

proof fn lemma_nothing_left(parts: Seq<request::Part>, limit: nat)
    requires
        limit >= 4,
        history::cut_parts(parts, limit).len() == 0,
    ensures
        history::parts_tokens(parts) == 0,
    decreases parts.len(),
{
    if parts.len() > 0 {
        let first = history::cut_part(parts[0], limit);
        let rest = parts.drop_first();
        assert(history::empty_part(first));
        text::lemma_empty_text_has_no_bytes();
        assert(history::part_text(first) =~= Seq::<char>::empty());
        lemma_nothing_left(rest, limit);
        match parts[0] {
            request::Part::InputText(t) => {
                lemma_first_character_fits(t, limit);
            },
            request::Part::OutputText(t) => {
                lemma_first_character_fits(t, limit);
            },
            _ => {},
        }
        lemma_tokens_one(parts[0]);
        lemma_tokens_add_up(seq![parts[0]], rest);
        assert(seq![parts[0]] + rest =~= parts);
    }
}

proof fn lemma_first_character_fits(t: Seq<char>, limit: nat)
    requires
        limit >= 4,
        text::prefix_within(t, limit).len() == 0,
    ensures
        text::utf8_len(t) == 0,
{
    text::lemma_empty_text_has_no_bytes();
    if t.len() > 0 {
        text::lemma_prefix_within(t, limit);
        text_laws::lengths_add_up(t.take(1), t.skip(1));
        assert(text::utf8_len(t.take(1)) > limit);
    } else {
        assert(t =~= Seq::<char>::empty());
    }
}

/// No message of the client is lost while there is budget for it: where the messages of
/// the user, the developer and the system cost no more than twenty thousand tokens, they
/// are all kept as they are, in order, and the item that stands for the rest comes behind
/// them.
pub proof fn no_message_is_lost_within_the_budget(
    items: Seq<request::Item>,
    compaction: request::Item,
)
    requires
        total_cost(items.filter(|item: request::Item| from_the_client(item))) <= 20_000,
    ensures
        history::compacted(items, compaction) == items.filter(
            |item: request::Item| from_the_client(item),
        ).push(compaction),
{
    all_messages_of_the_client_are_found(items);
    everything_is_kept_within_the_budget(history::client_messages(items), 20_000);
}

/// What stands for a conversation are the last messages of the client, of which only the
/// first may be cut, and behind them the item that stands for the rest.
pub proof fn the_last_messages_are_kept(
    items: Seq<request::Item>,
    compaction: request::Item,
) -> (k: int)
    ensures
        ({
            let messages = items.filter(|item: request::Item| from_the_client(item));
            let left = (20_000 - total_cost(messages.skip(k))) as u64;
            &&& 0 <= k <= messages.len()
            &&& total_cost(messages.skip(k)) <= 20_000
            &&& history::compacted(items, compaction) == messages.skip(k).push(compaction) && (k
                == 0 || left == 0) || (k > 0 && left > 0 && history::item_tokens(messages[k - 1])
                > left && history::cut_message(messages[k - 1], left) is Some
                && history::compacted(items, compaction) == (seq![
                history::cut_message(messages[k - 1], left)->0,
            ] + messages.skip(k)).push(compaction))
        }),
{
    all_messages_of_the_client_are_found(items);
    the_last_items_are_kept(history::client_messages(items), 20_000)
}

// ---------------------------------------------------------------------------
// What is cut
// ---------------------------------------------------------------------------

/// A message that is cut keeps its role. It is cut part by part to four bytes of text for
/// every token, and where nothing is left of it, it is dropped. Nothing but a message is
/// cut.
pub proof fn messages_are_cut_by_their_texts(
    role: Seq<char>,
    content: Seq<request::Part>,
    tokens: u64,
    other: request::Item,
)
    requires
        4 * tokens <= usize::MAX,
    ensures
        ({
            let parts = history::cut_parts(content, 4 * (tokens as nat));
            history::cut_message(request::Item::Message { role, content }, tokens)
                == if parts.len() == 0 {
                None
            } else {
                Some(request::Item::Message { role, content: parts })
            }
        }),
        !(other is Message) ==> history::cut_message(other, tokens) == Some(other),
{
}

/// The first of some texts takes what it can of the limit: it is cut to its longest
/// beginning that takes no more, and dropped where nothing is left. What follows takes
/// of the limit what is left. An image takes nothing and stays.
pub proof fn texts_are_cut_one_after_the_other(
    t: Seq<char>,
    n: int,
    rest: Seq<request::Part>,
    limit: nat,
)
    requires
        0 <= n <= t.len(),
        encode_utf8(t.take(n)).len() <= limit,
        n < t.len() ==> encode_utf8(t.take(n + 1)).len() > limit,
    ensures
        ({
            let behind = history::cut_parts(rest, (limit - encode_utf8(t.take(n)).len()) as nat);
            &&& history::cut_parts(seq![request::Part::InputText(t)] + rest, limit) == if n == 0 {
                behind
            } else {
                seq![request::Part::InputText(t.take(n))] + behind
            }
            &&& history::cut_parts(seq![request::Part::OutputText(t)] + rest, limit) == if n
                == 0 {
                behind
            } else {
                seq![request::Part::OutputText(t.take(n))] + behind
            }
        }),
        history::cut_parts(seq![request::Part::InputImage(t)] + rest, limit) == seq![
            request::Part::InputImage(t),
        ] + history::cut_parts(rest, limit),
        history::cut_parts(Seq::empty(), limit) == Seq::<request::Part>::empty(),
{
    text::lemma_empty_text_has_no_bytes();
    text_laws::cut_texts_are_the_longest_beginnings(t, limit, n);
    assert((seq![request::Part::InputText(t)] + rest).drop_first() =~= rest);
    assert((seq![request::Part::OutputText(t)] + rest).drop_first() =~= rest);
    assert((seq![request::Part::InputImage(t)] + rest).drop_first() =~= rest);
}

// ---------------------------------------------------------------------------
// The instruction to compact
// ---------------------------------------------------------------------------

/// Of the last message of the user, exactly the marked texts of the user are taken out.
/// What was said before stays.
pub proof fn only_marked_texts_are_taken_out(
    parts: Seq<request::Part>,
    part: request::Part,
    marks: Seq<bool>,
)
    ensures
        history::unmarked_parts(Seq::empty(), marks) == Seq::<request::Part>::empty(),
        history::unmarked_parts(parts.push(part), marks) == if part is InputText && parts.len()
            < marks.len() && marks[parts.len() as int] {
            history::unmarked_parts(parts, marks)
        } else {
            history::unmarked_parts(parts, marks).push(part)
        },
{
    assert(parts.push(part).drop_last() =~= parts);
}

/// Where no part is marked, nothing is taken out.
pub proof fn nothing_is_taken_out_without_marks(items: Seq<request::Item>, marks: Seq<bool>)
    requires
        forall|i: int| 0 <= i < marks.len() ==> !(#[trigger] marks[i]),
        items.len() > 0 ==> (items.last() matches request::Item::Message { role, content } ==> role
            == "user"@ ==> content.len() > 0),
    ensures
        history::without_instruction(items, marks) == items,
{
    if items.len() > 0 {
        match items.last() {
            request::Item::Message { role, content } => {
                lemma_nothing_marked(content, marks);
                assert(items.drop_last().push(items.last()) =~= items);
            },
            _ => {},
        }
    }
}

proof fn lemma_nothing_marked(parts: Seq<request::Part>, marks: Seq<bool>)
    requires
        forall|i: int| 0 <= i < marks.len() ==> !(#[trigger] marks[i]),
    ensures
        history::unmarked_parts(parts, marks) == parts,
    decreases parts.len(),
{
    if parts.len() > 0 {
        lemma_nothing_marked(parts.drop_last(), marks);
        assert(parts.drop_last().push(parts.last()) =~= parts);
    }
}

/// Only the last item is looked at, and only where it is a message of the user: it goes
/// where nothing of it is left, and keeps what is left otherwise.
pub proof fn only_the_last_message_is_looked_at(
    before: Seq<request::Item>,
    last: request::Item,
    role: Seq<char>,
    content: Seq<request::Part>,
    marks: Seq<bool>,
)
    ensures
        history::without_instruction(Seq::empty(), marks) == Seq::<request::Item>::empty(),
        !(last is Message) ==> history::without_instruction(before.push(last), marks)
            == before.push(last),
        ({
            let parts = history::unmarked_parts(content, marks);
            history::without_instruction(
                before.push(request::Item::Message { role, content }),
                marks,
            ) == if role != "user"@ {
                before.push(request::Item::Message { role, content })
            } else if parts.len() == 0 {
                before
            } else {
                before.push(request::Item::Message { role, content: parts })
            }
        }),
{
    assert(before.push(last).drop_last() =~= before);
    assert(before.push(request::Item::Message { role, content }).drop_last() =~= before);
}

} // verus!
