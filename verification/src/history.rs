//! Conversations: what stands before them, what is said in them, and what of
//! them is kept when they are compacted.

use crate::model;
use crate::model::Duplicate;
use crate::request;
use crate::request::{ResponsesContentPart, ResponsesInputItem};
use crate::text;
use vstd::prelude::*;
use vstd::string::*;

verus! {

/// How many tokens of messages are kept when a conversation is compacted.
pub const RETAINED_MESSAGE_TOKEN_BUDGET: u64 = 20_000;

/// How many tokens an image counts as.
pub const IMAGE_TOKENS: u64 = 2_000;

/// The least number of bytes that a portable summary has.
pub const MIN_PORTABLE_SUMMARY_BYTES: usize = 32;

// ---------------------------------------------------------------------------
// Envelope
// ---------------------------------------------------------------------------

/// Whether an item belongs to what stands before a conversation: tools, and
/// messages of the developer.
pub open spec fn in_envelope(item: request::Item) -> bool {
    match item {
        request::Item::AdditionalTools { .. } => true,
        request::Item::Message { role, .. } => role == "developer"@,
        _ => false,
    }
}

/// How many items stand before the conversation.
pub open spec fn envelope_len(input: Seq<request::Item>) -> nat
    decreases input.len(),
{
    if input.len() > 0 && in_envelope(input[0]) {
        1 + envelope_len(input.drop_first())
    } else {
        0
    }
}

/// What stands before the conversation.
pub open spec fn envelope(input: Seq<request::Item>) -> Seq<request::Item> {
    input.take(envelope_len(input) as int)
}

/// The conversation.
pub open spec fn conversation(input: Seq<request::Item>) -> Seq<request::Item> {
    input.skip(envelope_len(input) as int)
}

/// The envelope is a part of the input.
pub proof fn lemma_envelope_len(input: Seq<request::Item>)
    ensures
        envelope_len(input) <= input.len(),
    decreases input.len(),
{
    if input.len() > 0 && in_envelope(input[0]) {
        lemma_envelope_len(input.drop_first());
    }
}

/// Envelope and conversation together are the input, all items of the envelope
/// belong there, and the conversation does not begin with one that does.
pub proof fn splitting_loses_nothing(input: Seq<request::Item>)
    ensures
        envelope(input) + conversation(input) == input,
        forall|i: int| 0 <= i < envelope(input).len() ==> in_envelope(#[trigger] envelope(input)[i]),
        conversation(input).len() > 0 ==> !in_envelope(conversation(input)[0]),
    decreases input.len(),
{
    lemma_envelope_len(input);
    if input.len() > 0 && in_envelope(input[0]) {
        let rest = input.drop_first();
        splitting_loses_nothing(rest);
        lemma_envelope_len(rest);
        assert forall|i: int| 0 <= i < envelope(input).len() implies in_envelope(
            #[trigger] envelope(input)[i],
        ) by {
            if i > 0 {
                assert(envelope(rest)[i - 1] == envelope(input)[i]);
            }
        }
        assert(conversation(input) =~= conversation(rest));
    }
    assert(envelope(input) + conversation(input) =~= input);
}

/// Items that belong to an envelope, with items behind them of which the first
/// does not, are parted where they were joined.
pub proof fn joining_is_undone_by_splitting(before: Seq<request::Item>, after: Seq<request::Item>)
    requires
        forall|i: int| 0 <= i < before.len() ==> in_envelope(#[trigger] before[i]),
        after.len() == 0 || !in_envelope(after[0]),
    ensures
        envelope(before + after) == before,
        conversation(before + after) == after,
    decreases before.len(),
{
    let all = before + after;
    if before.len() == 0 {
        assert(all =~= after);
        assert(envelope_len(all) == 0);
    } else {
        joining_is_undone_by_splitting(before.drop_first(), after);
        assert(all.drop_first() =~= before.drop_first() + after);
        lemma_envelope_len(all.drop_first());
        assert(in_envelope(before[0]));
        let rest = all.drop_first();
        assert(envelope(rest).len() == envelope_len(rest));
        assert(envelope_len(all) == before.len());
    }
    assert(envelope(all) =~= before);
    assert(conversation(all) =~= after);
}

/// Whether an item belongs to what stands before a conversation.
pub fn is_envelope_item(item: &ResponsesInputItem) -> (answer: bool)
    ensures
        answer == in_envelope(item@),
{
    match item {
        ResponsesInputItem::AdditionalTools { .. } => true,
        ResponsesInputItem::Message { role, .. } => text::same_text(role.as_str(), "developer"),
        _ => false,
    }
}

/// Parts an input into what stands before the conversation and the conversation.
pub fn split_input_envelope(input: &[ResponsesInputItem]) -> (parts: (
    &[ResponsesInputItem],
    &[ResponsesInputItem],
))
    ensures
        model::views(parts.0@) == envelope(model::views(input@)),
        model::views(parts.1@) == conversation(model::views(input@)),
{
    let ghost all = model::views(input@);
    let mut n: usize = 0;
    assert(all.skip(0) =~= all);
    while n < input.len() && is_envelope_item(&input[n])
        invariant
            n <= input@.len(),
            all == model::views(input@),
            envelope_len(all) == n + envelope_len(all.skip(n as int)),
        decreases input@.len() - n,
    {
        assert(all.skip(n as int).drop_first() =~= all.skip(n + 1));
        n = n + 1;
    }
    let before: &[ResponsesInputItem] = vstd::slice::slice_subrange(input, 0, n);
    let after: &[ResponsesInputItem] = vstd::slice::slice_subrange(input, n, input.len());
    assert(model::views(before@) =~= all.take(n as int));
    assert(model::views(after@) =~= all.skip(n as int));
    (before, after)
}

/// Whether a compaction item stands among the items.
pub open spec fn has_compaction(items: Seq<request::Item>) -> bool {
    exists|i: int| 0 <= i < items.len() && (#[trigger] items[i]) is Compaction
}

/// Whether a compaction item stands among the items.
pub fn contains_compaction(items: &[ResponsesInputItem]) -> (answer: bool)
    ensures
        answer == has_compaction(model::views(items@)),
{
    let ghost all = model::views(items@);
    let mut i: usize = 0;
    while i < items.len()
        invariant
            i <= items@.len(),
            all == model::views(items@),
            forall|j: int| 0 <= j < i ==> !((#[trigger] all[j]) is Compaction),
        decreases items@.len() - i,
    {
        if matches!(items[i], ResponsesInputItem::Compaction { .. }) {
            assert(all[i as int] is Compaction);
            return true;
        }
        assert(!(all[i as int] is Compaction));
        i = i + 1;
    }
    false
}

// ---------------------------------------------------------------------------
// What is said
// ---------------------------------------------------------------------------

/// The text of a part. An image has none.
pub open spec fn part_text(part: request::Part) -> Seq<char> {
    match part {
        request::Part::InputText(t) => t,
        request::Part::OutputText(t) => t,
        request::Part::InputImage(_) => Seq::empty(),
    }
}

/// The texts of the parts, one after the other.
pub open spec fn joined_text(parts: Seq<request::Part>) -> Seq<char>
    decreases parts.len(),
{
    if parts.len() == 0 {
        Seq::empty()
    } else {
        joined_text(parts.drop_last()) + part_text(parts.last())
    }
}

/// The text of a message. Nothing but a message has one.
pub open spec fn said(item: request::Item) -> Option<Seq<char>> {
    match item {
        request::Item::Message { content, .. } => Some(joined_text(content)),
        _ => None,
    }
}

/// Appends the texts of the parts.
fn append_text(out: &mut String, parts: &[ResponsesContentPart])
    ensures
        final(out)@ == old(out)@ + joined_text(model::views(parts@)),
{
    let ghost start = out@;
    let ghost all = model::views(parts@);
    let mut i: usize = 0;
    assert(out@ =~= start + joined_text(all.take(0)));
    while i < parts.len()
        invariant
            i <= parts@.len(),
            all == model::views(parts@),
            out@ == start + joined_text(all.take(i as int)),
        decreases parts@.len() - i,
    {
        proof {
            let taken = all.take(i + 1);
            assert(taken.drop_last() =~= all.take(i as int));
            assert(taken.last() == parts@[i as int]@);
        }
        match &parts[i] {
            ResponsesContentPart::InputText { text } => {
                out.append(text.as_str());
            },
            ResponsesContentPart::OutputText { text } => {
                out.append(text.as_str());
            },
            ResponsesContentPart::InputImage { .. } => {},
        }
        i = i + 1;
        assert(out@ =~= start + joined_text(all.take(i as int)));
    }
    assert(all.take(all.len() as int) =~= all);
}

/// The text of a message.
pub fn message_text(item: &ResponsesInputItem) -> (found: Option<String>)
    ensures
        model::seen(found) == said(item@),
{
    match item {
        ResponsesInputItem::Message { content, .. } => {
            let mut out: String = String::new();
            append_text(&mut out, content.as_slice());
            assert(out@ =~= joined_text(model::views(content@)));
            Some(out)
        },
        _ => None,
    }
}

/// What the assistant says in the items, one message after the other.
pub open spec fn assistant_text(items: Seq<request::Item>) -> Seq<char>
    decreases items.len(),
{
    if items.len() == 0 {
        Seq::empty()
    } else {
        let before = assistant_text(items.drop_last());
        match items.last() {
            request::Item::Message { role, content } => if role == "assistant"@ {
                before + joined_text(content)
            } else {
                before
            },
            _ => before,
        }
    }
}

/// What stands between the first opening tag and the first closing tag after it,
/// without white space at either end, where that is not empty.
pub open spec fn tagged_summary(t: Seq<char>) -> Option<Seq<char>> {
    match text::find_from(t, "<summary>"@, 0) {
        Some(i) => match text::find_from(
            t,
            "</summary>"@,
            i + "<summary>"@.len(),
        ) {
            Some(j) => {
                let inner = text::trimmed(t.subrange(i + "<summary>"@.len(), j));
                if inner.len() > 0 {
                    Some(inner)
                } else {
                    None
                }
            },
            None => None,
        },
        None => None,
    }
}

/// The summary in a text: what stands between summary tags, or the whole text,
/// without white space at either end.
pub open spec fn summary_in(t: Seq<char>) -> Seq<char> {
    match tagged_summary(text::trimmed(t)) {
        Some(summary) => summary,
        None => text::trimmed(t),
    }
}

/// The portable summary that the assistant gives, where it is long enough.
pub open spec fn portable_summary(output: Seq<request::Item>) -> Option<Seq<char>> {
    let summary = summary_in(assistant_text(output));
    if text::utf8_len(summary) >= MIN_PORTABLE_SUMMARY_BYTES {
        Some(summary)
    } else {
        None
    }
}

/// What the assistant says in the items, one message after the other.
fn collect_assistant_text(items: &[ResponsesInputItem]) -> (out: String)
    ensures
        out@ == assistant_text(model::views(items@)),
{
    let ghost all = model::views(items@);
    let mut out: String = String::new();
    let mut i: usize = 0;
    assert(out@ =~= assistant_text(all.take(0)));
    while i < items.len()
        invariant
            i <= items@.len(),
            all == model::views(items@),
            out@ == assistant_text(all.take(i as int)),
        decreases items@.len() - i,
    {
        proof {
            let taken = all.take(i + 1);
            assert(taken.drop_last() =~= all.take(i as int));
            assert(taken.last() == items@[i as int]@);
        }
        if let ResponsesInputItem::Message { role, content } = &items[i] {
            if text::same_text(role.as_str(), "assistant") {
                append_text(&mut out, content.as_slice());
            }
        }
        i = i + 1;
    }
    assert(all.take(all.len() as int) =~= all);
    out
}

/// The summary in a text: what stands between summary tags, or the whole text,
/// without white space at either end.
pub fn summary_of(said: &str) -> (summary: String)
    ensures
        summary@ == summary_in(said@),
{
    let chars: Vec<char> = text::characters(said);
    assert(chars@.subrange(0, chars@.len() as int) =~= said@);
    let (start, end) = text::trim_range(&chars, 0, chars.len());
    let inner: Vec<char> = text::portion(&chars, start, end);
    assert(inner@ == text::trimmed(said@));
    let opening: Vec<char> = text::characters("<summary>");
    let closing: Vec<char> = text::characters("</summary>");
    if let Some(i) = text::find(&inner, &opening, 0) {
        let from: usize = i + opening.len();
        if let Some(j) = text::find(&inner, &closing, from) {
            let (a, b) = text::trim_range(&inner, from, j);
            if a < b {
                let found: String = said.substring_char(start + a, start + b).to_owned();
                assert(found@ =~= inner@.subrange(a as int, b as int));
                return found;
            }
        }
    }
    let whole: String = said.substring_char(start, end).to_owned();
    assert(whole@ =~= inner@);
    whole
}

/// The portable summary that the assistant gives, where it is long enough.
pub fn portable_summary_text(output: &[ResponsesInputItem]) -> (found: Option<String>)
    ensures
        model::seen(found) == portable_summary(model::views(output@)),
{
    let said: String = collect_assistant_text(output);
    let summary: String = summary_of(said.as_str());
    if text::byte_length(summary.as_str()) >= MIN_PORTABLE_SUMMARY_BYTES {
        Some(summary)
    } else {
        None
    }
}

// ---------------------------------------------------------------------------
// What is kept
// ---------------------------------------------------------------------------

/// A number, or the largest 64-bit number where it is larger than that.
pub open spec fn capped_u64(n: nat) -> u64 {
    if n > u64::MAX {
        u64::MAX
    } else {
        n as u64
    }
}

/// How many tokens a part counts as: one for every four bytes begun, and a fixed
/// number for an image.
pub open spec fn part_tokens(part: request::Part) -> nat {
    match part {
        request::Part::InputText(t) => (text::utf8_len(t) + 3) / 4,
        request::Part::OutputText(t) => (text::utf8_len(t) + 3) / 4,
        request::Part::InputImage(_) => IMAGE_TOKENS as nat,
    }
}

/// How many tokens the parts count as.
pub open spec fn parts_tokens(parts: Seq<request::Part>) -> nat
    decreases parts.len(),
{
    if parts.len() == 0 {
        0
    } else {
        parts_tokens(parts.drop_last()) + part_tokens(parts.last())
    }
}

/// How many tokens an item counts as. Nothing but a message counts.
pub open spec fn item_tokens(item: request::Item) -> nat {
    match item {
        request::Item::Message { content, .. } => parts_tokens(content),
        _ => 0,
    }
}

/// How many tokens an item counts as, as far as that can be counted.
pub fn message_tokens(item: &ResponsesInputItem) -> (tokens: u64)
    ensures
        tokens == capped_u64(item_tokens(item@)),
{
    match item {
        ResponsesInputItem::Message { content, .. } => {
            let ghost all = model::views(content@);
            let mut tokens: u64 = 0;
            let mut i: usize = 0;
            assert(all.take(0) =~= Seq::<request::Part>::empty());
            while i < content.len()
                invariant
                    i <= content@.len(),
                    all == model::views(content@),
                    tokens == capped_u64(parts_tokens(all.take(i as int))),
                decreases content@.len() - i,
            {
                proof {
                    let taken = all.take(i + 1);
                    assert(taken.drop_last() =~= all.take(i as int));
                    assert(taken.last() == content@[i as int]@);
                }
                let more: u64 = match &content[i] {
                    ResponsesContentPart::InputText { text } => token_count(text.as_str()),
                    ResponsesContentPart::OutputText { text } => token_count(text.as_str()),
                    ResponsesContentPart::InputImage { .. } => IMAGE_TOKENS,
                };
                tokens = tokens.saturating_add(more);
                i = i + 1;
            }
            assert(all.take(all.len() as int) =~= all);
            tokens
        },
        _ => 0,
    }
}

/// One token for every four bytes begun.
fn token_count(said: &str) -> (tokens: u64)
    ensures
        tokens == (text::utf8_len(said@) + 3) / 4,
{
    let bytes: usize = text::byte_length(said);
    let whole: usize = bytes / 4;
    if bytes % 4 == 0 {
        whole as u64
    } else {
        whole as u64 + 1
    }
}

/// A part with its text cut to so many bytes. An image stays as it is.
pub open spec fn cut_part(part: request::Part, limit: nat) -> request::Part {
    match part {
        request::Part::InputText(t) => request::Part::InputText(text::prefix_within(t, limit)),
        request::Part::OutputText(t) => request::Part::OutputText(text::prefix_within(t, limit)),
        request::Part::InputImage(_) => part,
    }
}

/// Whether a part is a text with nothing in it.
pub open spec fn empty_part(part: request::Part) -> bool {
    !(part is InputImage) && part_text(part).len() == 0
}

/// The parts with their texts cut so that they take no more than `limit` bytes
/// together, the first ones first. Texts of which nothing is left are dropped.
pub open spec fn cut_parts(parts: Seq<request::Part>, limit: nat) -> Seq<request::Part>
    decreases parts.len(),
{
    if parts.len() == 0 {
        parts
    } else {
        let first = cut_part(parts[0], limit);
        let rest = cut_parts(
            parts.drop_first(),
            (limit - text::utf8_len(part_text(first))) as nat,
        );
        if empty_part(first) {
            rest
        } else {
            seq![first] + rest
        }
    }
}

/// How many bytes of text so many tokens allow.
pub open spec fn allowed_bytes(tokens: u64) -> usize {
    capped_u64(4 * (tokens as nat)) as usize
}

/// A message cut to so many tokens, where anything is left of it. What is not a
/// message stays as it is.
pub open spec fn cut_message(item: request::Item, tokens: u64) -> Option<request::Item> {
    match item {
        request::Item::Message { role, content } => {
            let parts = cut_parts(content, allowed_bytes(tokens) as nat);
            if parts.len() == 0 {
                None
            } else {
                Some(request::Item::Message { role, content: parts })
            }
        },
        _ => Some(item),
    }
}

/// Cuts a text to what remains, and takes it off what remains.
pub fn truncate_text(said: String, remaining: &mut usize) -> (kept: String)
    ensures
        kept@ == text::prefix_within(said@, *old(remaining) as nat),
        *final(remaining) == *old(remaining) - text::utf8_len(kept@),
{
    let kept: String = text::truncated(said.as_str(), *remaining);
    proof {
        text::lemma_prefix_within(said@, *old(remaining) as nat);
    }
    *remaining = *remaining - text::byte_length(kept.as_str());
    kept
}

/// Whether nothing stands in a text.
fn is_empty_text(said: &str) -> (answer: bool)
    ensures
        answer == (said@.len() == 0),
{
    said.unicode_len() == 0
}

/// A message cut to so many tokens, where anything is left of it.
pub fn truncate_message(item: ResponsesInputItem, max_tokens: u64) -> (kept: Option<
    ResponsesInputItem,
>)
    ensures
        model::seen(kept) == cut_message(item@, max_tokens),
{
    let (role, content) = match item {
        ResponsesInputItem::Message { role, content } => (role, content),
        other => {
            return Some(other);
        },
    };
    let mut remaining: usize = match max_tokens.checked_mul(4) {
        Some(bytes) => bytes as usize,
        None => u64::MAX as usize,
    };
    let ghost limit = remaining as nat;
    let ghost all = model::views(content@);
    let mut kept: Vec<ResponsesContentPart> = Vec::new();
    assert(all.skip(0) =~= all);
    assert(model::views(kept@) + cut_parts(all, limit) =~= cut_parts(all, limit));
    for part in it: content.into_iter()
        invariant
            it.seq() == content@,
            all == model::views(content@),
            cut_parts(all, limit) == model::views(kept@) + cut_parts(
                all.skip(it.index() as int),
                remaining as nat,
            ),
    {
        let ghost before = model::views(kept@);
        let ghost left = remaining as nat;
        let ghost rest = all.skip(it.index() as int);
        let ghost first = cut_part(rest[0], left);
        assert(rest[0] == part@);
        assert(rest.drop_first() =~= all.skip(it.index() + 1));
        proof {
            text::lemma_empty_text_has_no_bytes();
        }
        match part {
            ResponsesContentPart::InputImage { image_url } => {
                kept.push(ResponsesContentPart::InputImage { image_url });
                assert(model::views(kept@) =~= before.push(first));
            },
            ResponsesContentPart::InputText { text } => {
                let text: String = truncate_text(text, &mut remaining);
                if !is_empty_text(text.as_str()) {
                    kept.push(ResponsesContentPart::InputText { text });
                    assert(model::views(kept@) =~= before.push(first));
                }
            },
            ResponsesContentPart::OutputText { text } => {
                let text: String = truncate_text(text, &mut remaining);
                if !is_empty_text(text.as_str()) {
                    kept.push(ResponsesContentPart::OutputText { text });
                    assert(model::views(kept@) =~= before.push(first));
                }
            },
        }
        proof {
            let tail = cut_parts(rest.drop_first(), remaining as nat);
            assert(before.push(first) + tail =~= before + (seq![first] + tail));
        }
    }
    proof {
        assert(all.skip(all.len() as int) =~= Seq::<request::Part>::empty());
        assert(model::views(kept@) + Seq::<request::Part>::empty() =~= model::views(kept@));
    }
    if kept.len() == 0 {
        None
    } else {
        Some(ResponsesInputItem::Message { role, content: kept })
    }
}

/// What an item takes of a budget of tokens: one token at least.
pub open spec fn item_cost(item: request::Item) -> u64 {
    if item_tokens(item) == 0 {
        1
    } else {
        capped_u64(item_tokens(item))
    }
}

/// The last of the items, as many as a budget of tokens allows. The first item
/// that does not fit is cut, and nothing before it is kept; one of which nothing
/// would be left is passed over.
pub open spec fn retained(items: Seq<request::Item>, budget: u64) -> Seq<request::Item>
    decreases items.len(),
{
    if items.len() == 0 || budget == 0 {
        Seq::empty()
    } else {
        let last = items.last();
        if item_cost(last) <= budget {
            retained(items.drop_last(), (budget - item_cost(last)) as u64).push(last)
        } else {
            match cut_message(last, budget) {
                Some(cut) => seq![cut],
                None => retained(items.drop_last(), budget),
            }
        }
    }
}

/// The elements in the opposite order.
fn reversed(items: Vec<ResponsesInputItem>) -> (out: Vec<ResponsesInputItem>)
    ensures
        out@ == items@.reverse(),
{
    let ghost all = items@;
    let mut items: Vec<ResponsesInputItem> = items;
    let mut out: Vec<ResponsesInputItem> = Vec::new();
    while items.len() > 0
        invariant
            items@.len() <= all.len(),
            items@ == all.take(items@.len() as int),
            out@.len() == all.len() - items@.len(),
            forall|i: int| 0 <= i < out@.len() ==> (#[trigger] out@[i]) == all[all.len() - 1 - i],
        decreases items@.len(),
    {
        if let Some(item) = items.pop() {
            out.push(item);
        }
    }
    assert(out@ =~= all.reverse());
    out
}

/// The last of the items, as many as a budget of tokens allows.
pub fn truncate_retained_messages(items: Vec<ResponsesInputItem>, max_tokens: u64) -> (kept: Vec<
    ResponsesInputItem,
>)
    ensures
        model::views(kept@) == retained(model::views(items@), max_tokens),
{
    let ghost all = model::views(items@);
    let mut items: Vec<ResponsesInputItem> = items;
    let mut remaining: u64 = max_tokens;
    let mut kept: Vec<ResponsesInputItem> = Vec::new();
    assert(retained(all, max_tokens) + model::views(kept@.reverse()) =~= retained(all, max_tokens));
    while items.len() > 0 && remaining > 0
        invariant
            retained(all, max_tokens) == retained(model::views(items@), remaining) + model::views(
                kept@.reverse(),
            ),
        decreases items@.len(),
    {
        let ghost before = model::views(items@);
        let ghost behind = model::views(kept@.reverse());
        let ghost held = kept@;
        if let Some(item) = items.pop() {
            let ghost last = item@;
            assert(before.drop_last() =~= model::views(items@));
            assert(before.last() == last);
            let counted: u64 = message_tokens(&item);
            let tokens: u64 = if counted == 0 {
                1
            } else {
                counted
            };
            if tokens <= remaining {
                let ghost exec = item;
                kept.push(item);
                proof {
                    assert(kept@.reverse() =~= seq![exec] + held.reverse());
                    assert(model::views(kept@.reverse()) =~= seq![last] + behind);
                    let rest = retained(before.drop_last(), (remaining - tokens) as u64);
                    assert(rest.push(last) + behind =~= rest + (seq![last] + behind));
                }
                remaining = remaining - tokens;
            } else {
                if let Some(cut) = truncate_message(item, remaining) {
                    let ghost exec = cut;
                    kept.push(cut);
                    proof {
                        assert(kept@.reverse() =~= seq![exec] + held.reverse());
                        assert(model::views(kept@.reverse()) =~= seq![exec@] + behind);
                        assert(retained(model::views(items@), 0) + (seq![exec@] + behind)
                            =~= seq![exec@] + behind);
                    }
                    remaining = 0;
                }
            }
        }
    }
    let kept: Vec<ResponsesInputItem> = reversed(kept);
    assert(Seq::<request::Item>::empty() + model::views(kept@) =~= model::views(kept@));
    kept
}

/// Whether an item is a message of the user, the developer or the system.
pub open spec fn of_the_client(item: request::Item) -> bool {
    match item {
        request::Item::Message { role, .. } => role == "user"@ || role == "developer"@ || role
            == "system"@,
        _ => false,
    }
}

/// The messages of the user, the developer and the system.
pub open spec fn client_messages(items: Seq<request::Item>) -> Seq<request::Item>
    decreases items.len(),
{
    if items.len() == 0 {
        items
    } else if of_the_client(items.last()) {
        client_messages(items.drop_last()).push(items.last())
    } else {
        client_messages(items.drop_last())
    }
}

/// What stands for a conversation once it has been compacted: the last messages
/// that are not the assistant's, and the item that stands for the rest.
pub open spec fn compacted(
    items: Seq<request::Item>,
    compaction: request::Item,
) -> Seq<request::Item> {
    retained(client_messages(items), RETAINED_MESSAGE_TOKEN_BUDGET).push(compaction)
}

/// Whether an item is a message of the user, the developer or the system.
fn is_client_message(item: &ResponsesInputItem) -> (answer: bool)
    ensures
        answer == of_the_client(item@),
{
    match item {
        ResponsesInputItem::Message { role, .. } => {
            text::same_text(role.as_str(), "user") || text::same_text(role.as_str(), "developer")
                || text::same_text(role.as_str(), "system")
        },
        _ => false,
    }
}

/// What stands for a conversation once it has been compacted.
pub fn build_compacted_history(
    input: &[ResponsesInputItem],
    compaction: ResponsesInputItem,
) -> (history: Vec<ResponsesInputItem>)
    ensures
        model::views(history@) == compacted(model::views(input@), compaction@),
{
    let ghost all = model::views(input@);
    let mut messages: Vec<ResponsesInputItem> = Vec::new();
    let mut i: usize = 0;
    assert(model::views(messages@) =~= client_messages(all.take(0)));
    while i < input.len()
        invariant
            i <= input@.len(),
            all == model::views(input@),
            model::views(messages@) == client_messages(all.take(i as int)),
        decreases input@.len() - i,
    {
        let ghost before = model::views(messages@);
        proof {
            let taken = all.take(i + 1);
            assert(taken.drop_last() =~= all.take(i as int));
            assert(taken.last() == input@[i as int]@);
        }
        if is_client_message(&input[i]) {
            let copy: ResponsesInputItem = input[i].duplicate();
            messages.push(copy);
            assert(model::views(messages@) =~= before.push(input@[i as int]@));
        }
        i = i + 1;
    }
    assert(all.take(all.len() as int) =~= all);
    let mut history: Vec<ResponsesInputItem> = truncate_retained_messages(
        messages,
        RETAINED_MESSAGE_TOKEN_BUDGET,
    );
    let ghost before = model::views(history@);
    let ghost last = compaction@;
    history.push(compaction);
    assert(model::views(history@) =~= before.push(last));
    history
}

// ---------------------------------------------------------------------------
// The instruction to compact
// ---------------------------------------------------------------------------

/// The parts but for the marked texts of the user.
pub open spec fn unmarked_parts(parts: Seq<request::Part>, marks: Seq<bool>) -> Seq<request::Part>
    decreases parts.len(),
{
    if parts.len() == 0 {
        parts
    } else {
        let at = parts.len() - 1;
        let before = unmarked_parts(parts.drop_last(), marks);
        if parts[at] is InputText && at < marks.len() && marks[at] {
            before
        } else {
            before.push(parts[at])
        }
    }
}

/// The items without the instruction to compact. `marks` says, of each part of
/// the last item, whether it is that instruction. It is taken out of the last
/// item where that is a message of the user, and with it the message where
/// nothing else is said in it.
pub open spec fn without_instruction(items: Seq<request::Item>, marks: Seq<bool>) -> Seq<
    request::Item,
> {
    if items.len() == 0 {
        items
    } else {
        match items.last() {
            request::Item::Message { role, content } => if role == "user"@ {
                let parts = unmarked_parts(content, marks);
                if parts.len() == 0 {
                    items.drop_last()
                } else {
                    items.drop_last().push(request::Item::Message { role, content: parts })
                }
            } else {
                items
            },
            _ => items,
        }
    }
}

/// The items without the instruction to compact. `marks` says, of each part of
/// the last item, whether it is that instruction.
pub fn without_compaction_instruction(input: &[ResponsesInputItem], marks: &[bool]) -> (kept: Vec<
    ResponsesInputItem,
>)
    ensures
        model::views(kept@) == without_instruction(model::views(input@), marks@),
{
    let ghost all = model::views(input@);
    let mut kept: Vec<ResponsesInputItem> = model::duplicates(input);
    if input.len() == 0 {
        return kept;
    }
    let last: usize = input.len() - 1;
    if let ResponsesInputItem::Message { role, content } = &input[last] {
        if text::same_text(role.as_str(), "user") {
            let parts: Vec<ResponsesContentPart> = drop_marked(content.as_slice(), marks);
            let _ = kept.pop();
            assert(model::views(kept@) =~= all.drop_last());
            let ghost before = model::views(kept@);
            if parts.len() > 0 {
                let message: ResponsesInputItem = ResponsesInputItem::Message {
                    role: role.clone(),
                    content: parts,
                };
                let ghost added = message@;
                kept.push(message);
                assert(model::views(kept@) =~= before.push(added));
            }
        }
    }
    kept
}

/// The parts but for the marked texts of the user.
fn drop_marked(parts: &[ResponsesContentPart], marks: &[bool]) -> (kept: Vec<ResponsesContentPart>)
    ensures
        model::views(kept@) == unmarked_parts(model::views(parts@), marks@),
{
    let ghost all = model::views(parts@);
    let mut kept: Vec<ResponsesContentPart> = Vec::new();
    let mut i: usize = 0;
    assert(model::views(kept@) =~= unmarked_parts(all.take(0), marks@));
    while i < parts.len()
        invariant
            i <= parts@.len(),
            all == model::views(parts@),
            model::views(kept@) == unmarked_parts(all.take(i as int), marks@),
        decreases parts@.len() - i,
    {
        let ghost before = model::views(kept@);
        proof {
            let taken = all.take(i + 1);
            assert(taken.drop_last() =~= all.take(i as int));
            assert(taken[i as int] == parts@[i as int]@);
        }
        let marked: bool = i < marks.len() && marks[i];
        let dropped: bool = match &parts[i] {
            ResponsesContentPart::InputText { .. } => marked,
            _ => false,
        };
        if !dropped {
            let copy: ResponsesContentPart = parts[i].duplicate();
            kept.push(copy);
            assert(model::views(kept@) =~= before.push(parts@[i as int]@));
        }
        i = i + 1;
    }
    assert(all.take(all.len() as int) =~= all);
    kept
}

// ---------------------------------------------------------------------------
// What holds of it
// ---------------------------------------------------------------------------

/// How many bytes of text stand in an item.
pub open spec fn item_text_bytes(item: request::Item) -> nat {
    match item {
        request::Item::Message { content, .. } => parts_text_bytes(content),
        _ => 0,
    }
}

/// How many bytes of text stand in the parts.
pub open spec fn parts_text_bytes(parts: Seq<request::Part>) -> nat
    decreases parts.len(),
{
    if parts.len() == 0 {
        0
    } else {
        parts_text_bytes(parts.drop_last()) + text::utf8_len(part_text(parts.last()))
    }
}

/// How many bytes of text stand in the items.
pub open spec fn items_text_bytes(items: Seq<request::Item>) -> nat
    decreases items.len(),
{
    if items.len() == 0 {
        0
    } else {
        items_text_bytes(items.drop_last()) + item_text_bytes(items.last())
    }
}

proof fn lemma_parts_bytes_and_tokens(parts: Seq<request::Part>)
    ensures
        parts_text_bytes(parts) <= 4 * parts_tokens(parts),
    decreases parts.len(),
{
    if parts.len() > 0 {
        text::lemma_empty_text_has_no_bytes();
        lemma_parts_bytes_and_tokens(parts.drop_last());
    }
}

proof fn lemma_parts_text_bytes_front(parts: Seq<request::Part>)
    requires
        parts.len() > 0,
    ensures
        parts_text_bytes(parts) == text::utf8_len(part_text(parts[0])) + parts_text_bytes(
            parts.drop_first(),
        ),
    decreases parts.len(),
{
    if parts.len() == 1 {
        assert(parts.drop_last() =~= Seq::<request::Part>::empty());
        assert(parts.drop_first() =~= Seq::<request::Part>::empty());
    } else {
        lemma_parts_text_bytes_front(parts.drop_last());
        assert(parts.drop_last().drop_first() =~= parts.drop_first().drop_last());
    }
}

/// Cut texts take no more bytes together than the limit.
pub proof fn cut_parts_keep_to_the_limit(parts: Seq<request::Part>, limit: nat)
    ensures
        parts_text_bytes(cut_parts(parts, limit)) <= limit,
    decreases parts.len(),
{
    text::lemma_empty_text_has_no_bytes();
    if parts.len() > 0 {
        let first = cut_part(parts[0], limit);
        match parts[0] {
            request::Part::InputText(t) => {
                text::lemma_prefix_within(t, limit);
            },
            request::Part::OutputText(t) => {
                text::lemma_prefix_within(t, limit);
            },
            _ => {},
        }
        let left = (limit - text::utf8_len(part_text(first))) as nat;
        let rest = cut_parts(parts.drop_first(), left);
        cut_parts_keep_to_the_limit(parts.drop_first(), left);
        if !empty_part(first) {
            lemma_parts_text_bytes_front(seq![first] + rest);
            assert((seq![first] + rest).drop_first() =~= rest);
        }
    }
}

/// The messages that are kept hold no more than four bytes of text for every
/// token of the budget, where so many bytes can be counted.
pub proof fn retained_messages_keep_to_the_budget(items: Seq<request::Item>, budget: u64)
    requires
        4 * budget <= usize::MAX,
    ensures
        items_text_bytes(retained(items, budget)) <= 4 * budget,
    decreases items.len(),
{
    if items.len() > 0 && budget > 0 {
        let last = items.last();
        if item_cost(last) <= budget {
            let left = (budget - item_cost(last)) as u64;
            match last {
                request::Item::Message { content, .. } => {
                    lemma_parts_bytes_and_tokens(content);
                },
                _ => {},
            }
            retained_messages_keep_to_the_budget(items.drop_last(), left);
            assert(retained(items, budget).drop_last() =~= retained(items.drop_last(), left));
            assert(item_text_bytes(last) <= 4 * item_tokens(last));
        } else {
            match cut_message(last, budget) {
                Some(cut) => {
                    match last {
                        request::Item::Message { content, .. } => {
                            cut_parts_keep_to_the_limit(content, allowed_bytes(budget) as nat);
                        },
                        _ => {},
                    }
                    assert(items_text_bytes(Seq::<request::Item>::empty()) == 0);
                    assert(seq![cut].drop_last() =~= Seq::<request::Item>::empty());
                },
                None => {
                    retained_messages_keep_to_the_budget(items.drop_last(), budget);
                },
            }
        }
    }
}

proof fn lemma_client_messages(items: Seq<request::Item>)
    ensures
        forall|i: int|
            0 <= i < client_messages(items).len() ==> of_the_client(
                #[trigger] client_messages(items)[i],
            ),
    decreases items.len(),
{
    if items.len() > 0 {
        let before = client_messages(items.drop_last());
        lemma_client_messages(items.drop_last());
        assert forall|i: int| 0 <= i < client_messages(items).len() implies of_the_client(
            #[trigger] client_messages(items)[i],
        ) by {
            if i < before.len() {
                assert(of_the_client(before[i]));
            }
        }
    }
}

proof fn lemma_retained_of_the_client(items: Seq<request::Item>, budget: u64)
    requires
        forall|i: int| 0 <= i < items.len() ==> of_the_client(#[trigger] items[i]),
    ensures
        forall|i: int|
            0 <= i < retained(items, budget).len() ==> of_the_client(
                #[trigger] retained(items, budget)[i],
            ),
    decreases items.len(),
{
    let kept = retained(items, budget);
    if items.len() > 0 && budget > 0 {
        let last = items[items.len() - 1];
        let shorter = items.drop_last();
        assert(of_the_client(last));
        if item_cost(last) <= budget {
            let left = (budget - item_cost(last)) as u64;
            lemma_retained_of_the_client(shorter, left);
            let before = retained(shorter, left);
            assert(kept == before.push(last));
            assert forall|i: int| 0 <= i < kept.len() implies of_the_client(#[trigger] kept[i]) by {
                if i < before.len() {
                    assert(of_the_client(before[i]));
                }
            }
        } else if cut_message(last, budget) is None {
            lemma_retained_of_the_client(shorter, budget);
            assert(kept == retained(shorter, budget));
        } else {
            let cut = cut_message(last, budget)->0;
            assert(of_the_client(cut));
            assert(kept == seq![cut]);
            assert forall|i: int| 0 <= i < kept.len() implies of_the_client(#[trigger] kept[i]) by {
                assert(kept[i] == cut);
            }
        }
    }
}

/// What stands for a compacted conversation holds nothing that the assistant said
/// and no tools: messages of the user, the developer or the system, and behind
/// them the item that stands for the rest.
pub proof fn compacted_history_holds_no_answers(
    items: Seq<request::Item>,
    compaction: request::Item,
)
    ensures
        compacted(items, compaction).last() == compaction,
        forall|i: int|
            0 <= i < compacted(items, compaction).len() - 1 ==> of_the_client(
                #[trigger] compacted(items, compaction)[i],
            ),
{
    lemma_client_messages(items);
    lemma_retained_of_the_client(client_messages(items), RETAINED_MESSAGE_TOKEN_BUDGET);
    let kept = retained(client_messages(items), RETAINED_MESSAGE_TOKEN_BUDGET);
    assert forall|i: int| 0 <= i < compacted(items, compaction).len() - 1 implies of_the_client(
        #[trigger] compacted(items, compaction)[i],
    ) by {
        assert(of_the_client(kept[i]));
    }
}

} // verus!
