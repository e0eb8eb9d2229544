//! How a stream of server-sent events is read.

use crate::sse;
use vstd::prelude::*;

verus! {

/// Whether bytes end a line: a line feed, a carriage return with something else behind
/// it, or both together.
pub open spec fn line_break(end: Seq<u8>, rest: Seq<u8>) -> bool {
    end == seq![10u8] || end == seq![13u8, 10u8] || (end == seq![13u8] && (rest.len() == 0
        || rest[0] != 10))
}

/// Whether bytes stand on one line.
pub open spec fn one_line(line: Seq<u8>) -> bool {
    forall|i: int| 0 <= i < line.len() ==> #[trigger] line[i] != 10 && line[i] != 13
}

proof fn lemma_line_end_shifts(head: Seq<u8>, bytes: Seq<u8>, i: int)
    requires
        0 <= i,
    ensures
        sse::line_end(head + bytes, head.len() + i) == head.len() + sse::line_end(bytes, i),
    decreases bytes.len() - i,
{
    if i < bytes.len() {
        assert((head + bytes)[head.len() + i] == bytes[i]);
        if !sse::ends_line(bytes[i]) {
            lemma_line_end_shifts(head, bytes, i + 1);
        }
    }
}

/// What stands before a place does not matter to what is read from there on.
proof fn lemma_events_shift(head: Seq<u8>, bytes: Seq<u8>, i: int, pending: Option<Seq<u8>>)
    requires
        0 <= i,
    ensures
        sse::events_from(head + bytes, head.len() + i, pending) == sse::events_from(
            bytes,
            i,
            pending,
        ),
    decreases bytes.len() - i,
{
    let all = head + bytes;
    let at = head.len() + i;
    lemma_line_end_shifts(head, bytes, i);
    let end = sse::line_end(bytes, i);
    if i < bytes.len() {
        sse::lemma_line_end(bytes, i);
        if end < bytes.len() {
            let next = sse::next_line(bytes, end);
            assert(all[head.len() + end] == bytes[end]);
            if end + 1 < bytes.len() {
                assert(all[head.len() + end + 1] == bytes[end + 1]);
            }
            assert(sse::next_line(all, head.len() + end) == head.len() + next);
            if end == i {
                lemma_events_shift(head, bytes, next, None);
            } else {
                assert(all.subrange(at, head.len() + end) =~= bytes.subrange(i, end));
                lemma_events_shift(
                    head,
                    bytes,
                    next,
                    sse::absorbed(pending, bytes.subrange(i, end)),
                );
            }
        }
    }
}

proof fn lemma_line_end_of_line(line: Seq<u8>, rest: Seq<u8>, i: int)
    requires
        one_line(line),
        0 <= i <= line.len(),
        rest.len() == 0 || rest[0] == 10 || rest[0] == 13,
    ensures
        sse::line_end(line + rest, i) == line.len(),
    decreases line.len() - i,
{
    let all = line + rest;
    if i < line.len() {
        assert(all[i] == line[i]);
        lemma_line_end_of_line(line, rest, i + 1);
    } else if rest.len() > 0 {
        assert(all[i] == rest[0]);
    }
}

/// A stream is read line by line: a line adds to what the event says, an empty line ends
/// the event, and what follows is read as a stream of its own.
pub proof fn streams_are_read_line_by_line(
    line: Seq<u8>,
    end: Seq<u8>,
    rest: Seq<u8>,
    pending: Option<Seq<u8>>,
)
    requires
        one_line(line),
        line_break(end, rest),
    ensures
        sse::events_from(line + end + rest, 0, pending) == if line.len() > 0 {
            sse::events_from(rest, 0, sse::absorbed(pending, line))
        } else {
            match pending {
                Some(data) => seq![data] + sse::events_from(rest, 0, None),
                None => sse::events_from(rest, 0, None),
            }
        },
{
    let all = line + end + rest;
    assert(all =~= line + (end + rest));
    assert((end + rest)[0] == end[0]);
    lemma_line_end_of_line(line, end + rest, 0);
    let at = line.len() as int;
    assert(all[at] == end[0]);
    if end.len() == 2 {
        assert(all[at + 1] == end[1]);
    } else if rest.len() > 0 {
        assert(all[at + 1] == rest[0]);
    }
    assert(sse::next_line(all, at) == at + end.len());
    let next = if line.len() > 0 {
        sse::absorbed(pending, line)
    } else {
        None
    };
    lemma_events_shift(line + end, rest, 0, next);
    assert(all.subrange(0, at) =~= line);
}

/// What does not end with a line break is not read.
pub proof fn unfinished_lines_are_not_read(line: Seq<u8>, pending: Option<Seq<u8>>)
    requires
        one_line(line),
    ensures
        sse::events_from(line, 0, pending) == Seq::<Seq<u8>>::empty(),
{
    let none = Seq::<u8>::empty();
    lemma_line_end_of_line(line, none, 0);
    assert(line + none =~= line);
}

/// A data field says what stands behind its name, a colon and at most one space.
pub proof fn data_fields_say_what_follows(value: Seq<u8>)
    ensures
        sse::data_value(seq![100u8, 97, 116, 97, 58, 32] + value) == Some(value),
        (value.len() == 0 || value[0] != 32) ==> sse::data_value(
            seq![100u8, 97, 116, 97, 58] + value,
        ) == Some(value),
        sse::data_value(seq![100u8, 97, 116, 97]) == Some(Seq::<u8>::empty()),
{
    let spaced = seq![100u8, 97, 116, 97, 58, 32] + value;
    let close = seq![100u8, 97, 116, 97, 58] + value;
    let name = seq![100u8, 97, 116, 97];
    assert(spaced.take(4) =~= name);
    assert(spaced[4] == 58 && spaced[5] == 32);
    assert(spaced.skip(6) =~= value);
    assert(close.take(4) =~= name);
    assert(close[4] == 58);
    assert(close.skip(5) =~= value);
    if value.len() > 0 {
        assert(close[5] == value[0]);
    }
    assert(name.take(4) =~= name);
}

/// A line that is no data field says nothing.
pub proof fn other_lines_say_nothing(line: Seq<u8>, pending: Option<Seq<u8>>)
    requires
        line.len() < 4 || line[0] != 100 || line[1] != 97 || line[2] != 116 || line[3] != 97 || (
        line.len() > 4 && line[4] != 58),
    ensures
        sse::absorbed(pending, line) == pending,
{
    if line.len() >= 4 {
        let first = line.take(4);
        assert(first[0] == line[0] && first[1] == line[1] && first[2] == line[2] && first[3]
            == line[3]);
        assert(sse::data_name()[0] == 100 && sse::data_name()[1] == 97 && sse::data_name()[2]
            == 116 && sse::data_name()[3] == 97);
    }
}

/// Several data fields of an event stand on lines of their own.
pub proof fn data_fields_stand_on_their_own_lines(before: Seq<u8>, value: Seq<u8>)
    ensures
        sse::absorbed(None, seq![100u8, 97, 116, 97, 58, 32] + value) == Some(value),
        sse::absorbed(Some(before), seq![100u8, 97, 116, 97, 58, 32] + value) == Some(
            before + seq![10u8] + value,
        ),
{
    data_fields_say_what_follows(value);
    assert(before.push(10) + value =~= before + seq![10u8] + value);
}

/// An event with one data field is read as what the field says, and what follows it is
/// read as a stream of its own.
pub proof fn events_are_read_one_after_the_other(value: Seq<u8>, rest: Seq<u8>)
    requires
        one_line(value),
    ensures
        sse::event_data(
            seq![100u8, 97, 116, 97, 58, 32] + value + seq![10u8] + (seq![10u8] + rest),
        ) == seq![value] + sse::event_data(rest),
{
    let line = seq![100u8, 97, 116, 97, 58, 32] + value;
    assert(one_line(line));
    streams_are_read_line_by_line(line, seq![10u8], seq![10u8] + rest, None);
    data_fields_stand_on_their_own_lines(value, value);
    streams_are_read_line_by_line(Seq::empty(), seq![10u8], rest, Some(value));
    assert(Seq::<u8>::empty() + seq![10u8] + rest =~= seq![10u8] + rest);
}

} // verus!
