//! Streams of server-sent events.
//!
//! A stream is made of lines. The lines up to an empty one are an event, and what
//! the event says stands in its `data` fields. Only what ends with an empty line
//! is an event.

use crate::outside;
use vstd::prelude::*;

verus! {

/// An event.
#[derive(Debug)]
pub struct SseEvent {
    pub data: String,
}

/// Whether a byte ends a line.
pub open spec fn ends_line(b: u8) -> bool {
    b == 10 || b == 13
}

/// Where the line that begins at `i` ends.
pub open spec fn line_end(bytes: Seq<u8>, i: int) -> int
    decreases bytes.len() - i,
{
    if i < 0 || i >= bytes.len() || ends_line(bytes[i]) {
        i
    } else {
        line_end(bytes, i + 1)
    }
}

/// Where the line after the one that ends at `end` begins. A carriage return and
/// a line feed end a line together.
pub open spec fn next_line(bytes: Seq<u8>, end: int) -> int {
    if bytes[end] == 13 && end + 1 < bytes.len() && bytes[end + 1] == 10 {
        end + 2
    } else {
        end + 1
    }
}

/// The name of the field that holds what an event says.
pub open spec fn data_name() -> Seq<u8> {
    seq![100, 97, 116, 97]
}

/// What a line holds where it is a `data` field: what follows the colon and one
/// space after it.
pub open spec fn data_value(line: Seq<u8>) -> Option<Seq<u8>> {
    if line.len() < 4 || line.take(4) != data_name() {
        None
    } else if line.len() == 4 {
        Some(Seq::empty())
    } else if line[4] != 58 {
        None
    } else if line.len() > 5 && line[5] == 32 {
        Some(line.skip(6))
    } else {
        Some(line.skip(5))
    }
}

/// What an event says so far, once one more line has been read. Several fields
/// stand on lines of their own.
pub open spec fn absorbed(pending: Option<Seq<u8>>, line: Seq<u8>) -> Option<Seq<u8>> {
    match data_value(line) {
        Some(value) => match pending {
            Some(before) => Some(before.push(10) + value),
            None => Some(value),
        },
        None => pending,
    }
}

/// What the events say from `i` on, where `pending` has been read of the first.
pub open spec fn events_from(bytes: Seq<u8>, i: int, pending: Option<Seq<u8>>) -> Seq<Seq<u8>>
    decreases bytes.len() - i,
{
    let end = line_end(bytes, i);
    if i < 0 || i >= bytes.len() || end >= bytes.len() {
        Seq::empty()
    } else if end == i {
        match pending {
            Some(data) => seq![data] + events_from(bytes, next_line(bytes, end), None),
            None => events_from(bytes, next_line(bytes, end), None),
        }
    } else {
        proof {
            lemma_line_end(bytes, i);
        }
        events_from(
            bytes,
            next_line(bytes, end),
            absorbed(pending, bytes.subrange(i, end)),
        )
    }
}

/// What the events of a stream say, as bytes.
pub open spec fn event_data(bytes: Seq<u8>) -> Seq<Seq<u8>> {
    events_from(bytes, 0, None)
}

/// What the events of a stream say.
pub open spec fn event_texts(bytes: Seq<u8>) -> Seq<Seq<char>> {
    event_data(bytes).map_values(|data: Seq<u8>| outside::lossy_text(data))
}

/// What events say.
pub open spec fn texts_of(events: Seq<SseEvent>) -> Seq<Seq<char>> {
    Seq::new(events.len(), |i: int| events[i].data@)
}

/// A line ends no earlier than it begins.
pub proof fn lemma_line_end(bytes: Seq<u8>, i: int)
    requires
        0 <= i <= bytes.len(),
    ensures
        i <= line_end(bytes, i) <= bytes.len(),
    decreases bytes.len() - i,
{
    if i < bytes.len() && !ends_line(bytes[i]) {
        lemma_line_end(bytes, i + 1);
    }
}

/// Where the line that begins at `i` ends.
fn find_line_end(bytes: &[u8], i: usize) -> (end: usize)
    requires
        i <= bytes@.len(),
    ensures
        end == line_end(bytes@, i as int),
        i <= end <= bytes@.len(),
{
    let mut end: usize = i;
    while end < bytes.len() && bytes[end] != 10 && bytes[end] != 13
        invariant
            i <= end <= bytes@.len(),
            line_end(bytes@, i as int) == line_end(bytes@, end as int),
        decreases bytes@.len() - end,
    {
        end = end + 1;
    }
    end
}

/// What the line from `from` up to `to` holds where it is a `data` field.
fn data_field(bytes: &[u8], from: usize, to: usize) -> (found: Option<usize>)
    requires
        from <= to <= bytes@.len(),
    ensures
        match found {
            Some(at) => from <= at <= to && data_value(bytes@.subrange(from as int, to as int))
                == Some(bytes@.subrange(at as int, to as int)),
            None => data_value(bytes@.subrange(from as int, to as int)) is None,
        },
{
    let ghost line = bytes@.subrange(from as int, to as int);
    if to - from < 4 {
        return None;
    }
    if bytes[from] != 100 || bytes[from + 1] != 97 || bytes[from + 2] != 116 || bytes[from + 3]
        != 97 {
        proof {
            let first = line.take(4);
            assert(first[0] == bytes@[from as int]);
            assert(first[1] == bytes@[from + 1]);
            assert(first[2] == bytes@[from + 2]);
            assert(first[3] == bytes@[from + 3]);
        }
        return None;
    }
    assert(line.take(4) =~= data_name());
    if to - from == 4 {
        assert(bytes@.subrange(to as int, to as int) =~= Seq::<u8>::empty());
        return Some(to);
    }
    if bytes[from + 4] != 58 {
        return None;
    }
    if to - from > 5 && bytes[from + 5] == 32 {
        assert(line.skip(6) =~= bytes@.subrange(from + 6, to as int));
        Some(from + 6)
    } else {
        assert(line.skip(5) =~= bytes@.subrange(from + 5, to as int));
        Some(from + 5)
    }
}

/// Appends the bytes from `from` up to `to`.
fn append_bytes(out: &mut Vec<u8>, bytes: &[u8], from: usize, to: usize)
    requires
        from <= to <= bytes@.len(),
    ensures
        final(out)@ == old(out)@ + bytes@.subrange(from as int, to as int),
{
    let ghost start = out@;
    let mut i: usize = from;
    assert(out@ =~= start + bytes@.subrange(from as int, from as int));
    while i < to
        invariant
            from <= i <= to <= bytes@.len(),
            out@ == start + bytes@.subrange(from as int, i as int),
        decreases to - i,
    {
        out.push(bytes[i]);
        i = i + 1;
        assert(out@ =~= start + bytes@.subrange(from as int, i as int));
    }
}

/// The bytes that may be there.
pub open spec fn seen_bytes(bytes: Option<Vec<u8>>) -> Option<Seq<u8>> {
    match bytes {
        Some(v) => Some(v@),
        None => None,
    }
}

/// The events of a stream.
pub fn parse_sse_events(body: &[u8]) -> (events: Vec<SseEvent>)
    ensures
        texts_of(events@) == event_texts(body@),
{
    let ghost bytes = body@;
    let ghost text_of = |data: Seq<u8>| outside::lossy_text(data);
    let mut events: Vec<SseEvent> = Vec::new();
    let mut pending: Option<Vec<u8>> = None;
    let mut i: usize = 0;
    assert(texts_of(events@) + event_texts(bytes) =~= event_texts(bytes));
    while i < body.len()
        invariant
            i <= body@.len(),
            bytes == body@,
            text_of == (|data: Seq<u8>| outside::lossy_text(data)),
            event_texts(bytes) == texts_of(events@) + events_from(
                bytes,
                i as int,
                seen_bytes(pending),
            ).map_values(text_of),
        decreases body@.len() - i,
    {
        let ghost said = seen_bytes(pending);
        let ghost before = texts_of(events@);
        let end: usize = find_line_end(body, i);
        if end >= body.len() {
            proof {
                let none = events_from(bytes, i as int, said);
                assert(none.map_values(text_of) =~= Seq::<Seq<char>>::empty());
                assert(before + Seq::<Seq<char>>::empty() =~= before);
            }
            return events;
        }
        let next: usize = if body[end] == 13 && end + 1 < body.len() && body[end + 1] == 10 {
            end + 2
        } else {
            end + 1
        };
        if end == i {
            if let Some(data) = pending {
                let decoded: String = outside::decode_lossy(data.as_slice());
                events.push(SseEvent { data: decoded });
                proof {
                    let rest = events_from(bytes, next as int, None);
                    assert(texts_of(events@) =~= before.push(text_of(data@)));
                    assert((seq![data@] + rest).map_values(text_of) =~= seq![text_of(data@)]
                        + rest.map_values(text_of));
                    assert(before.push(text_of(data@)) + rest.map_values(text_of) =~= before + (
                    seq![text_of(data@)] + rest.map_values(text_of)));
                }
            }
            pending = None;
        } else {
            if let Some(at) = data_field(body, i, end) {
                let mut data: Vec<u8> = Vec::new();
                if let Some(earlier) = pending {
                    data = earlier;
                    data.push(10);
                }
                append_bytes(&mut data, body, at, end);
                proof {
                    if said is None {
                        assert(data@ =~= bytes.subrange(at as int, end as int));
                    }
                }
                pending = Some(data);
            }
        }
        i = next;
    }
    proof {
        let none = events_from(bytes, i as int, seen_bytes(pending));
        assert(none.map_values(text_of) =~= Seq::<Seq<char>>::empty());
        assert(texts_of(events@) + Seq::<Seq<char>>::empty() =~= texts_of(events@));
    }
    events
}

} // verus!
