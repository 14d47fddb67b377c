//! Chat messages: one row for every `SayText` or `SayText2` message that decodes.
use crate::chat;
use crate::chat::{ChatMessage, SayText, SayText2};
use crate::demo::GameEvent;
use crate::laws::reading;
use crate::wire;
use vstd::prelude::*;

verus! {

/// What is left of a message once its first field is read: a number, a text, or a field that
/// is skipped.
pub open spec fn after_field(
    numbers: spec_fn(u32) -> bool,
    texts: spec_fn(u32) -> bool,
    bytes: Seq<u8>,
) -> Option<Seq<u8>> {
    match wire::key_read(bytes) {
        None => None,
        Some((tag, wire, rest)) => if numbers(tag) {
            match wire::int32_read(wire, rest) {
                Some((_, left)) => Some(left),
                None => None,
            }
        } else if texts(tag) {
            match wire::string_read(wire, rest) {
                Some((_, left)) => Some(left),
                None => None,
            }
        } else {
            wire::skip_read(wire, rest, wire::group_read(tag, rest))
        },
    }
}

/// Whether a message reads to its end.
pub open spec fn reads(
    numbers: spec_fn(u32) -> bool,
    texts: spec_fn(u32) -> bool,
    bytes: Seq<u8>,
) -> bool
    decreases bytes.len(),
{
    bytes.len() == 0 || match after_field(numbers, texts, bytes) {
        Some(left) => left.len() < bytes.len() && reads(numbers, texts, left),
        None => false,
    }
}

/// The number that a message last gives under a tag, else the one that is known already.
pub open spec fn last_number(
    numbers: spec_fn(u32) -> bool,
    texts: spec_fn(u32) -> bool,
    bytes: Seq<u8>,
    tag: u32,
    known: Option<i32>,
) -> Option<i32>
    decreases bytes.len(),
{
    if bytes.len() == 0 {
        known
    } else {
        let (t, wire, rest) = wire::key_read(bytes)->0;
        let left = after_field(numbers, texts, bytes)->0;
        if left.len() >= bytes.len() {
            known
        } else if t == tag {
            let (v, _) = wire::int32_read(wire, rest)->0;
            last_number(numbers, texts, left, tag, Some(v))
        } else {
            last_number(numbers, texts, left, tag, known)
        }
    }
}

/// The flag that a message last gives under a tag, else the one that is known already: it is set
/// where the number is not 0.
pub open spec fn last_flag(
    numbers: spec_fn(u32) -> bool,
    texts: spec_fn(u32) -> bool,
    bytes: Seq<u8>,
    tag: u32,
    known: Option<bool>,
) -> Option<bool>
    decreases bytes.len(),
{
    if bytes.len() == 0 {
        known
    } else {
        let (t, wire, rest) = wire::key_read(bytes)->0;
        let left = after_field(numbers, texts, bytes)->0;
        if left.len() >= bytes.len() {
            known
        } else if t == tag {
            let (v, _) = wire::varint(rest)->0;
            last_flag(numbers, texts, left, tag, Some(v != 0))
        } else {
            last_flag(numbers, texts, left, tag, known)
        }
    }
}

/// The text that a message last gives under a tag, else the one that is known already.
pub open spec fn last_text(
    numbers: spec_fn(u32) -> bool,
    texts: spec_fn(u32) -> bool,
    bytes: Seq<u8>,
    tag: u32,
    known: Option<Seq<char>>,
) -> Option<Seq<char>>
    decreases bytes.len(),
{
    if bytes.len() == 0 {
        known
    } else {
        let (t, wire, rest) = wire::key_read(bytes)->0;
        let left = after_field(numbers, texts, bytes)->0;
        if left.len() >= bytes.len() {
            known
        } else if t == tag {
            let (v, _) = wire::string_read(wire, rest)->0;
            last_text(numbers, texts, left, tag, Some(v))
        } else {
            last_text(numbers, texts, left, tag, known)
        }
    }
}

/// The tags of the numbers and flags of a `SayText` message.
pub open spec fn say_text_numbers() -> spec_fn(u32) -> bool {
    |tag: u32| tag == 1 || tag == 3
}

/// The tag of the text of a `SayText` message.
pub open spec fn say_text_texts() -> spec_fn(u32) -> bool {
    |tag: u32| tag == 2
}

/// The tags of the numbers and flags of a `SayText2` message.
pub open spec fn say_text2_numbers() -> spec_fn(u32) -> bool {
    |tag: u32| tag == 1 || tag == 2
}

/// The tags of the texts of a `SayText2` message.
pub open spec fn say_text2_texts() -> spec_fn(u32) -> bool {
    |tag: u32| tag == 3 || tag == 4 || tag == 5 || tag == 6 || tag == 7
}

/// A `SayText` message decodes where all its fields read; each value is the last one under its
/// tag.
pub proof fn law_say_text(m: SayText<Seq<char>>, bytes: Seq<u8>)
    ensures
        ({
            let numbers = say_text_numbers();
            let texts = say_text_texts();
            let r = chat::say_text_fields(m, bytes);
            &&& r is Some <==> reads(numbers, texts, bytes)
            &&& r matches Some(s) ==> {
                &&& s.playerindex == last_number(numbers, texts, bytes, 1, m.playerindex)
                &&& s.text == last_text(numbers, texts, bytes, 2, m.text)
                &&& s.chat == last_flag(numbers, texts, bytes, 3, m.chat)
            }
        }),
    decreases bytes.len(),
{
    if bytes.len() > 0 {
        if let Some((tag, wire, rest)) = wire::key_read(bytes) {
            if let Some((next, left)) = chat::say_text_field(m, tag, wire, rest) {
                if left.len() < bytes.len() {
                    law_say_text(next, left);
                }
            }
        }
    }
}

/// A `SayText2` message decodes where all its fields read; each value is the last one under its
/// tag.
pub proof fn law_say_text2(m: SayText2<Seq<char>>, bytes: Seq<u8>)
    ensures
        ({
            let numbers = say_text2_numbers();
            let texts = say_text2_texts();
            let r = chat::say_text2_fields(m, bytes);
            &&& r is Some <==> reads(numbers, texts, bytes)
            &&& r matches Some(s) ==> {
                &&& s.entityindex == last_number(numbers, texts, bytes, 1, m.entityindex)
                &&& s.chat == last_flag(numbers, texts, bytes, 2, m.chat)
                &&& s.messagename == last_text(numbers, texts, bytes, 3, m.messagename)
                &&& s.param1 == last_text(numbers, texts, bytes, 4, m.param1)
                &&& s.param2 == last_text(numbers, texts, bytes, 5, m.param2)
                &&& s.param3 == last_text(numbers, texts, bytes, 6, m.param3)
                &&& s.param4 == last_text(numbers, texts, bytes, 7, m.param4)
            }
        }),
    decreases bytes.len(),
{
    if bytes.len() > 0 {
        if let Some((tag, wire, rest)) = wire::key_read(bytes) {
            if let Some((next, left)) = chat::say_text2_field(m, tag, wire, rest) {
                if left.len() < bytes.len() {
                    law_say_text2(next, left);
                }
            }
        }
    }
}

/// Whether an event is a `SayText2` message that decodes.
pub open spec fn says_by_name(e: GameEvent) -> bool {
    (e.msg_type == 118 || e.msg_type == 306) && reads(
        say_text2_numbers(),
        say_text2_texts(),
        e.payload@,
    )
}

/// Whether an event is a `SayText` message that decodes.
pub open spec fn says_plainly(e: GameEvent) -> bool {
    (e.msg_type == 117 || e.msg_type == 305) && reads(
        say_text_numbers(),
        say_text_texts(),
        e.payload@,
    )
}

/// Which events are chat messages.
pub open spec fn chat_picks(events: Seq<GameEvent>) -> spec_fn(int) -> bool {
    |i: int| says_by_name(events[i]) || says_plainly(events[i])
}

/// Whether an index is one that is known: it is not negative.
pub open spec fn is_index(read: Option<i32>, shown: Option<i32>) -> bool {
    &&& read is Some && read->0 >= 0 ==> shown == read
    &&& read is None || read->0 < 0 ==> shown is None
}

/// Whether a text is one that says something.
pub open spec fn is_said(read: Option<Seq<char>>, shown: Option<Seq<char>>) -> bool {
    &&& read is Some && read->0.len() > 0 ==> shown == read
    &&& read is None || read->0.len() == 0 ==> shown is None
}

/// Whether a text is what was read, and empty where nothing was.
pub open spec fn is_body(read: Option<Seq<char>>, shown: Seq<char>) -> bool {
    &&& read is Some ==> shown == read->0
    &&& read is None ==> shown.len() == 0
}

/// Whether a row is what a chat message says: a `SayText2` message has the name of the sender
/// as its first parameter, the text as its second and the channel as its own name, and a
/// `SayText` message has neither name nor channel.
pub open spec fn is_message(e: GameEvent, row: ChatMessage<Seq<char>>) -> bool {
    let bytes = e.payload@;
    &&& row.tick == e.tick
    &&& says_by_name(e) ==> {
        let numbers = say_text2_numbers();
        let texts = say_text2_texts();
        &&& is_index(last_number(numbers, texts, bytes, 1, None), row.entity_index)
        &&& is_said(last_text(numbers, texts, bytes, 4, None), row.name)
        &&& is_body(last_text(numbers, texts, bytes, 5, None), row.message)
        &&& is_said(last_text(numbers, texts, bytes, 3, None), row.channel)
    }
    &&& says_plainly(e) ==> {
        let numbers = say_text_numbers();
        let texts = say_text_texts();
        &&& is_index(last_number(numbers, texts, bytes, 1, None), row.entity_index)
        &&& row.name is None
        &&& is_body(last_text(numbers, texts, bytes, 2, None), row.message)
        &&& row.channel is None
    }
}

/// Chat messages are the events that are chat and decode: there is one row for each, in their
/// order, and it is what the message says.
pub proof fn law_chat_tells_messages(events: Seq<GameEvent>)
    ensures
        ({
            let rows = chat::chat_rows(events);
            let places = reading::picks(events.len() as int, chat_picks(events));
            &&& rows.len() == places.len()
            &&& forall|k: int|
                0 <= k < rows.len() ==> is_message(events[places[k]], #[trigger] rows[k])
        }),
{
    lemma_chat(events, events.len() as int);
    assert(events.take(events.len() as int) =~= events);
}

proof fn lemma_message(e: GameEvent)
    ensures
        chat::chat_row(e) is Some <==> says_by_name(e) || says_plainly(e),
        chat::chat_row(e) matches Some(row) ==> is_message(e, row),
{
    law_say_text(chat::no_say_text(), e.payload@);
    law_say_text2(chat::no_say_text2(), e.payload@);
}

proof fn lemma_chat(events: Seq<GameEvent>, n: int)
    requires
        0 <= n <= events.len(),
    ensures
        ({
            let rows = chat::chat_rows(events.take(n));
            let places = reading::picks(n, chat_picks(events));
            &&& rows.len() == places.len()
            &&& forall|k: int|
                0 <= k < rows.len() ==> is_message(events[places[k]], #[trigger] rows[k])
        }),
    decreases n,
{
    if n == 0 {
        assert(events.take(0) =~= Seq::empty());
    } else {
        lemma_chat(events, n - 1);
        assert(events.take(n).drop_last() =~= events.take(n - 1));
        assert(events.take(n).last() == events[n - 1]);
        lemma_message(events[n - 1]);
        let was = chat::chat_rows(events.take(n - 1));
        let now = chat::chat_rows(events.take(n));
        let before = reading::picks(n - 1, chat_picks(events));
        let all = reading::picks(n, chat_picks(events));
        assert forall|k: int| 0 <= k < now.len() implies is_message(
            events[all[k]],
            #[trigger] now[k],
        ) by {
            if k < was.len() {
                assert(now[k] == was[k]);
                assert(all[k] == before[k]);
            }
        }
    }
}

} // verus!
