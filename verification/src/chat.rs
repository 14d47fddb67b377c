//! Chat messages, decoded from `SayText` and `SayText2` user messages.
use crate::demo::GameEvent;
use crate::text;
use crate::wire;
use crate::wire::{decode_bool, decode_int32, decode_key, decode_string, skip_field};
use vstd::prelude::*;

verus! {

broadcast use crate::text::group_views;

/// The user-message numbers of `SayText`: the engine's and the game's own.
pub const UM_SAY_TEXT: u32 = 117;

pub const CS_UM_SAY_TEXT: u32 = 305;

/// The user-message numbers of `SayText2`: the engine's and the game's own.
pub const UM_SAY_TEXT2: u32 = 118;

pub const CS_UM_SAY_TEXT2: u32 = 306;

/// A chat message.
#[derive(Clone, Debug, Default)]
pub struct ChatMessage<T = String> {
    pub tick: i32,
    /// Sender's controller entity index, when the message carries one.
    pub entity_index: Option<i32>,
    pub name: Option<T>,
    pub message: T,
    /// Chat channel, e.g. `Cstrike_Chat_All` or `Cstrike_Chat_T`.
    pub channel: Option<T>,
}

impl View for ChatMessage {
    type V = ChatMessage<Seq<char>>;

    open spec fn view(&self) -> ChatMessage<Seq<char>> {
        ChatMessage {
            tick: self.tick,
            entity_index: self.entity_index,
            name: text::of(self.name),
            message: self.message@,
            channel: text::of(self.channel),
        }
    }
}

/// The fields of a `SayText` message.
#[derive(Clone, Debug, Default)]
pub struct SayText<T = String> {
    pub playerindex: Option<i32>,
    pub text: Option<T>,
    pub chat: Option<bool>,
}

impl View for SayText {
    type V = SayText<Seq<char>>;

    open spec fn view(&self) -> SayText<Seq<char>> {
        SayText { playerindex: self.playerindex, text: text::of(self.text), chat: self.chat }
    }
}

/// The fields of a `SayText2` message.
#[derive(Clone, Debug, Default)]
pub struct SayText2<T = String> {
    pub entityindex: Option<i32>,
    pub chat: Option<bool>,
    pub messagename: Option<T>,
    pub param1: Option<T>,
    pub param2: Option<T>,
    pub param3: Option<T>,
    pub param4: Option<T>,
}

impl View for SayText2 {
    type V = SayText2<Seq<char>>;

    open spec fn view(&self) -> SayText2<Seq<char>> {
        SayText2 {
            entityindex: self.entityindex,
            chat: self.chat,
            messagename: text::of(self.messagename),
            param1: text::of(self.param1),
            param2: text::of(self.param2),
            param3: text::of(self.param3),
            param4: text::of(self.param4),
        }
    }
}

/// A `SayText` message with one more field read into it: a field that occurs again
/// replaces the earlier value, and an unknown field is skipped.
pub open spec fn say_text_field(
    m: SayText<Seq<char>>,
    tag: u32,
    wire: u8,
    bytes: Seq<u8>,
) -> Option<(SayText<Seq<char>>, Seq<u8>)> {
    if tag == 1 {
        match wire::int32_read(wire, bytes) {
            Some((v, rest)) => Some((SayText { playerindex: Some(v), ..m }, rest)),
            None => None,
        }
    } else if tag == 2 {
        match wire::string_read(wire, bytes) {
            Some((v, rest)) => Some((SayText { text: Some(v), ..m }, rest)),
            None => None,
        }
    } else if tag == 3 {
        match wire::bool_read(wire, bytes) {
            Some((v, rest)) => Some((SayText { chat: Some(v), ..m }, rest)),
            None => None,
        }
    } else {
        match wire::skip_read(wire, bytes, wire::group_read(tag, bytes)) {
            Some(rest) => Some((m, rest)),
            None => None,
        }
    }
}

/// A `SayText2` message with one more field read into it.
pub open spec fn say_text2_field(
    m: SayText2<Seq<char>>,
    tag: u32,
    wire: u8,
    bytes: Seq<u8>,
) -> Option<(SayText2<Seq<char>>, Seq<u8>)> {
    if tag == 1 {
        match wire::int32_read(wire, bytes) {
            Some((v, rest)) => Some((SayText2 { entityindex: Some(v), ..m }, rest)),
            None => None,
        }
    } else if tag == 2 {
        match wire::bool_read(wire, bytes) {
            Some((v, rest)) => Some((SayText2 { chat: Some(v), ..m }, rest)),
            None => None,
        }
    } else if 3 <= tag <= 7 {
        match wire::string_read(wire, bytes) {
            Some((v, rest)) => Some((say_text2_put(m, tag, v), rest)),
            None => None,
        }
    } else {
        match wire::skip_read(wire, bytes, wire::group_read(tag, bytes)) {
            Some(rest) => Some((m, rest)),
            None => None,
        }
    }
}

/// A `SayText2` message with the text of one of its text fields set.
pub open spec fn say_text2_put(m: SayText2<Seq<char>>, tag: u32, v: Seq<char>) -> SayText2<Seq<char>> {
    if tag == 3 {
        SayText2 { messagename: Some(v), ..m }
    } else if tag == 4 {
        SayText2 { param1: Some(v), ..m }
    } else if tag == 5 {
        SayText2 { param2: Some(v), ..m }
    } else if tag == 6 {
        SayText2 { param3: Some(v), ..m }
    } else {
        SayText2 { param4: Some(v), ..m }
    }
}

/// A `SayText` message read to the end of a buffer; none if a field does not read.
pub open spec fn say_text_fields(m: SayText<Seq<char>>, bytes: Seq<u8>) -> Option<SayText<Seq<char>>>
    decreases bytes.len(),
{
    if bytes.len() == 0 {
        Some(m)
    } else {
        match wire::key_read(bytes) {
            None => None,
            Some((tag, wire, rest)) => match say_text_field(m, tag, wire, rest) {
                Some((next, left)) if left.len() < bytes.len() => say_text_fields(next, left),
                _ => None,
            },
        }
    }
}

/// A `SayText2` message read to the end of a buffer; none if a field does not read.
pub open spec fn say_text2_fields(m: SayText2<Seq<char>>, bytes: Seq<u8>) -> Option<
    SayText2<Seq<char>>,
>
    decreases bytes.len(),
{
    if bytes.len() == 0 {
        Some(m)
    } else {
        match wire::key_read(bytes) {
            None => None,
            Some((tag, wire, rest)) => match say_text2_field(m, tag, wire, rest) {
                Some((next, left)) if left.len() < bytes.len() => say_text2_fields(next, left),
                _ => None,
            },
        }
    }
}

/// A `SayText` message with nothing in it.
pub open spec fn no_say_text() -> SayText<Seq<char>> {
    SayText { playerindex: None, text: None, chat: None }
}

/// A `SayText2` message with nothing in it.
pub open spec fn no_say_text2() -> SayText2<Seq<char>> {
    SayText2 {
        entityindex: None,
        chat: None,
        messagename: None,
        param1: None,
        param2: None,
        param3: None,
        param4: None,
    }
}

/// Read one field into a `SayText` message; gives what is left of the buffer.
fn read_say_text_field<'a>(m: &mut SayText, tag: u32, wire: u8, bytes: &'a [u8]) -> (r: Option<&'a [u8]>)
    ensures
        r is Some == say_text_field(old(m)@, tag, wire, bytes@) is Some,
        r matches Some(rest) ==> say_text_field(old(m)@, tag, wire, bytes@) == Some(
            (final(m)@, rest@),
        ) && rest@.len() <= bytes@.len(),
{
    proof {
        wire::lemma_reads_take(wire, bytes@);
    }
    if tag == 1 {
        match decode_int32(wire, bytes) {
            Ok((v, rest)) => {
                m.playerindex = Some(v);
                Some(rest)
            },
            Err(_) => None,
        }
    } else if tag == 2 {
        match decode_string(wire, bytes) {
            Ok((v, rest)) => {
                m.text = Some(v);
                Some(rest)
            },
            Err(_) => None,
        }
    } else if tag == 3 {
        match decode_bool(wire, bytes) {
            Ok((v, rest)) => {
                m.chat = Some(v);
                Some(rest)
            },
            Err(_) => None,
        }
    } else {
        match skip_field(wire, tag, bytes) {
            Ok(rest) => Some(rest),
            Err(_) => None,
        }
    }
}

/// Read one field into a `SayText2` message; gives what is left of the buffer.
fn read_say_text2_field<'a>(m: &mut SayText2, tag: u32, wire: u8, bytes: &'a [u8]) -> (r: Option<
    &'a [u8],
>)
    ensures
        r is Some == say_text2_field(old(m)@, tag, wire, bytes@) is Some,
        r matches Some(rest) ==> say_text2_field(old(m)@, tag, wire, bytes@) == Some(
            (final(m)@, rest@),
        ) && rest@.len() <= bytes@.len(),
{
    proof {
        wire::lemma_reads_take(wire, bytes@);
    }
    if tag == 1 {
        match decode_int32(wire, bytes) {
            Ok((v, rest)) => {
                m.entityindex = Some(v);
                Some(rest)
            },
            Err(_) => None,
        }
    } else if tag == 2 {
        match decode_bool(wire, bytes) {
            Ok((v, rest)) => {
                m.chat = Some(v);
                Some(rest)
            },
            Err(_) => None,
        }
    } else if 3 <= tag && tag <= 7 {
        match decode_string(wire, bytes) {
            Ok((v, rest)) => {
                if tag == 3 {
                    m.messagename = Some(v);
                } else if tag == 4 {
                    m.param1 = Some(v);
                } else if tag == 5 {
                    m.param2 = Some(v);
                } else if tag == 6 {
                    m.param3 = Some(v);
                } else {
                    m.param4 = Some(v);
                }
                Some(rest)
            },
            Err(_) => None,
        }
    } else {
        match skip_field(wire, tag, bytes) {
            Ok(rest) => Some(rest),
            Err(_) => None,
        }
    }
}

/// Decode a `SayText` message.
pub fn decode_say_text(payload: &[u8]) -> (r: Option<SayText>)
    ensures
        match r {
            Some(m) => say_text_fields(no_say_text(), payload@) == Some(m@),
            None => say_text_fields(no_say_text(), payload@) is None,
        },
{
    let mut m = SayText { playerindex: None, text: None, chat: None };
    let mut bytes = payload;
    while bytes.len() > 0
        invariant
            say_text_fields(no_say_text(), payload@) == say_text_fields(m@, bytes@),
        decreases bytes@.len(),
    {
        proof {
            wire::lemma_reads_take(0, bytes@);
        }
        match decode_key(bytes) {
            Err(_) => {
                return None;
            },
            Ok((tag, wire, rest)) => {
                match read_say_text_field(&mut m, tag, wire, rest) {
                    None => {
                        return None;
                    },
                    Some(left) => {
                        bytes = left;
                    },
                }
            },
        }
    }
    Some(m)
}

/// Decode a `SayText2` message.
pub fn decode_say_text2(payload: &[u8]) -> (r: Option<SayText2>)
    ensures
        match r {
            Some(m) => say_text2_fields(no_say_text2(), payload@) == Some(m@),
            None => say_text2_fields(no_say_text2(), payload@) is None,
        },
{
    let mut m = SayText2 {
        entityindex: None,
        chat: None,
        messagename: None,
        param1: None,
        param2: None,
        param3: None,
        param4: None,
    };
    let mut bytes = payload;
    while bytes.len() > 0
        invariant
            say_text2_fields(no_say_text2(), payload@) == say_text2_fields(m@, bytes@),
        decreases bytes@.len(),
    {
        proof {
            wire::lemma_reads_take(0, bytes@);
        }
        match decode_key(bytes) {
            Err(_) => {
                return None;
            },
            Ok((tag, wire, rest)) => {
                match read_say_text2_field(&mut m, tag, wire, rest) {
                    None => {
                        return None;
                    },
                    Some(left) => {
                        bytes = left;
                    },
                }
            },
        }
    }
    Some(m)
}

/// An index, unless it is negative.
pub open spec fn index_of(index: Option<i32>) -> Option<i32> {
    match index {
        Some(i) if i >= 0 => Some(i),
        _ => None,
    }
}

/// A text, unless it is empty.
pub open spec fn some_text(t: Option<Seq<char>>) -> Option<Seq<char>> {
    match t {
        Some(s) if s.len() > 0 => Some(s),
        _ => None,
    }
}

/// A text, empty where there is none.
pub open spec fn text_or_empty(t: Option<Seq<char>>) -> Seq<char> {
    match t {
        Some(s) => s,
        None => Seq::empty(),
    }
}

/// The row of a `SayText` message.
pub open spec fn say_text_row(tick: i32, m: SayText<Seq<char>>) -> ChatMessage<Seq<char>> {
    ChatMessage {
        tick,
        entity_index: index_of(m.playerindex),
        name: None,
        message: text_or_empty(m.text),
        channel: None,
    }
}

/// The row of a `SayText2` message.
pub open spec fn say_text2_row(tick: i32, m: SayText2<Seq<char>>) -> ChatMessage<Seq<char>> {
    ChatMessage {
        tick,
        entity_index: index_of(m.entityindex),
        name: some_text(m.param1),
        message: text_or_empty(m.param2),
        channel: some_text(m.messagename),
    }
}

fn known_index(index: Option<i32>) -> (r: Option<i32>)
    ensures
        r == index_of(index),
{
    match index {
        Some(i) => if i >= 0 {
            Some(i)
        } else {
            None
        },
        None => None,
    }
}

fn unless_empty(t: Option<String>) -> (r: Option<String>)
    ensures
        text::of(r) == some_text(text::of(t)),
{
    match t {
        Some(s) => if s.as_str().is_empty() {
            None
        } else {
            Some(s)
        },
        None => None,
    }
}

fn or_empty(t: Option<String>) -> (r: String)
    ensures
        r@ == text_or_empty(text::of(t)),
{
    match t {
        Some(s) => s,
        None => String::new(),
    }
}

/// The row of a decoded `SayText` message.
pub fn chat_from_say_text(tick: i32, m: SayText) -> (row: ChatMessage)
    ensures
        row@ == say_text_row(tick, m@),
{
    ChatMessage {
        tick,
        entity_index: known_index(m.playerindex),
        name: None,
        message: or_empty(m.text),
        channel: None,
    }
}

/// The row of a decoded `SayText2` message.
pub fn chat_from_say_text2(tick: i32, m: SayText2) -> (row: ChatMessage)
    ensures
        row@ == say_text2_row(tick, m@),
{
    ChatMessage {
        tick,
        entity_index: known_index(m.entityindex),
        name: unless_empty(m.param1),
        message: or_empty(m.param2),
        channel: unless_empty(m.messagename),
    }
}

/// The chat row of an event: none if it is no chat message or does not decode.
pub open spec fn chat_row(e: GameEvent) -> Option<ChatMessage<Seq<char>>> {
    if e.msg_type == UM_SAY_TEXT2 || e.msg_type == CS_UM_SAY_TEXT2 {
        match say_text2_fields(no_say_text2(), e.payload@) {
            Some(m) => Some(say_text2_row(e.tick, m)),
            None => None,
        }
    } else if e.msg_type == UM_SAY_TEXT || e.msg_type == CS_UM_SAY_TEXT {
        match say_text_fields(no_say_text(), e.payload@) {
            Some(m) => Some(say_text_row(e.tick, m)),
            None => None,
        }
    } else {
        None
    }
}

/// The chat rows of a run of events, in order.
pub open spec fn chat_rows(events: Seq<GameEvent>) -> Seq<ChatMessage<Seq<char>>>
    decreases events.len(),
{
    if events.len() == 0 {
        Seq::empty()
    } else {
        let rest = chat_rows(events.drop_last());
        match chat_row(events.last()) {
            Some(row) => rest.push(row),
            None => rest,
        }
    }
}

/// The chat row of one event.
pub fn chat_of_event(e: &GameEvent) -> (r: Option<ChatMessage>)
    ensures
        match r {
            Some(row) => chat_row(*e) == Some(row@),
            None => chat_row(*e) is None,
        },
{
    if e.msg_type == UM_SAY_TEXT2 || e.msg_type == CS_UM_SAY_TEXT2 {
        match decode_say_text2(e.payload.as_slice()) {
            Some(m) => Some(chat_from_say_text2(e.tick, m)),
            None => None,
        }
    } else if e.msg_type == UM_SAY_TEXT || e.msg_type == CS_UM_SAY_TEXT {
        match decode_say_text(e.payload.as_slice()) {
            Some(m) => Some(chat_from_say_text(e.tick, m)),
            None => None,
        }
    } else {
        None
    }
}

/// The chat messages among a run of events.
pub fn collect_chat(events: &Vec<GameEvent>) -> (out: Vec<ChatMessage>)
    ensures
        text::views(out@) == chat_rows(events@),
{
    let mut out: Vec<ChatMessage> = Vec::new();
    let n: usize = events.len();
    let mut i: usize = 0;
    assert(events@.take(0) =~= Seq::<GameEvent>::empty());
    while i < n
        invariant
            i <= n,
            n == events@.len(),
            text::views(out@) == chat_rows(events@.take(i as int)),
        decreases n - i,
    {
        assert(events@.take(i + 1).drop_last() =~= events@.take(i as int));
        if let Some(row) = chat_of_event(&events[i]) {
            out.push(row);
        }
        i = i + 1;
    }
    assert(events@.take(n as int) =~= events@);
    out
}

/// Chat messages come in the order of the events: where those are in tick order, so are the
/// messages.
pub proof fn law_chat_in_tick_order(events: Seq<GameEvent>)
    requires
        forall|i: int, j: int|
            0 <= i <= j < events.len() ==> (#[trigger] events[i]).tick <= (#[trigger] events[j]).tick,
    ensures
        forall|i: int, j: int|
            0 <= i <= j < chat_rows(events).len() ==> (#[trigger] chat_rows(events)[i]).tick <= (
            #[trigger] chat_rows(events)[j]).tick,
        forall|i: int|
            0 <= i < chat_rows(events).len() ==> (#[trigger] chat_rows(events)[i]).tick
                <= events.last().tick,
    decreases events.len(),
{
    if events.len() > 0 {
        let init = events.drop_last();
        assert forall|i: int, j: int| 0 <= i <= j < init.len() implies (#[trigger] init[i]).tick <= (
        #[trigger] init[j]).tick by {
            assert(events[i].tick <= events[j].tick);
        }
        law_chat_in_tick_order(init);
        if init.len() > 0 {
            assert(events[init.len() - 1].tick <= events[init.len() as int].tick);
        }
        let rest = chat_rows(init);
        let all = chat_rows(events);
        assert forall|i: int| 0 <= i < all.len() implies (#[trigger] all[i]).tick
            <= events.last().tick && (i < rest.len() ==> all[i] == rest[i]) by {
            if i < rest.len() {
                assert(rest[i].tick <= init.last().tick);
            }
        }
    }
}

} // verus!
