//! The wire-event codec.
//!
//! A frame is the UTF-8 bytes of one JSON object with a `type` discriminator.
//! Five kinds exist: `subscribe` and `unsubscribe` carry a `topics` array of
//! room-name strings, `publish` carries a `topic` string, `ping` and `pong`
//! carry nothing. Unknown fields are skipped, whatever JSON value they hold;
//! each recognized key may appear at most once. The spec functions in this
//! file define the grammar; the executable decoder and encoder are proved
//! against them.

use vstd::prelude::*;

use crate::ids::RoomId;
use crate::SignalError;

verus! {

pub const QUOTE: u8 = 34;
pub const BACKSLASH: u8 = 92;
pub const SLASH: u8 = 47;
pub const LBRACE: u8 = 123;
pub const RBRACE: u8 = 125;
pub const LBRACK: u8 = 91;
pub const RBRACK: u8 = 93;
pub const COMMA: u8 = 44;
pub const COLON: u8 = 58;
pub const MINUS: u8 = 45;

/// One decoded wire event.
#[derive(Debug, PartialEq, Eq)]
pub enum Event {
    Subscribe { topics: Vec<RoomId> },
    Unsubscribe { topics: Vec<RoomId> },
    Publish { topic: RoomId },
    Ping,
    Pong,
}

/// The model of a wire event: room names as byte strings.
pub enum EventModel {
    Subscribe { topics: Seq<Seq<u8>> },
    Unsubscribe { topics: Seq<Seq<u8>> },
    Publish { topic: Seq<u8> },
    Ping,
    Pong,
}

impl View for Event {
    type V = EventModel;

    open spec fn view(&self) -> EventModel {
        match self {
            Event::Subscribe { topics } => EventModel::Subscribe {
                topics: topics@.map_values(|r: RoomId| r@),
            },
            Event::Unsubscribe { topics } => EventModel::Unsubscribe {
                topics: topics@.map_values(|r: RoomId| r@),
            },
            Event::Publish { topic } => EventModel::Publish { topic: topic@ },
            Event::Ping => EventModel::Ping,
            Event::Pong => EventModel::Pong,
        }
    }
}

pub open spec fn is_ws(b: u8) -> bool {
    b == 32 || b == 9 || b == 10 || b == 13
}

pub open spec fn is_digit(b: u8) -> bool {
    48 <= b <= 57
}

/// The first index at or after `i` that holds no whitespace.
pub open spec fn sp_ws(s: Seq<u8>, i: int) -> int
    decreases s.len() - i when 0 <= i <= s.len()
{
    if i < s.len() && is_ws(s[i]) {
        sp_ws(s, i + 1)
    } else {
        i
    }
}

/// The first index at or after `i` that holds no decimal digit.
pub open spec fn sp_digits(s: Seq<u8>, i: int) -> int
    decreases s.len() - i when 0 <= i <= s.len()
{
    if i < s.len() && is_digit(s[i]) {
        sp_digits(s, i + 1)
    } else {
        i
    }
}

pub proof fn lemma_digits_bounds(s: Seq<u8>, i: int)
    requires
        0 <= i <= s.len(),
    ensures
        i <= sp_digits(s, i) <= s.len(),
    decreases s.len() - i,
{
    if i < s.len() && is_digit(s[i]) {
        lemma_digits_bounds(s, i + 1);
    }
}

/// The value of one hexadecimal digit, where the byte is one.
pub open spec fn hex_val(b: u8) -> Option<u32> {
    if 48 <= b <= 57 {
        Some((b - 48) as u32)
    } else if 97 <= b <= 102 {
        Some((b - 87) as u32)
    } else if 65 <= b <= 70 {
        Some((b - 55) as u32)
    } else {
        None
    }
}

/// The value of the four hexadecimal digits at `i`, where all four exist.
pub open spec fn sp_hex4(s: Seq<u8>, i: int) -> Option<u32> {
    if 0 <= i && i + 4 <= s.len() {
        match (hex_val(s[i]), hex_val(s[i + 1]), hex_val(s[i + 2]), hex_val(s[i + 3])) {
            (Some(a), Some(b), Some(c), Some(d)) => Some(
                (a * 0x1000 + b * 0x100 + c * 0x10 + d) as u32,
            ),
            _ => None,
        }
    } else {
        None
    }
}

/// The UTF-8 bytes of one scalar value below 0x110000.
pub open spec fn utf8_encode(c: u32) -> Seq<u8> {
    if c < 0x80 {
        seq![c as u8]
    } else if c < 0x800 {
        seq![(0xC0 + c / 0x40) as u8, (0x80 + c % 0x40) as u8]
    } else if c < 0x10000 {
        seq![
            (0xE0 + c / 0x1000) as u8,
            (0x80 + (c / 0x40) % 0x40) as u8,
            (0x80 + c % 0x40) as u8,
        ]
    } else {
        seq![
            (0xF0 + c / 0x40000) as u8,
            (0x80 + (c / 0x1000) % 0x40) as u8,
            (0x80 + (c / 0x40) % 0x40) as u8,
            (0x80 + c % 0x40) as u8,
        ]
    }
}

/// The body of a JSON string starting just after the opening quote: the
/// decoded content and the index just after the closing quote. Simple
/// escapes decode to their bytes; `\u` escapes decode to the UTF-8 of the
/// scalar, with surrogate pairs combined; raw control bytes are refused.
pub open spec fn sp_string_body(s: Seq<u8>, i: int) -> Option<(Seq<u8>, int)>
    decreases s.len() - i when 0 <= i <= s.len()
{
    if i >= s.len() {
        None
    } else {
        let b = s[i];
        if b == QUOTE {
            Some((Seq::empty(), i + 1))
        } else if b == BACKSLASH {
            if i + 1 >= s.len() {
                None
            } else {
                let e = s[i + 1];
                if e == QUOTE || e == BACKSLASH || e == SLASH {
                    match sp_string_body(s, i + 2) {
                        None => None,
                        Some((rest, j)) => Some((seq![e] + rest, j)),
                    }
                } else if e == 98 || e == 102 || e == 110 || e == 114 || e == 116 {
                    let c: u8 = if e == 98 {
                        8
                    } else if e == 102 {
                        12
                    } else if e == 110 {
                        10
                    } else if e == 114 {
                        13
                    } else {
                        9
                    };
                    match sp_string_body(s, i + 2) {
                        None => None,
                        Some((rest, j)) => Some((seq![c] + rest, j)),
                    }
                } else if e == 117 {
                    match sp_hex4(s, i + 2) {
                        None => None,
                        Some(c) => {
                            if 0xD800 <= c < 0xDC00 {
                                if i + 8 <= s.len() && s[i + 6] == BACKSLASH && s[i + 7] == 117 {
                                    match sp_hex4(s, i + 8) {
                                        None => None,
                                        Some(c2) => {
                                            if 0xDC00 <= c2 < 0xE000 {
                                                let cp: u32 = (0x10000 + (c - 0xD800) * 0x400 + (
                                                c2 - 0xDC00)) as u32;
                                                match sp_string_body(s, i + 12) {
                                                    None => None,
                                                    Some((rest, j)) => Some(
                                                        (utf8_encode(cp) + rest, j),
                                                    ),
                                                }
                                            } else {
                                                None
                                            }
                                        },
                                    }
                                } else {
                                    None
                                }
                            } else if 0xDC00 <= c < 0xE000 {
                                None
                            } else {
                                match sp_string_body(s, i + 6) {
                                    None => None,
                                    Some((rest, j)) => Some((utf8_encode(c) + rest, j)),
                                }
                            }
                        },
                    }
                } else {
                    None
                }
            }
        } else if b < 32 {
            None
        } else {
            match sp_string_body(s, i + 1) {
                None => None,
                Some((rest, j)) => Some((seq![b] + rest, j)),
            }
        }
    }
}

pub proof fn lemma_string_body_advances(s: Seq<u8>, i: int)
    requires
        0 <= i <= s.len(),
    ensures
        sp_string_body(s, i) matches Some((c, j)) ==> i < j <= s.len(),
    decreases s.len() - i,
{
    if i < s.len() {
        let b = s[i];
        if b == BACKSLASH && i + 1 < s.len() {
            let e = s[i + 1];
            if e == 117 {
                if sp_hex4(s, i + 2) is Some {
                    let c = sp_hex4(s, i + 2)->Some_0;
                    if 0xD800 <= c < 0xDC00 {
                        if i + 8 <= s.len() && s[i + 6] == BACKSLASH && s[i + 7] == 117
                            && sp_hex4(s, i + 8) is Some {
                            lemma_string_body_advances(s, i + 12);
                        }
                    } else if !(0xDC00 <= c < 0xE000) {
                        lemma_string_body_advances(s, i + 6);
                    }
                }
            } else {
                lemma_string_body_advances(s, i + 2);
            }
        } else if b != QUOTE && b >= 32 {
            lemma_string_body_advances(s, i + 1);
        }
    }
}

/// The end of the JSON number starting at `i`, where one starts there.
pub open spec fn sp_number(s: Seq<u8>, i: int) -> Option<int> {
    let i1: int = if 0 <= i < s.len() && s[i] == MINUS {
        i + 1
    } else {
        i
    };
    if !(0 <= i1 < s.len() && is_digit(s[i1])) {
        None
    } else {
        let i2: int = if s[i1] == 48 {
            i1 + 1
        } else {
            sp_digits(s, i1)
        };
        match sp_frac(s, i2) {
            None => None,
            Some(i3) => sp_exp(s, i3),
        }
    }
}

/// Past an optional fraction part at `i`.
pub open spec fn sp_frac(s: Seq<u8>, i: int) -> Option<int> {
    if 0 <= i < s.len() && s[i] == 46 {
        if i + 1 < s.len() && is_digit(s[i + 1]) {
            Some(sp_digits(s, i + 1))
        } else {
            None
        }
    } else {
        Some(i)
    }
}

/// Past an optional exponent part at `i`.
pub open spec fn sp_exp(s: Seq<u8>, i: int) -> Option<int> {
    if 0 <= i < s.len() && (s[i] == 101 || s[i] == 69) {
        let j: int = if i + 1 < s.len() && (s[i + 1] == 43 || s[i + 1] == MINUS) {
            i + 2
        } else {
            i + 1
        };
        if j < s.len() && is_digit(s[j]) {
            Some(sp_digits(s, j))
        } else {
            None
        }
    } else {
        Some(i)
    }
}

pub proof fn lemma_number_advances(s: Seq<u8>, i: int)
    requires
        0 <= i <= s.len(),
    ensures
        sp_number(s, i) matches Some(j) ==> i < j <= s.len(),
{
    let i1: int = if i < s.len() && s[i] == MINUS {
        i + 1
    } else {
        i
    };
    if 0 <= i1 < s.len() && is_digit(s[i1]) {
        lemma_digits_bounds(s, i1 + 1);
        let i2: int = if s[i1] == 48 {
            i1 + 1
        } else {
            sp_digits(s, i1)
        };
        if sp_frac(s, i2) is Some {
            let i3 = sp_frac(s, i2)->Some_0;
            if i2 < s.len() && s[i2] == 46 {
                if i2 + 1 < s.len() && is_digit(s[i2 + 1]) {
                    lemma_digits_bounds(s, i2 + 1);
                }
            }
            assert(i1 < i2 <= i3 <= s.len());
            if i3 < s.len() && (s[i3] == 101 || s[i3] == 69) {
                let j: int = if i3 + 1 < s.len() && (s[i3 + 1] == 43 || s[i3 + 1] == MINUS) {
                    i3 + 2
                } else {
                    i3 + 1
                };
                if j < s.len() && is_digit(s[j]) {
                    lemma_digits_bounds(s, j);
                }
            }
        }
    }
}

/// Past the JSON value starting at `i`, skipping its content. The fuel only
/// bounds nesting; any fuel of at least the remaining length gives the
/// parse's one answer.
pub open spec fn sp_skip_value(s: Seq<u8>, i: int, fuel: nat) -> Option<int>
    decreases fuel, 0int,
{
    if fuel == 0 || !(0 <= i < s.len()) {
        None
    } else {
        let b = s[i];
        if b == QUOTE {
            match sp_string_body(s, i + 1) {
                None => None,
                Some((c, j)) => Some(j),
            }
        } else if b == LBRACE {
            sp_skip_object(s, sp_ws(s, i + 1), (fuel - 1) as nat)
        } else if b == LBRACK {
            sp_skip_array(s, sp_ws(s, i + 1), (fuel - 1) as nat)
        } else if b == 116 {
            if i + 4 <= s.len() && s[i + 1] == 114 && s[i + 2] == 117 && s[i + 3] == 101 {
                Some(i + 4)
            } else {
                None
            }
        } else if b == 102 {
            if i + 5 <= s.len() && s[i + 1] == 97 && s[i + 2] == 108 && s[i + 3] == 115 && s[i + 4]
                == 101 {
                Some(i + 5)
            } else {
                None
            }
        } else if b == 110 {
            if i + 4 <= s.len() && s[i + 1] == 117 && s[i + 2] == 108 && s[i + 3] == 108 {
                Some(i + 4)
            } else {
                None
            }
        } else if b == MINUS || is_digit(b) {
            sp_number(s, i)
        } else {
            None
        }
    }
}

/// Past the remainder of an object whose `{` is already consumed, `i` at the
/// closing brace or at the first key.
pub open spec fn sp_skip_object(s: Seq<u8>, i: int, fuel: nat) -> Option<int>
    decreases fuel, 2int,
{
    if fuel == 0 || !(0 <= i < s.len()) {
        None
    } else if s[i] == RBRACE {
        Some(i + 1)
    } else {
        sp_skip_members(s, i, fuel)
    }
}

/// Past one `"key": value` pair and whatever follows it, `i` at the key.
pub open spec fn sp_skip_members(s: Seq<u8>, i: int, fuel: nat) -> Option<int>
    decreases fuel, 1int,
{
    if fuel == 0 || !(0 <= i < s.len()) || s[i] != QUOTE {
        None
    } else {
        match sp_string_body(s, i + 1) {
            None => None,
            Some((key, j)) => {
                let j2 = sp_ws(s, j);
                if !(j2 < s.len() && s[j2] == COLON) {
                    None
                } else {
                    match sp_skip_value(s, sp_ws(s, j2 + 1), (fuel - 1) as nat) {
                        None => None,
                        Some(j4) => {
                            let j5 = sp_ws(s, j4);
                            if j5 < s.len() && s[j5] == COMMA {
                                sp_skip_members(s, sp_ws(s, j5 + 1), (fuel - 1) as nat)
                            } else if j5 < s.len() && s[j5] == RBRACE {
                                Some(j5 + 1)
                            } else {
                                None
                            }
                        },
                    }
                }
            },
        }
    }
}

/// Past the remainder of an array whose `[` is already consumed, `i` at the
/// closing bracket or at the first element.
pub open spec fn sp_skip_array(s: Seq<u8>, i: int, fuel: nat) -> Option<int>
    decreases fuel, 2int,
{
    if fuel == 0 || !(0 <= i < s.len()) {
        None
    } else if s[i] == RBRACK {
        Some(i + 1)
    } else {
        sp_skip_elements(s, i, fuel)
    }
}

/// Past one element and whatever follows it, `i` at the element.
pub open spec fn sp_skip_elements(s: Seq<u8>, i: int, fuel: nat) -> Option<int>
    decreases fuel, 1int,
{
    if fuel == 0 {
        None
    } else {
        match sp_skip_value(s, i, fuel) {
            None => None,
            Some(j) => {
                let j2 = sp_ws(s, j);
                if j2 < s.len() && s[j2] == COMMA {
                    sp_skip_elements(s, sp_ws(s, j2 + 1), (fuel - 1) as nat)
                } else if j2 < s.len() && s[j2] == RBRACK {
                    Some(j2 + 1)
                } else {
                    None
                }
            },
        }
    }
}



/// The strings of a JSON array of strings, `i` at the opening bracket.
pub open spec fn sp_string_array(s: Seq<u8>, i: int, fuel: nat) -> Option<(Seq<Seq<u8>>, int)>
    decreases fuel, 1int,
{
    if !(0 <= i < s.len()) || s[i] != LBRACK {
        None
    } else {
        let j = sp_ws(s, i + 1);
        if j < s.len() && s[j] == RBRACK {
            Some((Seq::empty(), j + 1))
        } else {
            sp_string_elems(s, j, fuel)
        }
    }
}

/// One string element and whatever follows it, `i` at its opening quote.
pub open spec fn sp_string_elems(s: Seq<u8>, i: int, fuel: nat) -> Option<(Seq<Seq<u8>>, int)>
    decreases fuel, 0int,
{
    if fuel == 0 || !(0 <= i < s.len()) || s[i] != QUOTE {
        None
    } else {
        match sp_string_body(s, i + 1) {
            None => None,
            Some((c, j)) => {
                let j2 = sp_ws(s, j);
                if j2 < s.len() && s[j2] == COMMA {
                    match sp_string_elems(s, sp_ws(s, j2 + 1), (fuel - 1) as nat) {
                        None => None,
                        Some((rest, k)) => Some((seq![c] + rest, k)),
                    }
                } else if j2 < s.len() && s[j2] == RBRACK {
                    Some((seq![c], j2 + 1))
                } else {
                    None
                }
            },
        }
    }
}

/// The recognized fields of an event object, and where the object ends.
pub struct FieldsModel {
    pub tag: Option<Seq<u8>>,
    pub topics: Option<Seq<Seq<u8>>>,
    pub topic: Option<Seq<u8>>,
    pub end: int,
}

pub open spec fn type_key() -> Seq<u8> {
    seq![116u8, 121, 112, 101]
}

pub open spec fn topics_key() -> Seq<u8> {
    seq![116u8, 111, 112, 105, 99, 115]
}

pub open spec fn topic_key() -> Seq<u8> {
    seq![116u8, 111, 112, 105, 99]
}

pub open spec fn subscribe_tag() -> Seq<u8> {
    seq![115u8, 117, 98, 115, 99, 114, 105, 98, 101]
}

pub open spec fn unsubscribe_tag() -> Seq<u8> {
    seq![117u8, 110, 115, 117, 98, 115, 99, 114, 105, 98, 101]
}

pub open spec fn publish_tag() -> Seq<u8> {
    seq![112u8, 117, 98, 108, 105, 115, 104]
}

pub open spec fn ping_tag() -> Seq<u8> {
    seq![112u8, 105, 110, 103]
}

pub open spec fn pong_tag() -> Seq<u8> {
    seq![112u8, 111, 110, 103]
}

/// One `"key": value` member of the event object and whatever follows it,
/// `i` at the key. The three recognized keys are collected, each at most
/// once; an unknown key's value is skipped.
pub open spec fn sp_event_members(
    s: Seq<u8>,
    i: int,
    tag: Option<Seq<u8>>,
    topics: Option<Seq<Seq<u8>>>,
    topic: Option<Seq<u8>>,
    fuel: nat,
) -> Option<FieldsModel>
    decreases fuel, 1int,
{
    if !(0 <= i < s.len()) || s[i] != QUOTE {
        None
    } else {
        match sp_string_body(s, i + 1) {
            None => None,
            Some((key, j)) => {
                let j2 = sp_ws(s, j);
                if !(j2 < s.len() && s[j2] == COLON) {
                    None
                } else {
                    let j3 = sp_ws(s, j2 + 1);
                    if key == type_key() {
                        if tag is Some {
                            None
                        } else if j3 < s.len() && s[j3] == QUOTE {
                            match sp_string_body(s, j3 + 1) {
                                None => None,
                                Some((v, j4)) => sp_event_after(s, j4, Some(v), topics, topic, fuel),
                            }
                        } else {
                            None
                        }
                    } else if key == topics_key() {
                        if topics is Some || fuel == 0 {
                            None
                        } else {
                            match sp_string_array(s, j3, (fuel - 1) as nat) {
                                None => None,
                                Some((arr, j4)) => sp_event_after(s, j4, tag, Some(arr), topic, fuel),
                            }
                        }
                    } else if key == topic_key() {
                        if topic is Some {
                            None
                        } else if j3 < s.len() && s[j3] == QUOTE {
                            match sp_string_body(s, j3 + 1) {
                                None => None,
                                Some((v, j4)) => sp_event_after(s, j4, tag, topics, Some(v), fuel),
                            }
                        } else {
                            None
                        }
                    } else {
                        if fuel == 0 {
                            None
                        } else {
                            match sp_skip_value(s, j3, (fuel - 1) as nat) {
                                None => None,
                                Some(j4) => sp_event_after(s, j4, tag, topics, topic, fuel),
                            }
                        }
                    }
                }
            },
        }
    }
}

/// After one member: a comma continues with the next member, a brace closes
/// the object.
pub open spec fn sp_event_after(
    s: Seq<u8>,
    i: int,
    tag: Option<Seq<u8>>,
    topics: Option<Seq<Seq<u8>>>,
    topic: Option<Seq<u8>>,
    fuel: nat,
) -> Option<FieldsModel>
    decreases fuel, 0int,
{
    if !(0 <= i <= s.len()) {
        None
    } else {
        let j = sp_ws(s, i);
        if j < s.len() && s[j] == COMMA {
            if fuel == 0 {
                None
            } else {
                sp_event_members(s, sp_ws(s, j + 1), tag, topics, topic, (fuel - 1) as nat)
            }
        } else if j < s.len() && s[j] == RBRACE {
            Some(FieldsModel { tag, topics, topic, end: j + 1 })
        } else {
            None
        }
    }
}

/// The event a tagged field set stands for, where the tag is known and its
/// required field is present.
pub open spec fn sp_build_event(f: FieldsModel) -> Option<EventModel> {
    match f.tag {
        None => None,
        Some(t) => {
            if t == subscribe_tag() {
                match f.topics {
                    Some(ts) => Some(EventModel::Subscribe { topics: ts }),
                    None => None,
                }
            } else if t == unsubscribe_tag() {
                match f.topics {
                    Some(ts) => Some(EventModel::Unsubscribe { topics: ts }),
                    None => None,
                }
            } else if t == publish_tag() {
                match f.topic {
                    Some(tp) => Some(EventModel::Publish { topic: tp }),
                    None => None,
                }
            } else if t == ping_tag() {
                Some(EventModel::Ping)
            } else if t == pong_tag() {
                Some(EventModel::Pong)
            } else {
                None
            }
        },
    }
}

/// The event a whole frame decodes to: one JSON object, nothing but
/// whitespace around it.
pub open spec fn sp_parse_event(s: Seq<u8>) -> Option<EventModel> {
    let i = sp_ws(s, 0);
    if i < s.len() && s[i] == LBRACE {
        let j = sp_ws(s, i + 1);
        let fields = if j < s.len() && s[j] == RBRACE {
            Some(FieldsModel { tag: None, topics: None, topic: None, end: j + 1 })
        } else {
            sp_event_members(s, j, None, None, None, s.len() as nat)
        };
        match fields {
            None => None,
            Some(f) => {
                if 0 <= f.end <= s.len() && sp_ws(s, f.end) == s.len() {
                    sp_build_event(f)
                } else {
                    None
                }
            },
        }
    } else {
        None
    }
}

/// The index a skip result stands for.
pub open spec fn as_end(r: Option<usize>) -> Option<int> {
    match r {
        Some(j) => Some(j as int),
        None => None,
    }
}

fn skip_ws(s: &Vec<u8>, i: usize) -> (r: usize)
    requires
        i <= s@.len(),
    ensures
        r == sp_ws(s@, i as int),
        i <= r <= s@.len(),
{
    let mut cur: usize = i;
    while cur < s.len() && (s[cur] == 32 || s[cur] == 9 || s[cur] == 10 || s[cur] == 13)
        invariant
            i <= cur <= s@.len(),
            sp_ws(s@, i as int) == sp_ws(s@, cur as int),
        decreases s@.len() - cur,
    {
        cur = cur + 1;
    }
    cur
}

fn parse_hex4(s: &Vec<u8>, i: usize) -> (r: Option<u32>)
    ensures
        r == sp_hex4(s@, i as int),
        r matches Some(c) ==> c < 0x10000 && i + 4 <= s@.len(),
{
    if i >= s.len() || s.len() - i < 4 {
        return None;
    }
    let a = hex_digit(s[i]);
    let b = hex_digit(s[i + 1]);
    let c = hex_digit(s[i + 2]);
    let d = hex_digit(s[i + 3]);
    match (a, b, c, d) {
        (Some(a), Some(b), Some(c), Some(d)) => Some(a * 0x1000 + b * 0x100 + c * 0x10 + d),
        _ => None,
    }
}

fn hex_digit(b: u8) -> (r: Option<u32>)
    ensures
        r == hex_val(b),
        r matches Some(v) ==> v < 16,
{
    if 48 <= b && b <= 57 {
        Some((b - 48) as u32)
    } else if 97 <= b && b <= 102 {
        Some((b - 87) as u32)
    } else if 65 <= b && b <= 70 {
        Some((b - 55) as u32)
    } else {
        None
    }
}

/// Appends the UTF-8 encoding of one scalar value.
fn push_utf8(out: &mut Vec<u8>, c: u32)
    requires
        c < 0x110000,
    ensures
        final(out)@ == old(out)@ + utf8_encode(c),
{
    let ghost pre = out@;
    if c < 0x80 {
        out.push(c as u8);
    } else if c < 0x800 {
        out.push((0xC0 + c / 0x40) as u8);
        out.push((0x80 + c % 0x40) as u8);
    } else if c < 0x10000 {
        out.push((0xE0 + c / 0x1000) as u8);
        out.push((0x80 + (c / 0x40) % 0x40) as u8);
        out.push((0x80 + c % 0x40) as u8);
    } else {
        out.push((0xF0 + c / 0x40000) as u8);
        out.push((0x80 + (c / 0x1000) % 0x40) as u8);
        out.push((0x80 + (c / 0x40) % 0x40) as u8);
        out.push((0x80 + c % 0x40) as u8);
    }
    proof {
        assert(out@ =~= pre + utf8_encode(c));
    }
}

/// A parse result with a prefix prepended to its content.
pub open spec fn sp_prepend(p: Seq<u8>, r: Option<(Seq<u8>, int)>) -> Option<(Seq<u8>, int)> {
    match r {
        None => None,
        Some((c, j)) => Some((p + c, j)),
    }
}

/// Prepending composes with extending the prefix by what the next step
/// consumed.
proof fn lemma_prepend_step(p: Seq<u8>, step: Seq<u8>, r: Option<(Seq<u8>, int)>)
    ensures
        sp_prepend(p, sp_prepend(step, r)) == sp_prepend(p + step, r),
{
    if r is Some {
        let c = r->Some_0.0;
        assert(p + (step + c) =~= (p + step) + c);
    }
}

/// Parses a string body from just after the opening quote, decoding escapes.
fn parse_string_body(s: &Vec<u8>, i: usize) -> (r: Option<(Vec<u8>, usize)>)
    requires
        i <= s@.len(),
    ensures
        match r {
            Some((c, j)) => sp_string_body(s@, i as int) == Some((c@, j as int)) && i < j
                <= s@.len(),
            None => sp_string_body(s@, i as int) is None,
        },
{
    let mut out: Vec<u8> = Vec::new();
    let mut cur: usize = i;
    proof {
        if sp_string_body(s@, i as int) is Some {
            let c0 = sp_string_body(s@, i as int)->Some_0.0;
            assert(Seq::<u8>::empty() + c0 =~= c0);
        }
    }
    loop
        invariant
            i <= cur <= s@.len(),
            sp_string_body(s@, i as int) == sp_prepend(out@, sp_string_body(s@, cur as int)),
        decreases s@.len() - cur,
    {
        proof {
            lemma_string_body_advances(s@, cur as int);
            lemma_string_body_advances(s@, i as int);
        }
        if cur >= s.len() {
            return None;
        }
        let b = s[cur];
        if b == QUOTE {
            proof {
                assert(out@ + Seq::<u8>::empty() =~= out@);
            }
            return Some((out, cur + 1));
        } else if b == BACKSLASH {
            if cur + 1 >= s.len() {
                return None;
            }
            let e = s[cur + 1];
            if e == QUOTE || e == BACKSLASH || e == SLASH {
                let ghost pre = out@;
                out.push(e);
                proof {
                    assert(out@ =~= pre + seq![e]);
                    lemma_prepend_step(pre, seq![e], sp_string_body(s@, cur + 2));
                }
                cur = cur + 2;
            } else if e == 98 || e == 102 || e == 110 || e == 114 || e == 116 {
                let m: u8 = if e == 98 {
                    8
                } else if e == 102 {
                    12
                } else if e == 110 {
                    10
                } else if e == 114 {
                    13
                } else {
                    9
                };
                let ghost pre = out@;
                out.push(m);
                proof {
                    assert(out@ =~= pre + seq![m]);
                    lemma_prepend_step(pre, seq![m], sp_string_body(s@, cur + 2));
                }
                cur = cur + 2;
            } else if e == 117 {
                let c = match parse_hex4(s, cur + 2) {
                    None => {
                        return None;
                    },
                    Some(c) => c,
                };
                if 0xD800 <= c && c < 0xDC00 {
                    if s.len() - cur >= 8 && s[cur + 6] == BACKSLASH && s[cur + 7] == 117 {
                        let c2 = match parse_hex4(s, cur + 8) {
                            None => {
                                return None;
                            },
                            Some(c2) => c2,
                        };
                        if 0xDC00 <= c2 && c2 < 0xE000 {
                            let cp: u32 = 0x10000 + (c - 0xD800) * 0x400 + (c2 - 0xDC00);
                            let ghost pre = out@;
                            push_utf8(&mut out, cp);
                            proof {
                                lemma_prepend_step(
                                    pre,
                                    utf8_encode(cp),
                                    sp_string_body(s@, cur + 12),
                                );
                            }
                            cur = cur + 12;
                        } else {
                            return None;
                        }
                    } else {
                        return None;
                    }
                } else if 0xDC00 <= c && c < 0xE000 {
                    return None;
                } else {
                    let ghost pre = out@;
                    push_utf8(&mut out, c);
                    proof {
                        lemma_prepend_step(pre, utf8_encode(c), sp_string_body(s@, cur + 6));
                    }
                    cur = cur + 6;
                }
            } else {
                return None;
            }
        } else if b < 32 {
            return None;
        } else {
            let ghost pre = out@;
            out.push(b);
            proof {
                assert(out@ =~= pre + seq![b]);
                lemma_prepend_step(pre, seq![b], sp_string_body(s@, cur + 1));
            }
            cur = cur + 1;
        }
    }
}

fn skip_digits(s: &Vec<u8>, i: usize) -> (r: usize)
    requires
        i <= s@.len(),
    ensures
        r == sp_digits(s@, i as int),
        i <= r <= s@.len(),
{
    let mut cur: usize = i;
    while cur < s.len() && 48 <= s[cur] && s[cur] <= 57
        invariant
            i <= cur <= s@.len(),
            sp_digits(s@, i as int) == sp_digits(s@, cur as int),
        decreases s@.len() - cur,
    {
        cur = cur + 1;
    }
    cur
}

fn skip_number(s: &Vec<u8>, i: usize) -> (r: Option<usize>)
    requires
        i <= s@.len(),
    ensures
        as_end(r) == sp_number(s@, i as int),
        r matches Some(j) ==> i < j <= s@.len(),
{
    proof {
        lemma_number_advances(s@, i as int);
    }
    let i1: usize = if i < s.len() && s[i] == MINUS {
        i + 1
    } else {
        i
    };
    if !(i1 < s.len() && 48 <= s[i1] && s[i1] <= 57) {
        return None;
    }
    let i2: usize = if s[i1] == 48 {
        i1 + 1
    } else {
        skip_digits(s, i1)
    };
    // fraction
    let i3: usize = if i2 < s.len() && s[i2] == 46 {
        if i2 + 1 < s.len() && 48 <= s[i2 + 1] && s[i2 + 1] <= 57 {
            skip_digits(s, i2 + 1)
        } else {
            return None;
        }
    } else {
        i2
    };
    // exponent
    if i3 < s.len() && (s[i3] == 101 || s[i3] == 69) {
        let j: usize = if i3 + 1 < s.len() && (s[i3 + 1] == 43 || s[i3 + 1] == MINUS) {
            i3 + 2
        } else {
            i3 + 1
        };
        if j < s.len() && 48 <= s[j] && s[j] <= 57 {
            Some(skip_digits(s, j))
        } else {
            None
        }
    } else {
        Some(i3)
    }
}

fn skip_value(s: &Vec<u8>, i: usize) -> (r: Option<usize>)
    requires
        i <= s@.len(),
    ensures
        r matches Some(j) ==> i < j <= s@.len(),
        forall|f: nat| f >= s@.len() - i ==> sp_skip_value(s@, i as int, f) == as_end(r),
    decreases s@.len() - i, 0int,
{
    if i >= s.len() {
        return None;
    }
    let b = s[i];
    if b == QUOTE {
        match parse_string_body(s, i + 1) {
            None => None,
            Some((_, j)) => Some(j),
        }
    } else if b == LBRACE {
        let j = skip_ws(s, i + 1);
        let r = skip_object(s, j);
        proof {
            assert forall|f: nat| f >= s@.len() - i implies sp_skip_value(s@, i as int, f)
                == as_end(r) by {
                assert(sp_skip_object(s@, j as int, (f - 1) as nat) == as_end(r));
            }
        }
        r
    } else if b == LBRACK {
        let j = skip_ws(s, i + 1);
        let r = skip_array(s, j);
        proof {
            assert forall|f: nat| f >= s@.len() - i implies sp_skip_value(s@, i as int, f)
                == as_end(r) by {
                assert(sp_skip_array(s@, j as int, (f - 1) as nat) == as_end(r));
            }
        }
        r
    } else if b == 116 {
        if s.len() - i >= 4 && s[i + 1] == 114 && s[i + 2] == 117 && s[i + 3] == 101 {
            Some(i + 4)
        } else {
            None
        }
    } else if b == 102 {
        if s.len() - i >= 5 && s[i + 1] == 97 && s[i + 2] == 108 && s[i + 3] == 115 && s[i + 4]
            == 101 {
            Some(i + 5)
        } else {
            None
        }
    } else if b == 110 {
        if s.len() - i >= 4 && s[i + 1] == 117 && s[i + 2] == 108 && s[i + 3] == 108 {
            Some(i + 4)
        } else {
            None
        }
    } else if b == MINUS || (48 <= b && b <= 57) {
        skip_number(s, i)
    } else {
        None
    }
}

fn skip_object(s: &Vec<u8>, i: usize) -> (r: Option<usize>)
    requires
        i <= s@.len(),
    ensures
        r matches Some(j) ==> i < j <= s@.len(),
        forall|f: nat| f >= s@.len() - i ==> sp_skip_object(s@, i as int, f) == as_end(r),
    decreases s@.len() - i, 2int,
{
    if i >= s.len() {
        return None;
    }
    if s[i] == RBRACE {
        return Some(i + 1);
    }
    let r = skip_members(s, i);
    proof {
        assert forall|f: nat| f >= s@.len() - i implies sp_skip_object(s@, i as int, f) == as_end(
            r,
        ) by {
            assert(sp_skip_members(s@, i as int, f) == as_end(r));
        }
    }
    r
}

fn skip_members(s: &Vec<u8>, i: usize) -> (r: Option<usize>)
    requires
        i <= s@.len(),
    ensures
        r matches Some(j) ==> i < j <= s@.len(),
        forall|f: nat| f >= s@.len() - i ==> sp_skip_members(s@, i as int, f) == as_end(r),
    decreases s@.len() - i, 1int,
{
    if i >= s.len() || s[i] != QUOTE {
        return None;
    }
    let (_, j) = match parse_string_body(s, i + 1) {
        None => {
            return None;
        },
        Some(kj) => kj,
    };
    let j2 = skip_ws(s, j);
    if !(j2 < s.len() && s[j2] == COLON) {
        return None;
    }
    let j3 = skip_ws(s, j2 + 1);
    let j4 = match skip_value(s, j3) {
        None => {
            proof {
                assert forall|f: nat| f >= s@.len() - i implies sp_skip_members(s@, i as int, f)
                    == as_end(None::<usize>) by {
                    assert(sp_skip_value(s@, j3 as int, (f - 1) as nat) == as_end(None::<usize>));
                }
            }
            return None;
        },
        Some(j4) => j4,
    };
    let j5 = skip_ws(s, j4);
    if j5 < s.len() && s[j5] == COMMA {
        let i2 = skip_ws(s, j5 + 1);
        let r = skip_members(s, i2);
        proof {
            assert forall|f: nat| f >= s@.len() - i implies sp_skip_members(s@, i as int, f)
                == as_end(r) by {
                assert(sp_skip_value(s@, j3 as int, (f - 1) as nat) == as_end(Some(j4)));
                assert(sp_skip_members(s@, i2 as int, (f - 1) as nat) == as_end(r));
            }
        }
        r
    } else if j5 < s.len() && s[j5] == RBRACE {
        proof {
            assert forall|f: nat| f >= s@.len() - i implies sp_skip_members(s@, i as int, f)
                == as_end(Some((j5 + 1) as usize)) by {
                assert(sp_skip_value(s@, j3 as int, (f - 1) as nat) == as_end(Some(j4)));
            }
        }
        Some(j5 + 1)
    } else {
        proof {
            assert forall|f: nat| f >= s@.len() - i implies sp_skip_members(s@, i as int, f)
                == as_end(None::<usize>) by {
                assert(sp_skip_value(s@, j3 as int, (f - 1) as nat) == as_end(Some(j4)));
            }
        }
        None
    }
}

fn skip_array(s: &Vec<u8>, i: usize) -> (r: Option<usize>)
    requires
        i <= s@.len(),
    ensures
        r matches Some(j) ==> i < j <= s@.len(),
        forall|f: nat| f >= s@.len() - i ==> sp_skip_array(s@, i as int, f) == as_end(r),
    decreases s@.len() - i, 2int,
{
    if i >= s.len() {
        return None;
    }
    if s[i] == RBRACK {
        return Some(i + 1);
    }
    let r = skip_elements(s, i);
    proof {
        assert forall|f: nat| f >= s@.len() - i implies sp_skip_array(s@, i as int, f) == as_end(
            r,
        ) by {
            assert(sp_skip_elements(s@, i as int, f) == as_end(r));
        }
    }
    r
}

fn skip_elements(s: &Vec<u8>, i: usize) -> (r: Option<usize>)
    requires
        i <= s@.len(),
    ensures
        r matches Some(j) ==> i < j <= s@.len(),
        forall|f: nat| f >= s@.len() - i ==> sp_skip_elements(s@, i as int, f) == as_end(r),
    decreases s@.len() - i, 1int,
{
    let j = match skip_value(s, i) {
        None => {
            proof {
                assert forall|f: nat| f >= s@.len() - i implies sp_skip_elements(s@, i as int, f)
                    == as_end(None::<usize>) by {
                    if f > 0 {
                        assert(sp_skip_value(s@, i as int, f) == as_end(None::<usize>));
                    }
                }
            }
            return None;
        },
        Some(j) => j,
    };
    let j2 = skip_ws(s, j);
    if j2 < s.len() && s[j2] == COMMA {
        let i2 = skip_ws(s, j2 + 1);
        let r = skip_elements(s, i2);
        proof {
            assert forall|f: nat| f >= s@.len() - i implies sp_skip_elements(s@, i as int, f)
                == as_end(r) by {
                assert(sp_skip_value(s@, i as int, f) == as_end(Some(j)));
                assert(sp_skip_elements(s@, i2 as int, (f - 1) as nat) == as_end(r));
            }
        }
        r
    } else if j2 < s.len() && s[j2] == RBRACK {
        proof {
            assert forall|f: nat| f >= s@.len() - i implies sp_skip_elements(s@, i as int, f)
                == as_end(Some((j2 + 1) as usize)) by {
                assert(sp_skip_value(s@, i as int, f) == as_end(Some(j)));
            }
        }
        Some(j2 + 1)
    } else {
        proof {
            assert forall|f: nat| f >= s@.len() - i implies sp_skip_elements(s@, i as int, f)
                == as_end(None::<usize>) by {
                assert(sp_skip_value(s@, i as int, f) == as_end(Some(j)));
            }
        }
        None
    }
}

/// The view of an optional byte string.
pub open spec fn opt_bytes(o: Option<Vec<u8>>) -> Option<Seq<u8>> {
    match o {
        None => None,
        Some(v) => Some(v@),
    }
}

/// The view of an optional list of byte strings.
pub open spec fn opt_strings(o: Option<Vec<Vec<u8>>>) -> Option<Seq<Seq<u8>>> {
    match o {
        None => None,
        Some(v) => Some(v@.map_values(|x: Vec<u8>| x@)),
    }
}

/// The recognized fields of an event object, as parsed.
struct EventFields {
    tag: Option<Vec<u8>>,
    topics: Option<Vec<Vec<u8>>>,
    topic: Option<Vec<u8>>,
    end: usize,
}

/// The model an optional parsed field set stands for.
spec fn fields_model(r: Option<EventFields>) -> Option<FieldsModel> {
    match r {
        None => None,
        Some(f) => Some(
            FieldsModel {
                tag: opt_bytes(f.tag),
                topics: opt_strings(f.topics),
                topic: opt_bytes(f.topic),
                end: f.end as int,
            },
        ),
    }
}

fn parse_string_array(s: &Vec<u8>, i: usize) -> (r: Option<(Vec<Vec<u8>>, usize)>)
    requires
        i <= s@.len(),
    ensures
        r matches Some((a, j)) ==> i < j <= s@.len(),
        forall|f: nat|
            f >= s@.len() - i ==> sp_string_array(s@, i as int, f) == (match r {
                None => None::<(Seq<Seq<u8>>, int)>,
                Some((a, j)) => Some((a@.map_values(|x: Vec<u8>| x@), j as int)),
            }),
{
    if i >= s.len() || s[i] != LBRACK {
        return None;
    }
    let j = skip_ws(s, i + 1);
    if j < s.len() && s[j] == RBRACK {
        let out: Vec<Vec<u8>> = Vec::new();
        proof {
            assert(out@.map_values(|x: Vec<u8>| x@) =~= Seq::<Seq<u8>>::empty());
        }
        return Some((out, j + 1));
    }
    let r = parse_string_elems(s, j);
    proof {
        assert forall|f: nat| f >= s@.len() - i implies sp_string_array(s@, i as int, f) == (
        match r {
            None => None::<(Seq<Seq<u8>>, int)>,
            Some((a, j)) => Some((a@.map_values(|x: Vec<u8>| x@), j as int)),
        }) by {
            assert(sp_string_elems(s@, j as int, f) == (match r {
                None => None::<(Seq<Seq<u8>>, int)>,
                Some((a, j)) => Some((a@.map_values(|x: Vec<u8>| x@), j as int)),
            }));
        }
    }
    r
}

fn parse_string_elems(s: &Vec<u8>, i: usize) -> (r: Option<(Vec<Vec<u8>>, usize)>)
    requires
        i <= s@.len(),
    ensures
        r matches Some((a, j)) ==> i < j <= s@.len(),
        forall|f: nat|
            f >= s@.len() - i ==> sp_string_elems(s@, i as int, f) == (match r {
                None => None::<(Seq<Seq<u8>>, int)>,
                Some((a, j)) => Some((a@.map_values(|x: Vec<u8>| x@), j as int)),
            }),
    decreases s@.len() - i,
{
    if i >= s.len() || s[i] != QUOTE {
        return None;
    }
    let (c, j) = match parse_string_body(s, i + 1) {
        None => {
            return None;
        },
        Some(cj) => cj,
    };
    let j2 = skip_ws(s, j);
    if j2 < s.len() && s[j2] == COMMA {
        let i2 = skip_ws(s, j2 + 1);
        match parse_string_elems(s, i2) {
            None => {
                proof {
                    assert forall|f: nat| f >= s@.len() - i implies sp_string_elems(
                        s@,
                        i as int,
                        f,
                    ) == None::<(Seq<Seq<u8>>, int)> by {
                        assert(sp_string_elems(s@, i2 as int, (f - 1) as nat) == None::<
                            (Seq<Seq<u8>>, int),
                        >);
                    }
                }
                None
            },
            Some((mut rest, k)) => {
                let ghost rest0 = rest@;
                rest.insert(0, c);
                proof {
                    assert(rest@.map_values(|x: Vec<u8>| x@) =~= seq![c@] + rest0.map_values(
                        |x: Vec<u8>| x@,
                    ));
                    assert forall|f: nat| f >= s@.len() - i implies sp_string_elems(
                        s@,
                        i as int,
                        f,
                    ) == Some((rest@.map_values(|x: Vec<u8>| x@), k as int)) by {
                        assert(sp_string_elems(s@, i2 as int, (f - 1) as nat) == Some(
                            (rest0.map_values(|x: Vec<u8>| x@), k as int),
                        ));
                    }
                }
                Some((rest, k))
            },
        }
    } else if j2 < s.len() && s[j2] == RBRACK {
        let mut out: Vec<Vec<u8>> = Vec::new();
        out.push(c);
        proof {
            assert(out@.map_values(|x: Vec<u8>| x@) =~= seq![out@[0]@]);
        }
        Some((out, j2 + 1))
    } else {
        None
    }
}

#[verifier::rlimit(100)]
#[verifier::spinoff_prover]
fn event_members(
    s: &Vec<u8>,
    i: usize,
    tag: Option<Vec<u8>>,
    topics: Option<Vec<Vec<u8>>>,
    topic: Option<Vec<u8>>,
) -> (r: Option<EventFields>)
    requires
        i <= s@.len(),
    ensures
        r matches Some(f) ==> i < f.end <= s@.len(),
        forall|fl: nat|
            fl >= s@.len() - i ==> sp_event_members(
                s@,
                i as int,
                opt_bytes(tag),
                opt_strings(topics),
                opt_bytes(topic),
                fl,
            ) == fields_model(r),
    decreases s@.len() - i, 1int,
{
    if i >= s.len() || s[i] != QUOTE {
        return None;
    }
    let (key, j) = match parse_string_body(s, i + 1) {
        None => {
            return None;
        },
        Some(kj) => kj,
    };
    let j2 = skip_ws(s, j);
    if !(j2 < s.len() && s[j2] == COLON) {
        return None;
    }
    let j3 = skip_ws(s, j2 + 1);
    if is_type_key(&key) {
        if tag.is_some() {
            return None;
        }
        if j3 < s.len() && s[j3] == QUOTE {
            let (v, j4) = match parse_string_body(s, j3 + 1) {
                None => {
                    return None;
                },
                Some(vj) => vj,
            };
            let ghost vv = v@;
            let r = event_after(s, j4, Some(v), topics, topic);
            proof {
                assert forall|fl: nat| fl >= s@.len() - i implies sp_event_members(
                    s@,
                    i as int,
                    opt_bytes(tag),
                    opt_strings(topics),
                    opt_bytes(topic),
                    fl,
                ) == fields_model(r) by {
                    assert(sp_event_after(
                        s@,
                        j4 as int,
                        Some(vv),
                        opt_strings(topics),
                        opt_bytes(topic),
                        fl,
                    ) == fields_model(r));
                }
            }
            r
        } else {
            None
        }
    } else if is_topics_key(&key) {
        if topics.is_some() {
            return None;
        }
        match parse_string_array(s, j3) {
            None => {
                proof {
                    assert forall|fl: nat| fl >= s@.len() - i implies sp_event_members(
                        s@,
                        i as int,
                        opt_bytes(tag),
                        opt_strings(topics),
                        opt_bytes(topic),
                        fl,
                    ) == fields_model(None::<EventFields>) by {
                        assert(sp_string_array(s@, j3 as int, (fl - 1) as nat) == None::<
                            (Seq<Seq<u8>>, int),
                        >);
                    }
                }
                None
            },
            Some((arr, j4)) => {
                let ghost arrv = arr@.map_values(|x: Vec<u8>| x@);
                let r = event_after(s, j4, tag, Some(arr), topic);
                proof {
                    assert forall|fl: nat| fl >= s@.len() - i implies sp_event_members(
                        s@,
                        i as int,
                        opt_bytes(tag),
                        opt_strings(topics),
                        opt_bytes(topic),
                        fl,
                    ) == fields_model(r) by {
                        assert(sp_string_array(s@, j3 as int, (fl - 1) as nat) == Some(
                            (arrv, j4 as int),
                        ));
                        assert(sp_event_after(
                            s@,
                            j4 as int,
                            opt_bytes(tag),
                            Some(arrv),
                            opt_bytes(topic),
                            fl,
                        ) == fields_model(r));
                    }
                }
                r
            },
        }
    } else if is_topic_key(&key) {
        if topic.is_some() {
            return None;
        }
        if j3 < s.len() && s[j3] == QUOTE {
            let (v, j4) = match parse_string_body(s, j3 + 1) {
                None => {
                    return None;
                },
                Some(vj) => vj,
            };
            let ghost vv = v@;
            let r = event_after(s, j4, tag, topics, Some(v));
            proof {
                assert forall|fl: nat| fl >= s@.len() - i implies sp_event_members(
                    s@,
                    i as int,
                    opt_bytes(tag),
                    opt_strings(topics),
                    opt_bytes(topic),
                    fl,
                ) == fields_model(r) by {
                    assert(sp_event_after(
                        s@,
                        j4 as int,
                        opt_bytes(tag),
                        opt_strings(topics),
                        Some(vv),
                        fl,
                    ) == fields_model(r));
                }
            }
            r
        } else {
            None
        }
    } else {
        match skip_value(s, j3) {
            None => {
                proof {
                    assert forall|fl: nat| fl >= s@.len() - i implies sp_event_members(
                        s@,
                        i as int,
                        opt_bytes(tag),
                        opt_strings(topics),
                        opt_bytes(topic),
                        fl,
                    ) == fields_model(None::<EventFields>) by {
                        assert(sp_skip_value(s@, j3 as int, (fl - 1) as nat) == as_end(
                            None::<usize>,
                        ));
                    }
                }
                None
            },
            Some(j4) => {
                let r = event_after(s, j4, tag, topics, topic);
                proof {
                    assert forall|fl: nat| fl >= s@.len() - i implies sp_event_members(
                        s@,
                        i as int,
                        opt_bytes(tag),
                        opt_strings(topics),
                        opt_bytes(topic),
                        fl,
                    ) == fields_model(r) by {
                        assert(sp_skip_value(s@, j3 as int, (fl - 1) as nat) == as_end(
                            Some(j4),
                        ));
                        assert(sp_event_after(
                            s@,
                            j4 as int,
                            opt_bytes(tag),
                            opt_strings(topics),
                            opt_bytes(topic),
                            fl,
                        ) == fields_model(r));
                    }
                }
                r
            },
        }
    }
}

fn event_after(
    s: &Vec<u8>,
    i: usize,
    tag: Option<Vec<u8>>,
    topics: Option<Vec<Vec<u8>>>,
    topic: Option<Vec<u8>>,
) -> (r: Option<EventFields>)
    requires
        i <= s@.len(),
    ensures
        r matches Some(f) ==> i < f.end <= s@.len(),
        forall|fl: nat|
            fl >= s@.len() - i ==> sp_event_after(
                s@,
                i as int,
                opt_bytes(tag),
                opt_strings(topics),
                opt_bytes(topic),
                fl,
            ) == fields_model(r),
    decreases s@.len() - i, 0int,
{
    let j = skip_ws(s, i);
    if j < s.len() && s[j] == COMMA {
        let i2 = skip_ws(s, j + 1);
        let r = event_members(s, i2, tag, topics, topic);
        proof {
            assert forall|fl: nat| fl >= s@.len() - i implies sp_event_after(
                s@,
                i as int,
                opt_bytes(tag),
                opt_strings(topics),
                opt_bytes(topic),
                fl,
            ) == fields_model(r) by {
                assert(sp_event_members(
                    s@,
                    i2 as int,
                    opt_bytes(tag),
                    opt_strings(topics),
                    opt_bytes(topic),
                    (fl - 1) as nat,
                ) == fields_model(r));
            }
        }
        r
    } else if j < s.len() && s[j] == RBRACE {
        Some(EventFields { tag, topics, topic, end: j + 1 })
    } else {
        None
    }
}

fn is_type_key(v: &Vec<u8>) -> (b: bool)
    ensures
        b == (v@ == type_key()),
{
    let r = v.len() == 4 && v[0] == 116 && v[1] == 121 && v[2] == 112 && v[3] == 101;
    proof {
        if r {
            assert(v@ =~= type_key());
        }
        if v@ == type_key() {
            assert(v@.len() == 4 && v@[0] == 116 && v@[1] == 121 && v@[2] == 112 && v@[3] == 101);
        }
    }
    r
}

fn is_topics_key(v: &Vec<u8>) -> (b: bool)
    ensures
        b == (v@ == topics_key()),
{
    let r = v.len() == 6 && v[0] == 116 && v[1] == 111 && v[2] == 112 && v[3] == 105 && v[4] == 99
        && v[5] == 115;
    proof {
        if r {
            assert(v@ =~= topics_key());
        }
        if v@ == topics_key() {
            assert(v@.len() == 6 && v@[0] == 116 && v@[1] == 111 && v@[2] == 112 && v@[3] == 105
                && v@[4] == 99 && v@[5] == 115);
        }
    }
    r
}

fn is_topic_key(v: &Vec<u8>) -> (b: bool)
    ensures
        b == (v@ == topic_key()),
{
    let r = v.len() == 5 && v[0] == 116 && v[1] == 111 && v[2] == 112 && v[3] == 105 && v[4] == 99;
    proof {
        if r {
            assert(v@ =~= topic_key());
        }
        if v@ == topic_key() {
            assert(v@.len() == 5 && v@[0] == 116 && v@[1] == 111 && v@[2] == 112 && v@[3] == 105
                && v@[4] == 99);
        }
    }
    r
}

fn is_subscribe_tag(v: &Vec<u8>) -> (b: bool)
    ensures
        b == (v@ == subscribe_tag()),
{
    let r = v.len() == 9 && v[0] == 115 && v[1] == 117 && v[2] == 98 && v[3] == 115 && v[4] == 99
        && v[5] == 114 && v[6] == 105 && v[7] == 98 && v[8] == 101;
    proof {
        if r {
            assert(v@ =~= subscribe_tag());
        }
        if v@ == subscribe_tag() {
            assert(v@.len() == 9 && v@[0] == 115 && v@[1] == 117 && v@[2] == 98 && v@[3] == 115
                && v@[4] == 99 && v@[5] == 114 && v@[6] == 105 && v@[7] == 98 && v@[8] == 101);
        }
    }
    r
}

fn is_unsubscribe_tag(v: &Vec<u8>) -> (b: bool)
    ensures
        b == (v@ == unsubscribe_tag()),
{
    let r = v.len() == 11 && v[0] == 117 && v[1] == 110 && v[2] == 115 && v[3] == 117 && v[4] == 98
        && v[5] == 115 && v[6] == 99 && v[7] == 114 && v[8] == 105 && v[9] == 98 && v[10] == 101;
    proof {
        if r {
            assert(v@ =~= unsubscribe_tag());
        }
        if v@ == unsubscribe_tag() {
            assert(v@.len() == 11 && v@[0] == 117 && v@[1] == 110 && v@[2] == 115 && v@[3] == 117
                && v@[4] == 98 && v@[5] == 115 && v@[6] == 99 && v@[7] == 114 && v@[8] == 105
                && v@[9] == 98 && v@[10] == 101);
        }
    }
    r
}

fn is_publish_tag(v: &Vec<u8>) -> (b: bool)
    ensures
        b == (v@ == publish_tag()),
{
    let r = v.len() == 7 && v[0] == 112 && v[1] == 117 && v[2] == 98 && v[3] == 108 && v[4] == 105
        && v[5] == 115 && v[6] == 104;
    proof {
        if r {
            assert(v@ =~= publish_tag());
        }
        if v@ == publish_tag() {
            assert(v@.len() == 7 && v@[0] == 112 && v@[1] == 117 && v@[2] == 98 && v@[3] == 108
                && v@[4] == 105 && v@[5] == 115 && v@[6] == 104);
        }
    }
    r
}

fn is_ping_tag(v: &Vec<u8>) -> (b: bool)
    ensures
        b == (v@ == ping_tag()),
{
    let r = v.len() == 4 && v[0] == 112 && v[1] == 105 && v[2] == 110 && v[3] == 103;
    proof {
        if r {
            assert(v@ =~= ping_tag());
        }
        if v@ == ping_tag() {
            assert(v@.len() == 4 && v@[0] == 112 && v@[1] == 105 && v@[2] == 110 && v@[3] == 103);
        }
    }
    r
}

fn is_pong_tag(v: &Vec<u8>) -> (b: bool)
    ensures
        b == (v@ == pong_tag()),
{
    let r = v.len() == 4 && v[0] == 112 && v[1] == 111 && v[2] == 110 && v[3] == 103;
    proof {
        if r {
            assert(v@ =~= pong_tag());
        }
        if v@ == pong_tag() {
            assert(v@.len() == 4 && v@[0] == 112 && v@[1] == 111 && v@[2] == 110 && v@[3] == 103);
        }
    }
    r
}

/// Wraps parsed topic names as room ids.
fn to_room_ids(ts: &Vec<Vec<u8>>) -> (r: Vec<RoomId>)
    ensures
        r@.map_values(|x: RoomId| x@) == ts@.map_values(|x: Vec<u8>| x@),
{
    let mut out: Vec<RoomId> = Vec::new();
    let mut k: usize = 0;
    while k < ts.len()
        invariant
            0 <= k <= ts@.len(),
            out@.len() == k,
            forall|m: int| 0 <= m < k ==> out@[m]@ == ts@[m]@,
        decreases ts@.len() - k,
    {
        out.push(RoomId::new(crate::ids::clone_bytes(&ts[k])));
        k = k + 1;
    }
    proof {
        assert(out@.map_values(|x: RoomId| x@) =~= ts@.map_values(|x: Vec<u8>| x@));
    }
    out
}

/// Decodes one text frame. Exactly the frames the grammar accepts decode;
/// anything else is a malformed event.
pub fn decode_event(frame: &Vec<u8>) -> (r: Result<Event, SignalError>)
    ensures
        match sp_parse_event(frame@) {
            Some(ev) => r matches Ok(e) && e@ == ev,
            None => r == Err::<Event, SignalError>(SignalError::MalformedEvent),
        },
{
    let i = skip_ws(frame, 0);
    if !(i < frame.len() && frame[i] == LBRACE) {
        return Err(SignalError::MalformedEvent);
    }
    let j = skip_ws(frame, i + 1);
    let fields: EventFields = if j < frame.len() && frame[j] == RBRACE {
        EventFields { tag: None, topics: None, topic: None, end: j + 1 }
    } else {
        match event_members(frame, j, None, None, None) {
            None => {
                proof {
                    assert(sp_event_members(
                        frame@,
                        j as int,
                        None,
                        None,
                        None,
                        frame@.len() as nat,
                    ) == fields_model(None::<EventFields>));
                }
                return Err(SignalError::MalformedEvent);
            },
            Some(f) => {
                proof {
                    assert(sp_event_members(
                        frame@,
                        j as int,
                        None,
                        None,
                        None,
                        frame@.len() as nat,
                    ) is Some);
                }
                f
            },
        }
    };
    if skip_ws(frame, fields.end) != frame.len() {
        return Err(SignalError::MalformedEvent);
    }
    let tag = match fields.tag {
        None => {
            return Err(SignalError::MalformedEvent);
        },
        Some(t) => t,
    };
    if is_subscribe_tag(&tag) {
        match fields.topics {
            Some(ts) => Ok(Event::Subscribe { topics: to_room_ids(&ts) }),
            None => Err(SignalError::MalformedEvent),
        }
    } else if is_unsubscribe_tag(&tag) {
        match fields.topics {
            Some(ts) => Ok(Event::Unsubscribe { topics: to_room_ids(&ts) }),
            None => Err(SignalError::MalformedEvent),
        }
    } else if is_publish_tag(&tag) {
        match fields.topic {
            Some(tp) => Ok(Event::Publish { topic: RoomId::new(tp) }),
            None => Err(SignalError::MalformedEvent),
        }
    } else if is_ping_tag(&tag) {
        Ok(Event::Ping)
    } else if is_pong_tag(&tag) {
        Ok(Event::Pong)
    } else {
        Err(SignalError::MalformedEvent)
    }
}

/// The lowercase hexadecimal digit for a value below 16.
pub open spec fn hex_digit_lower(d: u8) -> u8 {
    if d < 10 {
        (48 + d) as u8
    } else {
        (87 + d) as u8
    }
}

/// The JSON escape of one content byte: quotes and backslashes are escaped,
/// control bytes become `\u00XX`, everything else stands as itself.
pub open spec fn escape_byte(b: u8) -> Seq<u8> {
    if b == QUOTE || b == BACKSLASH {
        seq![BACKSLASH, b]
    } else if b < 32 {
        seq![BACKSLASH, 117u8, 48, 48, hex_digit_lower(b / 16), hex_digit_lower(b % 16)]
    } else {
        seq![b]
    }
}

pub open spec fn escape_bytes(s: Seq<u8>) -> Seq<u8>
    decreases s.len(),
{
    if s.len() == 0 {
        Seq::empty()
    } else {
        escape_byte(s[0]) + escape_bytes(s.drop_first())
    }
}

proof fn lemma_escape_push(t: Seq<u8>, x: u8)
    ensures
        escape_bytes(t.push(x)) == escape_bytes(t) + escape_byte(x),
    decreases t.len(),
{
    if t.len() == 0 {
        assert(t.push(x).drop_first() =~= t);
        assert(escape_bytes(t) =~= Seq::<u8>::empty());
        assert(escape_bytes(t.push(x)) =~= escape_byte(x) + escape_bytes(t));
        assert(escape_byte(x) + escape_bytes(t) =~= escape_bytes(t) + escape_byte(x));
    } else {
        assert(t.push(x).drop_first() =~= t.drop_first().push(x));
        lemma_escape_push(t.drop_first(), x);
        assert(escape_byte(t[0]) + (escape_bytes(t.drop_first()) + escape_byte(x)) =~= (escape_byte(
            t[0],
        ) + escape_bytes(t.drop_first())) + escape_byte(x));
    }
}

/// A string content between quotes, escaped.
pub open spec fn quoted(s: Seq<u8>) -> Seq<u8> {
    seq![QUOTE] + escape_bytes(s) + seq![QUOTE]
}

/// Quoted topic names joined by commas.
pub open spec fn joined_topics(ts: Seq<Seq<u8>>) -> Seq<u8>
    decreases ts.len(),
{
    if ts.len() == 0 {
        Seq::empty()
    } else if ts.len() == 1 {
        quoted(ts[0])
    } else {
        quoted(ts[0]) + seq![COMMA] + joined_topics(ts.drop_first())
    }
}

proof fn lemma_joined_push(ts: Seq<Seq<u8>>, x: Seq<u8>)
    ensures
        joined_topics(ts.push(x)) == if ts.len() == 0 {
            quoted(x)
        } else {
            joined_topics(ts) + seq![COMMA] + quoted(x)
        },
    decreases ts.len(),
{
    if ts.len() == 0 {
        assert(ts.push(x) =~= seq![x]);
    } else {
        assert(ts.push(x).drop_first() =~= ts.drop_first().push(x));
        lemma_joined_push(ts.drop_first(), x);
        if ts.len() == 1 {
            assert(joined_topics(ts.push(x)) =~= joined_topics(ts) + seq![COMMA] + quoted(x));
        } else {
            assert(quoted(ts[0]) + seq![COMMA] + (joined_topics(ts.drop_first()) + seq![COMMA]
                + quoted(x)) =~= (quoted(ts[0]) + seq![COMMA] + joined_topics(ts.drop_first()))
                + seq![COMMA] + quoted(x));
        }
    }
}

/// The canonical serialization of an event. Encoding is total: every variant
/// serializes.
pub open spec fn spec_encode(e: EventModel) -> Seq<u8> {
    match e {
        EventModel::Subscribe { topics } => seq![LBRACE, QUOTE] + type_key() + seq![
            QUOTE,
            COLON,
            QUOTE,
        ] + subscribe_tag() + seq![QUOTE, COMMA, QUOTE] + topics_key() + seq![
            QUOTE,
            COLON,
            LBRACK,
        ] + joined_topics(topics) + seq![RBRACK, RBRACE],
        EventModel::Unsubscribe { topics } => seq![LBRACE, QUOTE] + type_key() + seq![
            QUOTE,
            COLON,
            QUOTE,
        ] + unsubscribe_tag() + seq![QUOTE, COMMA, QUOTE] + topics_key() + seq![
            QUOTE,
            COLON,
            LBRACK,
        ] + joined_topics(topics) + seq![RBRACK, RBRACE],
        EventModel::Publish { topic } => seq![LBRACE, QUOTE] + type_key() + seq![
            QUOTE,
            COLON,
            QUOTE,
        ] + publish_tag() + seq![QUOTE, COMMA, QUOTE] + topic_key() + seq![QUOTE, COLON] + quoted(
            topic,
        ) + seq![RBRACE],
        EventModel::Ping => seq![LBRACE, QUOTE] + type_key() + seq![QUOTE, COLON, QUOTE]
            + ping_tag() + seq![QUOTE, RBRACE],
        EventModel::Pong => seq![LBRACE, QUOTE] + type_key() + seq![QUOTE, COLON, QUOTE]
            + pong_tag() + seq![QUOTE, RBRACE],
    }
}

/// Appends a quoted, escaped string content.
fn push_quoted(out: &mut Vec<u8>, name: &Vec<u8>)
    ensures
        final(out)@ == old(out)@ + quoted(name@),
{
    let ghost pre = out@;
    out.push(QUOTE);
    let mut k: usize = 0;
    while k < name.len()
        invariant
            0 <= k <= name@.len(),
            out@ == pre + seq![QUOTE] + escape_bytes(name@.take(k as int)),
        decreases name@.len() - k,
    {
        let ghost done = name@.take(k as int);
        let b = name[k];
        if b == QUOTE || b == BACKSLASH {
            out.push(BACKSLASH);
            out.push(b);
        } else if b < 32 {
            out.push(BACKSLASH);
            out.push(117);
            out.push(48);
            out.push(48);
            let hi = b / 16;
            let lo = b % 16;
            out.push(if hi < 10 {
                48 + hi
            } else {
                87 + hi
            });
            out.push(if lo < 10 {
                48 + lo
            } else {
                87 + lo
            });
        } else {
            out.push(b);
        }
        proof {
            lemma_escape_push(done, name@[k as int]);
            assert(name@.take(k + 1) =~= done.push(name@[k as int]));
            assert(out@ =~= pre + seq![QUOTE] + escape_bytes(name@.take(k + 1)));
        }
        k = k + 1;
    }
    out.push(QUOTE);
    proof {
        assert(name@.take(name@.len() as int) =~= name@);
        assert(out@ =~= pre + quoted(name@));
    }
}

/// Appends the quoted topic names, comma separated.
fn push_topics(out: &mut Vec<u8>, topics: &Vec<RoomId>)
    ensures
        final(out)@ == old(out)@ + joined_topics(topics@.map_values(|r: RoomId| r@)),
{
    let ghost pre = out@;
    let ghost tv = topics@.map_values(|r: RoomId| r@);
    let mut k: usize = 0;
    while k < topics.len()
        invariant
            0 <= k <= topics@.len(),
            tv == topics@.map_values(|r: RoomId| r@),
            tv.len() == topics@.len(),
            out@ == pre + joined_topics(tv.take(k as int)),
        decreases topics@.len() - k,
    {
        let ghost done = tv.take(k as int);
        if k > 0 {
            out.push(COMMA);
        }
        push_quoted(out, &topics[k].name);
        proof {
            lemma_joined_push(done, tv[k as int]);
            assert(tv.take(k + 1) =~= done.push(tv[k as int]));
            if k == 0 {
                assert(joined_topics(done) =~= Seq::<u8>::empty());
                assert(out@ =~= pre + joined_topics(tv.take(k + 1)));
            } else {
                assert(out@ =~= pre + joined_topics(tv.take(k + 1)));
            }
        }
        k = k + 1;
    }
    proof {
        assert(tv.take(tv.len() as int) =~= tv);
    }
}

/// Appends `{"type":"` followed by the tag's bytes and a closing quote.
fn push_header(out: &mut Vec<u8>, tag: u8)
    requires
        tag < 5,
    ensures
        final(out)@ == old(out)@ + seq![LBRACE, QUOTE] + type_key() + seq![QUOTE, COLON, QUOTE] + (
        if tag == 0 {
            subscribe_tag()
        } else if tag == 1 {
            unsubscribe_tag()
        } else if tag == 2 {
            publish_tag()
        } else if tag == 3 {
            ping_tag()
        } else {
            pong_tag()
        }) + seq![QUOTE],
{
    let ghost pre = out@;
    out.push(LBRACE);
    out.push(QUOTE);
    out.push(116);
    out.push(121);
    out.push(112);
    out.push(101);
    out.push(QUOTE);
    out.push(COLON);
    out.push(QUOTE);
    if tag == 0 {
        out.push(115);
        out.push(117);
        out.push(98);
        out.push(115);
        out.push(99);
        out.push(114);
        out.push(105);
        out.push(98);
        out.push(101);
        proof {
            assert(out@ =~= pre + seq![LBRACE, QUOTE] + type_key() + seq![QUOTE, COLON, QUOTE]
                + subscribe_tag());
        }
    } else if tag == 1 {
        out.push(117);
        out.push(110);
        out.push(115);
        out.push(117);
        out.push(98);
        out.push(115);
        out.push(99);
        out.push(114);
        out.push(105);
        out.push(98);
        out.push(101);
        proof {
            assert(out@ =~= pre + seq![LBRACE, QUOTE] + type_key() + seq![QUOTE, COLON, QUOTE]
                + unsubscribe_tag());
        }
    } else if tag == 2 {
        out.push(112);
        out.push(117);
        out.push(98);
        out.push(108);
        out.push(105);
        out.push(115);
        out.push(104);
        proof {
            assert(out@ =~= pre + seq![LBRACE, QUOTE] + type_key() + seq![QUOTE, COLON, QUOTE]
                + publish_tag());
        }
    } else if tag == 3 {
        out.push(112);
        out.push(105);
        out.push(110);
        out.push(103);
        proof {
            assert(out@ =~= pre + seq![LBRACE, QUOTE] + type_key() + seq![QUOTE, COLON, QUOTE]
                + ping_tag());
        }
    } else {
        out.push(112);
        out.push(111);
        out.push(110);
        out.push(103);
        proof {
            assert(out@ =~= pre + seq![LBRACE, QUOTE] + type_key() + seq![QUOTE, COLON, QUOTE]
                + pong_tag());
        }
    }
    out.push(QUOTE);
    proof {
        assert(out@ =~= pre + seq![LBRACE, QUOTE] + type_key() + seq![QUOTE, COLON, QUOTE] + (
        if tag == 0 {
            subscribe_tag()
        } else if tag == 1 {
            unsubscribe_tag()
        } else if tag == 2 {
            publish_tag()
        } else if tag == 3 {
            ping_tag()
        } else {
            pong_tag()
        }) + seq![QUOTE]);
    }
}

/// Appends `,"topics":[` quoted topics `]`.
fn push_topics_field(out: &mut Vec<u8>, topics: &Vec<RoomId>)
    ensures
        final(out)@ == old(out)@ + seq![COMMA, QUOTE] + topics_key() + seq![QUOTE, COLON, LBRACK]
            + joined_topics(topics@.map_values(|r: RoomId| r@)) + seq![RBRACK],
{
    let ghost pre = out@;
    out.push(COMMA);
    out.push(QUOTE);
    out.push(116);
    out.push(111);
    out.push(112);
    out.push(105);
    out.push(99);
    out.push(115);
    out.push(QUOTE);
    out.push(COLON);
    out.push(LBRACK);
    proof {
        assert(out@ =~= pre + seq![COMMA, QUOTE] + topics_key() + seq![QUOTE, COLON, LBRACK]);
    }
    push_topics(out, topics);
    out.push(RBRACK);
    proof {
        assert(out@ =~= pre + seq![COMMA, QUOTE] + topics_key() + seq![QUOTE, COLON, LBRACK]
            + joined_topics(topics@.map_values(|r: RoomId| r@)) + seq![RBRACK]);
    }
}

/// Serializes one event in its canonical form.
pub fn encode_event(e: &Event) -> (r: Vec<u8>)
    ensures
        r@ == spec_encode(e@),
{
    let mut out: Vec<u8> = Vec::new();
    let ghost pre = out@;
    match e {
        Event::Subscribe { topics } => {
            push_header(&mut out, 0);
            push_topics_field(&mut out, topics);
            out.push(RBRACE);
            proof {
                assert(out@ =~= spec_encode(e@));
            }
        },
        Event::Unsubscribe { topics } => {
            push_header(&mut out, 1);
            push_topics_field(&mut out, topics);
            out.push(RBRACE);
            proof {
                assert(out@ =~= spec_encode(e@));
            }
        },
        Event::Publish { topic } => {
            push_header(&mut out, 2);
            out.push(COMMA);
            out.push(QUOTE);
            out.push(116);
            out.push(111);
            out.push(112);
            out.push(105);
            out.push(99);
            out.push(QUOTE);
            out.push(COLON);
            push_quoted(&mut out, &topic.name);
            out.push(RBRACE);
            proof {
                assert(out@ =~= spec_encode(e@));
            }
        },
        Event::Ping => {
            push_header(&mut out, 3);
            out.push(RBRACE);
            proof {
                assert(out@ =~= spec_encode(e@));
            }
        },
        Event::Pong => {
            push_header(&mut out, 4);
            out.push(RBRACE);
            proof {
                assert(out@ =~= spec_encode(e@));
            }
        },
    }
    out
}

} // verus!
