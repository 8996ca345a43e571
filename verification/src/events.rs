use vstd::prelude::*;

use crate::completions::Completions;
use crate::constants::{BSPC, CR, CTRL_C, CTRL_R, CTRL_S, CTRL_U, DEL, EOT, ESC};
use crate::search::SearchBase;

verus! {

broadcast use vstd::std_specs::vec::vec_clone_deep_view_proof;

/// Everything the event loop can receive over its channel.
pub enum Event {
    CompletionsReady(Completions),
    HistoryReady(Vec<String>),
    SearchReady(SearchBase),
    Input(char),
    Match(Vec<String>, String),
    Quit(bool),
    KeyUp,
    KeyDown,
    Clear,
    Backspace,
    Bell,
}

impl Event {
    /// A copy of the event where one is cheap to make: the bulky payloads
    /// (completions, history, search base) are not cloned.
    pub fn maybe_clone(&self) -> (r: Option<Event>)
        ensures
            match self {
                Event::CompletionsReady(_) => r is None,
                Event::HistoryReady(_) => r is None,
                Event::SearchReady(_) => r is None,
                Event::Input(c) => r == Some(Event::Input(*c)),
                Event::Match(m, q) => r matches Some(e) && (e matches Event::Match(m2, q2)
                    && m2.deep_view() == m.deep_view() && q2@ == q@),
                Event::Quit(s) => r == Some(Event::Quit(*s)),
                Event::KeyUp => r == Some(Event::KeyUp),
                Event::KeyDown => r == Some(Event::KeyDown),
                Event::Clear => r == Some(Event::Clear),
                Event::Backspace => r == Some(Event::Backspace),
                Event::Bell => r == Some(Event::Bell),
            },
    {
        match self {
            Event::CompletionsReady(_) => None,
            Event::HistoryReady(_) => None,
            Event::SearchReady(_) => None,
            Event::Input(chr) => Some(Event::Input(*chr)),
            Event::Match(matches, query) => Some(Event::Match(matches.clone(), query.clone())),
            Event::Quit(success) => Some(Event::Quit(*success)),
            Event::KeyUp => Some(Event::KeyUp),
            Event::KeyDown => Some(Event::KeyDown),
            Event::Clear => Some(Event::Clear),
            Event::Backspace => Some(Event::Backspace),
            Event::Bell => Some(Event::Bell),
        }
    }
}

/// Relies on `str::from_utf8`: it succeeds exactly on valid UTF-8 and yields
/// its decoding.
#[verifier::external_body]
fn str_from_utf8(buf: &Vec<u8>) -> (r: Option<&str>)
    ensures
        match r {
            Some(s) => vstd::utf8::valid_utf8(buf@) && s@ == vstd::utf8::decode_utf8(buf@),
            None => !vstd::utf8::valid_utf8(buf@),
        },
{
    core::str::from_utf8(buf.as_slice()).ok()
}

/// The character a complete UTF-8 sequence encodes, or nothing when the bytes
/// are not the valid encoding of exactly one character.
pub fn decode_utf8_char(buf: &Vec<u8>) -> (r: Option<char>)
    ensures
        match r {
            Some(c) => vstd::utf8::valid_utf8(buf@) && vstd::utf8::decode_utf8(buf@) == seq![c],
            None => !vstd::utf8::valid_utf8(buf@) || vstd::utf8::decode_utf8(buf@).len() != 1,
        },
{
    match str_from_utf8(buf) {
        Some(s) => {
            if s.unicode_len() == 1 {
                let c = s.get_char(0);
                proof {
                    assert(vstd::utf8::decode_utf8(buf@) =~= seq![c]);
                }
                Some(c)
            } else {
                None
            }
        },
        None => None,
    }
}

/// Whether `c` is a control character: the Unicode `Cc` category, which is
/// exactly the two ranges below.
pub open spec fn is_ctrl_char(c: char) -> bool {
    (c as u32) < 0x20 || (c as u32) == 0x7f || (0x80 <= c as u32 && c as u32 <= 0x9f)
}

/// The decoder: either waiting for ordinary input, or collecting the tail of
/// an escape sequence; once a quit event was emitted it is done for good.
pub struct Decoder {
    escape: Option<Vec<char>>,
    done: bool,
}

pub ghost struct DecoderV {
    pub escape: Option<Seq<char>>,
    pub done: bool,
}

impl View for Decoder {
    type V = DecoderV;

    closed spec fn view(&self) -> DecoderV {
        DecoderV {
            escape: match self.escape {
                Some(ref v) => Some(v@),
                None => None,
            },
            done: self.done,
        }
    }
}

/// What one character does to the decoder: the next state and the events
/// emitted, in order.
pub open spec fn decoder_step_spec(st: DecoderV, c: char) -> (DecoderV, Seq<Event>) {
    if st.done {
        (st, Seq::empty())
    } else if c == ESC {
        (DecoderV { escape: Some(Seq::empty()), done: false }, Seq::empty())
    } else {
        match st.escape {
            Some(buf) => {
                let nb = buf.push(c);
                if nb == seq!['['] {
                    (DecoderV { escape: Some(nb), done: false }, Seq::empty())
                } else if nb == seq!['[', 'A'] {
                    (DecoderV { escape: None, done: false }, seq![Event::KeyUp])
                } else if nb == seq!['[', 'B'] {
                    (DecoderV { escape: None, done: false }, seq![Event::KeyDown])
                } else {
                    (DecoderV { escape: None, done: false }, seq![Event::Bell, Event::Input(c)])
                }
            },
            None => {
                if is_ctrl_char(c) {
                    if c == EOT || c == CTRL_C {
                        (DecoderV { escape: None, done: true }, seq![Event::Quit(false)])
                    } else if c == CTRL_U {
                        (st, seq![Event::Clear])
                    } else if c == CTRL_R {
                        (st, seq![Event::KeyDown])
                    } else if c == CTRL_S {
                        (st, seq![Event::KeyUp])
                    } else if c == '\n' || c == CR {
                        (DecoderV { escape: None, done: true }, seq![Event::Quit(true)])
                    } else if c == BSPC || c == DEL {
                        (st, seq![Event::Backspace])
                    } else {
                        (st, seq![Event::Bell])
                    }
                } else {
                    (st, seq![Event::Input(c)])
                }
            },
        }
    }
}

impl Decoder {
    pub fn new() -> (r: Decoder)
        ensures
            r@ == (DecoderV { escape: None::<Seq<char>>, done: false }),
    {
        Decoder { escape: None, done: false }
    }

    pub open spec fn is_done(&self) -> bool {
        self@.done
    }

    pub fn done(&self) -> (r: bool)
        ensures
            r == self@.done,
    {
        self.done
    }

    /// Feed one character; the events come back in the order they are to be
    /// sent.
    pub fn step(&mut self, c: char) -> (r: Vec<Event>)
        ensures
            final(self)@ == decoder_step_spec(old(self)@, c).0,
            r@ == decoder_step_spec(old(self)@, c).1,
    {
        let ghost pre = self@;
        let mut out: Vec<Event> = Vec::new();
        if self.done {
            return out;
        }
        if c == ESC {
            self.escape = Some(Vec::new());
            proof {
                assert(self@.escape == Some(Seq::<char>::empty()));
            }
            return out;
        }
        let in_escape = self.escape.is_some();
        if in_escape {
            let mut buf = self.escape.take().unwrap();
            buf.push(c);
            let ghost nb = buf@;
            if buf.len() == 1 && buf[0] == '[' {
                proof {
                    assert(nb =~= seq!['[']);
                }
                self.escape = Some(buf);
            } else if buf.len() == 2 && buf[0] == '[' && buf[1] == 'A' {
                proof {
                    assert(nb =~= seq!['[', 'A']);
                }
                self.escape = None;
                out.push(Event::KeyUp);
            } else if buf.len() == 2 && buf[0] == '[' && buf[1] == 'B' {
                proof {
                    assert(nb =~= seq!['[', 'B']);
                }
                self.escape = None;
                out.push(Event::KeyDown);
            } else {
                proof {
                    assert(nb != seq!['[']);
                    assert(nb != seq!['[', 'A']);
                    assert(nb != seq!['[', 'B']);
                }
                self.escape = None;
                out.push(Event::Bell);
                out.push(Event::Input(c));
                proof {
                    assert(out@ =~= seq![Event::Bell, Event::Input(c)]);
                }
            }
            return out;
        }
        let code = c as u32;
        if code < 0x20 || code == 0x7f || (0x80 <= code && code <= 0x9f) {
            if c == EOT || c == CTRL_C {
                self.done = true;
                out.push(Event::Quit(false));
            } else if c == CTRL_U {
                out.push(Event::Clear);
            } else if c == CTRL_R {
                out.push(Event::KeyDown);
            } else if c == CTRL_S {
                out.push(Event::KeyUp);
            } else if c == '\n' || c == CR {
                self.done = true;
                out.push(Event::Quit(true));
            } else if c == BSPC || c == DEL {
                out.push(Event::Backspace);
            } else {
                out.push(Event::Bell);
            }
        } else {
            out.push(Event::Input(c));
        }
        out
    }
}

/// An ordinary character in the ordinary state yields exactly one `Input`
/// event and leaves the decoder as it was.
pub proof fn lemma_plain_char_input(st: DecoderV, c: char)
    requires
        !st.done,
        st.escape is None,
        !is_ctrl_char(c),
        c != ESC,
    ensures
        decoder_step_spec(st, c) == (st, seq![Event::Input(c)]),
{
}

/// From the ordinary state, ESC `[` `A` yields exactly one `KeyUp` and
/// nothing else along the way; ESC `[` `X` yields `Bell` then `Input('X')`.
pub proof fn lemma_escape_sequences(st: DecoderV)
    requires
        !st.done,
        st.escape is None,
    ensures
        ({
            let s1 = decoder_step_spec(st, ESC);
            let s2 = decoder_step_spec(s1.0, '[');
            let s3 = decoder_step_spec(s2.0, 'A');
            s1.1 == Seq::<Event>::empty() && s2.1 == Seq::<Event>::empty() && s3.1 == seq![
                Event::KeyUp,
            ] && !s3.0.done
        }),
        ({
            let s1 = decoder_step_spec(st, ESC);
            let s2 = decoder_step_spec(s1.0, '[');
            let s3 = decoder_step_spec(s2.0, 'X');
            s3.1 == seq![Event::Bell, Event::Input('X')] && !s3.0.done
        }),
{
    let s1 = decoder_step_spec(st, ESC);
    let s2 = decoder_step_spec(s1.0, '[');
    assert(Seq::<char>::empty().push('[') =~= seq!['[']);
    let b2 = s2.0.escape.unwrap();
    assert(b2.push('A') =~= seq!['[', 'A']);
    assert(b2.push('X') != seq!['[']) by {
        assert(b2.push('X').len() == 2);
    }
    assert(b2.push('X')[1] == 'X');
    assert(b2.push('X') != seq!['[', 'A']);
    assert(b2.push('X') != seq!['[', 'B']);
}

/// After a quit the decoder emits nothing more, whatever arrives.
pub proof fn lemma_done_is_final(st: DecoderV, c: char)
    requires
        st.done,
    ensures
        decoder_step_spec(st, c) == (st, Seq::<Event>::empty()),
{
}

} // verus!

