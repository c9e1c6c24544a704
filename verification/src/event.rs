//! Subscription events: an update carrying a value, or the final
//! unsubscription notice.
use vstd::prelude::*;

verus! {

use crate::pack::{dm_val, encm, lemma_rt, PackError};
use crate::value::{Value, VM};

/// An event on one subscription. The final event on any subscription
/// is `Unsubscribed`.
#[derive(Debug)]
pub enum Event {
    Unsubscribed,
    Update(Value),
}

impl View for Event {
    type V = Option<VM>;

    open spec fn view(&self) -> Option<VM> {
        match self {
            Event::Unsubscribed => Option::None,
            Event::Update(v) => Option::Some(v@),
        }
    }
}

impl Event {
    /// The carried value's model, if any, is well formed.
    pub open spec fn wf(self) -> bool {
        match self {
            Event::Unsubscribed => true,
            Event::Update(v) => v@.wf(),
        }
    }
}

/// The encoding of an event: the unsubscription marker byte, which is
/// no value tag, or the value's own encoding.
pub open spec fn enc_event(e: Option<VM>) -> Seq<u8> {
    match e {
        Option::None => seq![0x40u8],
        Option::Some(m) => encm(m),
    }
}

/// The event decoder: the marker byte, or a value.
pub open spec fn dm_event(s: Seq<u8>) -> Option<(Option<VM>, int)> {
    if s.len() >= 1 && s[0] == 0x40 {
        Option::Some((Option::None, 1))
    } else {
        match dm_val(s) {
            Option::Some((m, c)) => Option::Some((Option::Some(m), c)),
            Option::None => Option::None,
        }
    }
}

/// Decoding an encoded event gives it back: the marker byte is not a
/// value tag, so the two forms never collide.
pub proof fn lemma_event_rt(e: Event, rest: Seq<u8>)
    requires
        e.wf(),
    ensures
        dm_event(enc_event(e@) + rest) == Option::Some((e@, enc_event(e@).len() as int)),
{
    match e {
        Event::Unsubscribed => {
            assert((enc_event(e@) + rest)[0] == 0x40);
        },
        Event::Update(v) => {
            lemma_rt(v@, rest);
            crate::pack::lemma_encm_len_pos(v@);
            assert((enc_event(e@) + rest)[0] == encm(v@)[0]);
            assert(encm(v@)[0] != 0x40) by {
                crate::pack::lemma_encm_tag(v@);
            }
        },
    }
}

impl Event {
    /// Appends the event's encoding to the buffer.
    pub fn encode(&self, buf: &mut Vec<u8>)
        ensures
            final(buf)@ == old(buf)@ + enc_event(self@),
    {
        match self {
            Event::Unsubscribed => {
                buf.push(0x40);
                assert(buf@ =~= old(buf)@ + enc_event(self@));
            },
            Event::Update(v) => {
                v.encode(buf);
            },
        }
    }

    /// Decodes one event starting at `pos`.
    pub fn decode(buf: &Vec<u8>, pos: usize) -> (r: Result<(Event, usize), PackError>)
        requires
            pos <= buf@.len(),
        ensures
            (match r {
                Result::Ok((e, np)) => dm_event(buf@.skip(pos as int)) == Option::Some(
                    (e@, np - pos as int),
                ) && pos < np <= buf@.len() && e.wf(),
                Result::Err(_) => dm_event(buf@.skip(pos as int)) is None,
            }),
    {
        if pos < buf.len() && buf[pos] == 0x40 {
            assert(buf@.skip(pos as int)[0] == 0x40);
            Result::Ok((Event::Unsubscribed, pos + 1))
        } else {
            proof {
                if pos < buf@.len() {
                    assert(buf@.skip(pos as int)[0] == buf@[pos as int]);
                }
            }
            match Value::decode(buf, pos) {
                Result::Ok((v, np)) => Result::Ok((Event::Update(v), np)),
                Result::Err(e) => Result::Err(e),
            }
        }
    }
}

} // verus!
