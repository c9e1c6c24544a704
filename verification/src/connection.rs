//! The publisher-connection state machine: pending and live
//! subscriptions, the heartbeat policy and hung-peer detection. The
//! socket I/O around it hands frames in and takes actions out.
use vstd::prelude::*;

verus! {

use crate::event::Event;

/// The heartbeat period, in seconds.
pub const PERIOD_SECS: u64 = 10;

/// What a heartbeat tick decides.
#[derive(Debug, Clone, Copy, PartialEq, Eq, Structural)]
pub enum TickOutcome {
    /// Keep going.
    Carry,
    /// Two silent periods with nothing pending and nothing live:
    /// close the idle link.
    CloseIdle,
    /// A silent period while work was outstanding: declare the
    /// publisher hung and close, resurrecting durable subscriptions.
    HungPublisher,
}

/// The connection's counters: what the heartbeat policy reads.
#[derive(Debug, Clone, Copy, PartialEq, Eq, Structural)]
pub struct ConnState {
    /// Pending subscription requests.
    pub pending: u64,
    /// Live subscriptions.
    pub live: u64,
    /// Whether any frame arrived since the last tick.
    pub msg_recvd: bool,
    /// Consecutive fully idle periods.
    pub idle: u32,
}

impl ConnState {
    pub fn new() -> (r: ConnState)
        ensures
            r == (ConnState { pending: 0, live: 0, msg_recvd: false, idle: 0 }),
    {
        ConnState { pending: 0, live: 0, msg_recvd: false, idle: 0 }
    }

    /// Notes an arrived frame.
    pub fn note_msg(&mut self)
        ensures
            *final(self) == (ConnState { msg_recvd: true, ..*old(self) }),
    {
        self.msg_recvd = true;
    }

    /// One heartbeat tick. A silent period kills the link: hung if
    /// anything was pending or live, idle-closed after two silent
    /// periods otherwise. A period with traffic resets the silence
    /// and, if work is outstanding, the idle count.
    pub fn tick(&mut self) -> (r: TickOutcome)
        ensures
            !old(self).msg_recvd && (old(self).pending > 0 || old(self).live > 0) ==> r
                == TickOutcome::HungPublisher,
            old(self).pending == 0 && old(self).live == 0 && old(self).idle >= 1 ==> r
                == TickOutcome::CloseIdle,
            old(self).msg_recvd && (old(self).pending > 0 || old(self).live > 0) ==> r
                == TickOutcome::Carry && final(self).idle == 0 && !final(self).msg_recvd,
            old(self).pending == 0 && old(self).live == 0 && old(self).idle == 0 ==> r
                == TickOutcome::Carry && final(self).idle == 1,
    {
        if self.pending == 0 && self.live == 0 {
            // an idle link: count silent periods whatever arrived
            if self.idle >= 1 {
                TickOutcome::CloseIdle
            } else {
                self.idle = 1;
                self.msg_recvd = false;
                TickOutcome::Carry
            }
        } else if !self.msg_recvd {
            TickOutcome::HungPublisher
        } else {
            self.idle = 0;
            self.msg_recvd = false;
            TickOutcome::Carry
        }
    }
}

/// A frame from the publisher, already decoded.
#[derive(Debug)]
pub enum FromPublisher {
    /// The path cannot be subscribed.
    NoSuchValue,
    /// The subscription with this id ended.
    Unsubscribed(u64),
    /// A subscription was granted with this id and initial event.
    Subscribed(u64, Event),
    /// An update for a live id.
    Update(u64, Event),
    /// Keep-alive.
    Heartbeat,
}

/// What the connection does with a frame, decided per the state
/// machine of one subscription: a granted id not asked for, or an
/// update for an unknown id, is answered with an unsubscribe.
#[derive(Debug, Clone, Copy, PartialEq, Eq, Structural)]
pub enum FrameAction {
    /// Nothing; counters noted.
    Noted,
    /// Hand the event to the waiter or streams of this id.
    Deliver(u64),
    /// Send an unsubscribe for this id.
    SendUnsubscribe(u64),
}

impl ConnState {
    /// Processes one frame against the counters: a grant with a
    /// waiter pending moves pending to live, one without a waiter is
    /// refused; an update is delivered only for a live id; an ended
    /// subscription leaves the live count.
    pub fn on_frame(&mut self, f: &FromPublisher, id_known: bool) -> (r: FrameAction)
        ensures
            final(self).msg_recvd,
            (match f {
                FromPublisher::Heartbeat => r == FrameAction::Noted,
                FromPublisher::NoSuchValue => r == FrameAction::Noted && final(self).pending == (if old(self).pending > 0 {
                    (old(self).pending - 1) as u64
                } else {
                    0u64
                }),
                FromPublisher::Subscribed(id, _) => (if old(self).pending > 0 {
                    r == FrameAction::Deliver(*id) && final(self).pending == old(
                        self,
                    ).pending - 1 && final(self).live == (if old(self).live < u64::MAX {
                        (old(self).live + 1) as u64
                    } else {
                        old(self).live
                    })
                } else {
                    r == FrameAction::SendUnsubscribe(*id)
                }),
                FromPublisher::Update(id, _) => (if id_known {
                    r == FrameAction::Deliver(*id)
                } else {
                    r == FrameAction::SendUnsubscribe(*id)
                }),
                FromPublisher::Unsubscribed(_) => r == FrameAction::Noted && final(self).live == (if old(self).live > 0 {
                    (old(self).live - 1) as u64
                } else {
                    0u64
                }),
            }),
    {
        self.msg_recvd = true;
        match f {
            FromPublisher::Heartbeat => FrameAction::Noted,
            FromPublisher::NoSuchValue => {
                if self.pending > 0 {
                    self.pending = self.pending - 1;
                }
                FrameAction::Noted
            },
            FromPublisher::Subscribed(id, _) => {
                if self.pending > 0 {
                    self.pending = self.pending - 1;
                    if self.live < u64::MAX {
                        self.live = self.live + 1;
                    }
                    FrameAction::Deliver(*id)
                } else {
                    FrameAction::SendUnsubscribe(*id)
                }
            },
            FromPublisher::Update(id, _) => {
                if id_known {
                    FrameAction::Deliver(*id)
                } else {
                    FrameAction::SendUnsubscribe(*id)
                }
            },
            FromPublisher::Unsubscribed(_) => {
                if self.live > 0 {
                    self.live = self.live - 1;
                }
                FrameAction::Noted
            },
        }
    }
}

} // verus!
