//! A hierarchical publish/subscribe middleware core: the subscriber-side
//! machinery (resolver routing, single-flight subscriptions, durable
//! resubscription) together with the archive recorder and replayer that
//! are built on it.
use vstd::prelude::*;

pub mod archive;
pub mod chars;
pub mod cmp;
pub mod config;
pub mod connection;
pub mod dec;
pub mod event;
pub mod glob;
pub mod num;
pub mod pack;
pub mod path;
pub mod recorder;
pub mod replay;
pub mod resolver;
pub mod subscriber;
pub mod time;
pub mod value;

verus! {

/// A process-unique, monotonically increasing subscription identifier.
/// `SubId` is stable across resubscriptions of the same durable
/// subscription.
#[derive(Clone, Copy, PartialEq, Eq, Structural, Hash, Debug, PartialOrd, Ord)]
pub struct SubId(pub u64);

impl SubId {
    /// The next identifier after this one.
    pub fn next(&self) -> (r: SubId)
        requires
            self.0 < u64::MAX,
        ensures
            r.0 == self.0 + 1,
    {
        SubId(self.0 + 1)
    }
}

} // verus!
