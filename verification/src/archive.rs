//! The archive engine: an append-only log of timestamped batches with
//! a path index, periodic full images, and a cursor-driven reader.
//!
//! A batch is a list of `(id, event)` pairs at one timestamp; a *delta*
//! batch carries changes, an *image* batch carries the last known event
//! for every live id. Timestamps never decrease along the log. The
//! reader builds point-in-time images and replays deltas through a
//! bounded cursor.
use vstd::prelude::*;

verus! {

use crate::event::Event;
use crate::path::Path;
use crate::time::{DT, NANOS_PER_SEC};
use crate::value::{Value, VM};

/// The stable small identifier a path gets on first ingestion.
pub type Id = u64;

/// One `(id, event)` pair of a batch.
#[derive(Debug)]
pub struct BatchItem(pub Id, pub Event);

/// One appended block: a full image or a delta batch at one instant.
#[derive(Debug)]
pub struct Block {
    pub image: bool,
    pub ts: DT,
    pub items: Vec<BatchItem>,
}

/// Why an append was refused.
#[derive(Clone, Copy, Debug, PartialEq, Eq, Structural)]
pub enum ArchiveError {
    /// The encoded batch would be too large for one record; the caller
    /// should split it. The limit is modelled as a maximum item count.
    RecordTooLarge,
    /// The batch's timestamp is older than the last appended one.
    NonMonotonic,
}

/// The modelled limit on the items of one record, standing for the
/// 4 GiB bound on an encoded block.
pub const MAX_RECORD_ITEMS: usize = 0x10000000;

/// An in-memory archive: the `id <-> path` index and the appended
/// blocks. The file I/O around it hands blocks in and out as values.
#[derive(Debug)]
pub struct Archive {
    index: Vec<Path>,
    blocks: Vec<Block>,
}

/// The instant of block `i`, as a nanosecond key.
pub open spec fn block_ts(blocks: Seq<Block>, i: int) -> int {
    blocks[i].ts.key()
}

impl Archive {
    /// Timestamps never decrease along the log, every block is within
    /// the record limit, and every id mentioned anywhere has an index
    /// entry.
    pub open spec fn wf(&self) -> bool {
        &&& forall|i: int, j: int|
            0 <= i <= j < self.spec_blocks().len() ==> #[trigger] block_ts(
                self.spec_blocks(),
                i,
            ) <= #[trigger] block_ts(self.spec_blocks(), j)
        &&& forall|i: int|
            0 <= i < self.spec_blocks().len() ==> (#[trigger] self.spec_blocks()[i]).items@.len()
                < MAX_RECORD_ITEMS && self.spec_blocks()[i].ts.wf()
        &&& forall|i: int, k: int|
            0 <= i < self.spec_blocks().len() && 0 <= k < self.spec_blocks()[i].items@.len()
                ==> (#[trigger] self.spec_blocks()[i].items@[k]).0 < self.index_len()
    }

    /// The number of paths in the index.
    pub closed spec fn index_len(&self) -> nat {
        self.index@.len()
    }

    /// No two index entries hold the same path: ids are stable and
    /// lookups unambiguous.
    pub open spec fn index_unique(&self) -> bool {
        forall|a: int, b: int|
            0 <= a < b < self.index_len() ==> self.spec_path(a) != self.spec_path(b)
    }

    /// The number of appended blocks.
    pub open spec fn num_blocks(&self) -> nat {
        self.spec_blocks().len()
    }

    /// The blocks themselves, for contracts.
    pub closed spec fn spec_blocks(&self) -> Seq<Block> {
        self.blocks@
    }

    /// The path at index `i`.
    pub closed spec fn spec_path(&self, i: int) -> Seq<u8> {
        self.index@[i]@
    }

    /// Some index entry holds these bytes.
    pub open spec fn has_path(&self, p: Seq<u8>) -> bool {
        exists|i: int| 0 <= i < self.index_len() && self.spec_path(i) == p
    }

    /// An empty archive.
    pub fn new() -> (r: Archive)
        ensures
            r.wf(),
            r.index_unique(),
            r.num_blocks() == 0,
            r.index_len() == 0,
    {
        Archive { index: Vec::new(), blocks: Vec::new() }
    }

    /// The number of appended blocks; grows as the file does.
    pub fn len(&self) -> (r: usize)
        ensures
            r == self.num_blocks(),
    {
        self.blocks.len()
    }

    /// The id assigned to the path, if it has one.
    pub fn id_for_path(&self, path: &Path) -> (r: Option<Id>)
        ensures
            (match r {
                Option::Some(id) => id < self.index_len() && self.spec_path(id as int)
                    == path@,
                Option::None => forall|i: int|
                    0 <= i < self.index_len() ==> self.spec_path(i) != path@,
            }),
    {
        let mut i: usize = 0;
        while i < self.index.len()
            invariant
                0 <= i <= self.index@.len(),
                forall|j: int| 0 <= j < i ==> self.spec_path(j) != path@,
            decreases self.index@.len() - i,
        {
            if bytes_eq(self.index[i].bytes(), path.bytes()) {
                return Option::Some(i as Id);
            }
            i += 1;
        }
        Option::None
    }

    /// The path a block item's id refers to.
    pub fn path_for_id(&self, id: Id) -> (r: Option<Path>)
        ensures
            (match r {
                Option::Some(p) => id < self.index_len() && p@ == self.spec_path(id as int),
                Option::None => id >= self.index_len(),
            }),
    {
        if id < self.index.len() as u64 {
            Option::Some(self.index[id as usize].clone())
        } else {
            Option::None
        }
    }

    /// Assigns ids to the paths idempotently: a known path keeps its
    /// id, a new one is appended to the index. Existing assignments
    /// never change.
    pub fn add_paths(&mut self, paths: &Vec<Path>)
        requires
            old(self).wf(),
            old(self).index_unique(),
        ensures
            final(self).wf(),
            final(self).index_unique(),
            final(self).spec_blocks() == old(self).spec_blocks(),
            final(self).index_len() >= old(self).index_len(),
            forall|i: int|
                0 <= i < old(self).index_len() ==> final(self).spec_path(i) == old(
                    self,
                ).spec_path(i),
            forall|k: int| 0 <= k < paths@.len() ==> final(self).has_path((#[trigger] paths@[k])@),
    {
        let mut k: usize = 0;
        while k < paths.len()
            invariant
                0 <= k <= paths@.len(),
                self.wf(),
                self.index_unique(),
                self.spec_blocks() == old(self).spec_blocks(),
                self.index_len() >= old(self).index_len(),
                forall|i: int|
                    0 <= i < old(self).index_len() ==> self.spec_path(i) == old(
                        self,
                    ).spec_path(i),
                forall|j: int| 0 <= j < k ==> self.has_path((#[trigger] paths@[j])@),
            decreases paths@.len() - k,
        {
            let ghost prev = *self;
            match self.id_for_path(&paths[k]) {
                Option::Some(id) => {
                    proof {
                        assert(self.has_path(paths@[k as int]@));
                    }
                },
                Option::None => {
                    self.index.push(paths[k].clone());
                    proof {
                        let newlen = self.index_len() as int;
                        assert(self.spec_path(newlen - 1) == paths@[k as int]@);
                        assert(self.has_path(paths@[k as int]@));
                        assert(forall|i: int|
                            0 <= i < prev.index_len() ==> self.spec_path(i)
                                == prev.spec_path(i));
                        assert(self.index_unique()) by {
                            assert forall|a: int, b: int|
                                0 <= a < b < self.index_len() implies self.spec_path(a)
                                != self.spec_path(b) by {
                                if b == newlen - 1 {
                                    assert(prev.spec_path(a) != paths@[k as int]@);
                                } else {
                                    assert(prev.spec_path(a) != prev.spec_path(b));
                                }
                            }
                        }
                        assert forall|j: int| 0 <= j < k implies self.has_path(
                            (#[trigger] paths@[j])@,
                        ) by {
                            let wi = choose|i: int|
                                0 <= i < prev.index_len() && prev.spec_path(i)
                                    == paths@[j]@;
                            assert(self.spec_path(wi) == paths@[j]@);
                        }
                    }
                },
            }
            k += 1;
        }
    }

    /// Appends one batch. A too-large batch is refused with
    /// `RecordTooLarge` so the caller can split it; a timestamp older
    /// than the last block's is refused, keeping the log ordered.
    pub fn add_batch(&mut self, image: bool, ts: DT, items: Vec<BatchItem>) -> (r: Result<
        (),
        ArchiveError,
    >)
        requires
            old(self).wf(),
            ts.wf(),
            forall|k: int|
                0 <= k < items@.len() ==> (#[trigger] items@[k]).0 < old(self).index_len(),
        ensures
            final(self).wf(),
            (match r {
                Result::Ok(()) => {
                    &&& items@.len() < MAX_RECORD_ITEMS
                    &&& (old(self).num_blocks() > 0 ==> ts.key() >= block_ts(
                        old(self).spec_blocks(),
                        old(self).num_blocks() - 1,
                    ))
                    &&& final(self).num_blocks() == old(self).num_blocks() + 1
                    &&& final(self).spec_blocks()[old(self).num_blocks() as int].image
                        == image
                    &&& final(self).spec_blocks()[old(self).num_blocks() as int].ts == ts
                    &&& final(self).spec_blocks()[old(self).num_blocks() as int].items@
                        == items@
                    &&& forall|i: int|
                        0 <= i < old(self).num_blocks() ==> final(self).spec_blocks()[i]
                            == old(self).spec_blocks()[i]
                },
                Result::Err(ArchiveError::RecordTooLarge) => items@.len()
                    >= MAX_RECORD_ITEMS && *final(self) == *old(self),
                Result::Err(ArchiveError::NonMonotonic) => old(self).num_blocks() > 0
                    && ts.key() < block_ts(old(self).spec_blocks(), old(self).num_blocks() - 1)
                    && *final(self) == *old(self),
            }),
            final(self).index_len() == old(self).index_len(),
            forall|i: int|
                0 <= i < old(self).index_len() ==> final(self).spec_path(i) == old(
                    self,
                ).spec_path(i),
            old(self).index_unique() ==> final(self).index_unique(),
    {
        if items.len() >= MAX_RECORD_ITEMS {
            return Result::Err(ArchiveError::RecordTooLarge);
        }
        if self.blocks.len() > 0 {
            let last = self.blocks.len() - 1;
            let lts = self.blocks[last].ts;
            proof {
                assert(self.spec_blocks()[last as int].ts.wf());
                assert(lts.nanos < 1_000_000_000 && ts.nanos < 1_000_000_000);
            }
            if ts.secs < lts.secs || (ts.secs == lts.secs && ts.nanos < lts.nanos) {
                proof {
                    assert(ts.key() < lts.key());
                    assert(block_ts(self.spec_blocks(), self.spec_blocks().len() - 1)
                        == lts.key());
                }
                return Result::Err(ArchiveError::NonMonotonic);
            }
            proof {
                assert(ts.key() >= lts.key());
                assert(block_ts(self.spec_blocks(), self.spec_blocks().len() - 1)
                    == lts.key());
            }
        }
        let ghost prev = *self;
        self.blocks.push(Block { image, ts, items });
        proof {
            assert(self.index_len() == prev.index_len());
            assert(forall|i: int|
                0 <= i < self.index_len() ==> self.spec_path(i) == prev.spec_path(i));
            if prev.index_unique() {
                assert forall|a: int, b: int|
                    0 <= a < b < self.index_len() implies self.spec_path(a)
                    != self.spec_path(b) by {
                    assert(prev.spec_path(a) != prev.spec_path(b));
                }
            }
            let bs = self.spec_blocks();
            let n = bs.len() - 1;
            assert(forall|i: int| 0 <= i < n ==> bs[i] == prev.spec_blocks()[i]);
            assert forall|i: int, j: int| 0 <= i <= j < bs.len() implies #[trigger]
                block_ts(bs, i) <= #[trigger] block_ts(bs, j) by {
                if j < n {
                    assert(block_ts(prev.spec_blocks(), i) <= block_ts(
                        prev.spec_blocks(),
                        j,
                    ));
                } else if i < n {
                    assert(block_ts(prev.spec_blocks(), i) <= block_ts(
                        prev.spec_blocks(),
                        n - 1,
                    ));
                    assert(block_ts(bs, j) == ts.key());
                }
            }
        }
        Result::Ok(())
    }
}

/// Byte-wise equality of two vectors.
pub fn bytes_eq(a: &Vec<u8>, b: &Vec<u8>) -> (r: bool)
    ensures
        r == (a@ == b@),
{
    if a.len() != b.len() {
        proof {
            assert(a@.len() != b@.len());
        }
        return false;
    }
    let mut i: usize = 0;
    while i < a.len()
        invariant
            0 <= i <= a@.len(),
            a@.len() == b@.len(),
            forall|j: int| 0 <= j < i ==> a@[j] == b@[j],
        decreases a@.len() - i,
    {
        if a[i] != b[i] {
            return false;
        }
        i += 1;
    }
    proof {
        assert(a@ =~= b@);
    }
    true
}

/// The archive-ordering law: along any archive, and so for any reader
/// iterating it from beginning to end, timestamps never decrease.
pub proof fn lemma_archive_ordered(a: &Archive, i: int, j: int)
    requires
        a.wf(),
        0 <= i <= j < a.num_blocks(),
    ensures
        block_ts(a.spec_blocks(), i) <= block_ts(a.spec_blocks(), j),
{
}

/// A monotonic timestamper: if the wall clock regresses, it answers
/// the last instant plus one microsecond, so issued timestamps
/// strictly increase whenever the clock stalls or goes back.
#[derive(Debug)]
pub struct MonotonicTimestamper {
    last: DT,
}

impl MonotonicTimestamper {
    pub closed spec fn spec_last(&self) -> DT {
        self.last
    }

    pub open spec fn wf(&self) -> bool {
        self.spec_last().wf()
    }

    pub fn new(start: DT) -> (r: MonotonicTimestamper)
        requires
            start.wf(),
        ensures
            r.spec_last() == start,
            r.wf(),
    {
        MonotonicTimestamper { last: start }
    }

    /// The next timestamp for the given clock reading: the reading
    /// itself when it has advanced, else the last issue plus 1 us.
    pub fn timestamp(&mut self, now: DT) -> (r: DT)
        requires
            old(self).wf(),
            now.wf(),
            old(self).spec_last().key() < i64::MAX as int * 1_000_000_000,
        ensures
            final(self).wf(),
            final(self).spec_last() == r,
            r.wf(),
            r.key() >= old(self).spec_last().key(),
            now.key() > old(self).spec_last().key() ==> r == now,
            now.key() <= old(self).spec_last().key() ==> r.key() == old(
                self,
            ).spec_last().key() + 1000,
    {
        let advanced = now.secs > self.last.secs || (now.secs == self.last.secs
            && now.nanos > self.last.nanos);
        if advanced {
            proof {
                assert(now.key() > self.last.key());
            }
            self.last = now;
            now
        } else {
            proof {
                assert(now.key() <= self.last.key());
            }
            let bumped = if self.last.nanos < 999_999_000 {
                DT { secs: self.last.secs, nanos: self.last.nanos + 1000 }
            } else {
                DT { secs: self.last.secs + 1, nanos: self.last.nanos + 1000 - 1_000_000_000 }
            };
            self.last = bumped;
            bumped
        }
    }
}

/// A bound of the replay window.
#[derive(Clone, Copy, Debug, PartialEq, Eq, Structural)]
pub enum Bound {
    Unbounded,
    Inclusive(DT),
    Exclusive(DT),
}

/// A position in an archive: optional start and end bounds and the
/// current instant, `None` while outside the active window.
#[derive(Clone, Copy, Debug)]
pub struct Cursor {
    pub start: Bound,
    pub end: Bound,
    pub current: Option<DT>,
}

/// The bound's instant, if any, is well formed.
pub open spec fn bound_wf(b: Bound) -> bool {
    match b {
        Bound::Unbounded => true,
        Bound::Inclusive(t) => t.wf(),
        Bound::Exclusive(t) => t.wf(),
    }
}

/// Whether the instant with key `k` is at or after the bound taken as
/// a start.
pub open spec fn at_or_after(b: Bound, k: int) -> bool {
    match b {
        Bound::Unbounded => true,
        Bound::Inclusive(t) => k >= t.key(),
        Bound::Exclusive(t) => k > t.key(),
    }
}

/// Whether the instant with key `k` is at or before the bound taken as
/// an end.
pub open spec fn at_or_before(b: Bound, k: int) -> bool {
    match b {
        Bound::Unbounded => true,
        Bound::Inclusive(t) => k <= t.key(),
        Bound::Exclusive(t) => k < t.key(),
    }
}

impl Cursor {
    /// A cursor over the whole archive, before its first batch.
    pub fn new() -> (r: Cursor)
        ensures
            r.start == Bound::Unbounded,
            r.end == Bound::Unbounded,
            r.current is None,
    {
        Cursor { start: Bound::Unbounded, end: Bound::Unbounded, current: Option::None }
    }

    /// The window contains the instant.
    pub open spec fn contains_spec(&self, k: int) -> bool {
        at_or_after(self.start, k) && at_or_before(self.end, k)
    }

    /// The bounds and the position are well formed instants.
    pub open spec fn wf(&self) -> bool {
        bound_wf(self.start) && bound_wf(self.end) && (match self.current {
            Option::Some(t) => t.wf(),
            Option::None => true,
        })
    }

    /// Whether `start <= ts <= end` under the cursor's bounds.
    pub fn contains(&self, ts: &DT) -> (r: bool)
        requires
            ts.wf(),
            self.wf(),
        ensures
            r == self.contains_spec(ts.key()),
    {
        let after = match self.start {
            Bound::Unbounded => true,
            Bound::Inclusive(t) => dt_ge(ts, &t),
            Bound::Exclusive(t) => dt_gt(ts, &t),
        };
        let before = match self.end {
            Bound::Unbounded => true,
            Bound::Inclusive(t) => dt_ge(&t, ts),
            Bound::Exclusive(t) => dt_gt(&t, ts),
        };
        after && before
    }

    /// Records the instant just replayed.
    pub fn set_current(&mut self, ts: DT)
        ensures
            *final(self) == (Cursor {
                current: Option::Some(ts),
                ..*old(self)
            }),
    {
        self.current = Option::Some(ts);
    }

    /// Narrows or widens the start of the window; a current position
    /// outside the new window is dropped.
    pub fn set_start(&mut self, b: Bound)
        requires
            old(self).wf(),
            bound_wf(b),
        ensures
            final(self).wf(),
            final(self).start == b,
            final(self).end == old(self).end,
            (match old(self).current {
                Option::Some(t) => final(self).current == (if at_or_after(b, t.key()) {
                    Option::Some(t)
                } else {
                    Option::None
                }),
                Option::None => final(self).current is None,
            }),
    {
        self.start = b;
        match self.current {
            Option::Some(t) => {
                let keep = match self.start {
                    Bound::Unbounded => true,
                    Bound::Inclusive(s) => dt_ge(&t, &s),
                    Bound::Exclusive(s) => dt_gt(&t, &s),
                };
                if !keep {
                    self.current = Option::None;
                }
            },
            Option::None => {},
        }
    }

    /// Narrows or widens the end of the window; a current position
    /// outside the new window is dropped.
    pub fn set_end(&mut self, b: Bound)
        requires
            old(self).wf(),
            bound_wf(b),
        ensures
            final(self).wf(),
            final(self).end == b,
            final(self).start == old(self).start,
            (match old(self).current {
                Option::Some(t) => final(self).current == (if at_or_before(b, t.key()) {
                    Option::Some(t)
                } else {
                    Option::None
                }),
                Option::None => final(self).current is None,
            }),
    {
        self.end = b;
        match self.current {
            Option::Some(t) => {
                let keep = match self.end {
                    Bound::Unbounded => true,
                    Bound::Inclusive(e) => dt_ge(&e, &t),
                    Bound::Exclusive(e) => dt_gt(&e, &t),
                };
                if !keep {
                    self.current = Option::None;
                }
            },
            Option::None => {},
        }
    }
}

/// `a >= b` on instants, by key.
pub fn dt_ge(a: &DT, b: &DT) -> (r: bool)
    requires
        a.wf(),
        b.wf(),
    ensures
        r == (a.key() >= b.key()),
{
    a.secs > b.secs || (a.secs == b.secs && a.nanos >= b.nanos)
}

/// `a > b` on instants, by key.
pub fn dt_gt(a: &DT, b: &DT) -> (r: bool)
    requires
        a.wf(),
        b.wf(),
    ensures
        r == (a.key() > b.key()),
{
    a.secs > b.secs || (a.secs == b.secs && a.nanos > b.nanos)
}

/// The position key a cursor reads from next: just after `current`,
/// or from the window start.
pub open spec fn read_from(c: Cursor) -> int {
    match c.current {
        Option::Some(t) => t.key(),
        Option::None => match c.start {
            Bound::Unbounded => -0x10000000000000000000000000000,
            Bound::Inclusive(t) => t.key() - 1,
            Bound::Exclusive(t) => t.key(),
        },
    }
}

/// A block the reader must hand out next for cursor `c`: a delta,
/// strictly after the read position, within the window.
pub open spec fn is_due(b: Block, c: Cursor) -> bool {
    !b.image && b.ts.key() > read_from(c) && c.contains_spec(b.ts.key())
}

/// The cursor standing at the given instant.
pub open spec fn with_current(c: Cursor, t: DT) -> Cursor {
    Cursor { start: c.start, end: c.end, current: Option::Some(t) }
}

/// The block indices a reader starting at cursor `c` hands out, up to
/// `n` of them, scanning the log from `i`: each due block is taken and
/// the cursor advances past it, so the result is exactly the first due
/// blocks in log order.
pub open spec fn due_scan(blocks: Seq<Block>, c: Cursor, n: int, i: int) -> Seq<int>
    decreases blocks.len() - i,
{
    if i < 0 || i >= blocks.len() || n <= 0 {
        Seq::empty()
    } else if is_due(blocks[i], c) {
        seq![i] + due_scan(blocks, with_current(c, blocks[i].ts), n - 1, i + 1)
    } else {
        due_scan(blocks, c, n, i + 1)
    }
}

impl Archive {
    /// Reads up to `n` delta batches strictly after the cursor,
    /// advancing it past the last one returned. Every batch handed out
    /// is a due delta block of the archive, in log order with
    /// non-decreasing timestamps; and when fewer than `n` come back,
    /// nothing is due any more for the cursor as it is left, so the
    /// next read returns nothing new.
    pub fn read_deltas(&self, cursor: &mut Cursor, n: usize) -> (r: Vec<(DT, Vec<(
        Id,
        Event,
    )>)>)
        requires
            self.wf(),
            old(cursor).wf(),
        ensures
            final(cursor).wf(),
            final(cursor).start == old(cursor).start,
            final(cursor).end == old(cursor).end,
            r@.len() <= n,
            r@.len() == 0 ==> *final(cursor) == *old(cursor),
            r@.len() > 0 ==> final(cursor).current == Option::Some(
                r@[r@.len() - 1].0,
            ),
            forall|k: int|
                0 <= k < r@.len() ==> exists|i: int|
                    0 <= i < self.num_blocks() && is_due(
                        #[trigger] self.spec_blocks()[i],
                        *old(cursor),
                    ) && (#[trigger] r@[k]).0 == self.spec_blocks()[i].ts
                        && items_of(self.spec_blocks()[i].items@) == pairs_of(r@[k].1@),
            forall|k: int, l: int|
                0 <= k <= l < r@.len() ==> (#[trigger] r@[k]).0.key()
                    <= (#[trigger] r@[l]).0.key(),
            r@.len() < n ==> forall|i: int|
                0 <= i < self.num_blocks() ==> !is_due(
                    #[trigger] self.spec_blocks()[i],
                    *final(cursor),
                ),
            // the batches are exactly the first due blocks in log order
            r@.len() == due_scan(self.spec_blocks(), *old(cursor), n as int, 0).len(),
            forall|k: int|
                0 <= k < r@.len() ==> (#[trigger] r@[k]).0 == self.spec_blocks()[due_scan(
                    self.spec_blocks(),
                    *old(cursor),
                    n as int,
                    0,
                )[k]].ts && items_of(
                    self.spec_blocks()[due_scan(
                        self.spec_blocks(),
                        *old(cursor),
                        n as int,
                        0,
                    )[k]].items@,
                ) == pairs_of(r@[k].1@),
    {
        let mut out: Vec<(DT, Vec<(Id, Event)>)> = Vec::new();
        let mut i: usize = 0;
        let blen = self.blocks.len();
        let ghost c0 = *cursor;
        let ghost taken: Seq<int> = Seq::empty();
        let mut taken_g: Ghost<Seq<int>> = Ghost(taken);
        proof {
            assert(due_scan(self.spec_blocks(), c0, n as int, 0) =~= taken_g@ + due_scan(
                self.spec_blocks(),
                c0,
                n as int,
                0,
            ));
        }
        while i < blen && out.len() < n
            invariant
                self.wf(),
                0 <= i <= self.num_blocks(),
                cursor.wf(),
                cursor.start == c0.start,
                cursor.end == c0.end,
                out@.len() <= n,
                out@.len() == 0 ==> *cursor == c0,
                out@.len() > 0 ==> cursor.current == Option::Some(
                    out@[out@.len() - 1].0,
                ),
                forall|k: int|
                    0 <= k < out@.len() ==> exists|j: int|
                        0 <= j < self.num_blocks() && is_due(
                            #[trigger] self.spec_blocks()[j],
                            c0,
                        ) && (#[trigger] out@[k]).0 == self.spec_blocks()[j].ts
                            && items_of(self.spec_blocks()[j].items@) == pairs_of(
                            out@[k].1@,
                        ),
                forall|k: int, l: int|
                    0 <= k <= l < out@.len() ==> (#[trigger] out@[k]).0.key()
                        <= (#[trigger] out@[l]).0.key(),
                forall|k: int|
                    0 <= k < out@.len() ==> (#[trigger] out@[k]).0.key() > read_from(c0),
                blen == self.num_blocks(),
                read_from(*cursor) >= read_from(c0),
                forall|j: int|
                    0 <= j < i ==> !is_due(#[trigger] self.spec_blocks()[j], *cursor),
                taken_g@.len() == out@.len(),
                due_scan(self.spec_blocks(), c0, n as int, 0) == taken_g@ + due_scan(
                    self.spec_blocks(),
                    *cursor,
                    n as int - out@.len(),
                    i as int,
                ),
                forall|k: int|
                    0 <= k < out@.len() ==> 0 <= #[trigger] taken_g@[k]
                        < self.num_blocks() && out@[k].0 == self.spec_blocks()[
                        taken_g@[k]
                    ].ts && items_of(self.spec_blocks()[taken_g@[k]].items@) == pairs_of(
                        out@[k].1@,
                    ),
            decreases self.num_blocks() - i,
        {
            let ghost cur0 = *cursor;
            let b = &self.blocks[i];
            proof {
                assert(self.spec_blocks()[i as int].ts.wf());
            }
            let due = !b.image && (match cursor.current {
                Option::Some(t) => dt_gt(&b.ts, &t),
                Option::None => match cursor.start {
                    Bound::Unbounded => true,
                    Bound::Inclusive(st) => dt_ge(&b.ts, &st),
                    Bound::Exclusive(st) => dt_gt(&b.ts, &st),
                },
            }) && cursor.contains(&b.ts);
            if due {
                let mut items: Vec<(Id, Event)> = Vec::new();
                let mut k: usize = 0;
                while k < b.items.len()
                    invariant
                        0 <= k <= b.items@.len(),
                        items@.len() == k,
                        forall|j: int|
                            0 <= j < k ==> (#[trigger] items@[j]).0 == b.items@[j].0
                                && items@[j].1@ == b.items@[j].1@,
                    decreases b.items@.len() - k,
                {
                    items.push((b.items[k].0, clone_event(&b.items[k].1)));
                    k += 1;
                }
                proof {
                    assert(pairs_of(items@) =~= items_of(b.items@));
                    if out@.len() == 0 {
                        assert(read_from(*cursor) == read_from(c0));
                    }
                    assert(is_due(self.spec_blocks()[i as int], c0)) by {
                        if out@.len() > 0 {
                            assert(out@[out@.len() - 1].0.key() > read_from(c0));
                        }
                    }
                }
                let ts = b.ts;
                let ghost out_before = out@.len() as int;
                out.push((ts, items));
                cursor.set_current(ts);
                proof {
                    assert(read_from(*cursor) == ts.key());
                    assert(ts.key() > read_from(cur0));
                    assert forall|j: int| 0 <= j < i + 1 implies !is_due(
                        #[trigger] self.spec_blocks()[j],
                        *cursor,
                    ) by {
                        if j < i {
                            assert(!is_due(self.spec_blocks()[j], cur0));
                        } else {
                            assert(self.spec_blocks()[j].ts.key() == ts.key());
                        }
                    }
                    // the scan takes this block and moves on
                    assert(is_due(self.spec_blocks()[i as int], cur0));
                    assert(due_scan(self.spec_blocks(), cur0, n as int - out_before, i as int)
                        == seq![i as int] + due_scan(
                        self.spec_blocks(),
                        with_current(cur0, ts),
                        n as int - out_before - 1,
                        i as int + 1,
                    ));
                    assert(*cursor == with_current(cur0, ts));
                }
                taken_g = Ghost(taken_g@.push(i as int));
                proof {
                    assert(due_scan(self.spec_blocks(), c0, n as int, 0) =~= taken_g@
                        + due_scan(
                        self.spec_blocks(),
                        *cursor,
                        n as int - out@.len(),
                        i as int + 1,
                    ));
                }
            } else {
                proof {
                    assert(!is_due(self.spec_blocks()[i as int], *cursor));
                    assert(due_scan(self.spec_blocks(), *cursor, n as int - out@.len(), i as int)
                        == due_scan(
                        self.spec_blocks(),
                        *cursor,
                        n as int - out@.len(),
                        i as int + 1,
                    ));
                }
            }
            i += 1;
        }
        proof {
            // at exit the remaining scan is empty: either the count is
            // reached or the log is exhausted
            assert(due_scan(self.spec_blocks(), *cursor, n as int - out@.len(), i as int)
                =~= Seq::<int>::empty());
            assert(due_scan(self.spec_blocks(), c0, n as int, 0) =~= taken_g@);
            if out@.len() < n {
                assert(i == blen);
                assert forall|j: int| 0 <= j < self.num_blocks() implies !is_due(
                    #[trigger] self.spec_blocks()[j],
                    *cursor,
                ) by {
                    assert(!is_due(self.spec_blocks()[j], *cursor));
                }
            }
        }
        out
    }
}

/// The `(id, model)` pairs of a stored batch.
pub open spec fn items_of(items: Seq<BatchItem>) -> Seq<(Id, Option<VM>)> {
    Seq::new(
        items.len(),
        |j: int|
            if 0 <= j < items.len() {
                (items[j].0, items[j].1@)
            } else {
                (0u64, Option::None)
            },
    )
}

/// The `(id, model)` pairs of a returned batch.
pub open spec fn pairs_of(items: Seq<(Id, Event)>) -> Seq<(Id, Option<VM>)> {
    Seq::new(
        items.len(),
        |j: int|
            if 0 <= j < items.len() {
                (items[j].0, items[j].1@)
            } else {
                (0u64, Option::None)
            },
    )
}

/// A copy of an event with the same model.
pub fn clone_event(e: &Event) -> (r: Event)
    ensures
        r@ == e@,
{
    match e {
        Event::Unsubscribed => Event::Unsubscribed,
        Event::Update(v) => Event::Update(v.dup()),
    }
}

/// Applies a batch's items to a point-in-time image: later items win.
pub open spec fn apply_items(m: Map<Id, Option<VM>>, items: Seq<(Id, Option<VM>)>) -> Map<
    Id,
    Option<VM>,
>
    decreases items.len(),
{
    if items.len() == 0 {
        m
    } else {
        apply_items(m.insert(items[0].0, items[0].1), items.drop_first())
    }
}

/// Applies one block: an image replaces the whole picture, a delta
/// merges into it.
pub open spec fn apply_block(m: Map<Id, Option<VM>>, b: Block) -> Map<Id, Option<VM>> {
    if b.image {
        apply_items(Map::empty(), items_of(b.items@))
    } else {
        apply_items(m, items_of(b.items@))
    }
}

/// The image after folding blocks `i .. k` over `m`.
pub open spec fn image_from(blocks: Seq<Block>, m: Map<Id, Option<VM>>, i: int, k: int) -> Map<
    Id,
    Option<VM>,
>
    decreases k - i,
{
    if i < 0 || i >= k || k > blocks.len() {
        m
    } else {
        image_from(blocks, apply_block(m, blocks[i]), i + 1, k)
    }
}

/// What the image starts from makes no difference once an image block
/// lies in the folded range: the fold from any two starts agrees.
pub proof fn lemma_image_start_irrelevant(
    blocks: Seq<Block>,
    m0: Map<Id, Option<VM>>,
    m1: Map<Id, Option<VM>>,
    i: int,
    j: int,
    k: int,
)
    requires
        0 <= i <= j < k <= blocks.len(),
        blocks[j].image,
    ensures
        image_from(blocks, m0, i, k) == image_from(blocks, m1, i, k),
    decreases j - i,
{
    if i == j {
        assert(apply_block(m0, blocks[i]) == apply_block(m1, blocks[i]));
    } else {
        lemma_image_start_irrelevant(
            blocks,
            apply_block(m0, blocks[i]),
            apply_block(m1, blocks[i]),
            i + 1,
            j,
            k,
        );
    }
}

/// Folding splits at any midpoint.
pub proof fn lemma_image_split(
    blocks: Seq<Block>,
    m: Map<Id, Option<VM>>,
    i: int,
    j: int,
    k: int,
)
    requires
        0 <= i <= j <= k <= blocks.len(),
    ensures
        image_from(blocks, m, i, k) == image_from(blocks, image_from(blocks, m, i, j), j, k),
    decreases j - i,
{
    if i < j {
        lemma_image_split(blocks, apply_block(m, blocks[i]), i + 1, j, k);
    }
}

/// The image-correctness law: starting the replay at the most recent
/// full image at or before the position gives exactly the image of
/// replaying the whole log to that position.
pub proof fn lemma_image_correct(blocks: Seq<Block>, im: int, k: int)
    requires
        0 <= im < k <= blocks.len(),
        blocks[im].image,
    ensures
        image_from(blocks, Map::empty(), im, k) == image_from(blocks, Map::empty(), 0, k),
{
    lemma_image_split(blocks, Map::empty(), 0, im, k);
    lemma_image_start_irrelevant(
        blocks,
        image_from(blocks, Map::empty(), 0, im),
        Map::empty(),
        im,
        im,
        k,
    );
}

impl Archive {
    /// Builds the point-in-time image at the cursor: the fold of the
    /// whole log up to the cursor's position, computed from the most
    /// recent full image. The result lists each id at most once.
    pub fn build_image(&self, cursor: &Cursor) -> (r: Vec<(Id, Event)>)
        requires
            self.wf(),
            cursor.wf(),
        ensures
            (exists|u: int|
                {
                    &&& 0 <= u <= self.num_blocks()
                    &&& (forall|i: int|
                        0 <= i < u ==> #[trigger] block_ts(self.spec_blocks(), i)
                            <= read_pos(*cursor))
                    &&& (forall|i: int|
                        u <= i < self.num_blocks() ==> #[trigger] block_ts(
                            self.spec_blocks(),
                            i,
                        ) > read_pos(*cursor))
                    &&& models_map(
                        r@,
                        image_from(self.spec_blocks(), Map::empty(), 0, u),
                    )
                }),
    {
        // the replay point
        let mut upto: usize = 0;
        let blen = self.blocks.len();
        let mut stop = false;
        while upto < blen && !stop
            invariant
                self.wf(),
                cursor.wf(),
                blen == self.num_blocks(),
                0 <= upto <= blen,
                forall|i: int|
                    0 <= i < upto ==> #[trigger] block_ts(self.spec_blocks(), i)
                        <= read_pos(*cursor),
                stop && upto < blen ==> block_ts(self.spec_blocks(), upto as int)
                    > read_pos(*cursor),
            decreases blen - upto, (if stop { 0int } else { 1int }),
        {
            proof {
                assert(self.spec_blocks()[upto as int].ts.wf());
            }
            let within = match cursor.current {
                Option::Some(t) => dt_ge(&t, &self.blocks[upto].ts),
                Option::None => false,
            };
            if within {
                upto += 1;
            } else {
                proof {
                    let bts = self.spec_blocks()[upto as int].ts;
                    match cursor.current {
                        Option::Some(t) => {
                            assert(bts.key() > t.key());
                        },
                        Option::None => {
                            assert(bts.key() >= (i64::MIN as int) * 1_000_000_000);
                        },
                    }
                }
                stop = true;
            }
        }
        proof {
            assert(forall|i: int|
                upto <= i < self.num_blocks() ==> #[trigger] block_ts(
                    self.spec_blocks(),
                    i,
                ) > read_pos(*cursor)) by {
                if (upto as int) < self.num_blocks() {
                    assert(block_ts(self.spec_blocks(), upto as int) > read_pos(*cursor));
                    assert(forall|i: int|
                        upto <= i < self.num_blocks() ==> block_ts(
                            self.spec_blocks(),
                            upto as int,
                        ) <= #[trigger] block_ts(self.spec_blocks(), i));
                }
            }
        }
        // find the most recent full image at or before the position
        let mut start: usize = 0;
        let mut j: usize = 0;
        while j < upto
            invariant
                self.wf(),
                0 <= start <= j <= upto <= self.num_blocks(),
                start > 0 ==> self.spec_blocks()[start as int - 1].image,
                start == 0 || start <= j,
            decreases upto - j,
        {
            if self.blocks[j].image {
                start = j + 1;
            }
            j += 1;
        }
        let ghost fold_start: int = if start > 0 {
            start as int - 1
        } else {
            0
        };
        // fold the blocks from the image (or the beginning)
        let mut img: Vec<(Id, Event)> = Vec::new();
        let mut i: usize = if start > 0 {
            start - 1
        } else {
            0
        };
        proof {
            if start > 0 {
                // replaying from the image equals replaying from the start
                lemma_image_correct(self.spec_blocks(), fold_start, upto as int);
            }
            assert(models_map(
                img@,
                image_from(self.spec_blocks(), Map::empty(), fold_start, fold_start),
            )) by {
                assert(forall|id: Id|
                    !image_from(
                        self.spec_blocks(),
                        Map::empty(),
                        fold_start,
                        fold_start,
                    ).dom().contains(id));
            }
        }
        while i < upto
            invariant
                self.wf(),
                0 <= fold_start,
                fold_start <= i <= upto <= self.num_blocks(),
                models_map(
                    img@,
                    image_from(self.spec_blocks(), Map::empty(), fold_start, i as int),
                ),
            decreases upto - i,
        {
            let ghost before_map = image_from(
                self.spec_blocks(),
                Map::empty(),
                fold_start,
                i as int,
            );
            let b = &self.blocks[i];
            if b.image {
                img = Vec::new();
                proof {
                    assert(forall|id: Id| !Map::<Id, Option<VM>>::empty().dom().contains(id));
                }
            }
            let ghost mid_map: Map<Id, Option<VM>> = if b.image {
                Map::empty()
            } else {
                before_map
            };
            let mut k: usize = 0;
            while k < b.items.len()
                invariant
                    0 <= k <= b.items@.len(),
                    models_map(img@, apply_items(mid_map, items_of(b.items@).take(k as int))),
                decreases b.items@.len() - k,
            {
                let id = b.items[k].0;
                let ev = clone_event(&b.items[k].1);
                upsert(&mut img, id, ev);
                k += 1;
                proof {
                    lemma_apply_items_step(mid_map, items_of(b.items@), k as int);
                }
            }
            i += 1;
            proof {
                assert(items_of(b.items@).take(b.items@.len() as int) =~= items_of(
                    b.items@,
                ));
                assert(image_from(
                    self.spec_blocks(),
                    Map::empty(),
                    fold_start,
                    i as int,
                ) == apply_block(before_map, self.spec_blocks()[i - 1])) by {
                    let bs = self.spec_blocks();
                    lemma_image_split(bs, Map::empty(), fold_start, i as int - 1, i as int);
                    assert(image_from(bs, before_map, i as int - 1, i as int)
                        == image_from(
                        bs,
                        apply_block(before_map, bs[i as int - 1]),
                        i as int,
                        i as int,
                    ));
                    assert(image_from(
                        bs,
                        apply_block(before_map, bs[i as int - 1]),
                        i as int,
                        i as int,
                    ) == apply_block(before_map, bs[i as int - 1]));
                }
            }
        }
        proof {
            if start > 0 {
                assert(image_from(self.spec_blocks(), Map::empty(), 0, upto as int)
                    == image_from(
                    self.spec_blocks(),
                    Map::empty(),
                    fold_start,
                    upto as int,
                ));
            }
            let u = upto as int;
            assert(0 <= u <= self.num_blocks() && (forall|i2: int|
                0 <= i2 < u ==> #[trigger] block_ts(self.spec_blocks(), i2) <= read_pos(
                    *cursor,
                )) && (forall|i2: int|
                u <= i2 < self.num_blocks() ==> #[trigger] block_ts(self.spec_blocks(), i2)
                    > read_pos(*cursor)) && models_map(
                img@,
                image_from(self.spec_blocks(), Map::empty(), 0, u),
            ));
        }
        img
    }
}

/// The position whose image a cursor asks for: its current instant, or
/// before everything.
pub open spec fn read_pos(c: Cursor) -> int {
    match c.current {
        Option::Some(t) => t.key(),
        Option::None => -0x10000000000000000000000000000,
    }
}

/// The vector of pairs holds exactly the map: unique ids, each with
/// the map's event model.
pub open spec fn models_map(v: Seq<(Id, Event)>, m: Map<Id, Option<VM>>) -> bool {
    &&& forall|a: int, b: int| 0 <= a < b < v.len() ==> (#[trigger] v[a]).0 != (#[trigger] v[b]).0
    &&& forall|a: int|
        0 <= a < v.len() ==> m.dom().contains((#[trigger] v[a]).0) && m[v[a].0] == v[a].1@
    &&& forall|id: Id| m.dom().contains(id) ==> exists|a: int| 0 <= a < v.len() && (#[trigger] v[a]).0 == id
}

proof fn lemma_apply_items_step(m: Map<Id, Option<VM>>, items: Seq<(Id, Option<VM>)>, k: int)
    requires
        1 <= k <= items.len(),
    ensures
        apply_items(m, items.take(k)) == apply_items(m, items.take(k - 1)).insert(
            items[k - 1].0,
            items[k - 1].1,
        ),
    decreases k,
{
    if k == 1 {
        assert(items.take(1).drop_first() =~= Seq::<(Id, Option<VM>)>::empty());
        assert(items.take(0) =~= Seq::<(Id, Option<VM>)>::empty());
        assert(items.take(1)[0] == items[0]);
        assert(apply_items(m, items.take(1)) == apply_items(
            m.insert(items[0].0, items[0].1),
            Seq::<(Id, Option<VM>)>::empty(),
        ));
        assert(apply_items(m, items.take(0)) == m);
    } else {
        let m2 = m.insert(items[0].0, items[0].1);
        let tail = items.drop_first();
        assert(items.take(k)[0] == items[0]);
        assert(items.take(k - 1)[0] == items[0]);
        assert(items.take(k).len() == k && items.take(k - 1).len() == k - 1);
        assert(items.take(k).drop_first() =~= tail.take(k - 1));
        assert(items.take(k - 1).drop_first() =~= tail.take(k - 2));
        lemma_apply_items_step(m2, tail, k - 1);
        assert(tail[k - 2] == items[k - 1]);
        assert(apply_items(m, items.take(k)) == apply_items(m2, tail.take(k - 1)));
        assert(apply_items(m, items.take(k - 1)) == apply_items(m2, tail.take(k - 2)));
    }
}

/// Inserts or replaces the entry for `id`.
fn upsert(v: &mut Vec<(Id, Event)>, id: Id, ev: Event)
    ensures
        (forall|m: Map<Id, Option<VM>>|
            models_map(old(v)@, m) ==> models_map(final(v)@, #[trigger] m.insert(id, ev@))),
{
    let mut a: usize = 0;
    while a < v.len()
        invariant
            0 <= a <= v@.len(),
            forall|j: int| 0 <= j < a ==> (#[trigger] v@[j]).0 != id,
            v@ == old(v)@,
        decreases v@.len() - a,
    {
        if v[a].0 == id {
            let ghost prev = v@;
            v.set(a, (id, ev));
            proof {
                assert forall|m: Map<Id, Option<VM>>|
                    models_map(prev, m) implies models_map(
                    v@,
                    #[trigger] m.insert(id, ev@),
                ) by {
                    let m2 = m.insert(id, ev@);
                    assert(forall|x: int, y: int|
                        0 <= x < y < v@.len() ==> (#[trigger] v@[x]).0
                            != (#[trigger] v@[y]).0) by {
                        assert(forall|x: int|
                            0 <= x < v@.len() && x != a ==> (#[trigger] v@[x])
                                == prev[x]);
                    }
                    assert forall|id2: Id| m2.dom().contains(id2) implies exists|x: int|
                        0 <= x < v@.len() && (#[trigger] v@[x]).0 == id2 by {
                        if id2 == id {
                            assert(v@[a as int].0 == id2);
                        } else {
                            let w = choose|x: int|
                                0 <= x < prev.len() && (#[trigger] prev[x]).0 == id2;
                            assert(v@[w].0 == id2);
                        }
                    }
                }
            }
            return ;
        }
        a += 1;
    }
    let ghost prev = v@;
    v.push((id, ev));
    proof {
        assert forall|m: Map<Id, Option<VM>>|
            models_map(prev, m) implies models_map(v@, #[trigger] m.insert(id, ev@)) by {
            let m2 = m.insert(id, ev@);
            assert(forall|x: int|
                0 <= x < prev.len() ==> (#[trigger] v@[x]) == prev[x]);
            assert forall|id2: Id| m2.dom().contains(id2) implies exists|x: int|
                0 <= x < v@.len() && (#[trigger] v@[x]).0 == id2 by {
                if id2 == id {
                    assert(v@[v@.len() - 1].0 == id2);
                } else {
                    let w = choose|x: int|
                        0 <= x < prev.len() && (#[trigger] prev[x]).0 == id2;
                    assert(v@[w].0 == id2);
                }
            }
        }
    }
}

/// The instant a seek request carries, if any, is well formed.
pub open spec fn seek_wf(s: Seek) -> bool {
    match s {
        Seek::Absolute(t) => t.wf(),
        _ => true,
    }
}

/// A seek request on a cursor.
#[derive(Clone, Copy, Debug, PartialEq, Eq, Structural)]
pub enum Seek {
    /// Before the first batch of the window.
    Beginning,
    /// At the last batch of the window.
    End,
    /// At the given instant.
    Absolute(DT),
    /// Forward or back by whole batches.
    BatchRelative(i64),
    /// Forward or back by nanoseconds.
    TimeRelative(i64),
}

/// The in-window block timestamps from index `i` on, in log order.
pub open spec fn win_rec(blocks: Seq<Block>, c: Cursor, i: int) -> Seq<DT>
    decreases blocks.len() - i,
{
    if i < 0 || i >= blocks.len() {
        Seq::empty()
    } else {
        (if c.contains_spec(blocks[i].ts.key()) {
            seq![blocks[i].ts]
        } else {
            Seq::empty()
        }) + win_rec(blocks, c, i + 1)
    }
}

/// The replay window of an archive under a cursor's bounds.
pub open spec fn win(a: &Archive, c: Cursor) -> Seq<DT> {
    win_rec(a.spec_blocks(), c, 0)
}

/// The last index at or after `i` whose instant is at or before `key`.
pub open spec fn last_at_or_before(w: Seq<DT>, key: int, i: int) -> Option<int>
    decreases w.len() - i,
{
    if i < 0 || i >= w.len() {
        Option::None
    } else if w[i].key() <= key {
        match last_at_or_before(w, key, i + 1) {
            Option::Some(j) => Option::Some(j),
            Option::None => Option::Some(i),
        }
    } else {
        last_at_or_before(w, key, i + 1)
    }
}

/// The window index a batch-relative seek lands on: from the position
/// of the current instant (or the start), `n` batches forward or back,
/// clamped to the window.
pub open spec fn batch_target(w: Seq<DT>, c: Cursor, n: int) -> int {
    let base = match c.current {
        Option::Some(t) => last_at_or_before(w, t.key(), 0),
        Option::None => Option::None,
    };
    if n >= 0 {
        let unclamped = match base {
            Option::Some(b) => b + n,
            Option::None => if n == 0 {
                0
            } else {
                n - 1
            },
        };
        if unclamped > w.len() - 1 {
            w.len() - 1
        } else {
            unclamped
        }
    } else {
        let b = match base {
            Option::Some(b) => b,
            Option::None => 0,
        };
        if b + n > 0 {
            b + n
        } else {
            0
        }
    }
}

proof fn lemma_last_at_or_before(w: Seq<DT>, key: int, i: int)
    requires
        0 <= i <= w.len(),
    ensures
        (match last_at_or_before(w, key, i) {
            Option::Some(j) => i <= j < w.len() && w[j].key() <= key && forall|l: int|
                j < l < w.len() ==> (#[trigger] w[l]).key() > key,
            Option::None => forall|l: int|
                i <= l < w.len() ==> (#[trigger] w[l]).key() > key,
        }),
    decreases w.len() - i,
{
    if i < w.len() {
        lemma_last_at_or_before(w, key, i + 1);
    }
}

/// The instant is the timestamp of one of the first `i` blocks.
pub open spec fn from_prefix(a: &Archive, t: DT, i: int) -> bool {
    exists|j: int| 0 <= j < i && t.key() == block_ts(a.spec_blocks(), j)
}

impl Archive {
    /// The timestamps of the blocks within the cursor's window, in log
    /// order.
    fn window_ts(&self, cursor: &Cursor) -> (r: Vec<DT>)
        requires
            self.wf(),
            cursor.wf(),
        ensures
            r@ == win(self, *cursor),
            forall|k: int|
                0 <= k < r@.len() ==> (#[trigger] r@[k]).wf() && cursor.contains_spec(
                    r@[k].key(),
                ),
            forall|k: int, l: int|
                0 <= k <= l < r@.len() ==> (#[trigger] r@[k]).key() <= (#[trigger] r@[l]).key(),
    {
        let mut out: Vec<DT> = Vec::new();
        let mut i: usize = 0;
        proof {
            assert(win(self, *cursor) =~= out@ + win_rec(
                self.spec_blocks(),
                *cursor,
                0,
            ));
        }
        while i < self.blocks.len()
            invariant
                self.wf(),
                cursor.wf(),
                0 <= i <= self.num_blocks(),
                win(self, *cursor) == out@ + win_rec(self.spec_blocks(), *cursor, i as int),
                forall|k: int|
                    0 <= k < out@.len() ==> (#[trigger] out@[k]).wf()
                        && cursor.contains_spec(out@[k].key()),
                forall|k: int|
                    0 <= k < out@.len() ==> from_prefix(self, #[trigger] out@[k], i as int),
                forall|k: int, l: int|
                    0 <= k <= l < out@.len() ==> (#[trigger] out@[k]).key()
                        <= (#[trigger] out@[l]).key(),
            decreases self.num_blocks() - i,
        {
            proof {
                assert(self.spec_blocks()[i as int].ts.wf());
            }
            let ts = self.blocks[i].ts;
            let ghost out0 = out@;
            let ghost i0 = i as int;
            proof {
                if cursor.contains_spec(ts.key()) {
                    assert(win_rec(self.spec_blocks(), *cursor, i0) =~= seq![ts] + win_rec(
                        self.spec_blocks(),
                        *cursor,
                        i0 + 1,
                    ));
                } else {
                    assert(win_rec(self.spec_blocks(), *cursor, i0) =~= win_rec(
                        self.spec_blocks(),
                        *cursor,
                        i0 + 1,
                    ));
                }
            }
            if cursor.contains(&ts) {
                proof {
                    if out@.len() > 0 {
                        let last = out@.len() - 1;
                        assert(from_prefix(self, out@[last], i as int));
                        let wj = choose|j: int|
                            0 <= j < i && out@[last].key() == block_ts(
                                self.spec_blocks(),
                                j,
                            );
                        assert(block_ts(self.spec_blocks(), wj) <= block_ts(
                            self.spec_blocks(),
                            i as int,
                        ));
                    }
                }
                out.push(ts);
                proof {
                    assert(win(self, *cursor) =~= out@ + win_rec(
                        self.spec_blocks(),
                        *cursor,
                        i0 + 1,
                    ));
                }
            }
            i += 1;
            proof {
                assert forall|k: int| 0 <= k < out@.len() implies from_prefix(
                    self,
                    #[trigger] out@[k],
                    i as int,
                ) by {
                    if k < out0.len() {
                        assert(out@[k] == out0[k]);
                        assert(from_prefix(self, out0[k], i0));
                        let wj = choose|j: int|
                            0 <= j < i0 && out0[k].key() == block_ts(
                                self.spec_blocks(),
                                j,
                            );
                        assert(0 <= wj < i as int && out@[k].key() == block_ts(
                            self.spec_blocks(),
                            wj,
                        ));
                    } else {
                        assert(out@[k].key() == block_ts(self.spec_blocks(), i0));
                    }
                }
            }
        }
        proof {
            assert(win(self, *cursor) =~= out@);
        }
        out
    }

    /// Repositions the cursor. `Beginning` clears the position so the
    /// next read starts at the window's start; `End` stands at the last
    /// batch of the window; `Absolute` at the given instant clamped to
    /// the window; the relative forms move from the current position.
    pub fn seek(&self, cursor: &mut Cursor, to: Seek)
        requires
            self.wf(),
            old(cursor).wf(),
            seek_wf(to),
        ensures
            final(cursor).wf(),
            final(cursor).start == old(cursor).start,
            final(cursor).end == old(cursor).end,
            (match to {
                Seek::Beginning => final(cursor).current is None,
                Seek::End => final(cursor).current == (if win(self, *old(cursor)).len()
                    > 0 {
                    Option::Some(win(self, *old(cursor)).last())
                } else {
                    Option::None
                }),
                Seek::Absolute(t) => final(cursor).current == (if old(
                    cursor,
                ).contains_spec(t.key()) {
                    Option::Some(t)
                } else if win(self, *old(cursor)).len() == 0 {
                    Option::None
                } else if win(self, *old(cursor))[0].key() >= t.key() {
                    Option::Some(win(self, *old(cursor))[0])
                } else {
                    Option::Some(win(self, *old(cursor)).last())
                }),
                Seek::BatchRelative(n) => {
                    let w = win(self, *old(cursor));
                    &&& (w.len() == 0 ==> final(cursor).current is None)
                    &&& (w.len() > 0 && n != i64::MIN ==> final(cursor).current
                        == Option::Some(w[batch_target(w, *old(cursor), n as int)]))
                    &&& (w.len() > 0 && n == i64::MIN ==> final(cursor).current
                        == Option::Some(w[0]))
                },
                Seek::TimeRelative(dn) => {
                    // pinned for shifts within one second of a known position
                    (match old(cursor).current {
                        Option::Some(t) => (-1_000_000_000 < dn < 1_000_000_000 && 0
                            <= t.nanos + dn < 1_000_000_000 && old(cursor).contains_spec(
                            t.key() + dn,
                        )) ==> (final(cursor).current matches Option::Some(m) && m.key()
                            == t.key() + dn),
                        Option::None => true,
                    })
                },
            }),
    {
        match to {
            Seek::Beginning => {
                cursor.current = Option::None;
            },
            Seek::End => {
                let w = self.window_ts(cursor);
                if w.len() > 0 {
                    cursor.current = Option::Some(w[w.len() - 1]);
                } else {
                    cursor.current = Option::None;
                }
            },
            Seek::Absolute(t) => {
                if cursor.contains(&t) {
                    cursor.current = Option::Some(t);
                } else {
                    let w = self.window_ts(cursor);
                    if w.len() == 0 {
                        cursor.current = Option::None;
                    } else {
                        let lo = w[0];
                        let hi = w[w.len() - 1];
                        if dt_ge(&lo, &t) {
                            cursor.current = Option::Some(lo);
                        } else {
                            cursor.current = Option::Some(hi);
                        }
                    }
                }
            },
            Seek::BatchRelative(n) => {
                let w = self.window_ts(cursor);
                if w.len() == 0 {
                    cursor.current = Option::None;
                } else {
                    // the position of the current instant in the window
                    let wl = w.len();
                    let mut at: usize = 0;
                    let mut found = false;
                    match cursor.current {
                        Option::Some(t) => {
                            let mut j: usize = 0;
                            while j < wl
                                invariant
                                    wl == w@.len(),
                                    0 <= j <= wl,
                                    forall|k: int|
                                        0 <= k < w@.len() ==> (#[trigger] w@[k]).wf(),
                                    t.wf(),
                                    found ==> at < j && w@[at as int].key() <= t.key()
                                        && forall|l: int|
                                        at < l < j ==> (#[trigger] w@[l]).key() > t.key(),
                                    !found ==> forall|l: int|
                                        0 <= l < j ==> (#[trigger] w@[l]).key() > t.key(),
                                decreases wl - j,
                            {
                                if dt_ge(&t, &w[j]) {
                                    at = j;
                                    found = true;
                                }
                                j += 1;
                            }
                            proof {
                                lemma_last_at_or_before(w@, t.key(), 0);
                                match last_at_or_before(w@, t.key(), 0) {
                                    Option::Some(jj) => {
                                        assert(found) by {
                                            if !found {
                                                assert(w@[jj].key() > t.key());
                                            }
                                        }
                                        assert(jj == at as int) by {
                                            if jj > at as int {
                                                assert(w@[jj].key() > t.key());
                                            } else if jj < at as int {
                                                assert(w@[at as int].key() > t.key());
                                            }
                                        }
                                    },
                                    Option::None => {
                                        assert(!found) by {
                                            if found {
                                                assert(w@[at as int].key() > t.key());
                                            }
                                        }
                                    },
                                }
                            }
                        },
                        Option::None => {},
                    }
                    let target: usize = if n >= 0 {
                        let step = if (n as u64) > (usize::MAX as u64) {
                            usize::MAX
                        } else {
                            n as usize
                        };
                        let base = if found {
                            at
                        } else {
                            0
                        };
                        let unclamped = if base > usize::MAX - step {
                            usize::MAX
                        } else if found {
                            base + step
                        } else if step == 0 {
                            0
                        } else {
                            step - 1
                        };
                        if unclamped > w.len() - 1 {
                            w.len() - 1
                        } else {
                            unclamped
                        }
                    } else {
                        let back = if n == i64::MIN {
                            usize::MAX
                        } else {
                            let m = -n;
                            if (m as u64) > (usize::MAX as u64) {
                                usize::MAX
                            } else {
                                m as usize
                            }
                        };
                        let base = if found {
                            at
                        } else {
                            0
                        };
                        if base > back {
                            base - back
                        } else {
                            0
                        }
                    };
                    proof {
                        let ghost c0 = *cursor;
                        if n != i64::MIN {
                            assert(target as int == batch_target(w@, c0, n as int));
                        } else {
                            assert(target == 0);
                        }
                    }
                    cursor.current = Option::Some(w[target]);
                }
            },
            Seek::TimeRelative(dn) => {
                let cur = match cursor.current {
                    Option::Some(t) => t,
                    Option::None => {
                        let w = self.window_ts(cursor);
                        if w.len() > 0 {
                            w[0]
                        } else {
                            DT { secs: 0, nanos: 0 }
                        }
                    },
                };
                let moved = dt_shift(&cur, dn);
                if cursor.contains(&moved) {
                    cursor.current = Option::Some(moved);
                } else {
                    let w = self.window_ts(cursor);
                    if w.len() == 0 {
                        cursor.current = Option::None;
                    } else if dt_ge(&w[0], &moved) {
                        cursor.current = Option::Some(w[0]);
                    } else {
                        cursor.current = Option::Some(w[w.len() - 1]);
                    }
                }
            },
        }
    }
}

/// The instant shifted by a signed count of nanoseconds, saturating at
/// the ends of the representable range.
pub fn dt_shift(t: &DT, dn: i64) -> (r: DT)
    requires
        t.wf(),
    ensures
        r.wf(),
        -1_000_000_000 < dn < 1_000_000_000 && 0 <= t.nanos + dn < 1_000_000_000
            ==> r.key() == t.key() + dn,
        dn >= 0 ==> r.key() >= t.key(),
        dn >= 0 && t.key() + dn > (i64::MAX as int) * 1_000_000_000 + 999_999_999 ==> r
            == (DT { secs: i64::MAX, nanos: 999_999_999 }),
        dn < 0 && dn != i64::MIN && t.key() + dn < (i64::MIN as int) * 1_000_000_000 ==> r
            == (DT { secs: i64::MIN, nanos: 0 }),
{
    if dn >= 0 {
        let whole = dn / 1_000_000_000;
        let frac = (dn % 1_000_000_000) as u32;
        let nsum = t.nanos + frac;
        let (carry, nanos) = if nsum >= NANOS_PER_SEC {
            (1i64, nsum - NANOS_PER_SEC)
        } else {
            (0i64, nsum)
        };
        match t.secs.checked_add(whole) {
            Option::Some(s) => match s.checked_add(carry) {
                Option::Some(secs) => DT { secs, nanos },
                Option::None => DT { secs: i64::MAX, nanos: 999_999_999 },
            },
            Option::None => DT { secs: i64::MAX, nanos: 999_999_999 },
        }
    } else {
        let m: i64 = if dn == i64::MIN {
            i64::MAX
        } else {
            -dn
        };
        let whole = m / 1_000_000_000;
        let frac = (m % 1_000_000_000) as u32;
        let (borrow, nanos) = if t.nanos >= frac {
            (0i64, t.nanos - frac)
        } else {
            (1i64, t.nanos + NANOS_PER_SEC - frac)
        };
        match t.secs.checked_sub(whole) {
            Option::Some(s) => match s.checked_sub(borrow) {
                Option::Some(secs) => DT { secs, nanos },
                Option::None => DT { secs: i64::MIN, nanos: 0 },
            },
            Option::None => DT { secs: i64::MIN, nanos: 0 },
        }
    }
}

impl MonotonicTimestamper {
    /// The next timestamp from the wall clock: reads the clock and
    /// applies the never-regress rule.
    pub fn timestamp_now(&mut self) -> (r: DT)
        requires
            old(self).wf(),
            old(self).spec_last().key() < i64::MAX as int * 1_000_000_000,
        ensures
            final(self).wf(),
            final(self).spec_last() == r,
            r.wf(),
            r.key() >= old(self).spec_last().key(),
    {
        let now = crate::time::dt_now();
        self.timestamp(now)
    }
}

} // verus!
