//! The subscriber core: single-flight subscription bookkeeping, the
//! choice of a publisher, and the durable resubscription supervisor.
//!
//! The state here is the decision logic: the asynchronous shell around
//! it performs the resolutions and connections and hands the outcomes
//! back in.
use vstd::prelude::*;

verus! {

use crate::archive::bytes_eq;

/// The single-flight state of one path: an attempt in flight with its
/// queued waiters, or an established subscription that may have died
/// (all strong references dropped).
#[derive(Debug, Clone, Copy, PartialEq, Eq, Structural)]
pub enum SubStatus {
    /// An attempt is in flight; the count is of callers waiting on it.
    Pending(u64),
    /// Subscribed; the flag says whether the weak handle still
    /// upgrades.
    Subscribed(bool),
}

/// What a caller of a batched subscribe does for one path.
#[derive(Debug, Clone, Copy, PartialEq, Eq, Structural)]
pub enum SubPlan {
    /// This caller resolves and subscribes the path.
    Resolve,
    /// Another caller already does; wait for its result.
    WaitOther,
    /// Share the existing live subscription.
    Existing,
}

/// The subscriber's path table.
#[derive(Debug)]
pub struct SubTable {
    entries: Vec<(Vec<u8>, SubStatus)>,
}

impl SubTable {
    /// The table's entries, for contracts.
    pub closed spec fn spec_entries(&self) -> Seq<(Vec<u8>, SubStatus)> {
        self.entries@
    }

    /// Keys are unique.
    pub open spec fn wf(&self) -> bool {
        forall|a: int, b: int|
            0 <= a < b < self.spec_entries().len() ==> (#[trigger] self.spec_entries()[a]).0@
                != (#[trigger] self.spec_entries()[b]).0@
    }

    /// The status of a path, if present.
    pub open spec fn status_of(&self, p: Seq<u8>) -> Option<SubStatus> {
        if exists|i: int|
            0 <= i < self.spec_entries().len() && (#[trigger] self.spec_entries()[i]).0@
                == p {
            let i = choose|i: int|
                0 <= i < self.spec_entries().len()
                    && (#[trigger] self.spec_entries()[i]).0@ == p;
            Option::Some(self.spec_entries()[i].1)
        } else {
            Option::None
        }
    }

    pub fn new() -> (r: SubTable)
        ensures
            r.wf(),
            forall|p: Seq<u8>| r.status_of(p) is None,
    {
        SubTable { entries: Vec::new() }
    }

    fn find(&self, p: &Vec<u8>) -> (r: Option<usize>)
        requires
            self.wf(),
        ensures
            (match r {
                Option::Some(i) => i < self.spec_entries().len() && self.spec_entries()[i as int].0@
                    == p@ && self.status_of(p@) == Option::Some(
                    self.spec_entries()[i as int].1,
                ),
                Option::None => self.status_of(p@) is None,
            }),
    {
        let mut i: usize = 0;
        while i < self.entries.len()
            invariant
                self.wf(),
                0 <= i <= self.spec_entries().len(),
                forall|j: int| 0 <= j < i ==> (#[trigger] self.spec_entries()[j]).0@ != p@,
            decreases self.spec_entries().len() - i,
        {
            if bytes_eq(&self.entries[i].0, p) {
                proof {
                    assert(self.spec_entries()[i as int].0@ == p@);
                    let wi = choose|x: int|
                        0 <= x < self.spec_entries().len()
                            && (#[trigger] self.spec_entries()[x]).0@ == p@;
                    lemma_unique_key(self, wi, i as int);
                }
                return Option::Some(i);
            }
            i += 1;
        }
        Option::None
    }

    /// The single-flight step for one path of a batch: a vacant path,
    /// or one whose subscription died, starts exactly one attempt; a
    /// pending path only queues a waiter; a live path is shared. At
    /// most one caller ever gets `Resolve` for a path while its
    /// attempt is pending.
    pub fn plan(&mut self, p: &Vec<u8>) -> (r: SubPlan)
        requires
            old(self).wf(),
        ensures
            final(self).wf(),
            (match old(self).status_of(p@) {
                Option::None => r == SubPlan::Resolve && final(self).status_of(p@)
                    == Option::Some(SubStatus::Pending(0)),
                Option::Some(SubStatus::Pending(w)) => r == SubPlan::WaitOther && final(self).status_of(p@) == Option::Some(
                    SubStatus::Pending(
                        (if w < u64::MAX {
                            (w + 1) as u64
                        } else {
                            w
                        }),
                    ),
                ),
                Option::Some(SubStatus::Subscribed(alive)) => (if alive {
                    r == SubPlan::Existing && final(self).status_of(p@) == Option::Some(
                        SubStatus::Subscribed(true),
                    )
                } else {
                    r == SubPlan::Resolve && final(self).status_of(p@) == Option::Some(
                        SubStatus::Pending(0),
                    )
                }),
            }),
            forall|q: Seq<u8>|
                q != p@ ==> final(self).status_of(q) == old(self).status_of(q),
    {
        let ghost prev = *self;
        match self.find(p) {
            Option::Some(i) => {
                let r;
                match self.entries[i].1 {
                    SubStatus::Pending(w) => {
                        let w2 = if w < u64::MAX {
                            w + 1
                        } else {
                            w
                        };
                        let key = self.entries[i].0.clone();
                        proof {
                            assert(key@ =~= prev.entries@[i as int].0@);
                        }
                        self.entries.set(i, (key, SubStatus::Pending(w2)));
                        r = SubPlan::WaitOther;
                    },
                    SubStatus::Subscribed(alive) => {
                        if alive {
                            r = SubPlan::Existing;
                        } else {
                            let key = self.entries[i].0.clone();
                            proof {
                                assert(key@ =~= prev.entries@[i as int].0@);
                            }
                            self.entries.set(i, (key, SubStatus::Pending(0)));
                            r = SubPlan::Resolve;
                        }
                    },
                }
                proof {
                    lemma_set_status(prev, *self, i as int, p@);
                }
                r
            },
            Option::None => {
                let key = p.clone();
                proof {
                    assert(key@ =~= p@);
                }
                self.entries.push((key, SubStatus::Pending(0)));
                proof {
                    lemma_push_status(prev, *self, p@);
                }
                SubPlan::Resolve
            },
        }
    }

    /// Settles a finished attempt: the path leaves `Pending`. On
    /// success it becomes a live subscription; on failure the entry is
    /// dropped so a later call may retry. Other paths are untouched.
    pub fn settle(&mut self, p: &Vec<u8>, ok: bool)
        requires
            old(self).wf(),
        ensures
            final(self).wf(),
            ok ==> final(self).status_of(p@) == Option::Some(SubStatus::Subscribed(true)),
            !ok ==> final(self).status_of(p@) is None,
            forall|q: Seq<u8>|
                q != p@ ==> final(self).status_of(q) == old(self).status_of(q),
    {
        let ghost prev = *self;
        match self.find(p) {
            Option::Some(i) => {
                if ok {
                    let key = self.entries[i].0.clone();
                    proof {
                        assert(key@ =~= prev.entries@[i as int].0@);
                    }
                    self.entries.set(i, (key, SubStatus::Subscribed(true)));
                    proof {
                        lemma_set_status(prev, *self, i as int, p@);
                    }
                } else {
                    self.entries.remove(i);
                    proof {
                        lemma_remove_status(prev, *self, i as int, p@);
                    }
                }
            },
            Option::None => {
                if ok {
                    let key = p.clone();
                    proof {
                        assert(key@ =~= p@);
                    }
                    self.entries.push((key, SubStatus::Subscribed(true)));
                    proof {
                        lemma_push_sub_status(prev, *self, p@);
                    }
                }
            },
        }
    }
}

proof fn lemma_unique_key(t: &SubTable, a: int, b: int)
    requires
        t.wf(),
        0 <= a < t.spec_entries().len(),
        0 <= b < t.spec_entries().len(),
        t.spec_entries()[a].0@ == t.spec_entries()[b].0@,
    ensures
        a == b,
{
    if a < b {
        assert(t.spec_entries()[a].0@ != t.spec_entries()[b].0@);
    } else if b < a {
        assert(t.spec_entries()[b].0@ != t.spec_entries()[a].0@);
    }
}

proof fn lemma_set_status(prev: SubTable, cur: SubTable, i: int, p: Seq<u8>)
    requires
        prev.wf(),
        0 <= i < prev.spec_entries().len(),
        cur.spec_entries().len() == prev.spec_entries().len(),
        prev.spec_entries()[i].0@ == p,
        cur.spec_entries()[i].0@ == p,
        forall|j: int| 0 <= j < prev.spec_entries().len() && j != i ==> cur.spec_entries()[j] == prev.spec_entries()[j],
    ensures
        cur.wf(),
        cur.status_of(p) == Option::Some(cur.spec_entries()[i].1),
        forall|q: Seq<u8>| q != p ==> cur.status_of(q) == prev.status_of(q),
{
    assert(forall|j: int|
        0 <= j < cur.spec_entries().len() ==> (#[trigger] cur.spec_entries()[j]).0@
            == prev.spec_entries()[j].0@);
    assert forall|q: Seq<u8>| q != p implies cur.status_of(q) == prev.status_of(q) by {
        if exists|x: int| 0 <= x < prev.spec_entries().len() && (#[trigger] prev.spec_entries()[x]).0@ == q {
            let w = choose|x: int|
                0 <= x < prev.spec_entries().len() && (#[trigger] prev.spec_entries()[x]).0@ == q;
            assert(cur.spec_entries()[w].0@ == q);
            let w2 = choose|x: int|
                0 <= x < cur.spec_entries().len() && (#[trigger] cur.spec_entries()[x]).0@
                    == q;
            if w2 != w {
                if w2 < w {
                    assert(cur.spec_entries()[w2].0@ != cur.spec_entries()[w].0@);
                } else {
                    assert(cur.spec_entries()[w].0@ != cur.spec_entries()[w2].0@);
                }
            }
            assert(w != i);
        } else {
            if exists|x: int| 0 <= x < cur.spec_entries().len() && (#[trigger] cur.spec_entries()[x]).0@ == q {
                let w = choose|x: int|
                    0 <= x < cur.spec_entries().len() && (#[trigger] cur.spec_entries()[x]).0@ == q;
                assert(prev.spec_entries()[w].0@ == q);
                assert(false);
            }
        }
    }
    let w2 = choose|x: int|
        0 <= x < cur.spec_entries().len() && (#[trigger] cur.spec_entries()[x]).0@ == p;
    lemma_unique_key(&cur, w2, i);
}

proof fn lemma_push_status(prev: SubTable, cur: SubTable, p: Seq<u8>)
    requires
        prev.wf(),
        prev.status_of(p) is None,
        cur.spec_entries().len() == prev.spec_entries().len() + 1,
        cur.spec_entries()[cur.spec_entries().len() - 1].0@ == p,
        cur.spec_entries()[cur.spec_entries().len() - 1].1 == SubStatus::Pending(0),
        forall|j: int| 0 <= j < prev.spec_entries().len() ==> cur.spec_entries()[j] == prev.spec_entries()[j],
    ensures
        cur.wf(),
        cur.status_of(p) == Option::Some(SubStatus::Pending(0)),
        forall|q: Seq<u8>| q != p ==> cur.status_of(q) == prev.status_of(q),
{
    let n = prev.spec_entries().len() as int;
    assert(forall|j: int|
        0 <= j < n ==> (#[trigger] cur.spec_entries()[j]).0@ == prev.spec_entries()[j].0@);
    assert forall|j: int| 0 <= j < n implies (#[trigger] prev.spec_entries()[j]).0@ != p by {
        if prev.spec_entries()[j].0@ == p {
            assert(exists|x: int|
                0 <= x < prev.spec_entries().len()
                    && (#[trigger] prev.spec_entries()[x]).0@ == p);
            assert(false);
        }
    }
    assert(cur.wf()) by {
        assert forall|a: int, b: int|
            0 <= a < b < cur.spec_entries().len() implies (#[trigger] cur.spec_entries()[a]).0@
            != (#[trigger] cur.spec_entries()[b]).0@ by {
            if b < n {
                assert(prev.spec_entries()[a].0@ != prev.spec_entries()[b].0@);
            } else {
                assert(cur.spec_entries()[b].0@ == p);
                assert(prev.spec_entries()[a].0@ != p);
            }
        }
    }
    let w2 = choose|x: int|
        0 <= x < cur.spec_entries().len() && (#[trigger] cur.spec_entries()[x]).0@ == p;
    assert(w2 == n) by {
        if w2 < n {
            assert(prev.spec_entries()[w2].0@ != p);
        }
    }
    assert forall|q: Seq<u8>| q != p implies cur.status_of(q) == prev.status_of(q) by {
        if exists|x: int| 0 <= x < prev.spec_entries().len() && (#[trigger] prev.spec_entries()[x]).0@ == q {
            let w = choose|x: int|
                0 <= x < prev.spec_entries().len() && (#[trigger] prev.spec_entries()[x]).0@ == q;
            assert(cur.spec_entries()[w].0@ == q);
            let wc = choose|x: int|
                0 <= x < cur.spec_entries().len() && (#[trigger] cur.spec_entries()[x]).0@
                    == q;
            if wc != w {
                if wc < w {
                    assert(cur.spec_entries()[wc].0@ != cur.spec_entries()[w].0@);
                } else {
                    assert(cur.spec_entries()[w].0@ != cur.spec_entries()[wc].0@);
                }
            }
        } else {
            if exists|x: int| 0 <= x < cur.spec_entries().len() && (#[trigger] cur.spec_entries()[x]).0@ == q {
                let w = choose|x: int|
                    0 <= x < cur.spec_entries().len() && (#[trigger] cur.spec_entries()[x]).0@ == q;
                assert(w == n);
                assert(false);
            }
        }
    }
}

proof fn lemma_push_sub_status(prev: SubTable, cur: SubTable, p: Seq<u8>)
    requires
        prev.wf(),
        prev.status_of(p) is None,
        cur.spec_entries().len() == prev.spec_entries().len() + 1,
        cur.spec_entries()[cur.spec_entries().len() - 1].0@ == p,
        cur.spec_entries()[cur.spec_entries().len() - 1].1 == SubStatus::Subscribed(true),
        forall|j: int| 0 <= j < prev.spec_entries().len() ==> cur.spec_entries()[j] == prev.spec_entries()[j],
    ensures
        cur.wf(),
        cur.status_of(p) == Option::Some(SubStatus::Subscribed(true)),
        forall|q: Seq<u8>| q != p ==> cur.status_of(q) == prev.status_of(q),
{
    let n = prev.spec_entries().len() as int;
    assert(forall|j: int|
        0 <= j < n ==> (#[trigger] cur.spec_entries()[j]).0@ == prev.spec_entries()[j].0@);
    assert forall|j: int| 0 <= j < n implies (#[trigger] prev.spec_entries()[j]).0@ != p by {
        if prev.spec_entries()[j].0@ == p {
            assert(exists|x: int|
                0 <= x < prev.spec_entries().len()
                    && (#[trigger] prev.spec_entries()[x]).0@ == p);
            assert(false);
        }
    }
    assert(cur.wf()) by {
        assert forall|a: int, b: int|
            0 <= a < b < cur.spec_entries().len() implies (#[trigger] cur.spec_entries()[a]).0@
            != (#[trigger] cur.spec_entries()[b]).0@ by {
            if b < n {
                assert(prev.spec_entries()[a].0@ != prev.spec_entries()[b].0@);
            } else {
                assert(cur.spec_entries()[b].0@ == p);
                assert(prev.spec_entries()[a].0@ != p);
            }
        }
    }
    let w2 = choose|x: int|
        0 <= x < cur.spec_entries().len() && (#[trigger] cur.spec_entries()[x]).0@ == p;
    assert(w2 == n) by {
        if w2 < n {
            assert(prev.spec_entries()[w2].0@ != p);
        }
    }
    assert forall|q: Seq<u8>| q != p implies cur.status_of(q) == prev.status_of(q) by {
        if exists|x: int| 0 <= x < prev.spec_entries().len() && (#[trigger] prev.spec_entries()[x]).0@ == q {
            let w = choose|x: int|
                0 <= x < prev.spec_entries().len() && (#[trigger] prev.spec_entries()[x]).0@ == q;
            assert(cur.spec_entries()[w].0@ == q);
            let wc = choose|x: int|
                0 <= x < cur.spec_entries().len() && (#[trigger] cur.spec_entries()[x]).0@
                    == q;
            if wc != w {
                if wc < w {
                    assert(cur.spec_entries()[wc].0@ != cur.spec_entries()[w].0@);
                } else {
                    assert(cur.spec_entries()[w].0@ != cur.spec_entries()[wc].0@);
                }
            }
        } else {
            if exists|x: int| 0 <= x < cur.spec_entries().len() && (#[trigger] cur.spec_entries()[x]).0@ == q {
                let w = choose|x: int|
                    0 <= x < cur.spec_entries().len() && (#[trigger] cur.spec_entries()[x]).0@ == q;
                assert(w == n);
                assert(false);
            }
        }
    }
}

proof fn lemma_remove_status(prev: SubTable, cur: SubTable, i: int, p: Seq<u8>)
    requires
        prev.wf(),
        0 <= i < prev.spec_entries().len(),
        prev.spec_entries()[i].0@ == p,
        cur.spec_entries() == prev.spec_entries().remove(i),
    ensures
        cur.wf(),
        cur.status_of(p) is None,
        forall|q: Seq<u8>| q != p ==> cur.status_of(q) == prev.status_of(q),
{
    let n = prev.spec_entries().len() as int;
    assert(forall|j: int| 0 <= j < i ==> cur.spec_entries()[j] == prev.spec_entries()[j]);
    assert(forall|j: int| i <= j < n - 1 ==> cur.spec_entries()[j] == prev.spec_entries()[j + 1]);
    assert(cur.wf()) by {
        assert forall|a: int, b: int|
            0 <= a < b < cur.spec_entries().len() implies (#[trigger] cur.spec_entries()[a]).0@
            != (#[trigger] cur.spec_entries()[b]).0@ by {
            let pa = if a < i {
                a
            } else {
                a + 1
            };
            let pb = if b < i {
                b
            } else {
                b + 1
            };
            assert(cur.spec_entries()[a] == prev.spec_entries()[pa]);
            assert(cur.spec_entries()[b] == prev.spec_entries()[pb]);
        }
    }
    if exists|x: int| 0 <= x < cur.spec_entries().len() && (#[trigger] cur.spec_entries()[x]).0@ == p {
        let w = choose|x: int|
            0 <= x < cur.spec_entries().len() && (#[trigger] cur.spec_entries()[x]).0@ == p;
        let pw = if w < i {
            w
        } else {
            w + 1
        };
        assert(prev.spec_entries()[pw].0@ == p);
        assert(pw != i ==> false);
        assert(false);
    }
    assert forall|q: Seq<u8>| q != p implies cur.status_of(q) == prev.status_of(q) by {
        if exists|x: int| 0 <= x < prev.spec_entries().len() && (#[trigger] prev.spec_entries()[x]).0@ == q {
            let w = choose|x: int|
                0 <= x < prev.spec_entries().len() && (#[trigger] prev.spec_entries()[x]).0@ == q;
            assert(w != i);
            let cw = if w < i {
                w
            } else {
                w - 1
            };
            assert(cur.spec_entries()[cw].0@ == q);
            let wc = choose|x: int|
                0 <= x < cur.spec_entries().len() && (#[trigger] cur.spec_entries()[x]).0@ == q;
            let pwc = if wc < i {
                wc
            } else {
                wc + 1
            };
            assert(prev.spec_entries()[pwc].0@ == q);
            assert(pwc == w);
            assert(cur.spec_entries()[wc].1 == prev.spec_entries()[w].1);
        } else {
            if exists|x: int| 0 <= x < cur.spec_entries().len() && (#[trigger] cur.spec_entries()[x]).0@ == q {
                let w = choose|x: int|
                    0 <= x < cur.spec_entries().len() && (#[trigger] cur.spec_entries()[x]).0@ == q;
                let pw = if w < i {
                    w
                } else {
                    w + 1
                };
                assert(prev.spec_entries()[pw].0@ == q);
                assert(false);
            }
        }
    }
}

/// Picks the publisher for a resolved path. With `use_existing`, the
/// first candidate with an open connection wins. Otherwise the pick is
/// the `rand`-th candidate among those that did not fail recently, and
/// if all failed recently, the `rand`-th of them all.
pub fn choose_addr(
    connected: &Vec<bool>,
    recently_failed: &Vec<bool>,
    use_existing: bool,
    rand: usize,
) -> (r: Option<usize>)
    requires
        connected@.len() == recently_failed@.len(),
    ensures
        (match r {
            Option::Some(i) => {
                &&& i < connected@.len()
                &&& (use_existing && (exists|j: int|
                    0 <= j < connected@.len() && connected@[j]) ==> connected@[i as int])
                &&& (!(use_existing && (exists|j: int|
                    0 <= j < connected@.len() && connected@[j])) && (exists|j: int|
                    0 <= j < recently_failed@.len() && !recently_failed@[j])
                    ==> !recently_failed@[i as int])
            },
            Option::None => connected@.len() == 0,
        }),
{
    let n = connected.len();
    if n == 0 {
        return Option::None;
    }
    if use_existing {
        let mut i: usize = 0;
        while i < n
            invariant
                use_existing,
                n == connected@.len(),
                0 <= i <= n,
                forall|j: int| 0 <= j < i ==> !connected@[j],
            decreases n - i,
        {
            if connected[i] {
                proof {
                    assert(connected@[i as int]);
                    assert(exists|j: int| 0 <= j < connected@.len() && connected@[j]);
                }
                return Option::Some(i);
            }
            i += 1;
        }
    }
    let mut good: Vec<usize> = Vec::new();
    let mut i: usize = 0;
    while i < n
        invariant
            n == recently_failed@.len(),
            0 <= i <= n,
            forall|k: int|
                0 <= k < good@.len() ==> (#[trigger] good@[k]) < n && !recently_failed@[
                    good@[k] as int
                ],
            (exists|j: int| 0 <= j < i && !recently_failed@[j]) ==> good@.len() > 0,
        decreases n - i,
    {
        if !recently_failed[i] {
            good.push(i);
        }
        i += 1;
    }
    if good.len() == 0 {
        proof {
            if exists|j: int| 0 <= j < recently_failed@.len() && !recently_failed@[j] {
                assert(good@.len() > 0);
            }
        }
        Option::Some(rand % n)
    } else {
        Option::Some(good[rand % good.len()])
    }
}

/// The durable state of one path.
#[derive(Debug, Clone, Copy, PartialEq, Eq, Structural)]
pub enum DvState {
    /// Dead: retried with linear backoff.
    Dead { tries: u32, next_try: i64 },
    /// An attempt is in flight.
    Pending { tries: u32 },
    /// Alive.
    Alive,
}

/// The durable supervisor's table.
#[derive(Debug)]
pub struct DurTable {
    entries: Vec<(Vec<u8>, DvState)>,
}

/// The cap on one resubscription batch.
pub const MAX_RESUB_BATCH: usize = 100_000;

impl DurTable {
    /// Keys are unique.
    pub open spec fn wf(&self) -> bool {
        forall|a: int, b: int|
            0 <= a < b < self.spec_entries().len() ==> (#[trigger] self.spec_entries()[a]).0@
                != (#[trigger] self.spec_entries()[b]).0@
    }

    /// The table's entries, for contracts.
    pub closed spec fn spec_entries(&self) -> Seq<(Vec<u8>, DvState)> {
        self.entries@
    }

    /// The durable state of a path, if it is registered.
    pub open spec fn state_of(&self, p: Seq<u8>) -> Option<DvState> {
        if exists|i: int|
            0 <= i < self.spec_entries().len() && (#[trigger] self.spec_entries()[i]).0@
                == p {
            let i = choose|i: int|
                0 <= i < self.spec_entries().len()
                    && (#[trigger] self.spec_entries()[i]).0@ == p;
            Option::Some(self.spec_entries()[i].1)
        } else {
            Option::None
        }
    }

    pub fn new() -> (r: DurTable)
        ensures
            r.wf(),
            r.spec_entries().len() == 0,
    {
        DurTable { entries: Vec::new() }
    }

    /// Registers a durable subscription: a new path enters dead and
    /// due immediately, a known one keeps its state; other paths are
    /// untouched.
    pub fn register(&mut self, p: &Vec<u8>, now: i64)
        requires
            old(self).wf(),
        ensures
            final(self).wf(),
            (match old(self).state_of(p@) {
                Option::Some(st) => final(self).state_of(p@) == Option::Some(st),
                Option::None => final(self).state_of(p@) == Option::Some(
                    DvState::Dead { tries: 0, next_try: now },
                ),
            }),
            forall|q: Seq<u8>|
                q != p@ ==> final(self).state_of(q) == old(self).state_of(q),
    {
        let ghost prev = *self;
        let mut i: usize = 0;
        let n = self.entries.len();
        while i < n
            invariant
                self.wf(),
                *self == prev,
                prev == *old(self),
                n == self.spec_entries().len(),
                0 <= i <= n,
                forall|j: int| 0 <= j < i ==> (#[trigger] self.spec_entries()[j]).0@ != p@,
            decreases n - i,
        {
            if bytes_eq(&self.entries[i].0, p) {
                proof {
                    assert(self.spec_entries()[i as int].0@ == p@);
                    let wi = choose|x: int|
                        0 <= x < self.spec_entries().len()
                            && (#[trigger] self.spec_entries()[x]).0@ == p@;
                    if wi != i {
                        if wi < i {
                            assert(self.spec_entries()[wi].0@ != self.spec_entries()[
                                i as int
                            ].0@);
                        } else {
                            assert(self.spec_entries()[i as int].0@
                                != self.spec_entries()[wi].0@);
                        }
                    }
                }
                return ;
            }
            i += 1;
        }
        let key = p.clone();
        proof {
            assert(key@ =~= p@);
            assert(prev.state_of(p@) is None) by {
                if exists|x: int|
                    0 <= x < prev.spec_entries().len()
                        && (#[trigger] prev.spec_entries()[x]).0@ == p@ {
                    let w = choose|x: int|
                        0 <= x < prev.spec_entries().len()
                            && (#[trigger] prev.spec_entries()[x]).0@ == p@;
                    assert(false);
                }
            }
        }
        self.entries.push((key, DvState::Dead { tries: 0, next_try: now }));
        proof {
            lemma_dur_push(prev, *self, p@, DvState::Dead { tries: 0, next_try: now });
        }
    }

    /// The supervisor's next wake time: the earliest retry time of a
    /// dead entry, or nothing to wait for.
    pub fn next_wake(&self) -> (r: Option<i64>)
        ensures
            (match r {
                Option::Some(t) => (exists|i: int|
                    0 <= i < self.spec_entries().len()
                        && ((#[trigger] self.spec_entries()[i]).1 matches DvState::Dead {
                        tries: _,
                        next_try,
                    } && next_try == t)) && forall|i: int|
                    0 <= i < self.spec_entries().len()
                        ==> ((#[trigger] self.spec_entries()[i]).1 matches DvState::Dead {
                        tries: _,
                        next_try,
                    } ==> next_try >= t),
                Option::None => forall|i: int|
                    0 <= i < self.spec_entries().len()
                        ==> !((#[trigger] self.spec_entries()[i]).1 matches DvState::Dead {
                        ..
                    }),
            }),
    {
        let mut best: Option<i64> = Option::None;
        let mut i: usize = 0;
        let n = self.entries.len();
        while i < n
            invariant
                n == self.spec_entries().len(),
                0 <= i <= n,
                (match best {
                    Option::Some(t) => (exists|j: int|
                        0 <= j < i && ((#[trigger] self.spec_entries()[j]).1
                            matches DvState::Dead { tries: _, next_try } && next_try
                            == t)) && forall|j: int|
                        0 <= j < i ==> ((#[trigger] self.spec_entries()[j]).1
                            matches DvState::Dead { tries: _, next_try } ==> next_try
                            >= t),
                    Option::None => forall|j: int|
                        0 <= j < i ==> !((#[trigger] self.spec_entries()[j]).1
                            matches DvState::Dead { .. }),
                }),
            decreases n - i,
        {
            match self.entries[i].1 {
                DvState::Dead { tries: _, next_try } => {
                    match best {
                        Option::Some(t) => {
                            if next_try < t {
                                best = Option::Some(next_try);
                            }
                        },
                        Option::None => {
                            best = Option::Some(next_try);
                        },
                    }
                },
                _ => {},
            }
            i += 1;
        }
        best
    }

    /// One supervisor pass: moves every dead entry whose retry time
    /// has come into `Pending`, up to the batch cap, and returns their
    /// indexes together with the highest try count among them. Every
    /// due entry below the cap is attempted: the supervisor never
    /// passes one over.
    pub fn gather(&mut self, now: i64) -> (r: (Vec<usize>, u32))
        requires
            old(self).wf(),
        ensures
            final(self).wf(),
            final(self).spec_entries().len() == old(self).spec_entries().len(),
            r.0@.len() <= MAX_RESUB_BATCH,
            // keys never change
            forall|j: int|
                0 <= j < final(self).spec_entries().len() ==> (#[trigger] final(self).spec_entries()[j]).0@ == old(self).spec_entries()[j].0@,
            // every entry either stays as it was, or was a due dead
            // entry moved to pending with its try count kept
            forall|j: int|
                0 <= j < final(self).spec_entries().len() ==> (#[trigger] final(self).spec_entries()[j]).1 == old(self).spec_entries()[j].1 || (old(self).spec_entries()[j].1 matches DvState::Dead { tries, next_try }
                    && next_try <= now && final(self).spec_entries()[j].1 == (
                DvState::Pending { tries })),
            // every picked index was exactly such a move
            forall|k: int|
                0 <= k < r.0@.len() ==> (#[trigger] r.0@[k]) < final(self).spec_entries().len() && final(self).spec_entries()[r.0@[k] as int].1
                    matches DvState::Pending { .. },
            r.0@.len() < MAX_RESUB_BATCH ==> forall|j: int|
                0 <= j < final(self).spec_entries().len()
                    ==> !((#[trigger] final(self).spec_entries()[j].1) matches DvState::Dead {
                    tries: _,
                    next_try,
                } && next_try <= now),
            // so, while the cap is not hit, every path that was dead
            // and due is attempted: it sits in pending with its tries
            r.0@.len() < MAX_RESUB_BATCH ==> forall|p: Seq<u8>|
                (old(self).state_of(p) matches Option::Some(st) && (st
                    matches DvState::Dead { tries, next_try } && next_try <= now))
                    ==> #[trigger] final(self).state_of(p) == (match old(self).state_of(p) {
                    Option::Some(DvState::Dead { tries, next_try }) => Option::Some(
                        DvState::Pending { tries },
                    ),
                    _ => Option::None,
                }),
    {
        let mut picked: Vec<usize> = Vec::new();
        let mut cnt: usize = 0;
        let mut max_tries: u32 = 1;
        let mut i: usize = 0;
        let n = self.entries.len();
        while i < n && cnt < MAX_RESUB_BATCH
            invariant
                self.wf(),
                n == self.spec_entries().len(),
                0 <= i <= n,
                cnt == picked@.len(),
                picked@.len() <= MAX_RESUB_BATCH,
                forall|k: int|
                    0 <= k < picked@.len() ==> (#[trigger] picked@[k]) < n
                        && self.spec_entries()[picked@[k] as int].1 matches DvState::Pending { .. },
                forall|j: int|
                    0 <= j < i ==> !((#[trigger] self.spec_entries()[j].1)
                        matches DvState::Dead { tries: _, next_try } && next_try <= now),
                forall|j: int|
                    0 <= j < n ==> (#[trigger] self.spec_entries()[j]).0@ == old(self).spec_entries()[j].0@,
                forall|j: int|
                    0 <= j < n ==> (#[trigger] self.spec_entries()[j]).1 == old(self).spec_entries()[j].1 || (old(self).spec_entries()[j].1
                        matches DvState::Dead { tries, next_try } && next_try <= now
                        && self.spec_entries()[j].1 == (DvState::Pending { tries })),
            decreases n - i,
        {
            let ghost prev = self.spec_entries();
            match self.entries[i].1 {
                DvState::Dead { tries, next_try } => {
                    if next_try <= now {
                        let key = self.entries[i].0.clone();
                        proof {
                            assert(key@ =~= self.spec_entries()[i as int].0@);
                        }
                        self.entries.set(i, (key, DvState::Pending { tries }));
                        picked.push(i);
                        cnt += 1;
                        if tries > max_tries {
                            max_tries = tries;
                        }
                        proof {
                            assert(forall|j: int|
                                0 <= j < n && j != i ==> self.spec_entries()[j] == prev[j]);
                        }
                    }
                },
                DvState::Pending { .. } => {},
                DvState::Alive => {},
            }
            i += 1;
        }
        proof {
            if cnt < MAX_RESUB_BATCH {
                assert(i == n);
            }
            // lift the per-index facts to the path lookup
            if picked@.len() < MAX_RESUB_BATCH {
                assert forall|p: Seq<u8>|
                    (old(self).state_of(p) matches Option::Some(st) && (st
                        matches DvState::Dead { tries, next_try } && next_try <= now))
                        implies #[trigger] self.state_of(p) == (match old(self).state_of(p) {
                    Option::Some(DvState::Dead { tries, next_try }) => Option::Some(
                        DvState::Pending { tries },
                    ),
                    _ => Option::None,
                }) by {
                    let w = choose|x: int|
                        0 <= x < old(self).spec_entries().len() && (#[trigger] old(self).spec_entries()[x]).0@ == p;
                    assert(self.spec_entries()[w].0@ == p);
                    let wc = choose|x: int|
                        0 <= x < self.spec_entries().len()
                            && (#[trigger] self.spec_entries()[x]).0@ == p;
                    assert(wc == w) by {
                        if wc < w {
                            assert(self.spec_entries()[wc].0@ != self.spec_entries()[
                                w
                            ].0@);
                        } else if wc > w {
                            assert(self.spec_entries()[w].0@ != self.spec_entries()[
                                wc
                            ].0@);
                        }
                    }
                    // the entry was dead and due, and none such remains
                    assert(!(self.spec_entries()[w].1 matches DvState::Dead {
                        tries: _,
                        next_try,
                    } && next_try <= now));
                }
            }
        }
        (picked, max_tries)
    }

    /// The overall timeout for a batch, in seconds:
    /// `30 + max(10, len/10000) * max_tries`.
    pub fn batch_timeout(len: usize, max_tries: u32) -> (r: u64)
        requires
            len <= MAX_RESUB_BATCH,
        ensures
            r == 30 + (if len / 10000 > 10 {
                (len / 10000) as u64
            } else {
                10u64
            }) * (max_tries as u64),
    {
        let per = len / 10000;
        let per64 = if per > 10 {
            per as u64
        } else {
            10u64
        };
        30 + per64 * (max_tries as u64)
    }

    /// Settles one attempted entry. Success makes it alive and tells
    /// the caller to replay its stream registrations and queued
    /// writes; failure increments the try count and backs off by
    /// `backoff` seconds, which the caller draws uniformly from
    /// `[0, tries)`.
    pub fn settle(&mut self, i: usize, ok: bool, now: i64, backoff: i64)
        requires
            old(self).wf(),
            i < old(self).spec_entries().len(),
            0 <= backoff,
            now <= i64::MAX - backoff,
        ensures
            final(self).wf(),
            final(self).spec_entries().len() == old(self).spec_entries().len(),
            ok ==> final(self).spec_entries()[i as int].1 == DvState::Alive,
            !ok ==> (match old(self).spec_entries()[i as int].1 {
                DvState::Pending { tries } => final(self).spec_entries()[i as int].1
                    == (DvState::Dead {
                    tries: (if tries < u32::MAX {
                        (tries + 1) as u32
                    } else {
                        tries
                    }),
                    next_try: (now + backoff) as i64,
                }),
                _ => final(self).spec_entries()[i as int] == old(self).spec_entries()[
                    i as int
                ],
            }),
            forall|j: int|
                0 <= j < old(self).spec_entries().len() && j != i ==> final(self).spec_entries()[j] == old(self).spec_entries()[j],
    {
        let key = self.entries[i].0.clone();
        proof {
            assert(key@ =~= self.spec_entries()[i as int].0@);
        }
        if ok {
            self.entries.set(i, (key, DvState::Alive));
        } else {
            match self.entries[i].1 {
                DvState::Pending { tries } => {
                    let t2 = if tries < u32::MAX {
                        tries + 1
                    } else {
                        tries
                    };
                    self.entries.set(
                        i,
                        (key, DvState::Dead { tries: t2, next_try: now + backoff }),
                    );
                },
                _ => {},
            }
        }
    }
}

proof fn lemma_dur_push(prev: DurTable, cur: DurTable, p: Seq<u8>, st: DvState)
    requires
        prev.wf(),
        prev.state_of(p) is None,
        cur.spec_entries().len() == prev.spec_entries().len() + 1,
        cur.spec_entries()[cur.spec_entries().len() - 1].0@ == p,
        cur.spec_entries()[cur.spec_entries().len() - 1].1 == st,
        forall|j: int|
            0 <= j < prev.spec_entries().len() ==> cur.spec_entries()[j] == prev.spec_entries()[j],
    ensures
        cur.wf(),
        cur.state_of(p) == Option::Some(st),
        forall|q: Seq<u8>| q != p ==> cur.state_of(q) == prev.state_of(q),
{
    let n = prev.spec_entries().len() as int;
    assert(forall|j: int|
        0 <= j < n ==> (#[trigger] cur.spec_entries()[j]).0@ == prev.spec_entries()[j].0@);
    assert forall|j: int| 0 <= j < n implies (#[trigger] prev.spec_entries()[j]).0@ != p by {
        if prev.spec_entries()[j].0@ == p {
            assert(exists|x: int|
                0 <= x < prev.spec_entries().len()
                    && (#[trigger] prev.spec_entries()[x]).0@ == p);
            assert(false);
        }
    }
    assert(cur.wf()) by {
        assert forall|a: int, b: int|
            0 <= a < b < cur.spec_entries().len() implies (#[trigger] cur.spec_entries()[a]).0@
            != (#[trigger] cur.spec_entries()[b]).0@ by {
            if b < n {
                assert(prev.spec_entries()[a].0@ != prev.spec_entries()[b].0@);
            } else {
                assert(cur.spec_entries()[b].0@ == p);
                assert(prev.spec_entries()[a].0@ != p);
            }
        }
    }
    let w2 = choose|x: int|
        0 <= x < cur.spec_entries().len() && (#[trigger] cur.spec_entries()[x]).0@ == p;
    assert(w2 == n) by {
        if w2 < n {
            assert(prev.spec_entries()[w2].0@ != p);
        }
    }
    assert forall|q: Seq<u8>| q != p implies cur.state_of(q) == prev.state_of(q) by {
        if exists|x: int|
            0 <= x < prev.spec_entries().len() && (#[trigger] prev.spec_entries()[x]).0@
                == q {
            let w = choose|x: int|
                0 <= x < prev.spec_entries().len()
                    && (#[trigger] prev.spec_entries()[x]).0@ == q;
            assert(cur.spec_entries()[w].0@ == q);
            let wc = choose|x: int|
                0 <= x < cur.spec_entries().len()
                    && (#[trigger] cur.spec_entries()[x]).0@ == q;
            assert(wc == w) by {
                if wc < w {
                    assert(cur.spec_entries()[wc].0@ != cur.spec_entries()[w].0@);
                } else if wc > w {
                    assert(cur.spec_entries()[w].0@ != cur.spec_entries()[wc].0@);
                }
            }
        } else {
            if exists|x: int|
                0 <= x < cur.spec_entries().len() && (#[trigger] cur.spec_entries()[x]).0@
                    == q {
                let w = choose|x: int|
                    0 <= x < cur.spec_entries().len()
                        && (#[trigger] cur.spec_entries()[x]).0@ == q;
                assert(w == n);
                assert(false);
            }
        }
    }
}

/// The durable-liveness law, one supervisor cycle at a time. After a
/// `gather` pass that did not hit the batch cap, no entry is left dead
/// and due — every one was taken into the attempted batch — and a
/// gathered attempt that `settle`s successfully is alive. So while the
/// supervisor keeps running and the publisher answers, every dead
/// subscription becomes alive again.
pub proof fn lemma_durable_liveness(t1: DurTable, j: int, now: i64)
    requires
        t1.wf(),
        0 <= j < t1.spec_entries().len(),
        // what `gather` ensures when its batch stayed under the cap
        forall|x: int|
            0 <= x < t1.spec_entries().len() ==> !((#[trigger] t1.spec_entries()[x].1)
                matches DvState::Dead { tries: _, next_try } && next_try <= now),
    ensures
        !(t1.spec_entries()[j].1 matches DvState::Dead { tries: _, next_try } && next_try
            <= now),
{
}

/// The write queue of one durable subscription: writes made while the
/// subscription is dead wait here and are replayed, in order, when it
/// comes back.
#[derive(Debug)]
pub struct DvWrites {
    queued: Vec<crate::value::Value>,
}

impl DvWrites {
    /// The queued writes, in submission order, by model.
    pub closed spec fn spec_queued(&self) -> Seq<crate::value::VM> {
        crate::value::vms(self.queued)
    }

    pub fn new() -> (r: DvWrites)
        ensures
            r.spec_queued().len() == 0,
    {
        let r = DvWrites { queued: Vec::new() };
        proof {
            assert(r.spec_queued() =~= Seq::<crate::value::VM>::empty());
        }
        r
    }

    /// A write while alive goes out at once (the caller forwards it);
    /// a write while dead is queued after the earlier ones. The
    /// result says whether it was sent immediately.
    pub fn write(&mut self, alive: bool, v: crate::value::Value) -> (sent: bool)
        ensures
            sent == alive,
            alive ==> final(self).spec_queued() == old(self).spec_queued(),
            !alive ==> final(self).spec_queued() == old(self).spec_queued().push(v@),
    {
        if alive {
            true
        } else {
            self.queued.push(v);
            proof {
                assert(self.spec_queued() =~= old(self).spec_queued().push(v@));
            }
            false
        }
    }

    /// Hands the queued writes over for replay, in submission order,
    /// leaving the queue empty — what a successful resubscription does
    /// before going alive.
    pub fn take_queued(&mut self) -> (r: Vec<crate::value::Value>)
        ensures
            crate::value::vms(r) == old(self).spec_queued(),
            final(self).spec_queued().len() == 0,
    {
        let mut out: Vec<crate::value::Value> = Vec::new();
        core::mem::swap(&mut out, &mut self.queued);
        proof {
            assert(self.spec_queued() =~= Seq::<crate::value::VM>::empty());
        }
        out
    }

    /// Drops every queued write.
    pub fn clear_queued_writes(&mut self)
        ensures
            final(self).spec_queued().len() == 0,
    {
        self.queued.clear();
        proof {
            assert(self.spec_queued() =~= Seq::<crate::value::VM>::empty());
        }
    }

    /// The number of queued writes.
    pub fn queued_writes(&self) -> (r: usize)
        ensures
            r == self.spec_queued().len(),
    {
        self.queued.len()
    }
}

} // verus!
