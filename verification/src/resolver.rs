//! The resolver routing layer: a cached prefix tree of referrals with
//! TTLs, and the batching of requests into per-destination buckets.
//!
//! A request routes to the *longest* cached ancestor of its path; if
//! that ancestor's entry has expired the request falls back to the
//! default cluster (and the expired entry is dropped lazily by `gc`).
use vstd::prelude::*;

verus! {

use crate::archive::bytes_eq;
use crate::path::{is_parent_spec, Path};

/// The referral-routing limit: deeper chains, and wider caches, are
/// refused.
pub const MAX_REFERRALS: usize = 128;

/// One cached referral: the subtree it covers, when it expires, and
/// the target cluster it names.
#[derive(Debug)]
pub struct Cached {
    pub base: Path,
    pub expires: i64,
    pub target: u64,
}

/// The router: the cached referrals, one entry per base.
#[derive(Debug)]
pub struct Router {
    cached: Vec<Cached>,
}

/// Entry `i` covers an ancestor of `p`.
pub open spec fn covers(cached: Seq<Cached>, i: int, p: Seq<u8>) -> bool {
    0 <= i < cached.len() && is_parent_spec(cached[i].base@, p)
}

/// Where a request with path `p` goes at instant `now`: the target of
/// the longest cached ancestor when that entry is unexpired, the
/// default cluster (`None`) when there is no ancestor or the longest
/// one has expired.
pub open spec fn routed(cached: Seq<Cached>, p: Seq<u8>, now: i64, r: Option<u64>) -> bool {
    match r {
        Option::Some(t) => exists|i: int|
            {
                &&& covers(cached, i, p)
                &&& (#[trigger] cached[i]).target == t
                &&& cached[i].expires > now
                &&& forall|j: int|
                    covers(cached, j, p) ==> (#[trigger] cached[j]).base@.len()
                        <= cached[i].base@.len()
            },
        Option::None => forall|i: int|
            covers(cached, i, p) ==> ((#[trigger] cached[i]).expires <= now || exists|j: int|
                covers(cached, j, p) && (#[trigger] cached[j]).base@.len()
                    > cached[i].base@.len()),
    }
}

impl Router {
    /// The cached entries, for contracts.
    pub closed spec fn spec_cached(&self) -> Seq<Cached> {
        self.cached@
    }

    /// One entry per base.
    pub open spec fn wf(&self) -> bool {
        forall|a: int, b: int|
            0 <= a < b < self.spec_cached().len() ==> (#[trigger] self.spec_cached()[a]).base@
                != (#[trigger] self.spec_cached()[b]).base@
    }

    /// The cached entry for a base, if any.
    pub open spec fn entry_of(&self, base: Seq<u8>) -> Option<(i64, u64)> {
        if exists|i: int|
            0 <= i < self.spec_cached().len() && (#[trigger] self.spec_cached()[i]).base@
                == base {
            let i = choose|i: int|
                0 <= i < self.spec_cached().len()
                    && (#[trigger] self.spec_cached()[i]).base@ == base;
            Option::Some((self.spec_cached()[i].expires, self.spec_cached()[i].target))
        } else {
            Option::None
        }
    }

    pub fn new() -> (r: Router)
        ensures
            r.wf(),
            r.spec_cached().len() == 0,
    {
        Router { cached: Vec::new() }
    }

    fn find(&self, base: &Path) -> (r: Option<usize>)
        requires
            self.wf(),
        ensures
            (match r {
                Option::Some(i) => i < self.spec_cached().len()
                    && self.spec_cached()[i as int].base@ == base@ && self.entry_of(base@)
                    == Option::Some(
                    (
                        self.spec_cached()[i as int].expires,
                        self.spec_cached()[i as int].target,
                    ),
                ),
                Option::None => self.entry_of(base@) is None,
            }),
    {
        let mut i: usize = 0;
        let n = self.cached.len();
        while i < n
            invariant
                self.wf(),
                n == self.spec_cached().len(),
                0 <= i <= n,
                forall|j: int|
                    0 <= j < i ==> (#[trigger] self.spec_cached()[j]).base@ != base@,
            decreases n - i,
        {
            if bytes_eq(self.cached[i].base.bytes(), base.bytes()) {
                proof {
                    let wi = choose|x: int|
                        0 <= x < self.spec_cached().len()
                            && (#[trigger] self.spec_cached()[x]).base@ == base@;
                    if wi != i {
                        if wi < i {
                            assert(self.spec_cached()[wi].base@ != self.spec_cached()[
                                i as int
                            ].base@);
                        } else {
                            assert(self.spec_cached()[i as int].base@
                                != self.spec_cached()[wi].base@);
                        }
                    }
                }
                return Option::Some(i);
            }
            i += 1;
        }
        Option::None
    }

    /// Caches a referral: the entry for this base now carries exactly
    /// the given expiry and target, other bases are untouched.
    pub fn add_referral(&mut self, base: Path, expires: i64, target: u64)
        requires
            old(self).wf(),
        ensures
            final(self).wf(),
            final(self).entry_of(base@) == Option::Some((expires, target)),
            forall|q: Seq<u8>|
                q != base@ ==> final(self).entry_of(q) == old(self).entry_of(q),
    {
        let ghost prev = *self;
        let ghost bb = base@;
        match self.find(&base) {
            Option::Some(i) => {
                self.cached.set(i, Cached { base, expires, target });
                proof {
                    lemma_router_set(prev, *self, i as int, bb);
                }
            },
            Option::None => {
                self.cached.push(Cached { base, expires, target });
                proof {
                    lemma_router_push(prev, *self, bb);
                }
            },
        }
    }

    /// Whether the cache has grown past the referral limit and should
    /// be fully evicted.
    pub fn over_limit(&self) -> (r: bool)
        ensures
            r == (self.spec_cached().len() > MAX_REFERRALS),
    {
        self.cached.len() > MAX_REFERRALS
    }

    /// Clears the cache.
    pub fn clear(&mut self)
        ensures
            final(self).wf(),
            final(self).spec_cached().len() == 0,
    {
        self.cached.clear();
    }

    /// Routes one request path at the given instant; see [`routed`].
    pub fn route(&self, p: &Path, now: i64) -> (r: Option<u64>)
        requires
            self.wf(),
        ensures
            routed(self.spec_cached(), p@, now, r),
    {
        // the longest cached ancestor, expired or not
        let mut best: Option<usize> = Option::None;
        let mut i: usize = 0;
        let n = self.cached.len();
        while i < n
            invariant
                self.wf(),
                n == self.spec_cached().len(),
                0 <= i <= n,
                (match best {
                    Option::Some(b) => {
                        &&& covers(self.spec_cached(), b as int, p@)
                        &&& forall|j: int|
                            0 <= j < i && covers(self.spec_cached(), j, p@)
                                ==> (#[trigger] self.spec_cached()[j]).base@.len()
                                <= self.spec_cached()[b as int].base@.len()
                    },
                    Option::None => forall|j: int|
                        0 <= j < i ==> !covers(self.spec_cached(), j, p@),
                }),
            decreases n - i,
        {
            if self.cached[i].base.is_parent(p) {
                match best {
                    Option::Some(b) => {
                        if self.cached[i].base.len() > self.cached[b].base.len() {
                            best = Option::Some(i);
                        }
                    },
                    Option::None => {
                        best = Option::Some(i);
                    },
                }
            }
            i += 1;
        }
        match best {
            Option::Some(b) => {
                if self.cached[b].expires > now {
                    Option::Some(self.cached[b].target)
                } else {
                    proof {
                        assert forall|j: int|
                            covers(self.spec_cached(), j, p@) implies ((
                        #[trigger] self.spec_cached()[j]).expires <= now || exists|k: int|
                            covers(self.spec_cached(), k, p@)
                                && (#[trigger] self.spec_cached()[k]).base@.len()
                                > self.spec_cached()[j].base@.len()) by {
                            if self.spec_cached()[j].expires > now {
                                // j is shorter than the (expired) longest
                                assert(self.spec_cached()[j].base@.len()
                                    <= self.spec_cached()[b as int].base@.len());
                                if self.spec_cached()[j].base@.len()
                                    == self.spec_cached()[b as int].base@.len() {
                                    // equal-length ancestors of one path coincide
                                    assert(self.spec_cached()[j].base@
                                        =~= self.spec_cached()[b as int].base@) by {
                                        let lj = self.spec_cached()[j].base@.len() as int;
                                        assert(forall|x: int|
                                            0 <= x < lj
                                                ==> self.spec_cached()[j].base@[x] == p@[x]
                                                && self.spec_cached()[b as int].base@[x]
                                                == p@[x]);
                                    }
                                    assert(j == b as int || self.spec_cached()[j].base@
                                        != self.spec_cached()[b as int].base@) by {
                                        if j < b as int {
                                            assert(self.spec_cached()[j].base@
                                                != self.spec_cached()[b as int].base@);
                                        } else if j > b as int {
                                            assert(self.spec_cached()[b as int].base@
                                                != self.spec_cached()[j].base@);
                                        }
                                    }
                                    assert(false);
                                } else {
                                    assert(covers(self.spec_cached(), b as int, p@)
                                        && self.spec_cached()[b as int].base@.len()
                                        > self.spec_cached()[j].base@.len());
                                }
                            }
                        }
                    }
                    Option::None
                }
            },
            Option::None => Option::None,
        }
    }

    /// Drops every expired entry and keeps every unexpired one: the
    /// lookup afterwards is the old lookup restricted to unexpired
    /// entries.
    pub fn gc(&mut self, now: i64)
        requires
            old(self).wf(),
        ensures
            final(self).wf(),
            forall|q: Seq<u8>|
                final(self).entry_of(q) == (match old(self).entry_of(q) {
                    Option::Some((e, t)) => if e > now {
                        Option::Some((e, t))
                    } else {
                        Option::None::<(i64, u64)>
                    },
                    Option::None => Option::None::<(i64, u64)>,
                }),
    {
        let ghost prev = *self;
        let mut kept: Vec<Cached> = Vec::new();
        let n = self.cached.len();
        let mut i: usize = 0;
        while i < n
            invariant
                prev.wf(),
                n == prev.spec_cached().len(),
                *self == prev,
                0 <= i <= n,
                forall|k: int|
                    0 <= k < kept@.len() ==> (#[trigger] kept@[k]).expires > now,
                forall|k: int|
                    0 <= k < kept@.len() ==> from_first(prev, i as int, #[trigger] kept@[k]),
                forall|j: int|
                    0 <= j < i && (#[trigger] prev.spec_cached()[j]).expires > now
                        ==> kept_has(kept@, prev.spec_cached()[j]),
                forall|a: int, b: int|
                    0 <= a < b < kept@.len() ==> (#[trigger] kept@[a]).base@
                        != (#[trigger] kept@[b]).base@,
            decreases n - i,
        {
            let ghost kept0 = kept@;
            if self.cached[i].expires > now {
                let c = &self.cached[i];
                kept.push(Cached { base: c.base.clone(), expires: c.expires, target: c.target });
                proof {
                    assert(entry_eq(kept@[kept@.len() - 1], prev.spec_cached()[i as int]));
                    assert(from_first(prev, i as int + 1, kept@[kept@.len() - 1]));
                    assert forall|a: int, b: int|
                        0 <= a < b < kept@.len() implies (#[trigger] kept@[a]).base@
                        != (#[trigger] kept@[b]).base@ by {
                        if b == kept@.len() - 1 {
                            assert(from_first(prev, i as int, kept0[a]));
                            let wj = choose|j: int|
                                0 <= j < i as int && entry_eq(
                                    kept0[a],
                                    #[trigger] prev.spec_cached()[j],
                                );
                            assert(prev.spec_cached()[wj].base@ != prev.spec_cached()[
                                i as int
                            ].base@);
                        }
                    }
                    assert(kept_has(kept@, prev.spec_cached()[i as int]));
                }
            }
            i += 1;
            proof {
                assert forall|k: int| 0 <= k < kept@.len() implies from_first(
                    prev,
                    i as int,
                    #[trigger] kept@[k],
                ) by {
                    if k < kept0.len() {
                        assert(kept@[k] == kept0[k]);
                        lemma_from_first_widen(prev, i as int - 1, i as int, kept0[k]);
                    }
                }
                assert forall|j: int|
                    0 <= j < i && (#[trigger] prev.spec_cached()[j]).expires > now implies
                    kept_has(kept@, prev.spec_cached()[j]) by {
                    if j < i - 1 {
                        lemma_kept_has_grow(kept0, kept@, prev.spec_cached()[j]);
                    }
                }
            }
        }
        proof {
            assert(i == n);
        }
        self.cached = kept;
        proof {
            assert(self.spec_cached() == kept@);
            lemma_gc_lookup(prev, *self, now);
        }
    }
}

/// The entry matches one of the first `m` cached entries of `prev`.
pub open spec fn from_first(prev: Router, m: int, c: Cached) -> bool {
    exists|j: int| 0 <= j < m && entry_eq(c, #[trigger] prev.spec_cached()[j])
}

proof fn lemma_from_first_widen(prev: Router, m1: int, m2: int, c: Cached)
    requires
        m1 <= m2,
        from_first(prev, m1, c),
    ensures
        from_first(prev, m2, c),
{
    let j = choose|j: int| 0 <= j < m1 && entry_eq(c, #[trigger] prev.spec_cached()[j]);
    assert(0 <= j < m2 && entry_eq(c, prev.spec_cached()[j]));
}

/// Some element of `kept` matches the entry.
pub open spec fn kept_has(kept: Seq<Cached>, c: Cached) -> bool {
    exists|k: int| 0 <= k < kept.len() && entry_eq(#[trigger] kept[k], c)
}

proof fn lemma_kept_has_grow(kept0: Seq<Cached>, kept1: Seq<Cached>, c: Cached)
    requires
        kept_has(kept0, c),
        kept0.len() <= kept1.len(),
        forall|k: int| 0 <= k < kept0.len() ==> kept1[k] == kept0[k],
    ensures
        kept_has(kept1, c),
{
    let k = choose|k: int| 0 <= k < kept0.len() && entry_eq(#[trigger] kept0[k], c);
    assert(0 <= k < kept1.len() && entry_eq(kept1[k], c));
}

/// The entries carry the same base, expiry and target.
pub open spec fn entry_eq(a: Cached, b: Cached) -> bool {
    a.base@ == b.base@ && a.expires == b.expires && a.target == b.target
}

proof fn lemma_router_set(prev: Router, cur: Router, i: int, base: Seq<u8>)
    requires
        prev.wf(),
        0 <= i < prev.spec_cached().len(),
        cur.spec_cached().len() == prev.spec_cached().len(),
        prev.spec_cached()[i].base@ == base,
        cur.spec_cached()[i].base@ == base,
        forall|j: int|
            0 <= j < prev.spec_cached().len() && j != i ==> cur.spec_cached()[j]
                == prev.spec_cached()[j],
    ensures
        cur.wf(),
        cur.entry_of(base) == Option::Some(
            (cur.spec_cached()[i].expires, cur.spec_cached()[i].target),
        ),
        forall|q: Seq<u8>| q != base ==> cur.entry_of(q) == prev.entry_of(q),
{
    assert(forall|j: int|
        0 <= j < cur.spec_cached().len() ==> (#[trigger] cur.spec_cached()[j]).base@
            == prev.spec_cached()[j].base@);
    let wi = choose|x: int|
        0 <= x < cur.spec_cached().len() && (#[trigger] cur.spec_cached()[x]).base@ == base;
    assert(wi == i) by {
        if wi < i {
            assert(cur.spec_cached()[wi].base@ != cur.spec_cached()[i].base@);
        } else if wi > i {
            assert(cur.spec_cached()[i].base@ != cur.spec_cached()[wi].base@);
        }
    }
    assert forall|q: Seq<u8>| q != base implies cur.entry_of(q) == prev.entry_of(q) by {
        if exists|x: int|
            0 <= x < prev.spec_cached().len() && (#[trigger] prev.spec_cached()[x]).base@
                == q {
            let w = choose|x: int|
                0 <= x < prev.spec_cached().len()
                    && (#[trigger] prev.spec_cached()[x]).base@ == q;
            assert(w != i);
            assert(cur.spec_cached()[w].base@ == q);
            let w2 = choose|x: int|
                0 <= x < cur.spec_cached().len()
                    && (#[trigger] cur.spec_cached()[x]).base@ == q;
            assert(w2 == w) by {
                if w2 < w {
                    assert(cur.spec_cached()[w2].base@ != cur.spec_cached()[w].base@);
                } else if w2 > w {
                    assert(cur.spec_cached()[w].base@ != cur.spec_cached()[w2].base@);
                }
            }
        } else {
            if exists|x: int|
                0 <= x < cur.spec_cached().len() && (#[trigger] cur.spec_cached()[x]).base@
                    == q {
                let w = choose|x: int|
                    0 <= x < cur.spec_cached().len()
                        && (#[trigger] cur.spec_cached()[x]).base@ == q;
                assert(prev.spec_cached()[w].base@ == q);
                assert(false);
            }
        }
    }
}

proof fn lemma_router_push(prev: Router, cur: Router, base: Seq<u8>)
    requires
        prev.wf(),
        prev.entry_of(base) is None,
        cur.spec_cached().len() == prev.spec_cached().len() + 1,
        cur.spec_cached()[cur.spec_cached().len() - 1].base@ == base,
        forall|j: int|
            0 <= j < prev.spec_cached().len() ==> cur.spec_cached()[j] == prev.spec_cached()[j],
    ensures
        cur.wf(),
        cur.entry_of(base) == Option::Some(
            (
                cur.spec_cached()[cur.spec_cached().len() - 1].expires,
                cur.spec_cached()[cur.spec_cached().len() - 1].target,
            ),
        ),
        forall|q: Seq<u8>| q != base ==> cur.entry_of(q) == prev.entry_of(q),
{
    let n = prev.spec_cached().len() as int;
    assert(forall|j: int|
        0 <= j < n ==> (#[trigger] cur.spec_cached()[j]).base@ == prev.spec_cached()[
            j
        ].base@);
    assert forall|j: int| 0 <= j < n implies (#[trigger] prev.spec_cached()[j]).base@
        != base by {
        if prev.spec_cached()[j].base@ == base {
            assert(exists|x: int|
                0 <= x < prev.spec_cached().len()
                    && (#[trigger] prev.spec_cached()[x]).base@ == base);
            assert(false);
        }
    }
    assert(cur.wf()) by {
        assert forall|a: int, b: int|
            0 <= a < b < cur.spec_cached().len() implies (#[trigger] cur.spec_cached()[a]).base@
            != (#[trigger] cur.spec_cached()[b]).base@ by {
            if b < n {
                assert(prev.spec_cached()[a].base@ != prev.spec_cached()[b].base@);
            } else {
                assert(cur.spec_cached()[b].base@ == base);
                assert(prev.spec_cached()[a].base@ != base);
            }
        }
    }
    let w2 = choose|x: int|
        0 <= x < cur.spec_cached().len() && (#[trigger] cur.spec_cached()[x]).base@ == base;
    assert(w2 == n) by {
        if w2 < n {
            assert(prev.spec_cached()[w2].base@ != base);
        }
    }
    assert forall|q: Seq<u8>| q != base implies cur.entry_of(q) == prev.entry_of(q) by {
        if exists|x: int|
            0 <= x < prev.spec_cached().len() && (#[trigger] prev.spec_cached()[x]).base@
                == q {
            let w = choose|x: int|
                0 <= x < prev.spec_cached().len()
                    && (#[trigger] prev.spec_cached()[x]).base@ == q;
            assert(cur.spec_cached()[w].base@ == q);
            let wc = choose|x: int|
                0 <= x < cur.spec_cached().len()
                    && (#[trigger] cur.spec_cached()[x]).base@ == q;
            assert(wc == w) by {
                if wc < w {
                    assert(cur.spec_cached()[wc].base@ != cur.spec_cached()[w].base@);
                } else if wc > w {
                    assert(cur.spec_cached()[w].base@ != cur.spec_cached()[wc].base@);
                }
            }
        } else {
            if exists|x: int|
                0 <= x < cur.spec_cached().len() && (#[trigger] cur.spec_cached()[x]).base@
                    == q {
                let w = choose|x: int|
                    0 <= x < cur.spec_cached().len()
                        && (#[trigger] cur.spec_cached()[x]).base@ == q;
                assert(w == n);
                assert(false);
            }
        }
    }
}

proof fn lemma_gc_lookup(prev: Router, cur: Router, now: i64)
    requires
        prev.wf(),
        cur.wf(),
        forall|k: int|
            0 <= k < cur.spec_cached().len() ==> (#[trigger] cur.spec_cached()[k]).expires
                > now,
        forall|k: int|
            0 <= k < cur.spec_cached().len() ==> from_first(
                prev,
                prev.spec_cached().len() as int,
                #[trigger] cur.spec_cached()[k],
            ),
        forall|j: int|
            0 <= j < prev.spec_cached().len() && (#[trigger] prev.spec_cached()[j]).expires
                > now ==> kept_has(cur.spec_cached(), prev.spec_cached()[j]),
    ensures
        forall|q: Seq<u8>|
            cur.entry_of(q) == (match prev.entry_of(q) {
                Option::Some((e, t)) => if e > now {
                    Option::Some((e, t))
                } else {
                    Option::None::<(i64, u64)>
                },
                Option::None => Option::None::<(i64, u64)>,
            }),
{
    assert forall|q: Seq<u8>|
        cur.entry_of(q) == (match prev.entry_of(q) {
            Option::Some((e, t)) => if e > now {
                Option::Some((e, t))
            } else {
                Option::None::<(i64, u64)>
            },
            Option::None => Option::None::<(i64, u64)>,
        }) by {
        if exists|x: int|
            0 <= x < prev.spec_cached().len() && (#[trigger] prev.spec_cached()[x]).base@
                == q {
            let w = choose|x: int|
                0 <= x < prev.spec_cached().len()
                    && (#[trigger] prev.spec_cached()[x]).base@ == q;
            if prev.spec_cached()[w].expires > now {
                assert(kept_has(cur.spec_cached(), prev.spec_cached()[w]));
                let wk = choose|k: int|
                    0 <= k < cur.spec_cached().len() && entry_eq(
                        #[trigger] cur.spec_cached()[k],
                        prev.spec_cached()[w],
                    );
                assert(cur.spec_cached()[wk].base@ == q);
                let wc = choose|x: int|
                    0 <= x < cur.spec_cached().len()
                        && (#[trigger] cur.spec_cached()[x]).base@ == q;
                assert(wc == wk) by {
                    if wc < wk {
                        assert(cur.spec_cached()[wc].base@ != cur.spec_cached()[wk].base@);
                    } else if wc > wk {
                        assert(cur.spec_cached()[wk].base@ != cur.spec_cached()[wc].base@);
                    }
                }
            } else {
                if exists|x: int|
                    0 <= x < cur.spec_cached().len()
                        && (#[trigger] cur.spec_cached()[x]).base@ == q {
                    let wc = choose|x: int|
                        0 <= x < cur.spec_cached().len()
                            && (#[trigger] cur.spec_cached()[x]).base@ == q;
                    assert(from_first(prev, prev.spec_cached().len() as int, cur.spec_cached()[wc]));
                    let wj = choose|j: int|
                        0 <= j < prev.spec_cached().len() && entry_eq(
                            cur.spec_cached()[wc],
                            #[trigger] prev.spec_cached()[j],
                        );
                    assert(prev.spec_cached()[wj].base@ == q);
                    assert(wj == w) by {
                        if wj < w {
                            assert(prev.spec_cached()[wj].base@ != prev.spec_cached()[
                                w
                            ].base@);
                        } else if wj > w {
                            assert(prev.spec_cached()[w].base@ != prev.spec_cached()[
                                wj
                            ].base@);
                        }
                    }
                    assert(cur.spec_cached()[wc].expires > now);
                    assert(false);
                }
            }
        } else {
            if exists|x: int|
                0 <= x < cur.spec_cached().len() && (#[trigger] cur.spec_cached()[x]).base@
                    == q {
                let wc = choose|x: int|
                    0 <= x < cur.spec_cached().len()
                        && (#[trigger] cur.spec_cached()[x]).base@ == q;
                assert(from_first(prev, prev.spec_cached().len() as int, cur.spec_cached()[wc]));
                let wj = choose|j: int|
                    0 <= j < prev.spec_cached().len() && entry_eq(
                        cur.spec_cached()[wc],
                        #[trigger] prev.spec_cached()[j],
                    );
                assert(prev.spec_cached()[wj].base@ == q);
                assert(false);
            }
        }
    }
}

/// The routed form of one batch: for each request, the target bucket
/// it goes to (`None` is the default cluster), in submission order so
/// the replies can be reassembled. Each path-carrying request routes
/// per [`routed`]; requests without a path go to the default bucket.
pub fn route_batch(router: &Router, paths: &Vec<Option<Path>>, now: i64) -> (r: Vec<
    Option<u64>,
>)
    requires
        router.wf(),
    ensures
        r@.len() == paths@.len(),
        forall|i: int|
            0 <= i < paths@.len() ==> (match #[trigger] paths@[i] {
                Option::Some(p) => routed(router.spec_cached(), p@, now, r@[i]),
                Option::None => r@[i] is None,
            }),
{
    let mut out: Vec<Option<u64>> = Vec::new();
    let mut i: usize = 0;
    while i < paths.len()
        invariant
            router.wf(),
            0 <= i <= paths@.len(),
            out@.len() == i,
            forall|j: int|
                0 <= j < i ==> (match #[trigger] paths@[j] {
                    Option::Some(p) => routed(router.spec_cached(), p@, now, out@[j]),
                    Option::None => out@[j] is None,
                }),
        decreases paths@.len() - i,
    {
        match &paths[i] {
            Option::Some(p) => {
                out.push(router.route(p, now));
            },
            Option::None => {
                out.push(Option::None);
            },
        }
        i += 1;
    }
    out
}

/// One step of the referral-following send loop: whether to give up.
/// The loop re-dispatches referred requests and fails once the depth
/// limit is passed.
pub fn referral_step(rounds: &mut usize) -> (r: bool)
    requires
        *old(rounds) <= MAX_REFERRALS + 1,
    ensures
        *final(rounds) == *old(rounds) + 1,
        r == (*final(rounds) > MAX_REFERRALS),
{
    *rounds = *rounds + 1;
    *rounds > MAX_REFERRALS
}

} // verus!
