//! The replay session: the `{Play, Pause, Tail}` state machine, the
//! speed control, and the session admission limits.
use vstd::prelude::*;

verus! {

use vstd::string::{StrSliceExecFns, StringSliceAdditionalSpecFns};

/// The playback state of a session.
#[derive(Debug, Clone, Copy, PartialEq, Eq, Structural)]
pub enum State {
    Play,
    Pause,
    Tail,
}

/// What moved the state machine.
#[derive(Debug, Clone, Copy, PartialEq, Eq, Structural)]
pub enum SessionEvent {
    /// A control write or cluster command asked for this state.
    SetState(State),
    /// The archive ran out of batches while playing.
    BatchExhausted,
}

/// What a state transition asks the session to do first.
#[derive(Debug, Clone, Copy, PartialEq, Eq, Structural)]
pub enum StepAction {
    /// Nothing beyond the state change.
    Stay,
    /// Seek to the end of the window before playing: leaving `Tail`
    /// for `Play` resumes from the live edge.
    SeekEnd,
}

impl State {
    /// Whether batches are being read and published.
    pub fn play(&self) -> (r: bool)
        ensures
            r == (*self == State::Play),
    {
        match self {
            State::Play => true,
            State::Pause | State::Tail => false,
        }
    }

    /// The next state and what to do first: an asked-for state is
    /// taken, with leaving `Tail` for `Play` seeking to the end first;
    /// running out of batches while playing moves to `Tail`, and
    /// otherwise changes nothing.
    pub fn step(&self, ev: SessionEvent) -> (r: (State, StepAction))
        ensures
            (match ev {
                SessionEvent::SetState(s) => r.0 == s,
                SessionEvent::BatchExhausted => r.0 == (if *self == State::Play {
                    State::Tail
                } else {
                    *self
                }),
            }),
            r.1 == (if *self == State::Tail && ev == SessionEvent::SetState(State::Play) {
                StepAction::SeekEnd
            } else {
                StepAction::Stay
            }),
    {
        let act = if matches!(self, State::Tail) && matches!(
            ev,
            SessionEvent::SetState(State::Play),
        ) {
            StepAction::SeekEnd
        } else {
            StepAction::Stay
        };
        let next = match ev {
            SessionEvent::SetState(s) => s,
            SessionEvent::BatchExhausted => match self {
                State::Play => State::Tail,
                s => *s,
            },
        };
        (next, act)
    }

    /// Parses a state name from the text's UTF-8 bytes, ignoring
    /// surrounding ASCII whitespace and ASCII case: `play`, `pause`
    /// (which yields `Pause`) or `tail`; anything else is `None`.
    pub fn from_text(s: &str) -> (r: Option<State>)
        ensures
            r == state_of_text(s.spec_bytes()),
    {
        let b = s.as_bytes_vec();
        let c = canon_bytes(&b);
        if eq_lit(&c, &[112, 108, 97, 121]) {
            Option::Some(State::Play)
        } else if eq_lit(&c, &[112, 97, 117, 115, 101]) {
            Option::Some(State::Pause)
        } else if eq_lit(&c, &[116, 97, 105, 108]) {
            Option::Some(State::Tail)
        } else {
            Option::None
        }
    }
}

/// An ASCII whitespace byte.
pub open spec fn is_ws(b: u8) -> bool {
    b == 32 || b == 9 || b == 10 || b == 13
}

/// The byte lowercased, for the ASCII letters.
pub open spec fn lower(b: u8) -> u8 {
    if 65 <= b <= 90 {
        (b + 32) as u8
    } else {
        b
    }
}

/// The first non-whitespace position at or after `i`.
pub open spec fn skip_ws(s: Seq<u8>, i: int) -> int
    decreases s.len() - i,
{
    if i < 0 || i >= s.len() {
        i
    } else if is_ws(s[i]) {
        skip_ws(s, i + 1)
    } else {
        i
    }
}

/// The position after the last non-whitespace byte before `i`.
pub open spec fn rskip_ws(s: Seq<u8>, i: int) -> int
    decreases i,
{
    if i <= 0 || i > s.len() {
        i
    } else if is_ws(s[i - 1]) {
        rskip_ws(s, i - 1)
    } else {
        i
    }
}

/// The text trimmed of surrounding ASCII whitespace and lowercased.
pub open spec fn canon_text(s: Seq<u8>) -> Seq<u8> {
    let f = skip_ws(s, 0);
    let l = rskip_ws(s, s.len() as int);
    if f <= l {
        Seq::new(
            (l - f) as nat,
            |k: int|
                if 0 <= k < l - f {
                    lower(s[f + k])
                } else {
                    0u8
                },
        )
    } else {
        Seq::empty()
    }
}

/// The state a text names, after trimming and case folding.
pub open spec fn state_of_text(s: Seq<u8>) -> Option<State> {
    let c = canon_text(s);
    if c == seq![112u8, 108u8, 97u8, 121u8] {
        Option::Some(State::Play)
    } else if c == seq![112u8, 97u8, 117u8, 115u8, 101u8] {
        Option::Some(State::Pause)
    } else if c == seq![116u8, 97u8, 105u8, 108u8] {
        Option::Some(State::Tail)
    } else {
        Option::None
    }
}

proof fn lemma_skip_ws(s: Seq<u8>, i: int)
    requires
        0 <= i <= s.len(),
    ensures
        i <= skip_ws(s, i) <= s.len(),
        skip_ws(s, i) < s.len() ==> !is_ws(s[skip_ws(s, i)]),
        forall|j: int| i <= j < skip_ws(s, i) ==> is_ws(s[j]),
    decreases s.len() - i,
{
    if i < s.len() && is_ws(s[i]) {
        lemma_skip_ws(s, i + 1);
    }
}

proof fn lemma_rskip_ws(s: Seq<u8>, i: int)
    requires
        0 <= i <= s.len(),
    ensures
        0 <= rskip_ws(s, i) <= i,
        rskip_ws(s, i) > 0 ==> !is_ws(s[rskip_ws(s, i) - 1]),
        forall|j: int| rskip_ws(s, i) <= j < i ==> is_ws(s[j]),
    decreases i,
{
    if i > 0 && is_ws(s[i - 1]) {
        lemma_rskip_ws(s, i - 1);
    }
}

/// The trimmed, lowercased bytes of the text: exactly [`canon_text`].
fn canon_bytes(b: &Vec<u8>) -> (r: Vec<u8>)
    ensures
        r@ == canon_text(b@),
{
    let n = b.len();
    let mut f: usize = 0;
    while f < n && (b[f] == 32 || b[f] == 9 || b[f] == 10 || b[f] == 13)
        invariant
            n == b@.len(),
            0 <= f <= n,
            forall|j: int| 0 <= j < f ==> is_ws(b@[j]),
        decreases n - f,
    {
        f += 1;
    }
    let mut l: usize = n;
    while l > f && (b[l - 1] == 32 || b[l - 1] == 9 || b[l - 1] == 10 || b[l - 1] == 13)
        invariant
            n == b@.len(),
            0 <= f <= l <= n,
            forall|j: int| 0 <= j < f ==> is_ws(b@[j]),
            forall|j: int| l <= j < n ==> is_ws(b@[j]),
        decreases l,
    {
        l -= 1;
    }
    proof {
        lemma_skip_ws(b@, 0);
        lemma_rskip_ws(b@, n as int);
        let sf = skip_ws(b@, 0);
        let sl = rskip_ws(b@, n as int);
        assert(sf == f as int) by {
            if sf < f {
                assert(!is_ws(b@[sf]));
            } else if sf > f {
                assert(f < n ==> !is_ws(b@[f as int]));
                assert(is_ws(b@[f as int]));
            }
        }
        if l == f {
            // the whole text is whitespace or the trims met: the
            // canonical form is whatever lies between the spec trims,
            // which is empty or all-whitespace-free of length l - f
            assert(sl <= n as int);
        } else {
            assert(sl == l as int) by {
                if sl < l {
                    assert(!is_ws(b@[sl - 1]) || sl == 0);
                    assert(is_ws(b@[l as int - 1]) ==> false);
                } else if sl > l {
                    assert(is_ws(b@[sl - 1]));
                }
            }
        }
    }
    let mut out: Vec<u8> = Vec::new();
    let mut k: usize = f;
    while k < l
        invariant
            n == b@.len(),
            f <= k <= l <= n,
            out@.len() == k - f,
            forall|j: int| 0 <= j < k - f ==> out@[j] == lower(b@[f + j]),
        decreases l - k,
    {
        let byte = b[k];
        let lo = if 65 <= byte && byte <= 90 {
            byte + 32
        } else {
            byte
        };
        out.push(lo);
        k += 1;
    }
    proof {
        let sf = skip_ws(b@, 0);
        let sl = rskip_ws(b@, n as int);
        lemma_skip_ws(b@, 0);
        lemma_rskip_ws(b@, n as int);
        if l == f {
            // empty canonical form both ways
            assert(sf >= f as int) by {
                if sf < f {
                    assert(!is_ws(b@[sf]));
                }
            }
            assert(sl <= l as int) by {
                if sl > l {
                    assert(is_ws(b@[sl - 1]));
                }
            }
            if sf <= sl {
                assert(sl - sf <= 0);
                assert(canon_text(b@) =~= Seq::<u8>::empty());
            } else {
                assert(canon_text(b@) =~= Seq::<u8>::empty());
            }
            assert(out@ =~= canon_text(b@));
        } else {
            assert(sf == f as int && sl == l as int);
            assert(out@ =~= canon_text(b@));
        }
    }
    out
}

/// Byte equality against a literal slice.
fn eq_lit(a: &Vec<u8>, b: &[u8]) -> (r: bool)
    ensures
        r == (a@ == b@),
{
    if a.len() != b.len() {
        proof {
            assert(a@.len() != b@.len());
        }
        return false;
    }
    let mut i: usize = 0;
    while i < a.len()
        invariant
            0 <= i <= a@.len(),
            a@.len() == b@.len(),
            forall|j: int| 0 <= j < i ==> a@[j] == b@[j],
        decreases a@.len() - i,
    {
        if a[i] != b[i] {
            return false;
        }
        i += 1;
    }
    proof {
        assert(a@ =~= b@);
    }
    true
}

/// The playback rate: as fast as the reader allows, or a
/// milliseconds-per-unit scaled rate. The rate is carried in
/// thousandths, so `2000` plays at twice real time.
#[derive(Debug, Clone, Copy, PartialEq, Eq, Structural)]
pub enum Speed {
    Unlimited,
    Limited { rate_thousandths: u64 },
}

/// The wait before publishing the next batch, in milliseconds: the
/// archive gap between this batch and the next, divided by the rate.
/// An unlimited speed never waits.
pub fn next_delay_ms(speed: &Speed, gap_ms: u64) -> (r: u64)
    ensures
        speed == Speed::Unlimited ==> r == 0,
        speed matches Speed::Limited { rate_thousandths } ==> r == (if rate_thousandths
            == 0 {
            u64::MAX as int
        } else if gap_ms as int * 1000 / (rate_thousandths as int) > u64::MAX as int {
            u64::MAX as int
        } else {
            gap_ms as int * 1000 / (rate_thousandths as int)
        }),
{
    match speed {
        Speed::Unlimited => 0,
        Speed::Limited { rate_thousandths } => {
            if *rate_thousandths == 0 {
                u64::MAX
            } else {
                let wide = (gap_ms as u128) * 1000;
                let d = wide / (*rate_thousandths as u128);
                proof {
                    assert(gap_ms as int * 1000 / (*rate_thousandths as int)
                        <= u64::MAX as int * 1000) by (nonlinear_arith)
                        requires
                            *rate_thousandths >= 1,
                            gap_ms <= u64::MAX,
                    {
                        assert(gap_ms as int * 1000 <= u64::MAX as int * 1000);
                        vstd::arithmetic::div_mod::lemma_div_is_ordered(
                            gap_ms as int * 1000,
                            u64::MAX as int * 1000,
                            *rate_thousandths as int,
                        );
                        vstd::arithmetic::div_mod::lemma_div_by_multiple(
                            u64::MAX as int * 1000,
                            1,
                        );
                    }
                }
                if d > u64::MAX as u128 {
                    u64::MAX
                } else {
                    d as u64
                }
            }
        },
    }
}

/// The sum of per-client session counts.
pub open spec fn sum_counts(s: Seq<(u64, usize)>) -> int
    decreases s.len(),
{
    if s.len() == 0 {
        0
    } else {
        s[0].1 + sum_counts(s.drop_first())
    }
}

proof fn lemma_sum_push(s: Seq<(u64, usize)>, e: (u64, usize))
    ensures
        sum_counts(s.push(e)) == sum_counts(s) + e.1,
    decreases s.len(),
{
    assert(sum_counts(s.push(e)) == s.push(e)[0].1 + sum_counts(s.push(e).drop_first()));
    if s.len() == 0 {
        assert(s.push(e).drop_first() =~= Seq::<(u64, usize)>::empty());
        assert(s.push(e)[0] == e);
        assert(sum_counts(Seq::<(u64, usize)>::empty()) == 0);
    } else {
        assert(s.push(e).drop_first() =~= s.drop_first().push(e));
        lemma_sum_push(s.drop_first(), e);
        assert(s.push(e)[0] == s[0]);
        assert(sum_counts(s) == s[0].1 + sum_counts(s.drop_first()));
    }
}

proof fn lemma_sum_update(s: Seq<(u64, usize)>, i: int, e: (u64, usize))
    requires
        0 <= i < s.len(),
    ensures
        sum_counts(s.update(i, e)) == sum_counts(s) - s[i].1 + e.1,
    decreases s.len(),
{
    assert(sum_counts(s.update(i, e)) == s.update(i, e)[0].1 + sum_counts(
        s.update(i, e).drop_first(),
    ));
    assert(sum_counts(s) == s[0].1 + sum_counts(s.drop_first()));
    if i == 0 {
        assert(s.update(0, e).drop_first() =~= s.drop_first());
        assert(s.update(0, e)[0] == e);
    } else {
        assert(s.update(i, e).drop_first() =~= s.drop_first().update(i - 1, e));
        lemma_sum_update(s.drop_first(), i - 1, e);
        assert(s.update(i, e)[0] == s[0]);
        assert(s.drop_first()[i - 1] == s[i]);
    }
}

/// The session admission book: global and per-client caps.
#[derive(Debug)]
pub struct Sessions {
    max_total: usize,
    max_by_client: usize,
    total: usize,
    by_client: Vec<(u64, usize)>,
}

impl Sessions {
    /// The per-client table, for contracts.
    pub closed spec fn spec_counts(&self) -> Seq<(u64, usize)> {
        self.by_client@
    }

    /// The open-session count of one client.
    pub open spec fn count_of(&self, client: u64) -> nat {
        if exists|i: int|
            0 <= i < self.spec_counts().len() && (#[trigger] self.spec_counts()[i]).0
                == client {
            let i = choose|i: int|
                0 <= i < self.spec_counts().len() && (#[trigger] self.spec_counts()[i]).0
                    == client;
            self.spec_counts()[i].1 as nat
        } else {
            0
        }
    }

    /// The total count of open sessions.
    pub closed spec fn spec_total(&self) -> nat {
        self.total as nat
    }

    /// The global cap.
    pub closed spec fn spec_max_total(&self) -> nat {
        self.max_total as nat
    }

    /// The per-client cap.
    pub closed spec fn spec_max_by_client(&self) -> nat {
        self.max_by_client as nat
    }

    /// Clients are unique, and the running total is exactly the sum of
    /// the per-client counts.
    pub open spec fn wf(&self) -> bool {
        &&& forall|a: int, b: int|
            0 <= a < b < self.spec_counts().len() ==> (#[trigger] self.spec_counts()[a]).0
                != (#[trigger] self.spec_counts()[b]).0
        &&& self.spec_total() as int == sum_counts(self.spec_counts())
    }

    pub fn new(max_total: usize, max_by_client: usize) -> (r: Sessions)
        ensures
            r.wf(),
            r.spec_total() == 0,
            r.spec_max_total() == max_total,
            r.spec_max_by_client() == max_by_client,
    {
        Sessions { max_total, max_by_client, total: 0, by_client: Vec::new() }
    }

    /// Admits a session for the client exactly when both the global
    /// and the per-client caps leave room; on admission both counts
    /// grow by one.
    pub fn add_session(&mut self, client: u64) -> (r: bool)
        requires
            old(self).wf(),
        ensures
            final(self).wf(),
            r == (old(self).spec_total() < old(self).spec_max_total() && old(
                self,
            ).count_of(client) < old(self).spec_max_by_client()),
            r ==> final(self).spec_total() == old(self).spec_total() + 1 && final(self).count_of(client) == old(self).count_of(client) + 1,
            !r ==> final(self).spec_total() == old(self).spec_total() && final(self).count_of(client) == old(self).count_of(client),
            forall|q: u64|
                q != client ==> final(self).count_of(q) == old(self).count_of(q),
            final(self).spec_max_total() == old(self).spec_max_total(),
            final(self).spec_max_by_client() == old(self).spec_max_by_client(),
    {
        let ghost prev = *self;
        let mut i: usize = 0;
        let n = self.by_client.len();
        while i < n
            invariant
                self.wf(),
                *self == prev,
                prev == *old(self),
                n == self.by_client@.len(),
                0 <= i <= n,
                forall|j: int| 0 <= j < i ==> (#[trigger] self.by_client@[j]).0 != client,
            decreases n - i,
        {
            if self.by_client[i].0 == client {
                proof {
                    let w = choose|x: int|
                        0 <= x < self.by_client@.len()
                            && (#[trigger] self.by_client@[x]).0 == client;
                    if w != i {
                        if w < i {
                            assert(self.by_client@[w].0 != self.by_client@[i as int].0);
                        } else {
                            assert(self.by_client@[i as int].0 != self.by_client@[w].0);
                        }
                    }
                }
                let c = self.by_client[i].1;
                if self.total < self.max_total && c < self.max_by_client {
                    self.by_client.set(i, (client, c + 1));
                    self.total = self.total + 1;
                    proof {
                        lemma_sum_update(
                            prev.by_client@,
                            i as int,
                            (client, (c + 1) as usize),
                        );
                        assert(self.by_client@ == prev.by_client@.update(
                            i as int,
                            (client, (c + 1) as usize),
                        ));
                        assert(forall|j: int|
                            0 <= j < n && j != i ==> self.by_client@[j] == prev.by_client@[
                                j
                            ]);
                        assert(self.by_client@[i as int].0 == client);
                        assert(self.spec_counts() == self.by_client@);
                        assert(prev.spec_counts() == prev.by_client@);
                        let w2 = choose|x: int|
                            0 <= x < self.spec_counts().len()
                                && (#[trigger] self.spec_counts()[x]).0 == client;
                        if w2 != i {
                            if w2 < i {
                                assert(self.spec_counts()[w2].0 != self.spec_counts()[
                                    i as int
                                ].0);
                            } else {
                                assert(self.spec_counts()[i as int].0
                                    != self.spec_counts()[w2].0);
                            }
                        }
                        let wp = choose|x: int|
                            0 <= x < prev.spec_counts().len()
                                && (#[trigger] prev.spec_counts()[x]).0 == client;
                        if wp != i {
                            if wp < i {
                                assert(prev.spec_counts()[wp].0 != prev.spec_counts()[
                                    i as int
                                ].0);
                            } else {
                                assert(prev.spec_counts()[i as int].0
                                    != prev.spec_counts()[wp].0);
                            }
                        }
                        assert forall|q: u64| q != client implies self.count_of(q)
                            == prev.count_of(q) by {
                            if exists|x: int|
                                0 <= x < prev.spec_counts().len()
                                    && (#[trigger] prev.spec_counts()[x]).0 == q {
                                let w = choose|x: int|
                                    0 <= x < prev.spec_counts().len()
                                        && (#[trigger] prev.spec_counts()[x]).0 == q;
                                assert(w != i);
                                assert(self.spec_counts()[w].0 == q);
                                let wc = choose|x: int|
                                    0 <= x < self.spec_counts().len()
                                        && (#[trigger] self.spec_counts()[x]).0 == q;
                                if wc != w {
                                    if wc < w {
                                        assert(self.spec_counts()[wc].0
                                            != self.spec_counts()[w].0);
                                    } else {
                                        assert(self.spec_counts()[w].0
                                            != self.spec_counts()[wc].0);
                                    }
                                }
                            } else {
                                if exists|x: int|
                                    0 <= x < self.spec_counts().len()
                                        && (#[trigger] self.spec_counts()[x]).0 == q {
                                    let w = choose|x: int|
                                        0 <= x < self.spec_counts().len()
                                            && (#[trigger] self.spec_counts()[x]).0 == q;
                                    assert(prev.spec_counts()[w].0 == q);
                                    assert(false);
                                }
                            }
                        }
                    }
                    return true;
                } else {
                    return false;
                }
            }
            i += 1;
        }
        // an unseen client has zero sessions
        if self.total < self.max_total && self.max_by_client > 0 {
            self.by_client.push((client, 1));
            self.total = self.total + 1;
            proof {
                lemma_sum_push(prev.by_client@, (client, 1usize));
                assert(self.by_client@ == prev.by_client@.push((client, 1usize)));
                assert(prev.count_of(client) == 0);
                assert(forall|j: int|
                    0 <= j < n ==> self.by_client@[j] == prev.by_client@[j]);
                assert(self.wf()) by {
                    assert forall|a: int, b: int|
                        0 <= a < b < self.by_client@.len() implies (
                    #[trigger] self.by_client@[a]).0 != (#[trigger] self.by_client@[b]).0
                        by {
                        if b < n {
                            assert(prev.by_client@[a].0 != prev.by_client@[b].0);
                        } else {
                            assert(self.by_client@[b].0 == client);
                            assert(prev.by_client@[a].0 != client);
                        }
                    }
                }
                assert(self.by_client@[n as int].0 == client);
                let w2 = choose|x: int|
                    0 <= x < self.by_client@.len() && (#[trigger] self.by_client@[x]).0
                        == client;
                if w2 != n {
                    assert(self.by_client@[w2].0 != self.by_client@[n as int].0);
                }
                assert(self.count_of(client) == self.by_client@[n as int].1 as nat);
                assert(self.count_of(client) == 1);
            }
            true
        } else {
            proof {
                assert(prev.count_of(client) == 0);
            }
            false
        }
    }

    /// Closes one session of the client: when the client holds one
    /// (and the total is positive), its count and the total each fall
    /// by one; otherwise nothing changes. Other clients are untouched.
    pub fn delete_session(&mut self, client: u64)
        requires
            old(self).wf(),
        ensures
            final(self).wf(),
            old(self).count_of(client) > 0 && old(self).spec_total() > 0 ==> final(self).count_of(client) == old(self).count_of(client) - 1 && final(self).spec_total() == old(self).spec_total() - 1,
            !(old(self).count_of(client) > 0 && old(self).spec_total() > 0) ==> final(self).count_of(client) == old(self).count_of(client) && final(self).spec_total()
                == old(self).spec_total(),
            forall|q: u64|
                q != client ==> final(self).count_of(q) == old(self).count_of(q),
            final(self).spec_max_total() == old(self).spec_max_total(),
            final(self).spec_max_by_client() == old(self).spec_max_by_client(),
    {
        let mut i: usize = 0;
        let n = self.by_client.len();
        let ghost prev = *self;
        while i < n
            invariant
                self.wf(),
                *self == prev,
                prev == *old(self),
                n == self.by_client@.len(),
                0 <= i <= n,
                forall|j: int| 0 <= j < i ==> (#[trigger] self.by_client@[j]).0 != client,
            decreases n - i,
        {
            if self.by_client[i].0 == client {
                proof {
                    let w = choose|x: int|
                        0 <= x < self.by_client@.len()
                            && (#[trigger] self.by_client@[x]).0 == client;
                    if w != i {
                        if w < i {
                            assert(self.by_client@[w].0 != self.by_client@[i as int].0);
                        } else {
                            assert(self.by_client@[i as int].0 != self.by_client@[w].0);
                        }
                    }
                }
                let c = self.by_client[i].1;
                if c > 0 && self.total > 0 {
                    self.by_client.set(i, (client, c - 1));
                    self.total = self.total - 1;
                    proof {
                        lemma_sum_update(
                            prev.by_client@,
                            i as int,
                            (client, (c - 1) as usize),
                        );
                        assert(self.by_client@ == prev.by_client@.update(
                            i as int,
                            (client, (c - 1) as usize),
                        ));
                        assert(forall|j: int|
                            0 <= j < n && j != i ==> self.by_client@[j] == prev.by_client@[
                                j
                            ]);
                        assert(self.by_client@[i as int].0 == client);
                        assert(self.spec_counts() == self.by_client@);
                        assert(prev.spec_counts() == prev.by_client@);
                        let w2 = choose|x: int|
                            0 <= x < self.spec_counts().len()
                                && (#[trigger] self.spec_counts()[x]).0 == client;
                        if w2 != i {
                            if w2 < i {
                                assert(self.spec_counts()[w2].0 != self.spec_counts()[
                                    i as int
                                ].0);
                            } else {
                                assert(self.spec_counts()[i as int].0
                                    != self.spec_counts()[w2].0);
                            }
                        }
                        let wp = choose|x: int|
                            0 <= x < prev.spec_counts().len()
                                && (#[trigger] prev.spec_counts()[x]).0 == client;
                        if wp != i {
                            if wp < i {
                                assert(prev.spec_counts()[wp].0 != prev.spec_counts()[
                                    i as int
                                ].0);
                            } else {
                                assert(prev.spec_counts()[i as int].0
                                    != prev.spec_counts()[wp].0);
                            }
                        }
                        assert forall|q: u64| q != client implies self.count_of(q)
                            == prev.count_of(q) by {
                            if exists|x: int|
                                0 <= x < prev.spec_counts().len()
                                    && (#[trigger] prev.spec_counts()[x]).0 == q {
                                let w = choose|x: int|
                                    0 <= x < prev.spec_counts().len()
                                        && (#[trigger] prev.spec_counts()[x]).0 == q;
                                assert(w != i);
                                assert(self.spec_counts()[w].0 == q);
                                let wc = choose|x: int|
                                    0 <= x < self.spec_counts().len()
                                        && (#[trigger] self.spec_counts()[x]).0 == q;
                                if wc != w {
                                    if wc < w {
                                        assert(self.spec_counts()[wc].0
                                            != self.spec_counts()[w].0);
                                    } else {
                                        assert(self.spec_counts()[w].0
                                            != self.spec_counts()[wc].0);
                                    }
                                }
                            } else {
                                if exists|x: int|
                                    0 <= x < self.spec_counts().len()
                                        && (#[trigger] self.spec_counts()[x]).0 == q {
                                    let w = choose|x: int|
                                        0 <= x < self.spec_counts().len()
                                            && (#[trigger] self.spec_counts()[x]).0 == q;
                                    assert(prev.spec_counts()[w].0 == q);
                                    assert(false);
                                }
                            }
                        }
                    }
                }
                return ;
            }
            i += 1;
        }
        proof {
            assert(prev.count_of(client) == 0);
        }
    }
}

/// A write to one of a session's control values, already parsed, or a
/// mirrored peer command: what `apply_control` takes.
#[derive(Debug, Clone, Copy, PartialEq, Eq, Structural)]
pub enum ControlWrite {
    SetStart(crate::archive::Bound),
    SetEnd(crate::archive::Bound),
    SetSpeed(Speed),
    SetState(State),
    SeekTo(crate::archive::Seek),
}

/// The instants a control write carries, if any, are well formed.
pub open spec fn control_wf(w: ControlWrite) -> bool {
    match w {
        ControlWrite::SetStart(b) => crate::archive::bound_wf(b),
        ControlWrite::SetEnd(b) => crate::archive::bound_wf(b),
        ControlWrite::SeekTo(k) => crate::archive::seek_wf(k),
        _ => true,
    }
}

/// Applies one accepted control write to a session: the new state and
/// speed, with the cursor moved through the archive's own operations.
/// A start or end write narrows the window and, when the position
/// falls outside it, rewinds to the beginning; a state write follows
/// the transition table, seeking to the window's end when `Tail`
/// resumes `Play`; a position write seeks, and while tailing it also
/// resumes `Play`, so the stepped-to batch actually replays. The
/// caller mirrors the same write to its peer shards.
pub fn apply_control(
    archive: &crate::archive::Archive,
    cursor: &mut crate::archive::Cursor,
    state: State,
    speed: Speed,
    w: ControlWrite,
) -> (r: (State, Speed))
    requires
        archive.wf(),
        old(cursor).wf(),
        control_wf(w),
    ensures
        final(cursor).wf(),
        (match w {
            ControlWrite::SetStart(b) => {
                &&& r == (state, speed)
                &&& final(cursor).start == b
                &&& final(cursor).end == old(cursor).end
            },
            ControlWrite::SetEnd(b) => {
                &&& r == (state, speed)
                &&& final(cursor).start == old(cursor).start
                &&& final(cursor).end == b
            },
            ControlWrite::SetSpeed(sp) => r == (state, sp) && *final(cursor) == *old(
                cursor,
            ),
            ControlWrite::SetState(s) => r == (s, speed) && final(cursor).start == old(
                cursor,
            ).start && final(cursor).end == old(cursor).end,
            ControlWrite::SeekTo(_) => {
                &&& r.0 == (if state == State::Tail {
                    State::Play
                } else {
                    state
                })
                &&& r.1 == speed
                &&& final(cursor).start == old(cursor).start
                &&& final(cursor).end == old(cursor).end
            },
        }),
{
    match w {
        ControlWrite::SetStart(b) => {
            cursor.set_start(b);
            if matches!(cursor.current, Option::None) {
                archive.seek(cursor, crate::archive::Seek::Beginning);
            }
            (state, speed)
        },
        ControlWrite::SetEnd(b) => {
            cursor.set_end(b);
            if matches!(cursor.current, Option::None) {
                archive.seek(cursor, crate::archive::Seek::Beginning);
            }
            (state, speed)
        },
        ControlWrite::SetSpeed(sp) => (state, sp),
        ControlWrite::SetState(s) => {
            let (next, act) = state.step(SessionEvent::SetState(s));
            if act == StepAction::SeekEnd {
                archive.seek(cursor, crate::archive::Seek::End);
            }
            (next, speed)
        },
        ControlWrite::SeekTo(k) => {
            archive.seek(cursor, k);
            let next = if matches!(state, State::Tail) {
                State::Play
            } else {
                state
            };
            (next, speed)
        },
    }
}

/// The value of a run of ASCII digits.
pub open spec fn digits_val(s: Seq<u8>) -> int
    decreases s.len(),
{
    if s.len() == 0 {
        0
    } else {
        digits_val(s.drop_last()) * 10 + (s.last() - 48)
    }
}

/// All bytes are ASCII digits.
pub open spec fn all_digits(s: Seq<u8>) -> bool {
    s.len() > 0 && forall|i: int| 0 <= i < s.len() ==> 48 <= #[trigger] s[i] <= 57
}

/// Parses a run of ASCII digits; `None` when empty, not all digits,
/// or past `u32`.
fn parse_digits(s: &Vec<u8>, from: usize) -> (r: Option<u32>)
    requires
        from <= s@.len(),
    ensures
        (match r {
            Option::Some(v) => all_digits(s@.skip(from as int)) && v as int == digits_val(
                s@.skip(from as int),
            ),
            Option::None => !all_digits(s@.skip(from as int)) || digits_val(
                s@.skip(from as int),
            ) > u32::MAX,
        }),
{
    let n = s.len();
    if from == n {
        proof {
            assert(s@.skip(from as int).len() == 0);
        }
        return Option::None;
    }
    let mut acc: u64 = 0;
    let mut k: usize = from;
    while k < n
        invariant
            from <= k <= n,
            n == s@.len(),
            from < n,
            forall|i: int| from <= i < k ==> 48 <= #[trigger] s@[i] <= 57,
            acc as int == digits_val(s@.subrange(from as int, k as int)),
            acc <= 0xFFFF_FFFF_FFFFu64,
        decreases n - k,
    {
        let b = s[k];
        if b < 48 || b > 57 {
            proof {
                assert(s@.skip(from as int)[k - from] == s@[k as int]);
            }
            return Option::None;
        }
        if acc > 0xFFFF_FFFFu64 {
            // already past the range: too large whenever it is a digit run
            proof {
                let sk = s@.skip(from as int);
                if all_digits(sk) {
                    lemma_digits_grow(sk, k as int - from as int);
                    assert(s@.subrange(from as int, k as int) =~= sk.take(
                        k as int - from as int,
                    ));
                }
            }
            return Option::None;
        }
        acc = acc * 10 + ((b - 48) as u64);
        k += 1;
        proof {
            assert(s@.subrange(from as int, k as int).drop_last() =~= s@.subrange(
                from as int,
                k as int - 1,
            ));
            assert(s@.subrange(from as int, k as int).last() == s@[k as int - 1]);
        }
    }
    proof {
        assert(s@.subrange(from as int, n as int) =~= s@.skip(from as int));
    }
    if acc > u32::MAX as u64 {
        return Option::None;
    }
    Option::Some(acc as u32)
}

proof fn lemma_digits_grow(s: Seq<u8>, k: int)
    requires
        0 <= k <= s.len(),
        forall|i: int| 0 <= i < s.len() ==> 48 <= #[trigger] s[i] <= 57,
    ensures
        digits_val(s) >= digits_val(s.take(k)),
    decreases s.len() - k,
{
    if k < s.len() {
        lemma_digits_grow(s, k + 1);
        assert(s.take(k + 1).drop_last() =~= s.take(k));
        assert(s.take(k + 1).last() == s[k]);
        assert(digits_val(s.take(k + 1)) == digits_val(s.take(k)) * 10 + (s[k] - 48));
        assert(digits_val(s.take(k)) >= 0) by {
            assert(forall|i: int|
                0 <= i < s.take(k).len() ==> 48 <= #[trigger] s.take(k)[i] <= 57);
            lemma_digits_nonneg(s.take(k));
        }
    } else {
        assert(s.take(k) =~= s);
    }
}

proof fn lemma_digits_nonneg(s: Seq<u8>)
    requires
        forall|i: int| 0 <= i < s.len() ==> 48 <= #[trigger] s[i] <= 57,
    ensures
        digits_val(s) >= 0,
    decreases s.len(),
{
    if s.len() > 0 {
        assert(forall|i: int|
            0 <= i < s.drop_last().len() ==> 48 <= #[trigger] s.drop_last()[i] <= 57);
        lemma_digits_nonneg(s.drop_last());
    }
}

/// Parses a `pos` control write per the control surface: `beginning`,
/// `end`, `[+-]N` whole batches, `[+-]N` with a unit — `d`, `h`, `m`,
/// `s` or `u` (microseconds) — or an instant in calendar text. The
/// year and month units vary by calendar and are not accepted here.
pub fn parse_pos(s: &str) -> (r: Option<crate::archive::Seek>)
    ensures
        (match r {
            Option::Some(k) => crate::archive::seek_wf(k),
            Option::None => true,
        }),
{
    let b = s.as_bytes_vec();
    let c = canon_bytes(&b);
    if eq_lit(&c, &[98, 101, 103, 105, 110, 110, 105, 110, 103]) {
        return Option::Some(crate::archive::Seek::Beginning);
    }
    if eq_lit(&c, &[101, 110, 100]) {
        return Option::Some(crate::archive::Seek::End);
    }
    let n = c.len();
    if n >= 2 && (c[0] == 43 || c[0] == 45) {
        let negative = c[0] == 45;
        // a trailing unit letter?
        let last = c[n - 1];
        let (unit_nanos, digits_end): (i64, usize) = if last == 117 {
            (1_000, n - 1)  // microseconds
        } else if last == 115 {
            (1_000_000_000, n - 1)
        } else if last == 109 {
            (60_000_000_000, n - 1)
        } else if last == 104 {
            (3_600_000_000_000, n - 1)
        } else if last == 100 {
            (86_400_000_000_000, n - 1)
        } else {
            (0, n)
        };
        if digits_end <= 1 {
            return Option::None;
        }
        // parse the digits between the sign and the unit
        let mut digits: Vec<u8> = Vec::new();
        let mut k: usize = 1;
        while k < digits_end
            invariant
                1 <= k <= digits_end <= n,
                n == c@.len(),
            decreases digits_end - k,
        {
            digits.push(c[k]);
            k += 1;
        }
        let v = match parse_digits(&digits, 0) {
            Option::Some(v) => v,
            Option::None => {
                return Option::None;
            },
        };
        if unit_nanos == 0 {
            // whole batches
            let steps: i64 = if negative {
                -(v as i64)
            } else {
                v as i64
            };
            return Option::Some(crate::archive::Seek::BatchRelative(steps));
        }
        let vi = v as i64;
        if vi > i64::MAX / unit_nanos {
            return Option::None;
        }
        let span = vi * unit_nanos;
        let delta: i64 = if negative {
            -span
        } else {
            span
        };
        return Option::Some(crate::archive::Seek::TimeRelative(delta));
    }
    // an instant in calendar text
    match crate::time::dt_parse(s) {
        Option::Some(t) => Option::Some(crate::archive::Seek::Absolute(t)),
        Option::None => Option::None,
    }
}

} // verus!
