use vstd::prelude::*;

use crate::path::Path;
use crate::protocol::{FromRead, FromWrite, Referral, Resolved, ToPath, ToReferral, ToWrite};
use crate::router::{
    expiry_of, is_routing, key_view, lemma_target_kept, paths_of, stale_keys, Cache, Router,
};

verus! {

/// The most referrals followed in one send, and the most backend
/// connections kept before they are all dropped.
pub const MAX_REFERRALS: usize = 128;

/// Why a send failed.
#[derive(Debug, Clone, PartialEq, Eq)]
pub enum Error {
    /// A backend failed, in its own words.
    Transport(String),
    /// The replies of the backends gave no single reply for the operation
    /// at `index`: an index out of range, repeated, or missing.
    ReplyIndex { index: usize },
    /// The number of replies differs from the number of operations.
    ReplyCount { got: usize, expected: usize },
    /// The reply to the read operation at `index` is not of the kind
    /// expected; the reply itself.
    UnexpectedRead { index: usize, reply: FromRead },
    /// The reply to the write operation `request`, at `index`, is not the
    /// one expected; the reply itself.
    UnexpectedWrite { index: usize, request: ToWrite, reply: FromWrite },
    /// The maximum referral depth `max` was reached.
    ReferralDepth { max: usize },
}

/// What one round of a send dispatches.
pub struct Plan<T> {
    /// Whether every backend connection that was kept is to be dropped
    /// before this round.
    pub reset: bool,
    /// The sub-batches, each with its referral path, or `None` for the
    /// default backend.
    pub routes: Vec<(Option<Path>, Vec<(usize, T)>)>,
    /// For each sub-batch, whether a connection to its referral is to be
    /// opened for it.
    pub open: Vec<bool>,
}

/// What the replies of one round came to.
pub struct Round<F> {
    /// The final replies, each with the index of its operation.
    pub finished: Vec<(usize, F)>,
    /// Whether some reply was a referral.
    pub referral: bool,
}

/// How a round ends.
pub enum Step<F> {
    /// Every operation has its final reply, in the order of the batch.
    Done(Vec<F>),
    /// Referrals came back: the batch is to be routed again; the number
    /// of referral rounds so far.
    Again(usize),
}

/// The paths of a sequence, as a set.
pub open spec fn path_views(s: Seq<Path>) -> Set<Seq<char>> {
    Set::new(|k: Seq<char>| exists|j: int| 0 <= j < s.len() && s[j]@ == k)
}

/// The cache after the referrals among `rs` were added at `now`, in order.
pub open spec fn with_referrals<F: ToReferral>(m: Cache, rs: Seq<(usize, F)>, now: u64) -> Cache
    decreases rs.len(),
{
    if rs.len() == 0 {
        m
    } else {
        let m0 = with_referrals(m, rs.drop_last(), now);
        match rs.last().1.referral_spec() {
            Some(r) => m0.insert(r.path@, (expiry_of(now, r.ttl), r)),
            None => m0,
        }
    }
}

/// The replies of `rs` that are not referrals, in order.
pub open spec fn terminal<F: ToReferral>(rs: Seq<(usize, F)>) -> Seq<(usize, F)>
    decreases rs.len(),
{
    if rs.len() == 0 {
        rs
    } else if rs.last().1.referral_spec() is Some {
        terminal(rs.drop_last())
    } else {
        terminal(rs.drop_last()).push(rs.last())
    }
}

/// No reply of `fin` is a referral.
pub open spec fn all_final<F: ToReferral>(fin: Seq<(usize, F)>) -> bool {
    forall|j: int| 0 <= j < fin.len() ==> (#[trigger] fin[j]).1.referral_spec() is None
}

proof fn lemma_terminal_final<F: ToReferral>(rs: Seq<(usize, F)>)
    ensures
        all_final(terminal(rs)),
    decreases rs.len(),
{
    if rs.len() > 0 {
        lemma_terminal_final(rs.drop_last());
    }
}

/// Whether some reply of `rs` is a referral.
pub open spec fn has_referral<F: ToReferral>(rs: Seq<(usize, F)>) -> bool {
    exists|i: int| 0 <= i < rs.len() && (#[trigger] rs[i]).1.referral_spec() is Some
}

/// The indices of `fin` are exactly `0 .. n`, each once.
pub open spec fn exact_ids<F>(fin: Seq<(usize, F)>, n: usize) -> bool {
    &&& forall|j: int| 0 <= j < fin.len() ==> (#[trigger] fin[j]).0 < n
    &&& forall|j1: int, j2: int|
        0 <= j1 < fin.len() && 0 <= j2 < fin.len() && j1 != j2 ==> (#[trigger] fin[j1]).0 != (
        #[trigger] fin[j2]).0
    &&& forall|i: int| 0 <= i < n ==> #[trigger] has_id(fin, i)
}

/// Whether some reply of `fin` has the index `i`.
pub open spec fn has_id<F>(fin: Seq<(usize, F)>, i: int) -> bool {
    exists|j: int| 0 <= j < fin.len() && (#[trigger] fin[j]).0 == i
}

/// The state of a resolver that the sends share: the referral cache and
/// the referral paths that have a backend connection. Where more than
/// `MAX_REFERRALS` connections are kept, they are all dropped at the next
/// plan, so that each referral gets a fresh one; the referral cache is kept.
pub struct Multiplexer {
    router: Router,
    connected: Vec<Path>,
}

impl Multiplexer {
    /// The cache of referrals.
    pub closed spec fn cache(&self) -> Cache {
        self.router@
    }

    /// The referral paths that have a connection.
    pub closed spec fn connections(&self) -> Set<Seq<char>> {
        path_views(self.connected@)
    }

    /// How many connections are kept.
    pub closed spec fn connection_count(&self) -> nat {
        self.connected@.len()
    }

    /// The cache is well formed.
    pub closed spec fn wf(&self) -> bool {
        self.router.wf()
    }

    /// No referral and no connection yet.
    pub fn new() -> (r: Multiplexer)
        ensures
            r.wf(),
            r.cache() == Cache::empty(),
            r.connections() == Set::<Seq<char>>::empty(),
            r.connection_count() == 0,
    {
        let r = Multiplexer { router: Router::new(), connected: Vec::new() };
        assert(path_views(r.connected@) =~= Set::<Seq<char>>::empty());
        r
    }

    /// The referral cached for exactly `p`.
    pub fn referral(&self, p: &Path) -> (r: Option<&Referral>)
        requires
            self.wf(),
        ensures
            r matches Some(x) ==> self.cache().contains_key(p@) && *x == self.cache()[p@].1,
            r is None ==> !self.cache().contains_key(p@),
    {
        self.router.get_referral(p)
    }

    /// Whether `p` has a connection.
    fn is_connected(&self, p: &Path) -> (r: bool)
        ensures
            r == self.connections().contains(p@),
    {
        let mut i: usize = 0;
        while i < self.connected.len()
            invariant
                i <= self.connected.len(),
                forall|j: int| 0 <= j < i ==> (#[trigger] self.connected@[j])@ != p@,
            decreases self.connected.len() - i,
        {
            if self.connected[i] == *p {
                assert(path_views(self.connected@).contains(p@));
                return true;
            }
            i += 1;
        }
        false
    }

    /// Plan a round of sending `batch` at `now` (in milliseconds). Where
    /// more than `MAX_REFERRALS` connections are kept, all are dropped
    /// first. The batch is routed by the cache; a sub-batch for a referral
    /// without a connection opens one, which is kept.
    pub fn plan<T: ToPath + Clone>(&mut self, batch: &Vec<T>, now: u64) -> (r: Plan<T>)
        requires
            old(self).wf(),
        ensures
            final(self).wf(),
            r.reset == (old(self).connection_count() > MAX_REFERRALS),
            final(self).cache() == old(self).cache().remove_keys(
                stale_keys(old(self).cache(), paths_of(batch@), now),
            ),
            is_routing(old(self).cache(), batch@, now, r.routes@),
            r.open.len() == r.routes.len(),
            forall|b: int| #![trigger r.open@[b]]
                0 <= b < r.routes.len() ==> r.open@[b] == (r.routes@[b].0 is Some && !(if r.reset {
                    Set::<Seq<char>>::empty()
                } else {
                    old(self).connections()
                }).contains(r.routes@[b].0->0@)),
            forall|b: int| #![trigger r.routes@[b]]
                0 <= b < r.routes.len() && r.routes@[b].0 is Some ==> {
                    let k = r.routes@[b].0->0@;
                    final(self).cache().contains_key(k) && final(self).connections().contains(k)
                },
            final(self).connections() == (if r.reset {
                Set::<Seq<char>>::empty()
            } else {
                old(self).connections()
            }).union(
                Set::new(
                    |k: Seq<char>|
                        exists|b: int|
                            0 <= b < r.routes.len() && key_view(r.routes@[b].0) == Some(k),
                ),
            ),
    {
        let ghost m = self.router@;
        let reset = self.connected.len() > MAX_REFERRALS;
        if reset {
            self.connected.clear();
        }
        let ghost base = path_views(self.connected@);
        assert(base =~= (if reset {
            Set::<Seq<char>>::empty()
        } else {
            path_views(old(self).connected@)
        }));
        let routes = self.router.route_batch(batch, now);
        let mut open: Vec<bool> = Vec::new();
        let mut b: usize = 0;
        while b < routes.len()
            invariant
                self.router.wf(),
                self.router@ == m.remove_keys(stale_keys(m, paths_of(batch@), now)),
                is_routing(m, batch@, now, routes@),
                b <= routes.len(),
                open.len() == b,
                forall|c: int| #![trigger open@[c]]
                    0 <= c < b ==> open@[c] == (routes@[c].0 is Some && !base.contains(
                        routes@[c].0->0@,
                    )),
                path_views(self.connected@) == base.union(
                    Set::new(
                        |k: Seq<char>|
                            exists|c: int| 0 <= c < b && key_view(routes@[c].0) == Some(k),
                    ),
                ),
            decreases routes.len() - b,
        {
            let ghost before = self.connected@;
            let ghost added = Set::new(
                |k: Seq<char>| exists|c: int| 0 <= c < b && key_view(routes@[c].0) == Some(k),
            );
            match &routes[b].0 {
                None => {
                    open.push(false);
                },
                Some(p) => {
                    let fresh = !self.is_connected(p);
                    if fresh {
                        self.connected.push(p.clone());
                    }
                    open.push(fresh);
                    proof {
                        if fresh {
                            assert(self.connected@[before.len() as int]@ == p@);
                        } else {
                            let j = choose|j: int| 0 <= j < before.len() && before[j]@ == p@;
                            assert(self.connected@[j] == before[j]);
                        }
                        assert(path_views(self.connected@).contains(p@));
                    }
                },
            }
            proof {
                let added1 = Set::new(
                    |k: Seq<char>|
                        exists|c: int| 0 <= c < b + 1 && key_view(routes@[c].0) == Some(k),
                );
                assert forall|k: Seq<char>| #[trigger]
                    path_views(self.connected@).contains(k) == base.union(added1).contains(k) by {
                    if path_views(before).contains(k) {
                        let j = choose|j: int| 0 <= j < before.len() && before[j]@ == k;
                        assert(self.connected@[j] == before[j]);
                    }
                    if added.contains(k) {
                        let c = choose|c: int| 0 <= c < b && key_view(routes@[c].0) == Some(k);
                        assert(0 <= c < b + 1);
                    }
                    if path_views(self.connected@).contains(k) {
                        let j = choose|j: int|
                            0 <= j < self.connected@.len() && self.connected@[j]@ == k;
                        if j < before.len() {
                            assert(before[j]@ == k);
                        } else {
                            assert(key_view(routes@[b as int].0) == Some(k));
                        }
                    }
                    if added1.contains(k) {
                        let c = choose|c: int| 0 <= c < b + 1 && key_view(routes@[c].0) == Some(k);
                        if c < b {
                            assert(added.contains(k));
                        } else {
                            assert(path_views(self.connected@).contains(k));
                        }
                    }
                }
                assert(path_views(self.connected@) =~= base.union(added1));
            }
            b += 1;
        }
        proof {
            assert forall|b: int| #![trigger routes@[b]]
                0 <= b < routes.len() && routes@[b].0 is Some implies {
                let k = routes@[b].0->0@;
                self.router@.contains_key(k) && path_views(self.connected@).contains(k)
            } by {
                let k = routes@[b].0->0@;
                let j: int = 0;
                assert(routes@[b].1.len() > 0);
                let (id, op) = routes@[b].1@[j];
                assert(key_view(routes@[b].0) == crate::router::target_of(
                    m,
                    paths_of(batch@)[id as int],
                    now,
                ));
                lemma_target_kept(m, paths_of(batch@), now, paths_of(batch@)[id as int]);
                assert(exists|c: int|
                    0 <= c < routes.len() && key_view(routes@[c].0) == Some(k));
            }
        }
        Plan { reset, routes, open }
    }

    /// Take in the replies of one backend, received at `now` (in
    /// milliseconds): each referral is cached and marks the round, each
    /// other reply is kept as final, in order.
    pub fn absorb<F: ToReferral>(&mut self, round: &mut Round<F>, replies: Vec<(usize, F)>, now: u64)
        requires
            old(self).wf(),
        ensures
            final(self).wf(),
            final(self).cache() == with_referrals(old(self).cache(), replies@, now),
            final(self).connections() == old(self).connections(),
            final(self).connection_count() == old(self).connection_count(),
            final(round).finished@ == old(round).finished@ + terminal(replies@),
            final(round).referral == (old(round).referral || has_referral(replies@)),
            all_final(old(round).finished@) ==> all_final(final(round).finished@),
    {
        let ghost rs = replies@;
        let ghost m = self.router@;
        let ghost f0 = round.finished@;
        let ghost r0 = round.referral;
        let ghost c0 = self.connected@;
        assert(rs.take(0) =~= Seq::<(usize, F)>::empty());
        assert(f0 + terminal(rs.take(0)) =~= f0);
        for pair in it: replies
            invariant
                rs == it.seq(),
                self.connected@ == c0,
                self.router.wf(),
                self.router@ == with_referrals(m, rs.take(it.index() as int), now),
                round.finished@ == f0 + terminal(rs.take(it.index() as int)),
                round.referral == (r0 || has_referral(rs.take(it.index() as int))),
        {
            let ghost k = it.index() as int;
            let ghost before = round.finished@;
            assert(rs.take(k + 1).drop_last() =~= rs.take(k));
            assert(rs.take(k + 1).last() == pair);
            let (id, reply) = pair;
            match reply.referral() {
                Ok(r) => {
                    self.router.add_referral(r, now);
                    round.referral = true;
                    assert(rs.take(k + 1)[k].1.referral_spec() is Some);
                },
                Err(m) => {
                    round.finished.push((id, m));
                    assert(round.finished@ =~= f0 + terminal(rs.take(k + 1)));
                    assert(has_referral(rs.take(k + 1)) == has_referral(rs.take(k))) by {
                        if has_referral(rs.take(k + 1)) {
                            let i = choose|i: int|
                                0 <= i < k + 1 && (#[trigger] rs.take(k + 1)[i]).1.referral_spec() is Some;
                            assert(rs.take(k)[i] == rs.take(k + 1)[i]);
                        }
                        if has_referral(rs.take(k)) {
                            let i = choose|i: int|
                                0 <= i < k && (#[trigger] rs.take(k)[i]).1.referral_spec() is Some;
                            assert(rs.take(k)[i] == rs.take(k + 1)[i]);
                        }
                    }
                },
            }
        }
        assert(rs.take(rs.len() as int) =~= rs);
        proof {
            lemma_terminal_final(rs);
            if all_final(f0) {
                assert forall|j: int| 0 <= j < round.finished@.len() implies (#[trigger] round.finished@[j]).1.referral_spec() is None by {
                    if j < f0.len() {
                        assert(round.finished@[j] == f0[j]);
                    } else {
                        assert(round.finished@[j] == terminal(rs)[j - f0.len()]);
                    }
                }
            }
        }
    }
}

impl<F> Round<F> {
    /// A round with no reply yet.
    pub fn new() -> (r: Round<F>)
        ensures
            r.finished@.len() == 0,
            !r.referral,
    {
        Round { finished: Vec::new(), referral: false }
    }
}

/// The replies of `fin` placed by index: `v` has `n` replies, and each of
/// `fin` stands at its index.
pub open spec fn placed<F>(v: Seq<F>, fin: Seq<(usize, F)>, n: usize) -> bool {
    &&& v.len() == n
    &&& forall|j: int| 0 <= j < fin.len() ==> v[(#[trigger] fin[j]).0 as int] == fin[j].1
}

/// The replies of `finished` in the order of their indices, where those
/// indices are exactly `0 .. n`.
fn assemble<F>(finished: Vec<(usize, F)>, n: usize) -> (r: Result<Vec<F>, Error>)
    ensures
        r is Ok <==> exact_ids(finished@, n),
        r matches Ok(v) ==> placed(v@, finished@, n),
        r matches Err(e) ==> e is ReplyIndex,
{
    let ghost fin = finished@;
    let mut slots: Vec<Option<F>> = Vec::new();
    while slots.len() < n
        invariant
            slots.len() <= n,
            forall|i: int| 0 <= i < slots.len() ==> (#[trigger] slots@[i]) is None,
        decreases n - slots.len(),
    {
        slots.push(None);
    }
    // for each filled slot, the reply that filled it
    let ghost mut src: Seq<int> = Seq::new(n as nat, |i: int| 0);
    let ghost mut cnt: int = 0;
    for pair in it: finished
        invariant
            fin == it.seq(),
            cnt == it.index(),
            slots.len() == n,
            src.len() == n,
            forall|j: int| 0 <= j < cnt ==> (#[trigger] fin[j]).0 < n,
            forall|j1: int, j2: int|
                0 <= j1 < cnt && 0 <= j2 < cnt && j1 != j2 ==> (#[trigger] fin[j1]).0 != (
                #[trigger] fin[j2]).0,
            forall|j: int| 0 <= j < cnt ==> slots@[(#[trigger] fin[j]).0 as int] == Some(fin[j].1),
            forall|i: int|
                0 <= i < n && (#[trigger] slots@[i]) is Some ==> 0 <= src[i] < cnt && fin[src[i]].0
                    == i,
    {
        let (id, f) = pair;
        if id >= n {
            return Err(Error::ReplyIndex { index: id });
        }
        if slots[id].is_some() {
            proof {
                let j = src[id as int];
                assert(fin[j].0 == fin[cnt].0);
            }
            return Err(Error::ReplyIndex { index: id });
        }
        proof {
            assert forall|j: int| 0 <= j < cnt implies (#[trigger] fin[j]).0 != id by {
                assert(slots@[fin[j].0 as int] is Some);
            }
            src = src.update(id as int, cnt);
        }
        slots.set(id, Some(f));
        proof {
            cnt = cnt + 1;
        }
    }
    assert(cnt == fin.len());
    let ghost full = slots@;
    let mut out: Vec<F> = Vec::new();
    let mut i: usize = 0;
    while i < n
        invariant
            slots.len() == n,
            i <= n,
            out.len() == i,
            fin == finished@,
            full.len() == n,
            src.len() == n,
            forall|j: int|
                0 <= j < fin.len() ==> (#[trigger] fin[j]).0 < n && full[fin[j].0 as int] == Some(
                    fin[j].1,
                ),
            forall|i2: int|
                0 <= i2 < n && (#[trigger] full[i2]) is Some ==> 0 <= src[i2] < fin.len()
                    && fin[src[i2]].0 == i2,
            forall|i2: int| i <= i2 < n ==> slots@[i2] == full[i2],
            forall|i2: int| 0 <= i2 < i ==> full[i2] == Some(#[trigger] out@[i2]),
        decreases n - i,
    {
        let mut tmp: Option<F> = None;
        slots.set_and_swap(i, &mut tmp);
        match tmp {
            Some(f) => {
                out.push(f);
            },
            None => {
                proof {
                    assert(!has_id(fin, i as int)) by {
                        if has_id(fin, i as int) {
                            let j = choose|j: int| 0 <= j < fin.len() && (#[trigger] fin[j]).0 == i;
                            assert(full[fin[j].0 as int] == Some(fin[j].1));
                        }
                    }
                    assert(!exact_ids(fin, n));
                }
                return Err(Error::ReplyIndex { index: i });
            },
        }
        i += 1;
    }
    proof {
        assert forall|i2: int| 0 <= i2 < n implies #[trigger] has_id(fin, i2) by {
            assert(full[i2] == Some(out@[i2]));
            assert(fin[src[i2]].0 == i2);
        }
    }
    Ok(out)
}

/// How a round ends. Where a reply was a referral, the batch is to be
/// routed again, unless `MAX_REFERRALS` referral rounds have already
/// passed: the send then fails. Otherwise the final replies, put in the
/// order of the batch of `n` operations, are the result; that fails where
/// their indices are not exactly `0 .. n`.
pub fn conclude<F: ToReferral>(round: Round<F>, n: usize, referrals: usize) -> (r: Result<
    Step<F>,
    Error,
>)
    ensures
        round.referral && referrals >= MAX_REFERRALS ==> r == Err::<Step<F>, Error>(
            Error::ReferralDepth { max: MAX_REFERRALS },
        ),
        round.referral && referrals < MAX_REFERRALS ==> (r matches Ok(Step::Again(k)) && k
            == referrals + 1),
        !round.referral ==> (r is Ok <==> exact_ids(round.finished@, n)),
        !round.referral ==> (r matches Ok(s) ==> (s matches Step::Done(v) && placed(
            v@,
            round.finished@,
            n,
        ))),
        !round.referral ==> (r matches Err(e) ==> e is ReplyIndex),
        all_final(round.finished@) ==> (r matches Ok(Step::Done(v)) ==> forall|i: int|
            0 <= i < v.len() ==> (#[trigger] v@[i]).referral_spec() is None),
{
    let ghost fin = round.finished@;
    if round.referral {
        if referrals >= MAX_REFERRALS {
            Err(Error::ReferralDepth { max: MAX_REFERRALS })
        } else {
            Ok(Step::Again(referrals + 1))
        }
    } else {
        match assemble(round.finished, n) {
            Ok(v) => {
                proof {
                    if all_final(fin) {
                        assert forall|i: int| 0 <= i < v.len() implies (#[trigger] v@[i]).referral_spec() is None by {
                            assert(has_id(fin, i));
                            let j = choose|j: int| 0 <= j < fin.len() && (#[trigger] fin[j]).0 == i;
                            assert(v@[fin[j].0 as int] == fin[j].1);
                        }
                    }
                }
                Ok(Step::Done(v))
            },
            Err(e) => Err(e),
        }
    }
}

/// The resolutions that the replies to a batch of `n` resolve operations
/// hold, in order. Fails where the number of replies differs, or at the
/// first reply that is not a resolution.
pub fn resolutions(replies: Vec<FromRead>, n: usize) -> (r: Result<Vec<Resolved>, Error>)
    ensures
        replies.len() != n ==> r == Err::<Vec<Resolved>, Error>(
            Error::ReplyCount { got: replies.len(), expected: n },
        ),
        replies.len() == n ==> (r is Ok <==> forall|i: int|
            0 <= i < n ==> (#[trigger] replies@[i]) is Resolved),
        r matches Ok(v) ==> (v.len() == n && forall|i: int|
            0 <= i < n ==> replies@[i] == FromRead::Resolved(#[trigger] v@[i])),
        replies.len() == n ==> (r matches Err(e) ==> (e matches Error::UnexpectedRead { index, reply }
            && index < n && reply == replies@[index as int] && !(reply is Resolved) && forall|j: int|
            0 <= j < index ==> (#[trigger] replies@[j]) is Resolved)),
{
    let len = replies.len();
    if len != n {
        return Err(Error::ReplyCount { got: len, expected: n });
    }
    let ghost rs = replies@;
    let mut out: Vec<Resolved> = Vec::new();
    let mut i: usize = 0;
    for reply in it: replies
        invariant
            rs == it.seq(),
            rs == replies@,
            rs.len() == n,
            i == it.index(),
            out.len() == i,
            forall|j: int| 0 <= j < i ==> rs[j] == FromRead::Resolved(#[trigger] out@[j]),
            forall|j: int| 0 <= j < i ==> (#[trigger] rs[j]) is Resolved,
    {
        assert(reply == rs[i as int]);
        match reply {
            FromRead::Resolved(x) => {
                out.push(x);
            },
            other => {
                return Err(Error::UnexpectedRead { index: i, reply: other });
            },
        }
        i += 1;
    }
    assert(i == n);
    Ok(out)
}

/// The paths that the replies to a single list operation hold. Fails
/// where there is not exactly one reply, or where it is not a listing.
pub fn listing(replies: Vec<FromRead>) -> (r: Result<Vec<Path>, Error>)
    ensures
        replies.len() != 1 ==> r == Err::<Vec<Path>, Error>(
            Error::ReplyCount { got: replies.len(), expected: 1 },
        ),
        replies.len() == 1 ==> match replies@[0] {
            FromRead::List(ps) => r == Ok::<Vec<Path>, Error>(ps),
            other => r == Err::<Vec<Path>, Error>(Error::UnexpectedRead { index: 0, reply: other }),
        },
{
    let mut replies = replies;
    let len = replies.len();
    if len != 1 {
        return Err(Error::ReplyCount { got: len, expected: 1 });
    }
    match replies.pop() {
        Some(FromRead::List(ps)) => Ok(ps),
        Some(other) => Err(Error::UnexpectedRead { index: 0, reply: other }),
        None => Err(Error::ReplyCount { got: 0, expected: 1 }),
    }
}

/// Whether the write reply `a` is `e`, for `e` a success reply.
fn same_write_reply(a: &FromWrite, e: &FromWrite) -> (r: bool)
    requires
        *e is Published || *e is Unpublished,
    ensures
        r == (*a == *e),
{
    match (a, e) {
        (FromWrite::Published, FromWrite::Published) => true,
        (FromWrite::Unpublished, FromWrite::Unpublished) => true,
        _ => false,
    }
}

/// Check the replies to a batch of write operations, `requests`, that
/// each expect the reply `expected`. Fails where the number of replies
/// differs, or at the first reply that is not `expected`, naming its
/// request and the reply.
pub fn expect_replies(requests: &Vec<ToWrite>, replies: Vec<FromWrite>, expected: &FromWrite) -> (r: Result<
    (),
    Error,
>)
    requires
        *expected is Published || *expected is Unpublished,
    ensures
        replies.len() != requests.len() ==> r == Err::<(), Error>(
            Error::ReplyCount { got: replies.len(), expected: requests.len() },
        ),
        replies.len() == requests.len() ==> (r is Ok <==> forall|i: int|
            0 <= i < replies.len() ==> #[trigger] replies@[i] == *expected),
        replies.len() == requests.len() ==> (r matches Err(e) ==> (e matches Error::UnexpectedWrite {
            index,
            request,
            reply,
        } && index < replies.len() && request == requests@[index as int] && reply
            == replies@[index as int] && reply != *expected && forall|j: int|
            0 <= j < index ==> #[trigger] replies@[j] == *expected)),
{
    let n = requests.len();
    if replies.len() != n {
        return Err(Error::ReplyCount { got: replies.len(), expected: n });
    }
    let mut i: usize = 0;
    while i < n
        invariant
            replies.len() == n,
            requests.len() == n,
            *expected is Published || *expected is Unpublished,
            i <= n,
            forall|j: int| 0 <= j < i ==> #[trigger] replies@[j] == *expected,
        decreases n - i,
    {
        if !same_write_reply(&replies[i], expected) {
            let mut owned = replies;
            let reply = owned.swap_remove(i);
            return Err(Error::UnexpectedWrite { index: i, request: requests[i].clone(), reply });
        }
        i += 1;
    }
    Ok(())
}

/// Check the replies to a single clear operation: one reply, and that an
/// unpublication.
pub fn expect_cleared(replies: Vec<FromWrite>) -> (r: Result<(), Error>)
    ensures
        replies.len() != 1 ==> r == Err::<(), Error>(
            Error::ReplyCount { got: replies.len(), expected: 1 },
        ),
        replies.len() == 1 ==> (r is Ok <==> replies@[0] is Unpublished),
        replies.len() == 1 && !(replies@[0] is Unpublished) ==> r == Err::<(), Error>(
            Error::UnexpectedWrite { index: 0, request: ToWrite::Clear, reply: replies@[0] },
        ),
{
    if replies.len() != 1 {
        return Err(Error::ReplyCount { got: replies.len(), expected: 1 });
    }
    let mut owned = replies;
    match owned.pop() {
        Some(FromWrite::Unpublished) => Ok(()),
        Some(other) => Err(Error::UnexpectedWrite { index: 0, request: ToWrite::Clear, reply: other }),
        None => Err(Error::ReplyCount { got: 0, expected: 1 }),
    }
}

} // verus!
