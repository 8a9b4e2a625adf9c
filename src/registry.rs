//! The subscriber registry: one subscription per data-channel endpoint,
//! with the keepalive rule that evicts the silent ones.
//!
//! Tickers are held as indices into the catalog the registry was made for,
//! so every subscription names catalog symbols only.

use vstd::prelude::*;

verus! {

/// A data-channel address: an IPv4 host, as a big-endian number, and a port.
#[derive(Clone, Copy, Debug, PartialEq, Eq, Structural, Hash)]
pub struct Endpoint {
    pub host: u32,
    pub port: u16,
}

/// One subscriber's interest and when it was last heard from.
#[derive(Debug)]
pub struct Subscription {
    pub endpoint: Endpoint,
    pub tickers: Vec<usize>,
    pub last_seen: u64,
}

/// What a subscription holds, apart from its endpoint.
pub struct SubscriptionView {
    pub tickers: Seq<usize>,
    pub last_seen: u64,
}

impl View for Subscription {
    type V = SubscriptionView;

    open spec fn view(&self) -> SubscriptionView {
        SubscriptionView { tickers: self.tickers@, last_seen: self.last_seen }
    }
}

/// The registry's contents, keyed by endpoint.
pub type RegistryMap = Map<Endpoint, SubscriptionView>;

/// A ticker list a subscription may hold: non-empty, without repeats, and
/// every index below `symbols`.
pub open spec fn valid_tickers(ts: Seq<usize>, symbols: nat) -> bool {
    &&& ts.len() > 0
    &&& ts.no_duplicates()
    &&& forall|i: int| 0 <= i < ts.len() ==> #[trigger] ts[i] < symbols
}

/// Whether an entry last seen at `last_seen` has outlived the timeout at `now`.
pub open spec fn is_stale(last_seen: u64, now: u64, timeout: u64) -> bool {
    now as int - last_seen as int > timeout as int
}

/// The registry after an `upsert`: the ticker list is replaced, and the
/// last-seen instant moves forward to `now`.
pub open spec fn upsert_model(m: RegistryMap, e: Endpoint, ts: Seq<usize>, now: u64) -> RegistryMap {
    let seen = if m.contains_key(e) && m[e].last_seen > now {
        m[e].last_seen
    } else {
        now
    };
    m.insert(e, SubscriptionView { tickers: ts, last_seen: seen })
}

/// The registry after a `touch`: an existing entry is refreshed, an unknown
/// endpoint changes nothing.
pub open spec fn touch_model(m: RegistryMap, e: Endpoint, now: u64) -> RegistryMap {
    if m.contains_key(e) {
        let seen = if m[e].last_seen > now {
            m[e].last_seen
        } else {
            now
        };
        m.insert(e, SubscriptionView { tickers: m[e].tickers, last_seen: seen })
    } else {
        m
    }
}

/// The registry after a sweep: the entries that are not stale.
pub open spec fn evict_model(m: RegistryMap, now: u64, timeout: u64) -> RegistryMap {
    m.restrict(m.dom().filter(|e: Endpoint| !is_stale(m[e].last_seen, now, timeout)))
}

/// The endpoints subscribed to ticker `t`.
pub open spec fn subscribers(m: RegistryMap, t: usize) -> Set<Endpoint> {
    m.dom().filter(|e: Endpoint| m[e].tickers.contains(t))
}

/// Whether some subscription of `es` belongs to `e`.
pub open spec fn holds_endpoint(es: Seq<Subscription>, e: Endpoint) -> bool {
    exists|i: int| 0 <= i < es.len() && (#[trigger] es[i]).endpoint == e
}

/// Whether no two subscriptions of `es` share an endpoint.
pub open spec fn unique(es: Seq<Subscription>) -> bool {
    forall|i: int, j: int|
        0 <= i < es.len() && 0 <= j < es.len() && (#[trigger] es[i]).endpoint == (
        #[trigger] es[j]).endpoint ==> i == j
}

/// Where in `es` the subscription of `e` stands.
pub open spec fn position(es: Seq<Subscription>, e: Endpoint) -> int {
    choose|i: int| 0 <= i < es.len() && (#[trigger] es[i]).endpoint == e
}

/// The subscriptions of `es` keyed by endpoint.
pub open spec fn entries_map(es: Seq<Subscription>) -> RegistryMap {
    Map::new(|e: Endpoint| holds_endpoint(es, e), |e: Endpoint| es[position(es, e)]@)
}

proof fn lemma_entry(es: Seq<Subscription>, i: int)
    requires
        unique(es),
        0 <= i < es.len(),
    ensures
        entries_map(es).contains_key(es[i].endpoint),
        entries_map(es)[es[i].endpoint] == es[i]@,
{
    let e = es[i].endpoint;
    assert(holds_endpoint(es, e));
    let j = position(es, e);
    assert(es[j].endpoint == e);
}

proof fn lemma_update(es: Seq<Subscription>, i: int, s: Subscription)
    requires
        unique(es),
        0 <= i < es.len(),
        s.endpoint == es[i].endpoint,
    ensures
        unique(es.update(i, s)),
        entries_map(es.update(i, s)) == entries_map(es).insert(s.endpoint, s@),
{
    let ns = es.update(i, s);
    assert(unique(ns)) by {
        assert forall|a: int, b: int|
            0 <= a < ns.len() && 0 <= b < ns.len() && (#[trigger] ns[a]).endpoint == (
            #[trigger] ns[b]).endpoint implies a == b by {
            assert(ns[a].endpoint == es[a].endpoint);
            assert(ns[b].endpoint == es[b].endpoint);
        }
    }
    let m = entries_map(es).insert(s.endpoint, s@);
    assert forall|e: Endpoint| #[trigger] entries_map(ns).contains_key(e) <==> m.contains_key(e) by {
        if holds_endpoint(ns, e) {
            let j = choose|j: int| 0 <= j < ns.len() && (#[trigger] ns[j]).endpoint == e;
            assert(es[j].endpoint == e);
        }
        if holds_endpoint(es, e) {
            let j = choose|j: int| 0 <= j < es.len() && (#[trigger] es[j]).endpoint == e;
            assert(ns[j].endpoint == e);
        }
        if e == s.endpoint {
            assert(ns[i].endpoint == e);
        }
    }
    assert forall|e: Endpoint| #[trigger] entries_map(ns).contains_key(e) implies entries_map(ns)[e]
        == m[e] by {
        let j = position(ns, e);
        assert(ns[j].endpoint == e);
        lemma_entry(ns, j);
        if j != i {
            lemma_entry(es, j);
        }
    }
    assert(entries_map(ns) =~= m);
}

proof fn lemma_push(es: Seq<Subscription>, s: Subscription)
    requires
        unique(es),
        !holds_endpoint(es, s.endpoint),
    ensures
        unique(es.push(s)),
        entries_map(es.push(s)) == entries_map(es).insert(s.endpoint, s@),
{
    let ns = es.push(s);
    let n = es.len() as int;
    assert(unique(ns)) by {
        assert forall|a: int, b: int|
            0 <= a < ns.len() && 0 <= b < ns.len() && (#[trigger] ns[a]).endpoint == (
            #[trigger] ns[b]).endpoint implies a == b by {
            if a < n && b == n {
                assert(es[a].endpoint == s.endpoint);
            }
            if b < n && a == n {
                assert(es[b].endpoint == s.endpoint);
            }
            if a < n && b < n {
                assert(ns[a] == es[a] && ns[b] == es[b]);
            }
        }
    }
    let m = entries_map(es).insert(s.endpoint, s@);
    assert forall|e: Endpoint| #[trigger] entries_map(ns).contains_key(e) <==> m.contains_key(e) by {
        if holds_endpoint(ns, e) {
            let j = choose|j: int| 0 <= j < ns.len() && (#[trigger] ns[j]).endpoint == e;
            if j < n {
                assert(es[j].endpoint == e);
            }
        }
        if holds_endpoint(es, e) {
            let j = choose|j: int| 0 <= j < es.len() && (#[trigger] es[j]).endpoint == e;
            assert(ns[j].endpoint == e);
        }
        if e == s.endpoint {
            assert(ns[n].endpoint == e);
        }
    }
    assert forall|e: Endpoint| #[trigger] entries_map(ns).contains_key(e) implies entries_map(ns)[e]
        == m[e] by {
        let j = position(ns, e);
        assert(ns[j].endpoint == e);
        lemma_entry(ns, j);
        if j != n {
            assert(ns[j] == es[j]);
            lemma_entry(es, j);
        }
    }
    assert(entries_map(ns) =~= m);
}

proof fn lemma_remove(es: Seq<Subscription>, i: int)
    requires
        unique(es),
        0 <= i < es.len(),
    ensures
        unique(es.remove(i)),
        entries_map(es.remove(i)) == entries_map(es).remove(es[i].endpoint),
{
    let ns = es.remove(i);
    let k = es[i].endpoint;
    assert forall|a: int| 0 <= a < ns.len() implies #[trigger] ns[a] == es[if a < i {
        a
    } else {
        a + 1
    }] by {}
    assert(unique(ns)) by {
        assert forall|a: int, b: int|
            0 <= a < ns.len() && 0 <= b < ns.len() && (#[trigger] ns[a]).endpoint == (
            #[trigger] ns[b]).endpoint implies a == b by {
            let a1 = if a < i {
                a
            } else {
                a + 1
            };
            let b1 = if b < i {
                b
            } else {
                b + 1
            };
            assert(es[a1].endpoint == es[b1].endpoint);
        }
    }
    let m = entries_map(es).remove(k);
    assert forall|e: Endpoint| #[trigger] entries_map(ns).contains_key(e) <==> m.contains_key(e) by {
        if holds_endpoint(ns, e) {
            let j = choose|j: int| 0 <= j < ns.len() && (#[trigger] ns[j]).endpoint == e;
            let j1 = if j < i {
                j
            } else {
                j + 1
            };
            assert(es[j1].endpoint == e);
            assert(e != k);
        }
        if holds_endpoint(es, e) && e != k {
            let j = choose|j: int| 0 <= j < es.len() && (#[trigger] es[j]).endpoint == e;
            assert(j != i);
            let j0 = if j < i {
                j
            } else {
                j - 1
            };
            assert(ns[j0].endpoint == e);
        }
    }
    assert forall|e: Endpoint| #[trigger] entries_map(ns).contains_key(e) implies entries_map(ns)[e]
        == m[e] by {
        let j = position(ns, e);
        assert(ns[j].endpoint == e);
        lemma_entry(ns, j);
        let j1 = if j < i {
            j
        } else {
            j + 1
        };
        lemma_entry(es, j1);
    }
    assert(entries_map(ns) =~= m);
}

/// The subscriptions, at most one per endpoint.
#[derive(Debug)]
pub struct Registry {
    entries: Vec<Subscription>,
    symbols: usize,
}

impl View for Registry {
    type V = RegistryMap;

    closed spec fn view(&self) -> RegistryMap {
        entries_map(self.entries@)
    }
}

impl Registry {
    /// Every subscription names its own endpoint once and holds a valid
    /// ticker list.
    pub closed spec fn wf(&self) -> bool {
        &&& unique(self.entries@)
        &&& forall|i: int|
            0 <= i < self.entries@.len() ==> valid_tickers(
                (#[trigger] self.entries@[i]).tickers@,
                self.symbols as nat,
            )
    }

    /// The number of catalog symbols the tickers index.
    pub closed spec fn symbol_count(&self) -> nat {
        self.symbols as nat
    }

    /// An empty registry for a catalog of `symbols` tickers.
    pub fn new(symbols: usize) -> (r: Registry)
        ensures
            r.wf(),
            r@ == Map::<Endpoint, SubscriptionView>::empty(),
            r.symbol_count() == symbols,
    {
        let r = Registry { entries: Vec::new(), symbols };
        assert(r@ =~= Map::<Endpoint, SubscriptionView>::empty());
        r
    }

    /// The number of subscriptions.
    pub fn len(&self) -> (r: usize)
        requires
            self.wf(),
        ensures
            r == self@.len(),
    {
        proof {
            self.lemma_len();
        }
        self.entries.len()
    }

    proof fn lemma_len(&self)
        requires
            self.wf(),
        ensures
            self@.dom().finite(),
            self@.len() == self.entries@.len(),
        decreases self.entries@.len(),
    {
        let es = self.entries@;
        let f = |i: int| es[i].endpoint;
        let idx = Set::new(|i: int| 0 <= i < es.len());
        assert(idx =~= vstd::set_lib::set_int_range(0, es.len() as int));
        vstd::set_lib::lemma_int_range(0, es.len() as int);
        assert(self@.dom() =~= idx.map(f)) by {
            assert forall|e: Endpoint| self@.dom().contains(e) implies idx.map(f).contains(e) by {
                let j = choose|j: int| 0 <= j < es.len() && (#[trigger] es[j]).endpoint == e;
                assert(idx.contains(j) && f(j) == e);
            }
            assert forall|e: Endpoint| idx.map(f).contains(e) implies self@.dom().contains(e) by {
                let j = choose|j: int| idx.contains(j) && f(j) == e;
                assert(es[j].endpoint == e);
            }
        }
        assert(vstd::relations::injective_on(f, idx)) by {
            assert forall|a: int, b: int| idx.contains(a) && idx.contains(b) && #[trigger] f(a) == #[trigger] f(b) implies a == b by {
                assert(es[a].endpoint == es[b].endpoint);
            }
        }
        vstd::set_lib::lemma_map_size(idx, idx.map(f), f);
    }

    fn find(&self, e: Endpoint) -> (r: Option<usize>)
        requires
            self.wf(),
        ensures
            r matches Some(i) ==> i < self.entries@.len() && self.entries@[i as int].endpoint == e,
            r is None ==> !holds_endpoint(self.entries@, e),
    {
        let mut i: usize = 0;
        while i < self.entries.len()
            invariant
                i <= self.entries@.len(),
                forall|j: int| 0 <= j < i ==> (#[trigger] self.entries@[j]).endpoint != e,
            decreases self.entries.len() - i,
        {
            if self.entries[i].endpoint == e {
                return Some(i);
            }
            i = i + 1;
        }
        None
    }

    /// Whether `e` has a subscription.
    pub fn contains(&self, e: Endpoint) -> (r: bool)
        requires
            self.wf(),
        ensures
            r == self@.contains_key(e),
    {
        self.find(e).is_some()
    }

    /// The ticker list of `e`'s subscription, if it has one.
    pub fn tickers_of(&self, e: Endpoint) -> (r: Option<Vec<usize>>)
        requires
            self.wf(),
        ensures
            r is Some <==> self@.contains_key(e),
            r matches Some(ts) ==> ts@ == self@[e].tickers,
    {
        match self.find(e) {
            Some(i) => {
                proof {
                    lemma_entry(self.entries@, i as int);
                }
                Some(copy_indices(&self.entries[i].tickers))
            },
            None => None,
        }
    }

    /// Creates or replaces the subscription of `e`, heard from at `now`.
    pub fn upsert(&mut self, e: Endpoint, tickers: Vec<usize>, now: u64)
        requires
            old(self).wf(),
            valid_tickers(tickers@, old(self).symbol_count()),
        ensures
            final(self).wf(),
            final(self).symbol_count() == old(self).symbol_count(),
            final(self)@ == upsert_model(old(self)@, e, tickers@, now),
    {
        let ghost ts = tickers@;
        match self.find(e) {
            Some(i) => {
                proof {
                    lemma_entry(self.entries@, i as int);
                }
                let prev = self.entries[i].last_seen;
                let seen = if prev > now {
                    prev
                } else {
                    now
                };
                let s = Subscription { endpoint: e, tickers, last_seen: seen };
                proof {
                    lemma_update(self.entries@, i as int, s);
                }
                self.entries.set(i, s);
            },
            None => {
                let s = Subscription { endpoint: e, tickers, last_seen: now };
                proof {
                    lemma_push(self.entries@, s);
                }
                self.entries.push(s);
            },
        }
        assert(self@ =~= upsert_model(old(self)@, e, ts, now));
    }

    /// Refreshes the last-seen instant of `e`; an unknown endpoint is left alone.
    pub fn touch(&mut self, e: Endpoint, now: u64)
        requires
            old(self).wf(),
        ensures
            final(self).wf(),
            final(self).symbol_count() == old(self).symbol_count(),
            final(self)@ == touch_model(old(self)@, e, now),
    {
        match self.find(e) {
            Some(i) => {
                proof {
                    lemma_entry(self.entries@, i as int);
                }
                let prev = self.entries[i].last_seen;
                let seen = if prev > now {
                    prev
                } else {
                    now
                };
                let tickers = copy_indices(&self.entries[i].tickers);
                let s = Subscription { endpoint: e, tickers, last_seen: seen };
                proof {
                    lemma_update(self.entries@, i as int, s);
                }
                self.entries.set(i, s);
            },
            None => {},
        }
    }

    /// Deletes the subscription of `e`; tells whether there was one.
    pub fn remove(&mut self, e: Endpoint) -> (r: bool)
        requires
            old(self).wf(),
        ensures
            final(self).wf(),
            final(self).symbol_count() == old(self).symbol_count(),
            final(self)@ == old(self)@.remove(e),
            r == old(self)@.contains_key(e),
    {
        match self.find(e) {
            Some(i) => {
                proof {
                    lemma_entry(self.entries@, i as int);
                    lemma_remove(self.entries@, i as int);
                }
                self.entries.remove(i);
                true
            },
            None => {
                assert(self@ =~= old(self)@.remove(e));
                false
            },
        }
    }

    /// The endpoints subscribed to ticker `t`, each once.
    pub fn snapshot_for(&self, t: usize) -> (r: Vec<Endpoint>)
        requires
            self.wf(),
        ensures
            r@.no_duplicates(),
            r@.to_set() == subscribers(self@, t),
    {
        let mut r: Vec<Endpoint> = Vec::new();
        let mut i: usize = 0;
        while i < self.entries.len()
            invariant
                self.wf(),
                i <= self.entries@.len(),
                r@.no_duplicates(),
                forall|e: Endpoint|
                    r@.contains(e) <==> exists|j: int|
                        0 <= j < i && (#[trigger] self.entries@[j]).endpoint == e
                            && self.entries@[j].tickers@.contains(t),
            decreases self.entries.len() - i,
        {
            let s = &self.entries[i];
            let ghost r0 = r@;
            let ghost i0 = i as int;
            let hit = contains_index(&s.tickers, t);
            if hit {
                proof {
                    if r@.contains(s.endpoint) {
                        let j = choose|j: int|
                            0 <= j < i && (#[trigger] self.entries@[j]).endpoint == s.endpoint
                                && self.entries@[j].tickers@.contains(t);
                        assert(self.entries@[j].endpoint == self.entries@[i as int].endpoint);
                    }
                }
                r.push(s.endpoint);
            }
            i = i + 1;
            assert forall|e: Endpoint|
                r@.contains(e) <==> exists|j: int|
                    0 <= j < i && (#[trigger] self.entries@[j]).endpoint == e
                        && self.entries@[j].tickers@.contains(t) by {
                if r@.contains(e) {
                    if r0.contains(e) {
                        let j = choose|j: int|
                            0 <= j < i0 && (#[trigger] self.entries@[j]).endpoint == e
                                && self.entries@[j].tickers@.contains(t);
                        assert(0 <= j < i);
                    } else {
                        let k = choose|k: int| 0 <= k < r@.len() && r@[k] == e;
                        assert(k == r0.len());
                        assert(self.entries@[i0].endpoint == e);
                    }
                }
                if exists|j: int|
                    0 <= j < i && (#[trigger] self.entries@[j]).endpoint == e
                        && self.entries@[j].tickers@.contains(t) {
                    let j = choose|j: int|
                        0 <= j < i && (#[trigger] self.entries@[j]).endpoint == e
                            && self.entries@[j].tickers@.contains(t);
                    if j < i0 {
                        assert(r0.contains(e));
                        let k = choose|k: int| 0 <= k < r0.len() && r0[k] == e;
                        assert(r@[k] == e);
                    } else {
                        assert(r@.last() == e);
                    }
                }
            }
        }
        assert(r@.to_set() =~= subscribers(self@, t)) by {
            assert forall|e: Endpoint| r@.to_set().contains(e) implies subscribers(self@, t).contains(
                e,
            ) by {
                assert(r@.contains(e));
                let j = choose|j: int|
                    0 <= j < i && (#[trigger] self.entries@[j]).endpoint == e
                        && self.entries@[j].tickers@.contains(t);
                lemma_entry(self.entries@, j);
            }
            assert forall|e: Endpoint| subscribers(self@, t).contains(e) implies r@.to_set().contains(
                e,
            ) by {
                let j = position(self.entries@, e);
                assert(self.entries@[j].endpoint == e);
                lemma_entry(self.entries@, j);
                assert(r@.contains(e));
            }
        }
        r
    }

    /// Removes every stale entry at `now` and returns their endpoints, each once.
    pub fn evict_stale(&mut self, now: u64, timeout: u64) -> (r: Vec<Endpoint>)
        requires
            old(self).wf(),
        ensures
            final(self).wf(),
            final(self).symbol_count() == old(self).symbol_count(),
            final(self)@ == evict_model(old(self)@, now, timeout),
            r@.no_duplicates(),
            forall|e: Endpoint|
                #[trigger] r@.contains(e) <==> old(self)@.contains_key(e) && is_stale(
                    old(self)@[e].last_seen,
                    now,
                    timeout,
                ),
    {
        let ghost m0 = self@;
        let mut r: Vec<Endpoint> = Vec::new();
        let mut i: usize = 0;
        while i < self.entries.len()
            invariant
                self.wf(),
                self.symbols == old(self).symbols,
                m0 == old(self)@,
                i <= self.entries@.len(),
                forall|e: Endpoint| #[trigger]
                    self@.contains_key(e) ==> m0.contains_key(e) && self@[e] == m0[e],
                forall|e: Endpoint|
                    m0.contains_key(e) ==> (!self@.contains_key(e) <==> #[trigger] r@.contains(e)),
                forall|e: Endpoint|
                    #[trigger] r@.contains(e) ==> m0.contains_key(e) && is_stale(
                        m0[e].last_seen,
                        now,
                        timeout,
                    ),
                forall|j: int|
                    0 <= j < i ==> !is_stale(
                        (#[trigger] self.entries@[j]).last_seen,
                        now,
                        timeout,
                    ),
                r@.no_duplicates(),
            decreases self.entries.len() - i,
        {
            let ls = self.entries[i].last_seen;
            if now as u128 > ls as u128 + timeout as u128 {
                let e = self.entries[i].endpoint;
                let ghost before = self.entries@;
                let ghost prev = self@;
                let ghost r0 = r@;
                proof {
                    lemma_entry(self.entries@, i as int);
                    lemma_remove(self.entries@, i as int);
                    assert(!r0.contains(e));
                }
                self.entries.remove(i);
                r.push(e);
                assert(self@ == prev.remove(e));
                assert forall|k: Endpoint| #[trigger] r@.contains(k) <==> r0.contains(k) || k == e by {
                    if r@.contains(k) && !r0.contains(k) {
                        let x = choose|x: int| 0 <= x < r@.len() && r@[x] == k;
                        assert(x == r0.len());
                    }
                    if r0.contains(k) {
                        let x = choose|x: int| 0 <= x < r0.len() && r0[x] == k;
                        assert(r@[x] == k);
                    }
                    if k == e {
                        assert(r@[r0.len() as int] == k);
                    }
                }
                assert forall|j: int| 0 <= j < i implies !is_stale(
                    (#[trigger] self.entries@[j]).last_seen,
                    now,
                    timeout,
                ) by {
                    assert(self.entries@[j] == before[j]);
                }
            } else {
                i = i + 1;
            }
        }
        let ghost fin = evict_model(m0, now, timeout);
        assert forall|e: Endpoint| #[trigger] self@.contains_key(e) <==> fin.contains_key(e) by {
            assert(fin.contains_key(e) <==> m0.contains_key(e) && !is_stale(
                m0[e].last_seen,
                now,
                timeout,
            ));
            if m0.contains_key(e) && !self@.contains_key(e) {
                assert(r@.contains(e));
            }
            if self@.contains_key(e) {
                let j = position(self.entries@, e);
                assert(self.entries@[j].endpoint == e);
                lemma_entry(self.entries@, j);
            }
        }
        assert(self@ =~= evict_model(m0, now, timeout)) by {
            assert forall|e: Endpoint| self@.contains_key(e) implies !is_stale(
                self@[e].last_seen,
                now,
                timeout,
            ) by {
                let j = position(self.entries@, e);
                assert(self.entries@[j].endpoint == e);
                lemma_entry(self.entries@, j);
            }
        }
        r
    }
}

/// Whether the index list `ts` holds `t`.
pub fn contains_index(ts: &Vec<usize>, t: usize) -> (r: bool)
    ensures
        r == ts@.contains(t),
{
    let mut i: usize = 0;
    while i < ts.len()
        invariant
            i <= ts@.len(),
            forall|j: int| 0 <= j < i ==> ts@[j] != t,
        decreases ts.len() - i,
    {
        if ts[i] == t {
            return true;
        }
        i = i + 1;
    }
    false
}

/// A copy of the index list `ts`.
pub fn copy_indices(ts: &Vec<usize>) -> (r: Vec<usize>)
    ensures
        r@ == ts@,
{
    let mut r: Vec<usize> = Vec::new();
    let mut i: usize = 0;
    while i < ts.len()
        invariant
            i <= ts@.len(),
            r@ == ts@.subrange(0, i as int),
        decreases ts.len() - i,
    {
        r.push(ts[i]);
        i = i + 1;
        assert(r@ =~= ts@.subrange(0, i as int));
    }
    assert(ts@.subrange(0, ts@.len() as int) == ts@);
    r
}

/// A sweep at `now` removes an entry silent for longer than the timeout,
/// and keeps an entry refreshed within the timeout.
pub proof fn lemma_keepalive(m: RegistryMap, e: Endpoint, t: u64, now: u64, timeout: u64)
    requires
        m.contains_key(e),
    ensures
        is_stale(m[e].last_seen, now, timeout) ==> !evict_model(m, now, timeout).contains_key(e),
        now as int - t as int <= timeout as int ==> evict_model(
            touch_model(m, e, t),
            now,
            timeout,
        ).contains_key(e),
{
    let m1 = touch_model(m, e, t);
    assert(m1.contains_key(e));
    assert(m1[e].last_seen >= t);
    if now as int - t as int <= timeout as int {
        assert(!is_stale(m1[e].last_seen, now, timeout));
        assert(m1.dom().filter(|k: Endpoint| !is_stale(m1[k].last_seen, now, timeout)).contains(e));
    }
}

/// Two upserts on one endpoint leave a single entry for it, holding the
/// later ticker list and the later of the two instants; other entries are
/// untouched.
pub proof fn lemma_upserts_same_endpoint(
    m: RegistryMap,
    e: Endpoint,
    ts1: Seq<usize>,
    n1: u64,
    ts2: Seq<usize>,
    n2: u64,
)
    ensures
        ({
            let m2 = upsert_model(upsert_model(m, e, ts1, n1), e, ts2, n2);
            &&& m2.dom() == m.dom().insert(e)
            &&& m2[e].tickers == ts2
            &&& m2[e].last_seen >= n1 && m2[e].last_seen >= n2
            &&& (!m.contains_key(e) ==> m2[e].last_seen == if n1 > n2 {
                n1
            } else {
                n2
            })
            &&& forall|k: Endpoint| k != e && m.contains_key(k) ==> #[trigger] m2[k] == m[k]
        }),
{
    let m2 = upsert_model(upsert_model(m, e, ts1, n1), e, ts2, n2);
    assert(m2.dom() =~= m.dom().insert(e));
}

/// After `e` subscribes to `ts`, `e` is a subscriber of every ticker of `ts`.
pub proof fn lemma_subscribed_visible(m: RegistryMap, e: Endpoint, ts: Seq<usize>, now: u64)
    ensures
        forall|t: usize| #[trigger] ts.contains(t) ==> subscribers(upsert_model(m, e, ts, now), t).contains(e),
{
    let m1 = upsert_model(m, e, ts, now);
    assert forall|t: usize| #[trigger] ts.contains(t) implies subscribers(m1, t).contains(e) by {
        assert(m1.contains_key(e) && m1[e].tickers == ts);
    }
}

} // verus!
