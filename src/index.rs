//! The renewal index: buckets of subscriptions due at a tick for a user, kept
//! in lock-step with each user's set of renewal ticks.
use vstd::prelude::*;
use std::collections::HashMap;
use crate::types::{AccountId, SubscriptionInfo, Tick};

verus! {

broadcast use vstd::std_specs::hash::group_hash_axioms;

/// The map key of the bucket of user `u` at tick `t`.
spec fn bucket_key(t: Tick, u: AccountId) -> u128 {
    (t as int * 0x1_0000_0000_0000_0000 + u as int) as u128
}

proof fn lemma_bucket_key_in_range(t: Tick, u: AccountId)
    ensures
        0 <= t as int * 0x1_0000_0000_0000_0000 + u as int <= u128::MAX,
{
    assert(0 <= t as int * 0x1_0000_0000_0000_0000 + u as int <= u128::MAX) by (nonlinear_arith)
        requires
            0 <= t <= u64::MAX,
            0 <= u <= u64::MAX,
    ;
}

broadcast proof fn lemma_bucket_key_injective(t1: Tick, u1: AccountId, t2: Tick, u2: AccountId)
    ensures
        #[trigger] bucket_key(t1, u1) == #[trigger] bucket_key(t2, u2) ==> t1 == t2 && u1 == u2,
{
    lemma_bucket_key_in_range(t1, u1);
    lemma_bucket_key_in_range(t2, u2);
    let a = t1 as int * 0x1_0000_0000_0000_0000 + u1 as int;
    let b = t2 as int * 0x1_0000_0000_0000_0000 + u2 as int;
    if a == b {
        assert(t1 == t2 && u1 == u2) by (nonlinear_arith)
            requires
                a == t1 as int * 0x1_0000_0000_0000_0000 + u1 as int,
                b == t2 as int * 0x1_0000_0000_0000_0000 + u2 as int,
                a == b,
                0 <= u1 <= u64::MAX,
                0 <= u2 <= u64::MAX,
                0 <= t1,
                0 <= t2,
        ;
    }
}

fn make_bucket_key(t: Tick, u: AccountId) -> (k: u128)
    ensures
        k == bucket_key(t, u),
{
    proof {
        lemma_bucket_key_in_range(t, u);
    }
    (t as u128) * 0x1_0000_0000_0000_0000u128 + (u as u128)
}

/// `s` without the occurrences of `x`, in order.
pub open spec fn without<A>(s: Seq<A>, x: A) -> Seq<A> {
    s.filter(|y: A| y != x)
}

/// What removing every occurrence of `x` keeps.
pub proof fn lemma_without<A>(s: Seq<A>, x: A)
    ensures
        forall|y: A| #[trigger] without(s, x).contains(y) <==> s.contains(y) && y != x,
        s.no_duplicates() ==> without(s, x).no_duplicates(),
        without(s, x).len() <= s.len(),
        !s.contains(x) ==> without(s, x) == s,
        s.no_duplicates() && s.contains(x) ==> without(s, x).len() == s.len() - 1,
    decreases s.len(),
{
    if s.len() > 0 {
        let p = s.drop_last();
        let a = s.last();
        lemma_without(p, x);
        assert(s =~= p.push(a));
        assert(forall|y: A| s.contains(y) <==> p.contains(y) || y == a) by {
            assert forall|y: A| s.contains(y) implies p.contains(y) || y == a by {
                let k = choose|k: int| 0 <= k < s.len() && s[k] == y;
                if k < p.len() {
                    assert(p[k] == y);
                }
            }
            assert forall|y: A| p.contains(y) implies s.contains(y) by {
                let k = choose|k: int| 0 <= k < p.len() && p[k] == y;
                assert(s[k] == y);
            }
            assert(s[p.len() as int] == a);
        }
        let wp = without(p, x);
        if a != x {
            assert(without(s, x) == wp.push(a)) by {
                reveal(Seq::filter);
            }
            let w = wp.push(a);
            assert forall|y: A| w.contains(y) <==> wp.contains(y) || y == a by {
                if w.contains(y) {
                    let k = choose|k: int| 0 <= k < w.len() && w[k] == y;
                    if k < wp.len() {
                        assert(wp[k] == y);
                    }
                }
                if wp.contains(y) {
                    let k = choose|k: int| 0 <= k < wp.len() && wp[k] == y;
                    assert(w[k] == y);
                }
                assert(w[wp.len() as int] == a);
            }
            if s.no_duplicates() {
                assert(p.no_duplicates());
                assert(!p.contains(a)) by {
                    if p.contains(a) {
                        let k = choose|k: int| 0 <= k < p.len() && p[k] == a;
                        assert(s[k] == s[p.len() as int]);
                    }
                }
                assert forall|i: int, j: int| 0 <= i < j < w.len() implies w[i] != w[j] by {
                    if j == wp.len() {
                        assert(wp[i] == w[i]);
                        assert(wp.contains(w[i]));
                    } else {
                        assert(wp[i] == w[i] && wp[j] == w[j]);
                    }
                }
            }
            if !s.contains(x) {
                assert(w =~= s);
            }
        } else {
            assert(without(s, x) == wp) by {
                reveal(Seq::filter);
            }
            assert(s.contains(x)) by {
                assert(s[p.len() as int] == a);
            }
            if s.no_duplicates() {
                assert(p.no_duplicates());
                assert(!p.contains(a)) by {
                    if p.contains(a) {
                        let k = choose|k: int| 0 <= k < p.len() && p[k] == a;
                        assert(s[k] == s[p.len() as int]);
                    }
                }
            }
        }
    } else {
        assert(without(s, x) == s) by {
            reveal(Seq::filter);
        }
    }
}

/// What appending `x` to `s` keeps.
pub proof fn lemma_push_facts<A>(s: Seq<A>, x: A)
    ensures
        forall|y: A| #[trigger] s.push(x).contains(y) <==> s.contains(y) || y == x,
        s.no_duplicates() && !s.contains(x) ==> s.push(x).no_duplicates(),
{
    let w = s.push(x);
    assert forall|y: A| #[trigger] w.contains(y) <==> s.contains(y) || y == x by {
        if w.contains(y) {
            let k = choose|k: int| 0 <= k < w.len() && w[k] == y;
            if k < s.len() {
                assert(s[k] == y);
            }
        }
        if s.contains(y) {
            let k = choose|k: int| 0 <= k < s.len() && s[k] == y;
            assert(w[k] == y);
        }
        assert(w[s.len() as int] == x);
    }
    if s.no_duplicates() && !s.contains(x) {
        assert forall|i: int, j: int| 0 <= i < j < w.len() implies w[i] != w[j] by {
            if j == s.len() {
                assert(s[i] == w[i]);
                assert(s.contains(w[i]));
            } else {
                assert(s[i] == w[i] && s[j] == w[j]);
            }
        }
    }
}

/// Returns `v` without the occurrences of `x`, in order.
fn without_value(v: &Vec<Tick>, x: Tick) -> (r: Vec<Tick>)
    ensures
        r@ == without(v@, x),
{
    let mut r: Vec<Tick> = Vec::new();
    let mut i: usize = 0;
    while i < v.len()
        invariant
            i <= v@.len(),
            r@ == without(v@.subrange(0, i as int), x),
        decreases v@.len() - i,
    {
        let ghost prev = v@.subrange(0, i as int);
        let ghost next = v@.subrange(0, i as int + 1);
        assert(next.drop_last() =~= prev);
        let y = v[i];
        if !(y == x) {
            r.push(y);
            assert(without(next, x) == without(prev, x).push(y)) by {
                reveal(Seq::filter);
            }
        } else {
            assert(without(next, x) == without(prev, x)) by {
                reveal(Seq::filter);
            }
        }
        i = i + 1;
    }
    assert(v@.subrange(0, v@.len() as int) =~= v@);
    r
}

/// Returns `v` without the occurrences of `x`, in order.
fn without_subscription(v: &Vec<SubscriptionInfo>, x: SubscriptionInfo) -> (r: Vec<SubscriptionInfo>)
    ensures
        r@ == without(v@, x),
{
    let mut r: Vec<SubscriptionInfo> = Vec::new();
    let mut i: usize = 0;
    while i < v.len()
        invariant
            i <= v@.len(),
            r@ == without(v@.subrange(0, i as int), x),
        decreases v@.len() - i,
    {
        let ghost prev = v@.subrange(0, i as int);
        let ghost next = v@.subrange(0, i as int + 1);
        assert(next.drop_last() =~= prev);
        let y = v[i];
        if !(y.service_provider == x.service_provider && y.service == x.service) {
            r.push(y);
            assert(without(next, x) == without(prev, x).push(y)) by {
                reveal(Seq::filter);
            }
        } else {
            assert(without(next, x) == without(prev, x)) by {
                reveal(Seq::filter);
            }
        }
        i = i + 1;
    }
    assert(v@.subrange(0, v@.len() as int) =~= v@);
    r
}

/// Whether `v` holds `x`.
fn holds_subscription(v: &Vec<SubscriptionInfo>, x: SubscriptionInfo) -> (b: bool)
    ensures
        b == v@.contains(x),
{
    let mut i: usize = 0;
    while i < v.len()
        invariant
            i <= v@.len(),
            forall|k: int| 0 <= k < i ==> v@[k] != x,
        decreases v@.len() - i,
    {
        let y = v[i];
        if y.service_provider == x.service_provider && y.service == x.service {
            assert(v@[i as int] == x);
            return true;
        }
        i = i + 1;
    }
    false
}

/// The forward index, from a renewal tick and a user to that user's
/// subscriptions due at the tick, and the reverse index, from a user to the
/// ticks at which the user has something due.
pub struct RenewalIndex {
    /// The bucket of each (tick, user), under `bucket_key`.
    buckets: HashMap<u128, Vec<SubscriptionInfo>>,
    /// The users that have a bucket at each tick.
    due: HashMap<Tick, Vec<AccountId>>,
    /// The ticks at which each user has a bucket.
    user_ticks: HashMap<AccountId, Vec<Tick>>,
    max: u32,
}

impl RenewalIndex {
    /// The most subscriptions in one bucket, and the most renewal ticks of one
    /// user.
    pub closed spec fn max(&self) -> u32 {
        self.max
    }

    /// Whether a bucket is stored for user `u` at tick `t`.
    pub closed spec fn has_bucket(&self, t: Tick, u: AccountId) -> bool {
        self.buckets@.contains_key(bucket_key(t, u))
    }

    /// The subscriptions of user `u` due at tick `t`.
    pub closed spec fn bucket(&self, t: Tick, u: AccountId) -> Seq<SubscriptionInfo> {
        if self.buckets@.contains_key(bucket_key(t, u)) {
            self.buckets@[bucket_key(t, u)]@
        } else {
            Seq::empty()
        }
    }

    /// The ticks at which user `u` has a bucket, in the order they were added.
    pub closed spec fn ticks(&self, u: AccountId) -> Seq<Tick> {
        if self.user_ticks@.contains_key(u) {
            self.user_ticks@[u]@
        } else {
            Seq::empty()
        }
    }

    /// The users that have a bucket at tick `t`, in the order they were added.
    pub closed spec fn due(&self, t: Tick) -> Seq<AccountId> {
        if self.due@.contains_key(t) {
            self.due@[t]@
        } else {
            Seq::empty()
        }
    }

    /// Whether subscription `r` of user `u` is due at tick `t`.
    pub open spec fn holds(&self, t: Tick, u: AccountId, r: SubscriptionInfo) -> bool {
        self.bucket(t, u).contains(r)
    }

    /// Whether user `u` holds subscription `r` at some tick.
    pub open spec fn subscribed(&self, u: AccountId, r: SubscriptionInfo) -> bool {
        exists|t: Tick| #[trigger] self.holds(t, u, r)
    }

    /// The invariant of the two indexes: a stored bucket is never empty nor
    /// over the bound; a user lists a tick exactly when it has a bucket there,
    /// and a tick lists a user exactly when that user has a bucket there; no
    /// list repeats an item; and a user holds each subscription at one tick
    /// at most.
    pub open spec fn wf(&self) -> bool {
        &&& forall|t: Tick, u: AccountId| #[trigger]
            self.has_bucket(t, u) <==> self.bucket(t, u).len() > 0
        &&& forall|t: Tick, u: AccountId|
            #![trigger self.bucket(t, u)]
            self.bucket(t, u).len() <= self.max() && self.bucket(t, u).no_duplicates()
        &&& forall|t: Tick, u: AccountId|
            #![trigger self.has_bucket(t, u)]
            #![trigger self.ticks(u).contains(t)]
            self.has_bucket(t, u) <==> self.ticks(u).contains(t)
        &&& forall|t: Tick, u: AccountId|
            #![trigger self.has_bucket(t, u)]
            #![trigger self.due(t).contains(u)]
            self.has_bucket(t, u) <==> self.due(t).contains(u)
        &&& forall|u: AccountId|
            #![trigger self.ticks(u)]
            self.ticks(u).no_duplicates() && self.ticks(u).len() <= self.max()
        &&& forall|t: Tick| #![trigger self.due(t)] self.due(t).no_duplicates()
        &&& forall|t1: Tick, t2: Tick, u: AccountId, r: SubscriptionInfo|
            #[trigger] self.holds(t1, u, r) && #[trigger] self.holds(t2, u, r) ==> t1 == t2
    }

    /// An empty index with bound `max`.
    pub fn new(max: u32) -> (r: RenewalIndex)
        ensures
            r.wf(),
            r.max() == max,
            forall|t: Tick, u: AccountId| !#[trigger] r.has_bucket(t, u),
            forall|t: Tick, u: AccountId| #[trigger]
                r.bucket(t, u) == Seq::<SubscriptionInfo>::empty(),
            forall|u: AccountId| #[trigger] r.ticks(u) == Seq::<Tick>::empty(),
    {
        RenewalIndex {
            buckets: HashMap::new(),
            due: HashMap::new(),
            user_ticks: HashMap::new(),
            max,
        }
    }

    /// The ticks at which user `u` has a bucket.
    pub fn ticks_of(&self, u: AccountId) -> (r: Vec<Tick>)
        ensures
            r@ == self.ticks(u),
    {
        match self.user_ticks.get(&u) {
            Some(ts) => ts.clone(),
            None => Vec::new(),
        }
    }

    /// The subscriptions of user `u` due at tick `t`.
    pub fn bucket_of(&self, t: Tick, u: AccountId) -> (r: Vec<SubscriptionInfo>)
        ensures
            r@ == self.bucket(t, u),
    {
        let k = make_bucket_key(t, u);
        match self.buckets.get(&k) {
            Some(b) => b.clone(),
            None => Vec::new(),
        }
    }

    /// Whether a bucket is stored for user `u` at tick `t`.
    pub fn contains_bucket(&self, t: Tick, u: AccountId) -> (r: bool)
        ensures
            r == self.has_bucket(t, u),
    {
        let k = make_bucket_key(t, u);
        self.buckets.contains_key(&k)
    }

    /// The tick at which user `u` holds subscription `r`, found by looking
    /// only at the buckets of `u`'s own ticks.
    pub fn find_tick(&self, u: AccountId, r: SubscriptionInfo) -> (res: Option<Tick>)
        requires
            self.wf(),
        ensures
            match res {
                Some(t) => self.holds(t, u, r),
                None => !self.subscribed(u, r),
            },
    {
        let ts = match self.user_ticks.get(&u) {
            Some(ts) => ts,
            None => {
                assert forall|t: Tick| !self.holds(t, u, r) by {
                    if self.holds(t, u, r) {
                        assert(self.ticks(u).contains(t));
                    }
                }
                return None;
            },
        };
        let mut i: usize = 0;
        while i < ts.len()
            invariant
                self.wf(),
                ts@ == self.ticks(u),
                i <= ts@.len(),
                forall|k: int| 0 <= k < i ==> !self.holds(#[trigger] ts@[k], u, r),
            decreases ts@.len() - i,
        {
            let t = ts[i];
            let k = make_bucket_key(t, u);
            match self.buckets.get(&k) {
                Some(b) => {
                    if holds_subscription(b, r) {
                        return Some(t);
                    }
                },
                None => {},
            }
            i = i + 1;
        }
        assert forall|t: Tick| !self.holds(t, u, r) by {
            if self.holds(t, u, r) {
                assert(self.ticks(u).contains(t));
                let k = choose|k: int| 0 <= k < ts@.len() && ts@[k] == t;
                assert(!self.holds(ts@[k], u, r));
            }
        }
        None
    }

    /// Whether subscription can be added for user `u` at tick `t` within the
    /// bounds: the bucket has room, and the tick is already listed for `u` or
    /// `u`'s list has room.
    pub fn can_add(&self, u: AccountId, t: Tick) -> (b: bool)
        requires
            self.wf(),
        ensures
            b == (self.bucket(t, u).len() < self.max() && (self.ticks(u).contains(t)
                || self.ticks(u).len() < self.max())),
    {
        let k = make_bucket_key(t, u);
        let in_bucket: usize = match self.buckets.get(&k) {
            Some(b) => b.len(),
            None => 0,
        };
        let listed = self.buckets.contains_key(&k);
        let n_ticks: usize = match self.user_ticks.get(&u) {
            Some(ts) => ts.len(),
            None => 0,
        };
        in_bucket < self.max as usize && (listed || n_ticks < self.max as usize)
    }

    /// Adds subscription `r` of user `u` to the bucket at tick `t`, and lists
    /// `t` for `u` if it was not listed yet.
    pub fn add(&mut self, u: AccountId, t: Tick, r: SubscriptionInfo)
        requires
            old(self).wf(),
            old(self).bucket(t, u).len() < old(self).max(),
            old(self).ticks(u).contains(t) || old(self).ticks(u).len() < old(self).max(),
            !old(self).subscribed(u, r),
        ensures
            final(self).wf(),
            final(self).max() == old(self).max(),
            forall|t2: Tick, u2: AccountId| #[trigger]
                final(self).bucket(t2, u2) == if t2 == t && u2 == u {
                    old(self).bucket(t, u).push(r)
                } else {
                    old(self).bucket(t2, u2)
                },
            forall|u2: AccountId| #[trigger]
                final(self).ticks(u2) == if u2 == u && !old(self).ticks(u).contains(t) {
                    old(self).ticks(u).push(t)
                } else {
                    old(self).ticks(u2)
                },
            forall|t2: Tick| #[trigger]
                final(self).due(t2) == if t2 == t && !old(self).due(t).contains(u) {
                    old(self).due(t).push(u)
                } else {
                    old(self).due(t2)
                },
    {
        broadcast use lemma_bucket_key_injective;

        let k = make_bucket_key(t, u);
        let fresh = !self.buckets.contains_key(&k);
        let mut b = match self.buckets.remove(&k) {
            Some(b) => b,
            None => Vec::new(),
        };
        b.push(r);
        self.buckets.insert(k, b);
        if fresh {
            let mut us = match self.due.remove(&t) {
                Some(us) => us,
                None => Vec::new(),
            };
            us.push(u);
            self.due.insert(t, us);
            let mut ts = match self.user_ticks.remove(&u) {
                Some(ts) => ts,
                None => Vec::new(),
            };
            ts.push(t);
            self.user_ticks.insert(u, ts);
        }
        proof {
            let o = old(self);
            assert forall|t2: Tick, u2: AccountId| #[trigger]
                self.bucket(t2, u2) == if t2 == t && u2 == u {
                    o.bucket(t, u).push(r)
                } else {
                    o.bucket(t2, u2)
                } by {}
            assert forall|u2: AccountId| #[trigger]
                self.ticks(u2) == if u2 == u && !o.ticks(u).contains(t) {
                    o.ticks(u).push(t)
                } else {
                    o.ticks(u2)
                } by {}
            assert forall|t2: Tick| #[trigger]
                self.due(t2) == if t2 == t && !o.due(t).contains(u) {
                    o.due(t).push(u)
                } else {
                    o.due(t2)
                } by {}
            assert(!o.bucket(t, u).contains(r)) by {
                if o.bucket(t, u).contains(r) {
                    assert(o.holds(t, u, r));
                }
            }
            lemma_push_facts(o.bucket(t, u), r);
            if fresh {
                lemma_push_facts(o.ticks(u), t);
                lemma_push_facts(o.due(t), u);
            }
            assert forall|t1: Tick, t2: Tick, u2: AccountId, r2: SubscriptionInfo|
                #[trigger] self.holds(t1, u2, r2) && #[trigger] self.holds(t2, u2, r2) implies t1
                == t2 by {
                if !(u2 == u && r2 == r) {
                    assert(o.holds(t1, u2, r2));
                    assert(o.holds(t2, u2, r2));
                } else {
                    if t1 != t {
                        assert(o.holds(t1, u2, r2));
                    }
                    if t2 != t {
                        assert(o.holds(t2, u2, r2));
                    }
                }
            }
            assert forall|t2: Tick, u2: AccountId| #[trigger]
                self.has_bucket(t2, u2) <==> self.bucket(t2, u2).len() > 0 by {
                assert(o.has_bucket(t2, u2) <==> o.bucket(t2, u2).len() > 0);
            }
            assert forall|t2: Tick, u2: AccountId| #[trigger]
                self.bucket(t2, u2).len() <= self.max() && self.bucket(t2, u2).no_duplicates() by {
                assert(o.bucket(t2, u2).len() <= o.max() && o.bucket(t2, u2).no_duplicates());
            }
            assert forall|t2: Tick, u2: AccountId|
                self.has_bucket(t2, u2) <==> #[trigger] self.ticks(u2).contains(t2) by {
                assert(o.has_bucket(t2, u2) <==> o.ticks(u2).contains(t2));
                assert(o.has_bucket(t2, u2) <==> o.bucket(t2, u2).len() > 0);
            }
            assert forall|t2: Tick, u2: AccountId|
                self.has_bucket(t2, u2) <==> #[trigger] self.due(t2).contains(u2) by {
                assert(o.has_bucket(t2, u2) <==> o.due(t2).contains(u2));
                assert(o.has_bucket(t2, u2) <==> o.bucket(t2, u2).len() > 0);
            }
            assert forall|u2: AccountId| #[trigger]
                self.ticks(u2).no_duplicates() && self.ticks(u2).len() <= self.max() by {
                assert(o.ticks(u2).no_duplicates() && o.ticks(u2).len() <= o.max());
            }
            assert forall|t2: Tick| #[trigger] self.due(t2).no_duplicates() by {
                assert(o.due(t2).no_duplicates());
            }
        }
    }

    /// Removes subscription `r` of user `u` from the bucket at tick `t`. A
    /// bucket that becomes empty is dropped, and `t` is then unlisted for `u`
    /// and `u` for `t`.
    pub fn remove(&mut self, u: AccountId, t: Tick, r: SubscriptionInfo)
        requires
            old(self).wf(),
            old(self).holds(t, u, r),
        ensures
            final(self).wf(),
            final(self).max() == old(self).max(),
            forall|t2: Tick, u2: AccountId| #[trigger]
                final(self).bucket(t2, u2) == if t2 == t && u2 == u {
                    without(old(self).bucket(t, u), r)
                } else {
                    old(self).bucket(t2, u2)
                },
            forall|u2: AccountId| #[trigger]
                final(self).ticks(u2) == if u2 == u && old(self).bucket(t, u).len() == 1 {
                    without(old(self).ticks(u), t)
                } else {
                    old(self).ticks(u2)
                },
            forall|t2: Tick| #[trigger]
                final(self).due(t2) == if t2 == t && old(self).bucket(t, u).len() == 1 {
                    without(old(self).due(t), u)
                } else {
                    old(self).due(t2)
                },
    {
        broadcast use lemma_bucket_key_injective;

        let ghost o = *old(self);
        proof {
            lemma_without(o.bucket(t, u), r);
            lemma_without(o.ticks(u), t);
            lemma_without(o.due(t), u);
        }
        let k = make_bucket_key(t, u);
        let b = match self.buckets.remove(&k) {
            Some(b) => b,
            None => {
                assert(o.has_bucket(t, u));
                Vec::new()
            },
        };
        let nb = without_subscription(&b, r);
        if nb.len() > 0 {
            self.buckets.insert(k, nb);
        } else {
            match self.due.remove(&t) {
                Some(us) => {
                    let nus = without_value(&us, u);
                    if nus.len() > 0 {
                        self.due.insert(t, nus);
                    }
                },
                None => {
                    assert(o.due(t).contains(u));
                },
            }
            match self.user_ticks.remove(&u) {
                Some(ts) => {
                    let nts = without_value(&ts, t);
                    if nts.len() > 0 {
                        self.user_ticks.insert(u, nts);
                    }
                },
                None => {
                    assert(o.ticks(u).contains(t));
                },
            }
        }
        proof {
            assert(o.bucket(t, u).len() == 1 <==> without(o.bucket(t, u), r).len() == 0);
            assert forall|t2: Tick, u2: AccountId| #[trigger]
                self.bucket(t2, u2) == if t2 == t && u2 == u {
                    without(o.bucket(t, u), r)
                } else {
                    o.bucket(t2, u2)
                } by {
                if t2 == t && u2 == u && without(o.bucket(t, u), r).len() == 0 {
                    assert(without(o.bucket(t, u), r) =~= Seq::<SubscriptionInfo>::empty());
                }
            }
            assert forall|u2: AccountId| #[trigger]
                self.ticks(u2) == if u2 == u && o.bucket(t, u).len() == 1 {
                    without(o.ticks(u), t)
                } else {
                    o.ticks(u2)
                } by {
                if u2 == u && o.bucket(t, u).len() == 1 && without(o.ticks(u), t).len() == 0 {
                    assert(without(o.ticks(u), t) =~= Seq::<Tick>::empty());
                }
            }
            assert forall|t2: Tick| #[trigger]
                self.due(t2) == if t2 == t && o.bucket(t, u).len() == 1 {
                    without(o.due(t), u)
                } else {
                    o.due(t2)
                } by {
                if t2 == t && o.bucket(t, u).len() == 1 && without(o.due(t), u).len() == 0 {
                    assert(without(o.due(t), u) =~= Seq::<AccountId>::empty());
                }
            }
            assert forall|t1: Tick, t2: Tick, u2: AccountId, r2: SubscriptionInfo|
                #[trigger] self.holds(t1, u2, r2) && #[trigger] self.holds(t2, u2, r2) implies t1
                == t2 by {
                assert(o.holds(t1, u2, r2));
                assert(o.holds(t2, u2, r2));
            }
            assert forall|t2: Tick, u2: AccountId| #[trigger]
                self.has_bucket(t2, u2) <==> self.bucket(t2, u2).len() > 0 by {
                assert(o.has_bucket(t2, u2) <==> o.bucket(t2, u2).len() > 0);
            }
            assert forall|t2: Tick, u2: AccountId| #[trigger]
                self.bucket(t2, u2).len() <= self.max() && self.bucket(t2, u2).no_duplicates() by {
                assert(o.bucket(t2, u2).len() <= o.max() && o.bucket(t2, u2).no_duplicates());
                lemma_without(o.bucket(t2, u2), r);
            }
            assert forall|t2: Tick, u2: AccountId|
                self.has_bucket(t2, u2) <==> #[trigger] self.ticks(u2).contains(t2) by {
                assert(o.has_bucket(t2, u2) <==> o.ticks(u2).contains(t2));
                assert(o.has_bucket(t2, u2) <==> o.bucket(t2, u2).len() > 0);
                assert(self.has_bucket(t2, u2) <==> self.bucket(t2, u2).len() > 0);
            }
            assert forall|t2: Tick, u2: AccountId|
                self.has_bucket(t2, u2) <==> #[trigger] self.due(t2).contains(u2) by {
                assert(o.has_bucket(t2, u2) <==> o.due(t2).contains(u2));
                assert(o.has_bucket(t2, u2) <==> o.bucket(t2, u2).len() > 0);
                assert(self.has_bucket(t2, u2) <==> self.bucket(t2, u2).len() > 0);
            }
            assert forall|u2: AccountId| #[trigger]
                self.ticks(u2).no_duplicates() && self.ticks(u2).len() <= self.max() by {
                assert(o.ticks(u2).no_duplicates() && o.ticks(u2).len() <= o.max());
            }
            assert forall|t2: Tick| #[trigger] self.due(t2).no_duplicates() by {
                assert(o.due(t2).no_duplicates());
            }
        }
    }

    /// Takes every bucket at tick `t`, in the order in which the users were
    /// listed for `t`, and unlists `t` for each of those users.
    pub fn take_tick(&mut self, t: Tick) -> (res: Vec<(AccountId, Vec<SubscriptionInfo>)>)
        requires
            old(self).wf(),
        ensures
            final(self).wf(),
            final(self).max() == old(self).max(),
            res@.len() == old(self).due(t).len(),
            forall|i: int|
                0 <= i < res@.len() ==> (#[trigger] res@[i]).0 == old(self).due(t)[i]
                    && res@[i].1@ == old(self).bucket(t, old(self).due(t)[i]),
            forall|t2: Tick, u2: AccountId| #[trigger]
                final(self).bucket(t2, u2) == if t2 == t {
                    Seq::<SubscriptionInfo>::empty()
                } else {
                    old(self).bucket(t2, u2)
                },
            forall|u2: AccountId| #[trigger] final(self).ticks(u2) == without(old(self).ticks(u2), t),
            forall|t2: Tick| #[trigger]
                final(self).due(t2) == if t2 == t {
                    Seq::<AccountId>::empty()
                } else {
                    old(self).due(t2)
                },
    {
        broadcast use lemma_bucket_key_injective;

        let ghost o = *old(self);
        let users = match self.due.remove(&t) {
            Some(us) => us,
            None => Vec::new(),
        };
        let mut out: Vec<(AccountId, Vec<SubscriptionInfo>)> = Vec::new();
        let mut i: usize = 0;
        while i < users.len()
            invariant
                o.wf(),
                users@ == o.due(t),
                i <= users@.len(),
                self.max == o.max,
                forall|t2: Tick| #[trigger]
                    self.due(t2) == if t2 == t {
                        Seq::<AccountId>::empty()
                    } else {
                        o.due(t2)
                    },
                forall|t2: Tick, u2: AccountId| #[trigger]
                    self.bucket(t2, u2) == if t2 == t && users@.subrange(0, i as int).contains(u2) {
                        Seq::<SubscriptionInfo>::empty()
                    } else {
                        o.bucket(t2, u2)
                    },
                forall|t2: Tick, u2: AccountId| #[trigger]
                    self.has_bucket(t2, u2) == if t2 == t && users@.subrange(0, i as int).contains(
                        u2,
                    ) {
                        false
                    } else {
                        o.has_bucket(t2, u2)
                    },
                forall|u2: AccountId| #[trigger]
                    self.ticks(u2) == if users@.subrange(0, i as int).contains(u2) {
                        without(o.ticks(u2), t)
                    } else {
                        o.ticks(u2)
                    },
                out@.len() == i,
                forall|j: int|
                    0 <= j < i ==> (#[trigger] out@[j]).0 == users@[j] && out@[j].1@ == o.bucket(
                        t,
                        users@[j],
                    ),
            decreases users@.len() - i,
        {
            let u = users[i];
            let ghost done = users@.subrange(0, i as int);
            let ghost head = *self;
            proof {
                assert(users@.subrange(0, i as int + 1) =~= done.push(u));
                lemma_push_facts(done, u);
                assert(!done.contains(u)) by {
                    if done.contains(u) {
                        let k = choose|k: int| 0 <= k < done.len() && done[k] == u;
                        assert(users@[k] == users@[i as int]);
                    }
                }
                assert(o.due(t).contains(u));
                assert(o.has_bucket(t, u));
                assert(o.ticks(u).contains(t));
            }
            let k = make_bucket_key(t, u);
            let b = match self.buckets.remove(&k) {
                Some(b) => b,
                None => Vec::new(),
            };
            match self.user_ticks.remove(&u) {
                Some(ts) => {
                    let nts = without_value(&ts, t);
                    if nts.len() > 0 {
                        self.user_ticks.insert(u, nts);
                    }
                },
                None => {},
            }
            proof {
                assert(head.bucket(t, u) == o.bucket(t, u));
                assert(b@ == o.bucket(t, u));
            }
            let ghost out_before = out@;
            out.push((u, b));
            proof {
                let nd = users@.subrange(0, i as int + 1);
                assert forall|t2: Tick| #[trigger]
                    self.due(t2) == if t2 == t {
                        Seq::<AccountId>::empty()
                    } else {
                        o.due(t2)
                    } by {
                    assert(head.due(t2) == if t2 == t {
                        Seq::<AccountId>::empty()
                    } else {
                        o.due(t2)
                    });
                }
                assert forall|u2: AccountId| #[trigger]
                    self.ticks(u2) == if nd.contains(u2) {
                        without(o.ticks(u2), t)
                    } else {
                        o.ticks(u2)
                    } by {
                    assert(head.ticks(u2) == if done.contains(u2) {
                        without(o.ticks(u2), t)
                    } else {
                        o.ticks(u2)
                    });
                    if u2 == u && without(o.ticks(u), t).len() == 0 {
                        assert(without(o.ticks(u), t) =~= Seq::<Tick>::empty());
                    }
                }
                assert forall|t2: Tick, u2: AccountId| #[trigger]
                    self.bucket(t2, u2) == if t2 == t && nd.contains(u2) {
                        Seq::<SubscriptionInfo>::empty()
                    } else {
                        o.bucket(t2, u2)
                    } by {
                    assert(head.bucket(t2, u2) == if t2 == t && done.contains(u2) {
                        Seq::<SubscriptionInfo>::empty()
                    } else {
                        o.bucket(t2, u2)
                    });
                }
                assert forall|t2: Tick, u2: AccountId| #[trigger]
                    self.has_bucket(t2, u2) == if t2 == t && nd.contains(u2) {
                        false
                    } else {
                        o.has_bucket(t2, u2)
                    } by {
                    assert(head.has_bucket(t2, u2) == if t2 == t && done.contains(u2) {
                        false
                    } else {
                        o.has_bucket(t2, u2)
                    });
                }
                assert forall|j: int|
                    0 <= j < i + 1 implies (#[trigger] out@[j]).0 == users@[j] && out@[j].1@
                    == o.bucket(t, users@[j]) by {
                    if j < i {
                        assert(out_before[j] == out@[j]);
                    }
                }
            }
            i = i + 1;
        }
        proof {
            assert(users@.subrange(0, users@.len() as int) =~= users@);
            assert forall|t2: Tick, u2: AccountId| #[trigger]
                self.bucket(t2, u2) == if t2 == t {
                    Seq::<SubscriptionInfo>::empty()
                } else {
                    o.bucket(t2, u2)
                } by {
                if t2 == t && !users@.contains(u2) {
                    assert(!o.has_bucket(t, u2));
                    assert(o.bucket(t, u2).len() == 0);
                    assert(o.bucket(t, u2) =~= Seq::<SubscriptionInfo>::empty());
                }
            }
            assert forall|u2: AccountId| #[trigger]
                self.ticks(u2) == without(o.ticks(u2), t) by {
                lemma_without(o.ticks(u2), t);
                if !users@.contains(u2) {
                    assert(!o.has_bucket(t, u2));
                    assert(!o.ticks(u2).contains(t));
                }
            }
            assert forall|t1: Tick, t2: Tick, u2: AccountId, r2: SubscriptionInfo|
                #[trigger] self.holds(t1, u2, r2) && #[trigger] self.holds(t2, u2, r2) implies t1
                == t2 by {
                assert(o.holds(t1, u2, r2));
                assert(o.holds(t2, u2, r2));
            }
            assert forall|t2: Tick, u2: AccountId| #[trigger]
                self.has_bucket(t2, u2) <==> self.bucket(t2, u2).len() > 0 by {
                assert(o.has_bucket(t2, u2) <==> o.bucket(t2, u2).len() > 0);
                assert(o.has_bucket(t2, u2) <==> o.due(t2).contains(u2));
            }
            assert forall|t2: Tick, u2: AccountId| #[trigger]
                self.bucket(t2, u2).len() <= self.max() && self.bucket(t2, u2).no_duplicates() by {
                assert(o.bucket(t2, u2).len() <= o.max() && o.bucket(t2, u2).no_duplicates());
            }
            assert forall|t2: Tick, u2: AccountId|
                self.has_bucket(t2, u2) <==> #[trigger] self.ticks(u2).contains(t2) by {
                assert(o.has_bucket(t2, u2) <==> o.ticks(u2).contains(t2));
                assert(o.has_bucket(t2, u2) <==> o.due(t2).contains(u2));
                lemma_without(o.ticks(u2), t);
            }
            assert forall|t2: Tick, u2: AccountId|
                self.has_bucket(t2, u2) <==> #[trigger] self.due(t2).contains(u2) by {
                assert(o.has_bucket(t2, u2) <==> o.due(t2).contains(u2));
            }
            assert forall|u2: AccountId| #[trigger]
                self.ticks(u2).no_duplicates() && self.ticks(u2).len() <= self.max() by {
                assert(o.ticks(u2).no_duplicates() && o.ticks(u2).len() <= o.max());
                lemma_without(o.ticks(u2), t);
            }
            assert forall|t2: Tick| #[trigger] self.due(t2).no_duplicates() by {
                assert(o.due(t2).no_duplicates());
            }
        }
        out
    }
}

} // verus!
