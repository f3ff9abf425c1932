//! The subscription engine: registration, subscription, cancellation and the
//! per-tick renewal sweep, over the catalog and the renewal index.
use vstd::prelude::*;
use crate::catalog::{lookup_in, register_outcome, service_in, Catalog};
use crate::index::{lemma_push_facts, lemma_without, without, RenewalIndex};
use crate::ledger::{balance_in, transfer_refused, transferred, Ledger};
use crate::types::{
    AccountId, Balance, Config, Error, Event, ProviderId, RenewalOutcome, RenewalRecord,
    ServiceId, ServiceInfo, SubscriptionInfo, Tick,
};

verus! {

/// The subscription engine. It owns the catalog and both renewal indexes,
/// and is their only writer.
pub struct Pallet {
    config: Config,
    now: Tick,
    catalog: Catalog,
    index: RenewalIndex,
    events: Vec<Event>,
}

/// Whether user `u` has no room for one more subscription at tick `t` in
/// `index`: the bucket there is full, or `t` is not yet listed for `u` and
/// `u`'s list of ticks is full.
pub open spec fn no_room(index: RenewalIndex, u: AccountId, t: Tick) -> bool {
    index.bucket(t, u).len() >= index.max() || (!index.ticks(u).contains(t) && index.ticks(
        u,
    ).len() >= index.max())
}

/// What subscribing `who` to service `s` of provider `p` gives, in the order
/// of the checks; on success, the tick of the first renewal.
pub open spec fn subscribe_outcome(
    services: Map<ProviderId, Map<ServiceId, ServiceInfo>>,
    index: RenewalIndex,
    now: Tick,
    balances: Map<AccountId, Balance>,
    who: AccountId,
    p: ProviderId,
    s: ServiceId,
) -> Result<Tick, Error> {
    match lookup_in(services, p, s) {
        Err(e) => Err(e),
        Ok(info) => {
            let r = SubscriptionInfo { service_provider: p, service: s };
            if index.subscribed(who, r) {
                Err(Error::UserAlreadySubscribed)
            } else if balance_in(balances, who) < info.fee {
                Err(Error::InsufficientBalance)
            } else if now + info.period > Tick::MAX {
                Err(Error::RenewalTickOverflow)
            } else {
                let next = (now + info.period) as Tick;
                if no_room(index, who, next) {
                    Err(Error::CannotSubscribeUserMaxSubscriptions)
                } else if transfer_refused(balances, who, info.account, info.fee) {
                    Err(Error::TransferFailed)
                } else {
                    Ok(next)
                }
            }
        },
    }
}

/// The balances after one processed renewal: only a renewed subscription
/// moves its fee.
pub open spec fn charge_one(
    m: Map<AccountId, Balance>,
    services: Map<ProviderId, Map<ServiceId, ServiceInfo>>,
    rec: RenewalRecord,
) -> Map<AccountId, Balance> {
    match rec.outcome {
        RenewalOutcome::Renewed(_) => {
            let info = services[rec.subscription.service_provider][rec.subscription.service];
            transferred(m, rec.user, info.account, info.fee)
        },
        _ => m,
    }
}

/// The balances after the renewals of `report` were processed, in order.
pub open spec fn charged(
    m: Map<AccountId, Balance>,
    services: Map<ProviderId, Map<ServiceId, ServiceInfo>>,
    report: Seq<RenewalRecord>,
) -> Map<AccountId, Balance>
    decreases report.len(),
{
    if report.len() == 0 {
        m
    } else {
        charge_one(charged(m, services, report.drop_last()), services, report.last())
    }
}

/// Whether `rec` is what processing a subscription to the service `info`,
/// due at `tick`, gives with balances `m`: a user who cannot cover the fee
/// lapses; otherwise the renewal is scheduled one period later unless that
/// tick overflows, the bounds are reached, or the transfer is refused. Which
/// bounds were reached is not a matter of balances: `swept` states it.
pub open spec fn outcome_fits(
    m: Map<AccountId, Balance>,
    info: ServiceInfo,
    tick: Tick,
    rec: RenewalRecord,
) -> bool {
    let covered = balance_in(m, rec.user) >= info.fee;
    let fits = tick + info.period <= Tick::MAX;
    match rec.outcome {
        RenewalOutcome::InsufficientBalance => !covered,
        RenewalOutcome::RenewalTickOverflow => covered && !fits,
        RenewalOutcome::CapacityExceeded => covered && fits,
        RenewalOutcome::TransferFailed => covered && fits && transfer_refused(
            m,
            rec.user,
            info.account,
            info.fee,
        ),
        RenewalOutcome::Renewed(next) => covered && next == tick + info.period && !transfer_refused(
            m,
            rec.user,
            info.account,
            info.fee,
        ),
    }
}

/// Whether `report` holds a record of subscription `r` of user `u`.
pub open spec fn has_record(report: Seq<RenewalRecord>, u: AccountId, r: SubscriptionInfo) -> bool {
    exists|k: int|
        0 <= k < report.len() && (#[trigger] report[k]).user == u && report[k].subscription == r
}

/// Whether `report` records subscription `r` of user `u` as renewed to tick `t`.
pub open spec fn renewed_to(
    report: Seq<RenewalRecord>,
    u: AccountId,
    r: SubscriptionInfo,
    t: Tick,
) -> bool {
    exists|k: int|
        0 <= k < report.len() && #[trigger] report[k] == RenewalRecord {
            user: u,
            subscription: r,
            outcome: RenewalOutcome::Renewed(t),
        }
}

/// What a renewal sweep at `tick` did, taking the engine from `before` to
/// `after` and the balances from `lb` to `la`, with `report` its records:
/// the catalog and the bounds are kept; every subscription that was due at
/// `tick` has exactly one record, in processing order, whose outcome fits the
/// balances of that moment; the fees of the renewed ones were charged in
/// that order; a renewal that lapsed on the bounds leaves the user with no
/// room at its next tick; and afterwards a subscription is held exactly where
/// it was held before at another tick, or where its record renewed it to.
pub open spec fn swept(
    before: Pallet,
    after: Pallet,
    lb: Map<AccountId, Balance>,
    la: Map<AccountId, Balance>,
    tick: Tick,
    report: Seq<RenewalRecord>,
) -> bool {
    &&& after.config() == before.config()
    &&& after.services() == before.services()
    &&& after.emitted() == before.emitted()
    &&& la == charged(lb, before.services(), report)
    &&& forall|k: int|
        0 <= k < report.len() ==> {
            let rec = #[trigger] report[k];
            let sub = rec.subscription;
            &&& before.renewals().holds(tick, rec.user, sub)
            &&& outcome_fits(
                charged(lb, before.services(), report.take(k)),
                before.services()[sub.service_provider][sub.service],
                tick,
                rec,
            )
        }
    &&& forall|k: int|
        0 <= k < report.len() && (#[trigger] report[k]).outcome == RenewalOutcome::CapacityExceeded
            ==> no_room(
            after.renewals(),
            report[k].user,
            (tick + before.services()[report[k].subscription.service_provider][report[k].subscription.service].period) as Tick,
        )
    &&& forall|k1: int, k2: int|
        0 <= k1 < k2 < report.len() ==> !((#[trigger] report[k1]).user == (
        #[trigger] report[k2]).user && report[k1].subscription == report[k2].subscription)
    &&& forall|u: AccountId, r: SubscriptionInfo| #[trigger]
        before.renewals().holds(tick, u, r) ==> has_record(report, u, r)
    &&& forall|t2: Tick, u: AccountId, r: SubscriptionInfo| #[trigger]
        after.renewals().holds(t2, u, r) <==> (t2 != tick && before.renewals().holds(t2, u, r))
            || renewed_to(report, u, r, t2)
}

impl Pallet {
    /// The bounds the engine was made with.
    pub closed spec fn config(&self) -> Config {
        self.config
    }

    /// The current tick.
    pub closed spec fn now(&self) -> Tick {
        self.now
    }

    /// Each registered provider, mapped to its services by id.
    pub closed spec fn services(&self) -> Map<ProviderId, Map<ServiceId, ServiceInfo>> {
        self.catalog@
    }

    /// The two renewal indexes.
    pub closed spec fn renewals(&self) -> RenewalIndex {
        self.index
    }

    /// The events emitted so far, oldest first.
    pub closed spec fn emitted(&self) -> Seq<Event> {
        self.events@
    }

    /// The engine's invariant: the catalog and the indexes are well formed
    /// under the configured bounds, and every subscription refers to a
    /// registered service.
    pub closed spec fn wf(&self) -> bool {
        &&& self.catalog.wf()
        &&& self.index.wf()
        &&& self.catalog.max_services() == self.config.max_services_per_provider
        &&& self.index.max() == self.config.max_user_subscriptions
        &&& forall|t: Tick, u: AccountId, r: SubscriptionInfo| #[trigger]
            self.index.holds(t, u, r) ==> service_in(
                self.catalog@,
                r.service_provider,
                r.service,
            ) is Some
    }

    /// A consequence of `wf` that callers can rely on: the indexes are well
    /// formed, hold the configured bound, and refer to registered services;
    /// each provider holds a finite set of at most the configured number of
    /// services, each with a positive period.
    pub proof fn lemma_wf(&self)
        requires
            self.wf(),
        ensures
            self.renewals().wf(),
            self.renewals().max() == self.config().max_user_subscriptions,
            forall|t: Tick, u: AccountId, r: SubscriptionInfo| #[trigger]
                self.renewals().holds(t, u, r) ==> service_in(
                    self.services(),
                    r.service_provider,
                    r.service,
                ) is Some,
            forall|p: ProviderId|
                #![trigger self.services()[p]]
                self.services().contains_key(p) ==> self.services()[p].dom().finite()
                    && self.services()[p].len() <= self.config().max_services_per_provider,
            forall|p: ProviderId, s: ServiceId|
                #![trigger self.services()[p][s]]
                self.services().contains_key(p) && self.services()[p].contains_key(s)
                    ==> self.services()[p][s].period > 0,
    {
        self.catalog.lemma_wf_facts();
    }

    /// An engine at tick 0 with nothing registered.
    pub fn new(config: Config) -> (r: Pallet)
        ensures
            r.wf(),
            r.config() == config,
            r.now() == 0,
            r.services() == Map::<ProviderId, Map<ServiceId, ServiceInfo>>::empty(),
            forall|t: Tick, u: AccountId| !#[trigger] r.renewals().has_bucket(t, u),
            forall|t: Tick, u: AccountId| #[trigger]
                r.renewals().bucket(t, u) == Seq::<SubscriptionInfo>::empty(),
            forall|u: AccountId| #[trigger] r.renewals().ticks(u) == Seq::<Tick>::empty(),
            r.emitted() == Seq::<Event>::empty(),
    {
        let r = Pallet {
            config,
            now: 0,
            catalog: Catalog::new(config.max_services_per_provider),
            index: RenewalIndex::new(config.max_user_subscriptions),
            events: Vec::new(),
        };
        proof {
            assert forall|t: Tick, u: AccountId, x: SubscriptionInfo| #[trigger]
                r.index.holds(t, u, x) implies service_in(r.catalog@, x.service_provider, x.service) is Some by {
                assert(!r.index.has_bucket(t, u));
            }
        }
        r
    }

    /// Registers provider `p`.
    pub fn register_service_provider(&mut self, p: ProviderId) -> (r: Result<(), Error>)
        requires
            old(self).wf(),
        ensures
            final(self).wf(),
            final(self).config() == old(self).config(),
            final(self).now() == old(self).now(),
            final(self).renewals() == old(self).renewals(),
            r is Err <==> old(self).services().contains_key(p),
            r is Err ==> r == Err::<(), Error>(Error::ServiceProviderAlreadyRegistered)
                && final(self).services() == old(self).services()
                && final(self).emitted() == old(self).emitted(),
            r is Ok ==> final(self).services() == old(self).services().insert(p, Map::empty())
                && final(self).emitted() == old(self).emitted().push(
                Event::ServiceProviderRegistered(p),
            ),
    {
        let res = self.catalog.register_provider(p);
        if res.is_ok() {
            self.events.push(Event::ServiceProviderRegistered(p));
        }
        proof {
            assert forall|t: Tick, u: AccountId, x: SubscriptionInfo| #[trigger]
                self.index.holds(t, u, x) implies service_in(self.catalog@, x.service_provider, x.service) is Some by {
                assert(service_in(old(self).catalog@, x.service_provider, x.service) is Some);
            }
        }
        res
    }

    /// Registers service `s` of provider `p`: every `period` ticks a
    /// subscriber pays `fee` to `receiver_account`.
    pub fn register_service(
        &mut self,
        p: ProviderId,
        s: ServiceId,
        period: Tick,
        receiver_account: AccountId,
        fee: Balance,
    ) -> (r: Result<(), Error>)
        requires
            old(self).wf(),
            period > 0,
        ensures
            final(self).wf(),
            final(self).config() == old(self).config(),
            final(self).now() == old(self).now(),
            final(self).renewals() == old(self).renewals(),
            r == register_outcome(
                old(self).services(),
                old(self).config().max_services_per_provider,
                p,
                s,
            ),
            r is Err ==> final(self).services() == old(self).services() && final(self).emitted()
                == old(self).emitted(),
            r is Ok ==> final(self).services() == old(self).services().insert(
                p,
                old(self).services()[p].insert(
                    s,
                    ServiceInfo { id: s, period, account: receiver_account, fee },
                ),
            ) && final(self).emitted() == old(self).emitted().push(Event::ServiceRegistered(p, s)),
    {
        let res = self.catalog.register_service(p, s, period, receiver_account, fee);
        if res.is_ok() {
            self.events.push(Event::ServiceRegistered(p, s));
        }
        proof {
            assert forall|t: Tick, u: AccountId, x: SubscriptionInfo| #[trigger]
                self.index.holds(t, u, x) implies service_in(self.catalog@, x.service_provider, x.service) is Some by {
                assert(service_in(old(self).catalog@, x.service_provider, x.service) is Some);
            }
        }
        res
    }

    /// Succeeds exactly when `p` is a registered provider.
    pub fn is_service_provider_registered(&self, p: ProviderId) -> (r: Result<(), Error>)
        ensures
            r is Ok <==> self.services().contains_key(p),
            r is Err ==> r == Err::<(), Error>(Error::ServiceProviderNotRegistered),
    {
        if self.catalog.is_provider_registered(p) {
            Ok(())
        } else {
            Err(Error::ServiceProviderNotRegistered)
        }
    }

    /// Succeeds exactly when service `s` of provider `p` is registered; the
    /// provider is checked first.
    pub fn is_service_registered(&self, p: ProviderId, s: ServiceId) -> (r: Result<(), Error>)
        ensures
            r == match lookup_in(self.services(), p, s) {
                Ok(_) => Ok::<(), Error>(()),
                Err(e) => Err(e),
            },
    {
        match self.catalog.lookup(p, s) {
            Ok(_) => Ok(()),
            Err(e) => Err(e),
        }
    }

    /// The descriptor of service `s` of provider `p`.
    pub fn lookup_service(&self, p: ProviderId, s: ServiceId) -> (r: Result<ServiceInfo, Error>)
        ensures
            r == lookup_in(self.services(), p, s),
    {
        self.catalog.lookup(p, s)
    }

    /// The tick at which `who`'s subscription to service `s` of provider `p`
    /// is next renewed, if `who` holds one.
    pub fn get_renewal_block_for_user(&self, who: AccountId, p: ProviderId, s: ServiceId) -> (r:
        Option<Tick>)
        requires
            self.wf(),
        ensures
            ({
                let x = SubscriptionInfo { service_provider: p, service: s };
                match r {
                    Some(t) => self.renewals().holds(t, who, x),
                    None => !self.renewals().subscribed(who, x),
                }
            }),
    {
        self.index.find_tick(who, SubscriptionInfo { service_provider: p, service: s })
    }

    /// The ticks at which `who` has renewals pending.
    pub fn user_subscriptions(&self, who: AccountId) -> (r: Vec<Tick>)
        ensures
            r@ == self.renewals().ticks(who),
    {
        self.index.ticks_of(who)
    }

    /// The subscriptions of `who` due at tick `t`.
    pub fn subscriptions(&self, t: Tick, who: AccountId) -> (r: Vec<SubscriptionInfo>)
        ensures
            r@ == self.renewals().bucket(t, who),
    {
        self.index.bucket_of(t, who)
    }

    /// Whether a bucket is stored for `who` at tick `t`.
    pub fn has_subscriptions(&self, t: Tick, who: AccountId) -> (r: bool)
        ensures
            r == self.renewals().has_bucket(t, who),
    {
        self.index.contains_bucket(t, who)
    }

    /// The events emitted so far, oldest first.
    pub fn events(&self) -> (r: Vec<Event>)
        ensures
            r@ == self.emitted(),
    {
        let mut r: Vec<Event> = Vec::new();
        let mut i: usize = 0;
        while i < self.events.len()
            invariant
                i <= self.events@.len(),
                r@ == self.events@.take(i as int),
            decreases self.events@.len() - i,
        {
            r.push(self.events[i]);
            assert(self.events@.take(i as int + 1) =~= self.events@.take(i as int).push(
                self.events@[i as int],
            ));
            i = i + 1;
        }
        assert(self.events@.take(self.events@.len() as int) =~= self.events@);
        r
    }

    /// The current tick.
    pub fn current_block_number(&self) -> (r: Tick)
        ensures
            r == self.now(),
    {
        self.now
    }

    /// Subscribes `who` to service `s` of provider `p`, charging the first fee
    /// now and scheduling the first renewal one period from now. On any
    /// failure nothing changes.
    pub fn subscribe(&mut self, ledger: &mut Ledger, who: AccountId, p: ProviderId, s: ServiceId) -> (r:
        Result<(), Error>)
        requires
            old(self).wf(),
        ensures
            final(self).wf(),
            final(self).config() == old(self).config(),
            final(self).now() == old(self).now(),
            final(self).services() == old(self).services(),
            final(self).emitted() == old(self).emitted(),
            ({
                let outcome = subscribe_outcome(
                    old(self).services(),
                    old(self).renewals(),
                    old(self).now(),
                    old(ledger)@,
                    who,
                    p,
                    s,
                );
                let x = SubscriptionInfo { service_provider: p, service: s };
                let info = old(self).services()[p][s];
                match outcome {
                    Err(e) => r == Err::<(), Error>(e) && final(self).renewals() == old(
                        self,
                    ).renewals() && final(ledger)@ == old(ledger)@,
                    Ok(next) => {
                        &&& r is Ok
                        &&& final(ledger)@ == transferred(old(ledger)@, who, info.account, info.fee)
                        &&& forall|t2: Tick, u2: AccountId| #[trigger]
                            final(self).renewals().bucket(t2, u2) == if t2 == next && u2 == who {
                                old(self).renewals().bucket(next, who).push(x)
                            } else {
                                old(self).renewals().bucket(t2, u2)
                            }
                        &&& forall|u2: AccountId| #[trigger]
                            final(self).renewals().ticks(u2) == if u2 == who && !old(
                                self,
                            ).renewals().ticks(who).contains(next) {
                                old(self).renewals().ticks(who).push(next)
                            } else {
                                old(self).renewals().ticks(u2)
                            }
                    },
                }
            }),
    {
        let info = match self.catalog.lookup(p, s) {
            Ok(info) => info,
            Err(e) => {
                return Err(e);
            },
        };
        let x = SubscriptionInfo { service_provider: p, service: s };
        if self.index.find_tick(who, x).is_some() {
            return Err(Error::UserAlreadySubscribed);
        }
        if ledger.free_balance(who) < info.fee {
            return Err(Error::InsufficientBalance);
        }
        let next = match self.now.checked_add(info.period) {
            Some(n) => n,
            None => {
                return Err(Error::RenewalTickOverflow);
            },
        };
        if !self.index.can_add(who, next) {
            return Err(Error::CannotSubscribeUserMaxSubscriptions);
        }
        match ledger.transfer(who, info.account, info.fee) {
            Ok(()) => {},
            Err(_) => {
                return Err(Error::TransferFailed);
            },
        }
        self.index.add(who, next, x);
        proof {
            assert forall|t: Tick, u: AccountId, y: SubscriptionInfo| #[trigger]
                self.index.holds(t, u, y) implies service_in(self.catalog@, y.service_provider, y.service) is Some by {
                if !(t == next && u == who && y == x) {
                    assert(old(self).index.holds(t, u, y));
                }
            }
        }
        Ok(())
    }

    /// Cancels `who`'s subscription to service `s` of provider `p`. A bucket
    /// that this empties is removed, and its tick unlisted for `who`.
    pub fn cancel(&mut self, who: AccountId, p: ProviderId, s: ServiceId) -> (r: Result<(), Error>)
        requires
            old(self).wf(),
        ensures
            final(self).wf(),
            final(self).config() == old(self).config(),
            final(self).now() == old(self).now(),
            final(self).services() == old(self).services(),
            final(self).emitted() == old(self).emitted(),
            ({
                let x = SubscriptionInfo { service_provider: p, service: s };
                let old_idx = old(self).renewals();
                let idx = final(self).renewals();
                &&& r is Err <==> !old_idx.subscribed(who, x)
                &&& r is Err ==> r == Err::<(), Error>(Error::UserNotSubscribed) && idx == old_idx
                &&& forall|t: Tick|
                    #![trigger old_idx.holds(t, who, x)]
                    old_idx.holds(t, who, x) && old_idx.bucket(t, who).len() == 1 ==> !idx.has_bucket(
                        t,
                        who,
                    ) && !idx.ticks(who).contains(t)
                &&& forall|t: Tick|
                    #![trigger old_idx.holds(t, who, x)]
                    old_idx.holds(t, who, x) ==> {
                        &&& forall|t2: Tick, u2: AccountId| #[trigger]
                            idx.bucket(t2, u2) == if t2 == t && u2 == who {
                                without(old_idx.bucket(t, who), x)
                            } else {
                                old_idx.bucket(t2, u2)
                            }
                        &&& forall|u2: AccountId| #[trigger]
                            idx.ticks(u2) == if u2 == who && old_idx.bucket(t, who).len() == 1 {
                                without(old_idx.ticks(who), t)
                            } else {
                                old_idx.ticks(u2)
                            }
                    }
            }),
    {
        let x = SubscriptionInfo { service_provider: p, service: s };
        let t = match self.index.find_tick(who, x) {
            Some(t) => t,
            None => {
                return Err(Error::UserNotSubscribed);
            },
        };
        self.index.remove(who, t, x);
        proof {
            let oi = old(self).index;
            assert forall|t1: Tick| #[trigger] oi.holds(t1, who, x) implies t1 == t by {}
            assert forall|t1: Tick, u: AccountId, y: SubscriptionInfo| #[trigger]
                self.index.holds(t1, u, y) implies service_in(self.catalog@, y.service_provider, y.service) is Some by {
                lemma_without(oi.bucket(t1, u), x);
                assert(oi.holds(t1, u, y));
            }
        }
        Ok(())
    }

    /// Processes subscription `x` of user `u`, taken from the bucket at `tick`.
    fn renew_one(
        &mut self,
        ledger: &mut Ledger,
        tick: Tick,
        u: AccountId,
        x: SubscriptionInfo,
        info: ServiceInfo,
    ) -> (outcome: RenewalOutcome)
        requires
            old(self).wf(),
            !old(self).index.subscribed(u, x),
            service_in(old(self).catalog@, x.service_provider, x.service) == Some(info),
        ensures
            final(self).wf(),
            final(self).config == old(self).config,
            final(self).now == old(self).now,
            final(self).catalog == old(self).catalog,
            final(self).events == old(self).events,
            outcome_fits(
                old(ledger)@,
                info,
                tick,
                RenewalRecord { user: u, subscription: x, outcome },
            ),
            final(ledger)@ == match outcome {
                RenewalOutcome::Renewed(_) => transferred(old(ledger)@, u, info.account, info.fee),
                _ => old(ledger)@,
            },
            forall|t2: Tick, u2: AccountId, r2: SubscriptionInfo| #[trigger]
                final(self).index.holds(t2, u2, r2) <==> old(self).index.holds(t2, u2, r2) || (
                outcome == RenewalOutcome::Renewed(t2) && u2 == u && r2 == x),
            outcome == RenewalOutcome::CapacityExceeded ==> no_room(
                final(self).index,
                u,
                (tick + info.period) as Tick,
            ),
            forall|u2: AccountId, t2: Tick|
                no_room(old(self).index, u2, t2) ==> #[trigger] no_room(final(self).index, u2, t2),
    {
        if ledger.free_balance(u) < info.fee {
            return RenewalOutcome::InsufficientBalance;
        }
        let next = match tick.checked_add(info.period) {
            Some(n) => n,
            None => {
                return RenewalOutcome::RenewalTickOverflow;
            },
        };
        if !self.index.can_add(u, next) {
            return RenewalOutcome::CapacityExceeded;
        }
        match ledger.transfer(u, info.account, info.fee) {
            Ok(()) => {},
            Err(_) => {
                return RenewalOutcome::TransferFailed;
            },
        }
        self.index.add(u, next, x);
        proof {
            let oi = old(self).index;
            lemma_push_facts(oi.bucket(next, u), x);
            assert forall|t2: Tick, u2: AccountId, r2: SubscriptionInfo| #[trigger]
                self.index.holds(t2, u2, r2) <==> oi.holds(t2, u2, r2) || (next == t2 && u2 == u
                    && r2 == x) by {
                lemma_push_facts(oi.bucket(t2, u2), x);
            }
            assert forall|t: Tick, u2: AccountId, y: SubscriptionInfo| #[trigger]
                self.index.holds(t, u2, y) implies service_in(self.catalog@, y.service_provider, y.service) is Some by {
                if !(t == next && u2 == u && y == x) {
                    assert(oi.holds(t, u2, y));
                }
            }
            assert forall|u2: AccountId, t2: Tick|
                no_room(oi, u2, t2) implies #[trigger] no_room(self.index, u2, t2) by {
                lemma_push_facts(oi.ticks(u), next);
                assert(self.index.bucket(t2, u2).len() >= oi.bucket(t2, u2).len());
            }
        }
        RenewalOutcome::Renewed(next)
    }

    /// Runs the renewal sweep for `tick`: takes every bucket due at `tick`
    /// and, for each subscription in it, in order, charges the fee and
    /// reschedules it one period later, or lets it lapse. Returns what became
    /// of each subscription. No other bucket is read.
    pub fn renew_subscriptions(&mut self, ledger: &mut Ledger, tick: Tick) -> (report: Vec<
        RenewalRecord,
    >)
        requires
            old(self).wf(),
        ensures
            final(self).wf(),
            final(self).now() == old(self).now(),
            swept(*old(self), *final(self), old(ledger)@, final(ledger)@, tick, report@),
    {
        let ghost o = *old(self);
        let ghost lo = old(ledger)@;
        let ghost svc = o.catalog@;
        let due = self.index.take_tick(tick);
        let ghost users = o.index.due(tick);
        let mut report: Vec<RenewalRecord> = Vec::new();
        proof {
            assert(users.no_duplicates());
            assert forall|t2: Tick, u: AccountId, r: SubscriptionInfo| #[trigger]
                self.index.holds(t2, u, r) <==> (t2 != tick && o.index.holds(t2, u, r))
                    || renewed_to(report@, u, r, t2) by {}
            assert(users.take(0) =~= Seq::<AccountId>::empty());
        }
        let mut i: usize = 0;
        while i < due.len()
            invariant
                o.wf(),
                self.wf(),
                self.config == o.config,
                self.now == o.now,
                self.catalog == o.catalog,
                self.events == o.events,
                svc == o.catalog@,
                lo == old(ledger)@,
                users == o.index.due(tick),
                users.no_duplicates(),
                due@.len() == users.len(),
                forall|i2: int|
                    0 <= i2 < due@.len() ==> (#[trigger] due@[i2]).0 == users[i2] && due@[i2].1@
                        == o.index.bucket(tick, users[i2]),
                i <= due@.len(),
                ledger@ == charged(lo, svc, report@),
                forall|k: int|
                    0 <= k < report@.len() ==> {
                        let rec = #[trigger] report@[k];
                        let sub = rec.subscription;
                        &&& o.index.holds(tick, rec.user, sub)
                        &&& outcome_fits(
                            charged(lo, svc, report@.take(k)),
                            svc[sub.service_provider][sub.service],
                            tick,
                            rec,
                        )
                    },
                forall|k: int|
                    0 <= k < report@.len() && (#[trigger] report@[k]).outcome
                        == RenewalOutcome::CapacityExceeded ==> no_room(
                        self.index,
                        report@[k].user,
                        (tick + svc[report@[k].subscription.service_provider][report@[k].subscription.service].period) as Tick,
                    ),
                forall|k: int|
                    0 <= k < report@.len() ==> users.take(i as int).contains(
                        (#[trigger] report@[k]).user,
                    ),
                forall|k1: int, k2: int|
                    0 <= k1 < k2 < report@.len() ==> !((#[trigger] report@[k1]).user == (
                    #[trigger] report@[k2]).user && report@[k1].subscription
                        == report@[k2].subscription),
                forall|i2: int, r: SubscriptionInfo|
                    0 <= i2 < i && #[trigger] o.index.bucket(tick, users[i2]).contains(r)
                        ==> has_record(report@, users[i2], r),
                forall|t2: Tick, u: AccountId, r: SubscriptionInfo| #[trigger]
                    self.index.holds(t2, u, r) <==> (t2 != tick && o.index.holds(t2, u, r))
                        || renewed_to(report@, u, r, t2),
            decreases due@.len() - i,
        {
            let u = due[i].0;
            let subs = &due[i].1;
            proof {
                assert(due@[i as int].0 == users[i as int]);
                assert(users.take(i as int + 1) =~= users.take(i as int).push(u));
                lemma_push_facts(users.take(i as int), u);
                assert(!users.take(i as int).contains(u)) by {
                    if users.take(i as int).contains(u) {
                        let k = choose|k: int| 0 <= k < i && users.take(i as int)[k] == u;
                        assert(users[k] == users[i as int]);
                    }
                }
                assert(subs@.take(0) =~= Seq::<SubscriptionInfo>::empty());
                assert(subs@.no_duplicates());
            }
            let mut j: usize = 0;
            while j < subs.len()
                invariant
                    o.wf(),
                    self.wf(),
                    self.config == o.config,
                    self.now == o.now,
                    self.catalog == o.catalog,
                    self.events == o.events,
                    svc == o.catalog@,
                    lo == old(ledger)@,
                    users == o.index.due(tick),
                    users.no_duplicates(),
                    due@.len() == users.len(),
                    forall|i2: int|
                        0 <= i2 < due@.len() ==> (#[trigger] due@[i2]).0 == users[i2]
                            && due@[i2].1@ == o.index.bucket(tick, users[i2]),
                    i < due@.len(),
                    u == users[i as int],
                    subs@ == o.index.bucket(tick, u),
                    subs@.no_duplicates(),
                    !users.take(i as int).contains(u),
                    j <= subs@.len(),
                    ledger@ == charged(lo, svc, report@),
                    forall|k: int|
                        0 <= k < report@.len() ==> {
                            let rec = #[trigger] report@[k];
                            let sub = rec.subscription;
                            &&& o.index.holds(tick, rec.user, sub)
                            &&& outcome_fits(
                                charged(lo, svc, report@.take(k)),
                                svc[sub.service_provider][sub.service],
                                tick,
                                rec,
                            )
                        },
                    forall|k: int|
                        0 <= k < report@.len() && (#[trigger] report@[k]).outcome
                            == RenewalOutcome::CapacityExceeded ==> no_room(
                            self.index,
                            report@[k].user,
                            (tick + svc[report@[k].subscription.service_provider][report@[k].subscription.service].period) as Tick,
                        ),
                    forall|k: int|
                        0 <= k < report@.len() ==> users.take(i as int + 1).contains(
                            (#[trigger] report@[k]).user,
                        ),
                    forall|k: int|
                        0 <= k < report@.len() && (#[trigger] report@[k]).user == u
                            ==> subs@.take(j as int).contains(report@[k].subscription),
                    forall|k1: int, k2: int|
                        0 <= k1 < k2 < report@.len() ==> !((#[trigger] report@[k1]).user == (
                        #[trigger] report@[k2]).user && report@[k1].subscription
                            == report@[k2].subscription),
                    forall|i2: int, r: SubscriptionInfo|
                        0 <= i2 < i && #[trigger] o.index.bucket(tick, users[i2]).contains(r)
                            ==> has_record(report@, users[i2], r),
                    forall|j2: int| 0 <= j2 < j ==> has_record(report@, u, #[trigger] subs@[j2]),
                    forall|t2: Tick, u2: AccountId, r: SubscriptionInfo| #[trigger]
                        self.index.holds(t2, u2, r) <==> (t2 != tick && o.index.holds(t2, u2, r))
                            || renewed_to(report@, u2, r, t2),
                decreases subs@.len() - j,
            {
                let x = subs[j];
                let ghost head = *self;
                let ghost rp = report@;
                let ghost lb = ledger@;
                proof {
                    assert(o.index.holds(tick, u, x)) by {
                        assert(subs@[j as int] == x);
                    }
                    assert(!self.index.subscribed(u, x)) by {
                        if self.index.subscribed(u, x) {
                            let t2 = choose|t2: Tick| #[trigger] self.index.holds(t2, u, x);
                            if t2 != tick && o.index.holds(t2, u, x) {
                                assert(o.index.holds(tick, u, x));
                            } else {
                                assert(renewed_to(rp, u, x, t2));
                                let k = choose|k: int|
                                    0 <= k < rp.len() && #[trigger] rp[k] == RenewalRecord {
                                        user: u,
                                        subscription: x,
                                        outcome: RenewalOutcome::Renewed(t2),
                                    };
                                assert(rp[k].user == u);
                                assert(subs@.take(j as int).contains(x));
                                let m = choose|m: int|
                                    0 <= m < j && subs@.take(j as int)[m] == x;
                                assert(subs@[m] == subs@[j as int]);
                            }
                        }
                    }
                }
                let info = match self.catalog.lookup(x.service_provider, x.service) {
                    Ok(info) => info,
                    Err(_) => {
                        proof {
                            assert(service_in(svc, x.service_provider, x.service) is Some);
                            assert(false);
                        }
                        return report;
                    },
                };
                let outcome = self.renew_one(ledger, tick, u, x, info);
                let rec = RenewalRecord { user: u, subscription: x, outcome };
                report.push(rec);
                proof {
                    let rn = report@;
                    assert(rn.drop_last() =~= rp);
                    assert(rn.last() == rec);
                    assert(info == svc[x.service_provider][x.service]);
                    assert(ledger@ == charge_one(lb, svc, rec));
                    assert(ledger@ == charged(lo, svc, rn));
                    assert(subs@.take(j as int + 1) =~= subs@.take(j as int).push(x)) by {
                        assert(subs@[j as int] == x);
                    }
                    lemma_push_facts(subs@.take(j as int), x);
                    assert forall|k: int|
                        0 <= k < rn.len() implies {
                            let rec2 = #[trigger] rn[k];
                            let sub = rec2.subscription;
                            &&& o.index.holds(tick, rec2.user, sub)
                            &&& outcome_fits(
                                charged(lo, svc, rn.take(k)),
                                svc[sub.service_provider][sub.service],
                                tick,
                                rec2,
                            )
                        } by {
                        if k < rp.len() {
                            assert(rn[k] == rp[k]);
                            assert(rn.take(k) =~= rp.take(k));
                        } else {
                            assert(rn.take(k) =~= rp);
                        }
                    }
                    assert forall|k: int|
                        0 <= k < rn.len() && (#[trigger] rn[k]).outcome
                            == RenewalOutcome::CapacityExceeded implies no_room(
                            self.index,
                            rn[k].user,
                            (tick + svc[rn[k].subscription.service_provider][rn[k].subscription.service].period) as Tick,
                        ) by {
                        if k < rp.len() {
                            assert(rn[k] == rp[k]);
                            let t2 = (tick + svc[rp[k].subscription.service_provider][rp[k].subscription.service].period) as Tick;
                            assert(no_room(head.index, rp[k].user, t2));
                        }
                    }
                    assert forall|k: int|
                        0 <= k < rn.len() implies users.take(i as int + 1).contains(
                            (#[trigger] rn[k]).user,
                        ) by {
                        if k < rp.len() {
                            assert(rn[k] == rp[k]);
                        } else {
                            assert(users.take(i as int + 1)[i as int] == u);
                        }
                    }
                    assert forall|k: int|
                        0 <= k < rn.len() && (#[trigger] rn[k]).user == u implies subs@.take(
                            j as int + 1,
                        ).contains(rn[k].subscription) by {
                        if k < rp.len() {
                            assert(rn[k] == rp[k]);
                        }
                    }
                    assert(!has_record(rp, u, x)) by {
                        if has_record(rp, u, x) {
                            let k = choose|k: int|
                                0 <= k < rp.len() && (#[trigger] rp[k]).user == u
                                    && rp[k].subscription == x;
                            assert(subs@.take(j as int).contains(x));
                            let m = choose|m: int| 0 <= m < j && subs@.take(j as int)[m] == x;
                            assert(subs@[m] == subs@[j as int]);
                        }
                    }
                    assert forall|k1: int, k2: int|
                        0 <= k1 < k2 < rn.len() implies !((#[trigger] rn[k1]).user == (
                        #[trigger] rn[k2]).user && rn[k1].subscription == rn[k2].subscription) by {
                        assert(rn[k1] == rp[k1]);
                        if k2 < rp.len() {
                            assert(rn[k2] == rp[k2]);
                        }
                    }
                    assert forall|i2: int, r: SubscriptionInfo|
                        0 <= i2 < i && #[trigger] o.index.bucket(tick, users[i2]).contains(r)
                            implies has_record(rn, users[i2], r) by {
                        assert(has_record(rp, users[i2], r));
                        let k = choose|k: int|
                            0 <= k < rp.len() && (#[trigger] rp[k]).user == users[i2]
                                && rp[k].subscription == r;
                        assert(rn[k] == rp[k]);
                    }
                    assert forall|j2: int| 0 <= j2 < j + 1 implies has_record(
                        rn,
                        u,
                        #[trigger] subs@[j2],
                    ) by {
                        if j2 < j {
                            assert(has_record(rp, u, subs@[j2]));
                            let k = choose|k: int|
                                0 <= k < rp.len() && (#[trigger] rp[k]).user == u
                                    && rp[k].subscription == subs@[j2];
                            assert(rn[k] == rp[k]);
                        } else {
                            assert(rn[rp.len() as int] == rec);
                        }
                    }
                    assert forall|t2: Tick, u2: AccountId, r: SubscriptionInfo| #[trigger]
                        self.index.holds(t2, u2, r) <==> (t2 != tick && o.index.holds(t2, u2, r))
                            || renewed_to(rn, u2, r, t2) by {
                        assert(head.index.holds(t2, u2, r) <==> (t2 != tick && o.index.holds(
                            t2,
                            u2,
                            r,
                        )) || renewed_to(rp, u2, r, t2));
                        if renewed_to(rp, u2, r, t2) {
                            let k = choose|k: int|
                                0 <= k < rp.len() && #[trigger] rp[k] == RenewalRecord {
                                    user: u2,
                                    subscription: r,
                                    outcome: RenewalOutcome::Renewed(t2),
                                };
                            assert(rn[k] == rp[k]);
                        }
                        if renewed_to(rn, u2, r, t2) && !renewed_to(rp, u2, r, t2) {
                            let k = choose|k: int|
                                0 <= k < rn.len() && #[trigger] rn[k] == RenewalRecord {
                                    user: u2,
                                    subscription: r,
                                    outcome: RenewalOutcome::Renewed(t2),
                                };
                            if k < rp.len() {
                                assert(rn[k] == rp[k]);
                            }
                        }
                        if outcome == RenewalOutcome::Renewed(t2) && u2 == u && r == x {
                            assert(rn[rp.len() as int] == rec);
                        }
                    }
                }
                j = j + 1;
            }
            proof {
                assert(subs@.take(subs@.len() as int) =~= subs@);
                assert forall|i2: int, r: SubscriptionInfo|
                    0 <= i2 < i + 1 && #[trigger] o.index.bucket(tick, users[i2]).contains(r)
                        implies has_record(report@, users[i2], r) by {
                    if i2 == i {
                        let m = choose|m: int| 0 <= m < subs@.len() && subs@[m] == r;
                        assert(has_record(report@, u, subs@[m]));
                    }
                }
            }
            i = i + 1;
        }
        proof {
            assert(users.take(users.len() as int) =~= users);
            assert forall|u: AccountId, r: SubscriptionInfo| #[trigger]
                o.index.holds(tick, u, r) implies has_record(report@, u, r) by {
                assert(o.index.has_bucket(tick, u));
                assert(users.contains(u));
                let i2 = choose|i2: int| 0 <= i2 < users.len() && users[i2] == u;
                assert(o.index.bucket(tick, users[i2]).contains(r));
            }
        }
        report
    }

    /// Advances the engine to tick `now` and runs the renewal sweep for it.
    pub fn on_initialize(&mut self, ledger: &mut Ledger, now: Tick) -> (report: Vec<RenewalRecord>)
        requires
            old(self).wf(),
        ensures
            final(self).wf(),
            final(self).now() == now,
            swept(*old(self), *final(self), old(ledger)@, final(ledger)@, now, report@),
    {
        let ghost before = *self;
        self.now = now;
        proof {
            assert(self.index == before.index);
        }
        self.renew_subscriptions(ledger, now)
    }
}

} // verus!
