//! Properties of the engine that span its operations.
use vstd::prelude::*;
use crate::catalog::{lookup_in, register_outcome};
use crate::engine::{subscribe_outcome, swept, Pallet};
use crate::ledger::balance_in;
use crate::types::{
    AccountId, Balance, Error, ProviderId, RenewalOutcome, RenewalRecord, ServiceId,
    SubscriptionInfo, Tick,
};

verus! {

/// In every reachable state a user lists a tick exactly when a bucket of that
/// user is stored at it, and a stored bucket is never empty.
pub proof fn lemma_ticks_match_buckets(e: Pallet, u: AccountId, t: Tick)
    requires
        e.wf(),
    ensures
        e.renewals().ticks(u).contains(t) <==> e.renewals().has_bucket(t, u),
        e.renewals().has_bucket(t, u) <==> e.renewals().bucket(t, u).len() > 0,
{
    e.lemma_wf();
}

/// In every reachable state a user holds a subscription at one tick at most,
/// and no bucket repeats a subscription.
pub proof fn lemma_subscription_unique(
    e: Pallet,
    u: AccountId,
    r: SubscriptionInfo,
    t1: Tick,
    t2: Tick,
)
    requires
        e.wf(),
        e.renewals().holds(t1, u, r),
        e.renewals().holds(t2, u, r),
    ensures
        t1 == t2,
        e.renewals().bucket(t1, u).no_duplicates(),
{
    e.lemma_wf();
}

/// Once the service is known, the user is not yet subscribed to it, the fee
/// is covered and the renewal tick fits, subscribing fails with the capacity
/// error exactly when the user's bucket at the renewal tick is full, or the
/// renewal tick is a new one for the user and the user already lists as many
/// ticks as the bound allows, whatever providers those ticks belong to.
pub proof fn lemma_subscribe_at_capacity(
    e: Pallet,
    balances: Map<AccountId, Balance>,
    who: AccountId,
    p: ProviderId,
    s: ServiceId,
)
    requires
        e.wf(),
        lookup_in(e.services(), p, s) is Ok,
        !e.renewals().subscribed(who, SubscriptionInfo { service_provider: p, service: s }),
        balance_in(balances, who) >= e.services()[p][s].fee,
        e.now() + e.services()[p][s].period <= Tick::MAX,
    ensures
        ({
            let next = (e.now() + e.services()[p][s].period) as Tick;
            let max = e.config().max_user_subscriptions;
            (subscribe_outcome(e.services(), e.renewals(), e.now(), balances, who, p, s)
                == Err::<Tick, Error>(Error::CannotSubscribeUserMaxSubscriptions)) <==> (
            e.renewals().bucket(next, who).len() >= max || (!e.renewals().ticks(who).contains(next)
                && e.renewals().ticks(who).len() >= max))
        }),
{
    e.lemma_wf();
}

/// Registering a service for a provider that already holds as many services
/// as the bound allows fails with the capacity error, whatever the service.
pub proof fn lemma_register_at_capacity(e: Pallet, p: ProviderId, s: ServiceId)
    requires
        e.wf(),
        e.services().contains_key(p),
        e.services()[p].len() >= e.config().max_services_per_provider,
    ensures
        register_outcome(e.services(), e.config().max_services_per_provider, p, s) == Err::<
            (),
            Error,
        >(Error::CannotRegisterService),
{
}

/// In every reachable state no provider holds more services than the bound
/// allows.
pub proof fn lemma_services_bounded(e: Pallet, p: ProviderId)
    requires
        e.wf(),
        e.services().contains_key(p),
    ensures
        e.services()[p].dom().finite(),
        e.services()[p].len() <= e.config().max_services_per_provider,
{
    e.lemma_wf();
}

/// A subscription that lapses for want of funds in a sweep is held nowhere
/// afterwards, the user no longer lists the sweep's tick, and the next sweep
/// does not bring it back.
pub proof fn lemma_lapse_is_final(
    e0: Pallet,
    e1: Pallet,
    e2: Pallet,
    l0: Map<AccountId, Balance>,
    l1: Map<AccountId, Balance>,
    l2: Map<AccountId, Balance>,
    t1: Tick,
    t2: Tick,
    report1: Seq<RenewalRecord>,
    report2: Seq<RenewalRecord>,
    k: int,
)
    requires
        e0.wf(),
        e1.wf(),
        swept(e0, e1, l0, l1, t1, report1),
        swept(e1, e2, l1, l2, t2, report2),
        0 <= k < report1.len(),
        report1[k].outcome == RenewalOutcome::InsufficientBalance,
    ensures
        !e1.renewals().subscribed(report1[k].user, report1[k].subscription),
        !e1.renewals().ticks(report1[k].user).contains(t1),
        !e2.renewals().subscribed(report1[k].user, report1[k].subscription),
{
    lemma_lapsed_not_held(e0, e1, l0, l1, t1, report1, k);
    lemma_sweep_clears_tick(e0, e1, l0, l1, t1, report1, report1[k].user);
    lemma_sweep_adds_nothing_new(e1, e2, l1, l2, t2, report2, report1[k].user, report1[k].subscription);
}

proof fn lemma_lapsed_not_held(
    e0: Pallet,
    e1: Pallet,
    l0: Map<AccountId, Balance>,
    l1: Map<AccountId, Balance>,
    t1: Tick,
    report1: Seq<RenewalRecord>,
    k: int,
)
    requires
        e0.wf(),
        swept(e0, e1, l0, l1, t1, report1),
        0 <= k < report1.len(),
        report1[k].outcome == RenewalOutcome::InsufficientBalance,
    ensures
        !e1.renewals().subscribed(report1[k].user, report1[k].subscription),
{
    let u = report1[k].user;
    let r = report1[k].subscription;
    e0.lemma_wf();
    assert(e0.renewals().holds(t1, u, r));
    assert forall|t: Tick| !e1.renewals().holds(t, u, r) by {
        if e1.renewals().holds(t, u, r) {
            if t != t1 && e0.renewals().holds(t, u, r) {
                assert(t == t1);
            } else {
                let j = choose|j: int|
                    0 <= j < report1.len() && #[trigger] report1[j] == RenewalRecord {
                        user: u,
                        subscription: r,
                        outcome: RenewalOutcome::Renewed(t),
                    };
                if j < k {
                    assert(!(report1[j].user == report1[k].user && report1[j].subscription
                        == report1[k].subscription));
                } else if j > k {
                    assert(!(report1[k].user == report1[j].user && report1[k].subscription
                        == report1[j].subscription));
                }
            }
        }
    }
}

proof fn lemma_sweep_clears_tick(
    e0: Pallet,
    e1: Pallet,
    l0: Map<AccountId, Balance>,
    l1: Map<AccountId, Balance>,
    t1: Tick,
    report1: Seq<RenewalRecord>,
    u: AccountId,
)
    requires
        e0.wf(),
        e1.wf(),
        swept(e0, e1, l0, l1, t1, report1),
    ensures
        !e1.renewals().ticks(u).contains(t1),
{
    e0.lemma_wf();
    e1.lemma_wf();
    assert(!e1.renewals().has_bucket(t1, u)) by {
        if e1.renewals().has_bucket(t1, u) {
            let x = e1.renewals().bucket(t1, u)[0];
            assert(e1.renewals().holds(t1, u, x));
            let j = choose|j: int|
                0 <= j < report1.len() && #[trigger] report1[j] == RenewalRecord {
                    user: u,
                    subscription: x,
                    outcome: RenewalOutcome::Renewed(t1),
                };
            let sub = report1[j].subscription;
            assert(e0.renewals().holds(t1, u, sub));
            assert(e0.services()[sub.service_provider][sub.service].period > 0);
        }
    }
}

proof fn lemma_sweep_adds_nothing_new(
    e1: Pallet,
    e2: Pallet,
    l1: Map<AccountId, Balance>,
    l2: Map<AccountId, Balance>,
    t2: Tick,
    report2: Seq<RenewalRecord>,
    u: AccountId,
    r: SubscriptionInfo,
)
    requires
        swept(e1, e2, l1, l2, t2, report2),
        !e1.renewals().subscribed(u, r),
    ensures
        !e2.renewals().subscribed(u, r),
{
    assert forall|t: Tick| !e2.renewals().holds(t, u, r) by {
        if e2.renewals().holds(t, u, r) {
            if !(t != t2 && e1.renewals().holds(t, u, r)) {
                let j = choose|j: int|
                    0 <= j < report2.len() && #[trigger] report2[j] == RenewalRecord {
                        user: u,
                        subscription: r,
                        outcome: RenewalOutcome::Renewed(t),
                    };
                assert(e1.renewals().holds(t2, u, r));
            }
        }
    }
}

} // verus!
