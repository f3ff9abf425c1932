use service_subscription::engine::Pallet;
use service_subscription::ledger::Ledger;
use service_subscription::types::{Config, Error, Event, ServiceInfo, SubscriptionInfo};

const SERVICE_PROVIDER: u32 = 42;
const SERVICE: u32 = 1;
const FEE: u64 = 99;
const PERIOD: u64 = 10;
const RECEIVER_ACCOUNT: u64 = 1;

/// Everything a failed call must leave as it was, over the accounts, ticks,
/// providers and services that the tests use.
#[derive(Debug, PartialEq)]
struct Snapshot {
    events: Vec<Event>,
    ticks: Vec<Vec<u64>>,
    buckets: Vec<Vec<SubscriptionInfo>>,
    balances: Vec<u64>,
    services: Vec<Result<ServiceInfo, Error>>,
}

fn snapshot(pallet: &Pallet, ledger: &Ledger) -> Snapshot {
    let users = 0..6u64;
    Snapshot {
        events: pallet.events(),
        ticks: users.clone().map(|u| pallet.user_subscriptions(u)).collect(),
        buckets: (0..60u64)
            .flat_map(|t| users.clone().map(move |u| (t, u)))
            .map(|(t, u)| pallet.subscriptions(t, u))
            .collect(),
        balances: users.map(|u| ledger.free_balance(u)).collect(),
        services: (40..46u32)
            .flat_map(|p| (0..4u32).map(move |s| (p, s)))
            .map(|(p, s)| pallet.lookup_service(p, s))
            .collect(),
    }
}

fn new_test_ext() -> (Pallet, Ledger) {
    let config = Config { max_services_per_provider: 2, max_user_subscriptions: 4 };
    (Pallet::new(config), Ledger::new())
}

#[test]
fn register_service_provider_works() {
    let (mut pallet, ledger) = new_test_ext();
    assert_eq!(pallet.register_service_provider(42), Ok(()));
    assert!(pallet.events().contains(&Event::ServiceProviderRegistered(42)));
}

#[test]
fn register_service_works() {
    let (mut pallet, ledger) = new_test_ext();
    assert_eq!(pallet.register_service_provider(42), Ok(()));
    assert_eq!(pallet.register_service(42, 0, 10, 1, 99), Ok(()));
    assert!(pallet.events().contains(&Event::ServiceProviderRegistered(42)));
    assert!(pallet.events().contains(&Event::ServiceRegistered(42, 0)));
}

#[test]
fn cannot_register_service_provider_twice() {
    let (mut pallet, ledger) = new_test_ext();
    assert_eq!(pallet.register_service_provider(42), Ok(()));
    let before = snapshot(&pallet, &ledger);
    assert_eq!(
        pallet.register_service_provider(42),
        Err(Error::ServiceProviderAlreadyRegistered)
    );
    assert_eq!(snapshot(&pallet, &ledger), before);
    assert_eq!(pallet.is_service_provider_registered(42), Ok(()));
}

#[test]
fn register_single_service() {
    let (mut pallet, ledger) = new_test_ext();
    assert_eq!(pallet.register_service_provider(42), Ok(()));
    assert_eq!(pallet.register_service(42, 0, 10, 1, 99), Ok(()));
}

#[test]
fn cannot_register_single_service_twice() {
    let (mut pallet, ledger) = new_test_ext();
    assert_eq!(pallet.register_service_provider(42), Ok(()));
    assert_eq!(pallet.register_service(42, 0, 10, 1, 99), Ok(()));
    let before = snapshot(&pallet, &ledger);
    assert_eq!(
        pallet.register_service(42, 0, 10, 1, 99),
        Err(Error::ServiceAlreadyRegistered)
    );
    assert_eq!(snapshot(&pallet, &ledger), before);
}

#[test]
fn register_two_services() {
    let (mut pallet, ledger) = new_test_ext();
    assert_eq!(pallet.register_service_provider(SERVICE_PROVIDER), Ok(()));
    assert_eq!(
        pallet.register_service(SERVICE_PROVIDER, SERVICE, PERIOD, RECEIVER_ACCOUNT, FEE),
        Ok(())
    );
    assert_eq!(
        pallet.register_service(SERVICE_PROVIDER, SERVICE + 1, PERIOD, RECEIVER_ACCOUNT, FEE),
        Ok(())
    );
}

#[test]
fn fail_to_register_three_services() {
    let (mut pallet, ledger) = new_test_ext();
    assert_eq!(pallet.register_service_provider(SERVICE_PROVIDER), Ok(()));
    assert_eq!(
        pallet.register_service(SERVICE_PROVIDER, SERVICE, PERIOD, RECEIVER_ACCOUNT, FEE),
        Ok(())
    );
    assert_eq!(
        pallet.register_service(SERVICE_PROVIDER, SERVICE + 1, PERIOD, RECEIVER_ACCOUNT, FEE),
        Ok(())
    );
    // at most two services per provider: the third is refused
    let before = snapshot(&pallet, &ledger);
    assert_eq!(
        pallet.register_service(SERVICE_PROVIDER, SERVICE + 2, PERIOD, RECEIVER_ACCOUNT, FEE),
        Err(Error::CannotRegisterService)
    );
    assert_eq!(snapshot(&pallet, &ledger), before);
}

#[test]
fn user_can_subscribe() {
    let (mut pallet, mut ledger) = new_test_ext();
    let now = 10;
    ledger.make_free_balance_be(2, 2 * 99);
    pallet.on_initialize(&mut ledger, now);
    assert_eq!(pallet.register_service_provider(SERVICE_PROVIDER), Ok(()));
    assert_eq!(
        pallet.register_service(SERVICE_PROVIDER, SERVICE, PERIOD, RECEIVER_ACCOUNT, FEE),
        Ok(())
    );
    assert_eq!(
        pallet.register_service(SERVICE_PROVIDER, SERVICE + 1, PERIOD, RECEIVER_ACCOUNT, FEE),
        Ok(())
    );
    assert_eq!(pallet.subscribe(&mut ledger, 2, SERVICE_PROVIDER, SERVICE), Ok(()));
    assert_eq!(pallet.subscribe(&mut ledger, 2, SERVICE_PROVIDER, SERVICE + 1), Ok(()));
    assert_eq!(pallet.user_subscriptions(2), vec![now + PERIOD]);
}

#[test]
fn user_exceeds_subscriptions_count() {
    let (mut pallet, mut ledger) = new_test_ext();
    pallet.on_initialize(&mut ledger, 10);
    ledger.make_free_balance_be(2, 5 * 99);
    assert_eq!(pallet.register_service_provider(SERVICE_PROVIDER), Ok(()));
    assert_eq!(pallet.register_service_provider(SERVICE_PROVIDER + 1), Ok(()));
    assert_eq!(pallet.register_service_provider(SERVICE_PROVIDER + 2), Ok(()));
    for p in [SERVICE_PROVIDER, SERVICE_PROVIDER + 1, SERVICE_PROVIDER + 2] {
        assert_eq!(pallet.register_service(p, SERVICE, PERIOD, RECEIVER_ACCOUNT, FEE), Ok(()));
        assert_eq!(pallet.register_service(p, SERVICE + 1, PERIOD, RECEIVER_ACCOUNT, FEE), Ok(()));
    }
    assert_eq!(pallet.subscribe(&mut ledger, 2, SERVICE_PROVIDER, SERVICE), Ok(()));
    assert_eq!(pallet.subscribe(&mut ledger, 2, SERVICE_PROVIDER, SERVICE + 1), Ok(()));
    assert_eq!(pallet.subscribe(&mut ledger, 2, SERVICE_PROVIDER + 1, SERVICE), Ok(()));
    assert_eq!(pallet.subscribe(&mut ledger, 2, SERVICE_PROVIDER + 1, SERVICE + 1), Ok(()));
    let before = snapshot(&pallet, &ledger);
    assert_eq!(
        pallet.subscribe(&mut ledger, 2, SERVICE_PROVIDER + 2, SERVICE + 1),
        Err(Error::CannotSubscribeUserMaxSubscriptions)
    );
    assert_eq!(snapshot(&pallet, &ledger), before);
    assert_eq!(pallet.get_renewal_block_for_user(2, SERVICE_PROVIDER + 2, SERVICE + 1), None);
}

#[test]
fn user_already_subscribed_same_block() {
    let (mut pallet, mut ledger) = new_test_ext();
    pallet.on_initialize(&mut ledger, 10);
    ledger.make_free_balance_be(2, 99);
    assert_eq!(pallet.register_service_provider(SERVICE_PROVIDER), Ok(()));
    assert_eq!(
        pallet.register_service(SERVICE_PROVIDER, SERVICE, PERIOD, RECEIVER_ACCOUNT, FEE),
        Ok(())
    );
    assert_eq!(pallet.subscribe(&mut ledger, 2, SERVICE_PROVIDER, SERVICE), Ok(()));
    let before = snapshot(&pallet, &ledger);
    assert_eq!(
        pallet.subscribe(&mut ledger, 2, SERVICE_PROVIDER, SERVICE),
        Err(Error::UserAlreadySubscribed)
    );
    assert_eq!(snapshot(&pallet, &ledger), before);
}

#[test]
fn user_already_subscribed_next_block() {
    let (mut pallet, mut ledger) = new_test_ext();
    pallet.on_initialize(&mut ledger, 10);
    ledger.make_free_balance_be(2, 99);
    assert_eq!(pallet.register_service_provider(SERVICE_PROVIDER), Ok(()));
    assert_eq!(
        pallet.register_service(SERVICE_PROVIDER, SERVICE, PERIOD, RECEIVER_ACCOUNT, FEE),
        Ok(())
    );
    assert_eq!(pallet.subscribe(&mut ledger, 2, SERVICE_PROVIDER, SERVICE), Ok(()));
    pallet.on_initialize(&mut ledger, 11);
    let before = snapshot(&pallet, &ledger);
    assert_eq!(
        pallet.subscribe(&mut ledger, 2, SERVICE_PROVIDER, SERVICE),
        Err(Error::UserAlreadySubscribed)
    );
    assert_eq!(snapshot(&pallet, &ledger), before);
}

#[test]
fn register_service_to_unknown_service_provider() {
    let (mut pallet, mut ledger) = new_test_ext();
    pallet.on_initialize(&mut ledger, 10);
    assert_eq!(pallet.register_service_provider(SERVICE_PROVIDER), Ok(()));
    assert_eq!(
        pallet.register_service(SERVICE_PROVIDER, SERVICE, PERIOD, RECEIVER_ACCOUNT, FEE),
        Ok(())
    );
    assert_eq!(
        pallet.register_service(SERVICE_PROVIDER, SERVICE + 1, PERIOD, RECEIVER_ACCOUNT, FEE),
        Ok(())
    );
    let before = snapshot(&pallet, &ledger);
    assert_eq!(
        pallet.register_service(SERVICE_PROVIDER + 1, SERVICE, PERIOD, RECEIVER_ACCOUNT, FEE),
        Err(Error::ServiceProviderNotRegistered)
    );
    assert_eq!(snapshot(&pallet, &ledger), before);
}

#[test]
fn user_subscribes_to_unknown_service_fails() {
    let (mut pallet, mut ledger) = new_test_ext();
    pallet.on_initialize(&mut ledger, 10);
    ledger.make_free_balance_be(2, 99);
    assert_eq!(pallet.register_service_provider(SERVICE_PROVIDER), Ok(()));
    assert_eq!(
        pallet.register_service(SERVICE_PROVIDER, SERVICE, PERIOD, RECEIVER_ACCOUNT, FEE),
        Ok(())
    );
    assert_eq!(pallet.subscribe(&mut ledger, 2, SERVICE_PROVIDER, SERVICE), Ok(()));
    let before = snapshot(&pallet, &ledger);
    assert_eq!(
        pallet.subscribe(&mut ledger, 2, SERVICE_PROVIDER, SERVICE + 1),
        Err(Error::ServiceNotKnown)
    );
    assert_eq!(snapshot(&pallet, &ledger), before);
}

#[test]
fn user_subscribes_to_unknown_service_provider_fails() {
    let (mut pallet, mut ledger) = new_test_ext();
    pallet.on_initialize(&mut ledger, 10);
    ledger.make_free_balance_be(2, 99);
    assert_eq!(pallet.register_service_provider(SERVICE_PROVIDER), Ok(()));
    assert_eq!(
        pallet.register_service(SERVICE_PROVIDER, SERVICE, PERIOD, RECEIVER_ACCOUNT, FEE),
        Ok(())
    );
    assert_eq!(pallet.subscribe(&mut ledger, 2, SERVICE_PROVIDER, SERVICE), Ok(()));
    let before = snapshot(&pallet, &ledger);
    assert_eq!(
        pallet.subscribe(&mut ledger, 2, SERVICE_PROVIDER + 1, SERVICE),
        Err(Error::ServiceProviderNotRegistered)
    );
    assert_eq!(snapshot(&pallet, &ledger), before);
}

#[test]
fn user_subscribes_and_cancels() {
    let (mut pallet, mut ledger) = new_test_ext();
    pallet.on_initialize(&mut ledger, 10);
    ledger.make_free_balance_be(2, 4 * 99);
    assert_eq!(pallet.register_service_provider(SERVICE_PROVIDER), Ok(()));
    assert_eq!(pallet.register_service_provider(SERVICE_PROVIDER + 1), Ok(()));
    for p in [SERVICE_PROVIDER, SERVICE_PROVIDER + 1] {
        assert_eq!(pallet.register_service(p, SERVICE, PERIOD, RECEIVER_ACCOUNT, FEE), Ok(()));
        assert_eq!(pallet.register_service(p, SERVICE + 1, PERIOD, RECEIVER_ACCOUNT, FEE), Ok(()));
    }
    assert_eq!(pallet.subscribe(&mut ledger, 2, SERVICE_PROVIDER, SERVICE), Ok(()));
    pallet.on_initialize(&mut ledger, 11);
    assert_eq!(pallet.subscribe(&mut ledger, 2, SERVICE_PROVIDER, SERVICE + 1), Ok(()));
    pallet.on_initialize(&mut ledger, 12);
    assert_eq!(pallet.subscribe(&mut ledger, 2, SERVICE_PROVIDER + 1, SERVICE), Ok(()));
    pallet.on_initialize(&mut ledger, 13);
    assert_eq!(pallet.subscribe(&mut ledger, 2, SERVICE_PROVIDER + 1, SERVICE + 1), Ok(()));

    assert_eq!(pallet.cancel(2, SERVICE_PROVIDER + 1, SERVICE + 1), Ok(()));
    assert_eq!(pallet.get_renewal_block_for_user(2, SERVICE_PROVIDER + 1, SERVICE + 1), None);
    assert_eq!(pallet.user_subscriptions(2), vec![20, 21, 22]);
}

#[test]
fn cancel_to_unsubscribed_fails() {
    let (mut pallet, mut ledger) = new_test_ext();
    pallet.on_initialize(&mut ledger, 10);
    ledger.make_free_balance_be(2, 99);
    assert_eq!(pallet.register_service_provider(SERVICE_PROVIDER), Ok(()));
    assert_eq!(
        pallet.register_service(SERVICE_PROVIDER, SERVICE, PERIOD, RECEIVER_ACCOUNT, FEE),
        Ok(())
    );
    assert_eq!(
        pallet.register_service(SERVICE_PROVIDER, SERVICE + 1, PERIOD, RECEIVER_ACCOUNT, FEE),
        Ok(())
    );
    assert_eq!(pallet.subscribe(&mut ledger, 2, SERVICE_PROVIDER, SERVICE), Ok(()));
    let before = snapshot(&pallet, &ledger);
    assert_eq!(
        pallet.cancel(2, SERVICE_PROVIDER, SERVICE + 1),
        Err(Error::UserNotSubscribed)
    );
    assert_eq!(snapshot(&pallet, &ledger), before);
    // the first subscription is still there
    assert_eq!(pallet.get_renewal_block_for_user(2, SERVICE_PROVIDER, SERVICE), Some(20));
}

#[test]
fn subscribe_with_insufficient_funds_fails() {
    let (mut pallet, mut ledger) = new_test_ext();
    pallet.on_initialize(&mut ledger, 10);
    ledger.make_free_balance_be(2, 8);
    assert_eq!(pallet.register_service_provider(SERVICE_PROVIDER), Ok(()));
    assert_eq!(
        pallet.register_service(SERVICE_PROVIDER, SERVICE, PERIOD, RECEIVER_ACCOUNT, FEE),
        Ok(())
    );
    let before = snapshot(&pallet, &ledger);
    assert_eq!(
        pallet.subscribe(&mut ledger, 2, SERVICE_PROVIDER, SERVICE),
        Err(Error::InsufficientBalance)
    );
    assert_eq!(snapshot(&pallet, &ledger), before);
}

#[test]
fn renewal_test_out_of_funds() {
    let (mut pallet, mut ledger) = new_test_ext();
    pallet.on_initialize(&mut ledger, 10);
    ledger.make_free_balance_be(2, 3 * 99);
    assert_eq!(pallet.register_service_provider(SERVICE_PROVIDER), Ok(()));
    assert_eq!(
        pallet.register_service(SERVICE_PROVIDER, SERVICE, PERIOD, RECEIVER_ACCOUNT, FEE),
        Ok(())
    );
    assert_eq!(pallet.subscribe(&mut ledger, 2, SERVICE_PROVIDER, SERVICE), Ok(()));
    assert_eq!(pallet.get_renewal_block_for_user(2, SERVICE_PROVIDER, SERVICE), Some(20));

    pallet.on_initialize(&mut ledger, 10 + 10);
    assert_eq!(pallet.get_renewal_block_for_user(2, SERVICE_PROVIDER, SERVICE), Some(30));

    pallet.on_initialize(&mut ledger, 20 + 10);
    assert_eq!(pallet.get_renewal_block_for_user(2, SERVICE_PROVIDER, SERVICE), Some(40));

    pallet.on_initialize(&mut ledger, 30 + 10);
    assert_eq!(pallet.get_renewal_block_for_user(2, SERVICE_PROVIDER, SERVICE), None);
}

#[test]
fn renewal_test_00() {
    let (mut pallet, mut ledger) = new_test_ext();
    let sp = SERVICE_PROVIDER;
    let s = SERVICE;
    pallet.on_initialize(&mut ledger, 10);
    ledger.make_free_balance_be(2, 40 * 99);
    ledger.make_free_balance_be(3, 5 * 99);
    assert_eq!(pallet.register_service_provider(sp), Ok(()));
    assert_eq!(pallet.register_service_provider(sp + 1), Ok(()));
    for p in [sp, sp + 1] {
        assert_eq!(pallet.register_service(p, s, PERIOD, RECEIVER_ACCOUNT, FEE), Ok(()));
        assert_eq!(pallet.register_service(p, s + 1, PERIOD, RECEIVER_ACCOUNT, FEE), Ok(()));
    }
    assert_eq!(pallet.subscribe(&mut ledger, 2, sp, s), Ok(()));
    assert_eq!(pallet.subscribe(&mut ledger, 3, sp, s), Ok(()));
    pallet.on_initialize(&mut ledger, 11);
    assert_eq!(pallet.subscribe(&mut ledger, 2, sp, s + 1), Ok(()));
    pallet.on_initialize(&mut ledger, 12);
    assert_eq!(pallet.subscribe(&mut ledger, 2, sp + 1, s), Ok(()));
    pallet.on_initialize(&mut ledger, 13);
    assert_eq!(pallet.subscribe(&mut ledger, 2, sp + 1, s + 1), Ok(()));
    assert_eq!(pallet.subscribe(&mut ledger, 3, sp + 1, s + 1), Ok(()));

    pallet.renew_subscriptions(&mut ledger, 10 + 10);
    assert_eq!(pallet.get_renewal_block_for_user(2, sp, s), Some(30));
    assert_eq!(pallet.get_renewal_block_for_user(3, sp, s), Some(30));

    pallet.renew_subscriptions(&mut ledger, 10 + 11);
    assert_eq!(pallet.get_renewal_block_for_user(2, sp, s + 1), Some(31));

    pallet.renew_subscriptions(&mut ledger, 10 + 12);
    assert_eq!(pallet.get_renewal_block_for_user(2, sp + 1, s), Some(32));

    pallet.renew_subscriptions(&mut ledger, 10 + 13);
    assert_eq!(pallet.get_renewal_block_for_user(2, sp + 1, s + 1), Some(33));
    assert_eq!(pallet.get_renewal_block_for_user(3, sp + 1, s + 1), Some(33));

    pallet.renew_subscriptions(&mut ledger, 20 + 10);
    assert_eq!(pallet.get_renewal_block_for_user(2, sp, s), Some(40));
    assert_eq!(pallet.get_renewal_block_for_user(3, sp, s), Some(40));

    pallet.renew_subscriptions(&mut ledger, 20 + 11);
    assert_eq!(pallet.get_renewal_block_for_user(2, sp, s + 1), Some(41));

    pallet.renew_subscriptions(&mut ledger, 20 + 12);
    assert_eq!(pallet.get_renewal_block_for_user(2, sp + 1, s), Some(42));

    pallet.renew_subscriptions(&mut ledger, 20 + 13);
    assert_eq!(pallet.get_renewal_block_for_user(3, sp + 1, s + 1), None);
}
