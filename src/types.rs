//! Identifiers, descriptors and errors shared by the engine's components.
use vstd::prelude::*;

verus! {

/// Identity of a service provider.
pub type ProviderId = u32;

/// Identity of a service, unique within one provider.
pub type ServiceId = u32;

/// Identity of an account: a subscriber or a receiver of fees.
pub type AccountId = u64;

/// A logical tick of the external driver (a block height).
pub type Tick = u64;

/// An amount of funds.
pub type Balance = u64;

/// The billing terms of a registered service.
#[derive(Clone, Copy, Debug, PartialEq, Eq, Structural)]
pub struct ServiceInfo {
    pub id: ServiceId,
    /// Number of ticks between two charges; positive.
    pub period: Tick,
    /// The account that receives the fee.
    pub account: AccountId,
    /// The fee charged once per period.
    pub fee: Balance,
}

/// Which catalog entry a subscription refers to.
#[derive(Clone, Copy, Debug, PartialEq, Eq, Structural)]
pub struct SubscriptionInfo {
    pub service_provider: ProviderId,
    pub service: ServiceId,
}

/// The bounds that the engine enforces.
#[derive(Clone, Copy, Debug, PartialEq, Eq, Structural)]
pub struct Config {
    /// How many services one provider may register.
    pub max_services_per_provider: u32,
    /// How many subscriptions one user may hold in one bucket, and how many
    /// distinct renewal ticks one user may have.
    pub max_user_subscriptions: u32,
}

/// What became of one subscription that was due at a renewal tick.
#[derive(Clone, Copy, Debug, PartialEq, Eq, Structural)]
pub enum RenewalOutcome {
    /// The fee was charged and the subscription moved to the given tick.
    Renewed(Tick),
    /// The user could not cover the fee: the subscription lapsed.
    InsufficientBalance,
    /// The next renewal tick would not fit: the subscription lapsed.
    RenewalTickOverflow,
    /// The user had no room at the next renewal tick, its bucket there or its
    /// list of ticks being full: the subscription lapsed. This signals that
    /// the bounds are too tight for the renewals they admit.
    CapacityExceeded,
    /// The fee could not be transferred: the subscription lapsed.
    TransferFailed,
}

/// One subscription processed by a renewal sweep, and what became of it.
#[derive(Clone, Copy, Debug, PartialEq, Eq, Structural)]
pub struct RenewalRecord {
    pub user: AccountId,
    pub subscription: SubscriptionInfo,
    pub outcome: RenewalOutcome,
}

/// What the engine reports to the outside world.
#[derive(Clone, Copy, Debug, PartialEq, Eq, Structural)]
pub enum Event {
    /// A provider was registered.
    ServiceProviderRegistered(ProviderId),
    /// A service was registered for a provider.
    ServiceRegistered(ProviderId, ServiceId),
}

/// The caller-visible failures of the engine's operations.
#[derive(Clone, Copy, Debug, PartialEq, Eq, Structural)]
pub enum Error {
    /// The provider is already registered.
    ServiceProviderAlreadyRegistered,
    /// The provider is not known.
    ServiceProviderNotRegistered,
    /// The service is not known for a registered provider.
    ServiceNotKnown,
    /// The provider already holds the maximum number of services.
    CannotRegisterService,
    /// The service is already registered for the provider.
    ServiceAlreadyRegistered,
    /// The user is already subscribed to the service.
    UserAlreadySubscribed,
    /// The user already holds the maximum number of subscriptions.
    CannotSubscribeUserMaxSubscriptions,
    /// The user is not subscribed to the service.
    UserNotSubscribed,
    /// The user's balance does not cover the fee.
    InsufficientBalance,
    /// The renewal tick does not fit in a tick.
    RenewalTickOverflow,
    /// The fee could not be transferred.
    TransferFailed,
}

} // verus!
