//! The provider registry and the service catalog.
use vstd::prelude::*;
use std::collections::HashMap;
use crate::types::{AccountId, Balance, Error, ProviderId, ServiceId, ServiceInfo, Tick};

verus! {

broadcast use vstd::std_specs::hash::group_hash_axioms;

/// The registered providers, each with the services it registered.
pub struct Catalog {
    services: HashMap<ProviderId, HashMap<ServiceId, ServiceInfo>>,
    max_services: u32,
}

impl View for Catalog {
    /// Each registered provider, mapped to its services by id.
    type V = Map<ProviderId, Map<ServiceId, ServiceInfo>>;

    closed spec fn view(&self) -> Map<ProviderId, Map<ServiceId, ServiceInfo>> {
        Map::new(|p: ProviderId| self.services@.contains_key(p), |p: ProviderId| self.services@[p]@)
    }
}

/// The descriptor of service `s` of provider `p` in `c`, if it is registered.
pub open spec fn service_in(
    c: Map<ProviderId, Map<ServiceId, ServiceInfo>>,
    p: ProviderId,
    s: ServiceId,
) -> Option<ServiceInfo> {
    if c.contains_key(p) && c[p].contains_key(s) {
        Some(c[p][s])
    } else {
        None
    }
}

/// What looking up service `s` of provider `p` in `c` gives: the provider is
/// checked first, then the service.
pub open spec fn lookup_in(
    c: Map<ProviderId, Map<ServiceId, ServiceInfo>>,
    p: ProviderId,
    s: ServiceId,
) -> Result<ServiceInfo, Error> {
    if !c.contains_key(p) {
        Err(Error::ServiceProviderNotRegistered)
    } else if !c[p].contains_key(s) {
        Err(Error::ServiceNotKnown)
    } else {
        Ok(c[p][s])
    }
}

impl Catalog {
    /// The most services that one provider may register.
    pub closed spec fn max_services(&self) -> u32 {
        self.max_services
    }

    /// Every provider holds at most `max_services` services, each stored under
    /// its own id and with a positive period.
    pub closed spec fn wf(&self) -> bool {
        forall|p: ProviderId|
            #![trigger self.services@[p]]
            self.services@.contains_key(p) ==> {
                &&& self.services@[p]@.len() <= self.max_services
                &&& self.services@[p]@.dom().finite()
                &&& forall|s: ServiceId| #[trigger]
                    self.services@[p]@.contains_key(s) ==> self.services@[p]@[s].id == s
                        && self.services@[p]@[s].period > 0
            }
    }

    /// What `wf` gives callers: each provider holds a finite set of at most
    /// `max_services` services, and every service has a positive period.
    pub proof fn lemma_wf_facts(&self)
        requires
            self.wf(),
        ensures
            forall|p: ProviderId|
                #![trigger self@[p]]
                self@.contains_key(p) ==> self@[p].dom().finite() && self@[p].len()
                    <= self.max_services(),
            forall|p: ProviderId, s: ServiceId|
                #![trigger self@[p][s]]
                self@.contains_key(p) && self@[p].contains_key(s) ==> self@[p][s].period > 0,
    {
        assert forall|p: ProviderId|
            #![trigger self@[p]]
            self@.contains_key(p) implies self@[p].dom().finite() && self@[p].len()
                <= self.max_services() by {
            assert(self.services@[p]@.len() <= self.max_services);
        }
        assert forall|p: ProviderId, s: ServiceId|
            #![trigger self@[p][s]]
            self@.contains_key(p) && self@[p].contains_key(s) implies self@[p][s].period > 0 by {
            assert(self.services@[p]@.contains_key(s));
        }
    }

    /// An empty catalog that admits `max_services` services per provider.
    pub fn new(max_services: u32) -> (r: Catalog)
        ensures
            r.wf(),
            r@ == Map::<ProviderId, Map<ServiceId, ServiceInfo>>::empty(),
            r.max_services() == max_services,
    {
        let r = Catalog { services: HashMap::new(), max_services };
        assert(r@ =~= Map::<ProviderId, Map<ServiceId, ServiceInfo>>::empty());
        r
    }

    /// Whether `p` is a registered provider.
    pub fn is_provider_registered(&self, p: ProviderId) -> (r: bool)
        ensures
            r == self@.contains_key(p),
    {
        self.services.contains_key(&p)
    }

    /// Registers provider `p`, with no services yet.
    pub fn register_provider(&mut self, p: ProviderId) -> (r: Result<(), Error>)
        requires
            old(self).wf(),
        ensures
            final(self).wf(),
            final(self).max_services() == old(self).max_services(),
            r is Err <==> old(self)@.contains_key(p),
            r is Err ==> r == Err::<(), Error>(Error::ServiceProviderAlreadyRegistered)
                && final(self)@ == old(self)@,
            r is Ok ==> final(self)@ == old(self)@.insert(p, Map::empty()),
    {
        if self.services.contains_key(&p) {
            return Err(Error::ServiceProviderAlreadyRegistered);
        }
        self.services.insert(p, HashMap::new());
        assert(final(self)@ =~= old(self)@.insert(p, Map::empty()));
        Ok(())
    }

    /// Looks up service `s` of provider `p`.
    pub fn lookup(&self, p: ProviderId, s: ServiceId) -> (r: Result<ServiceInfo, Error>)
        ensures
            r == lookup_in(self@, p, s),
    {
        match self.services.get(&p) {
            None => Err(Error::ServiceProviderNotRegistered),
            Some(inner) => match inner.get(&s) {
                None => Err(Error::ServiceNotKnown),
                Some(info) => Ok(*info),
            },
        }
    }

    /// Registers service `s` of provider `p` with its billing terms.
    pub fn register_service(
        &mut self,
        p: ProviderId,
        s: ServiceId,
        period: Tick,
        account: AccountId,
        fee: Balance,
    ) -> (r: Result<(), Error>)
        requires
            old(self).wf(),
            period > 0,
        ensures
            final(self).wf(),
            final(self).max_services() == old(self).max_services(),
            r == register_outcome(old(self)@, old(self).max_services(), p, s),
            r is Err ==> final(self)@ == old(self)@,
            r is Ok ==> final(self)@ == old(self)@.insert(
                p,
                old(self)@[p].insert(s, ServiceInfo { id: s, period, account, fee }),
            ),
    {
        let ghost before = self@;
        let mut inner = match self.services.remove(&p) {
            None => {
                return Err(Error::ServiceProviderNotRegistered);
            },
            Some(inner) => inner,
        };
        let ghost removed = self.services@;
        if inner.len() >= self.max_services as usize {
            self.services.insert(p, inner);
            assert(self@ =~= before);
            return Err(Error::CannotRegisterService);
        }
        if inner.contains_key(&s) {
            self.services.insert(p, inner);
            assert(self@ =~= before);
            return Err(Error::ServiceAlreadyRegistered);
        }
        let info = ServiceInfo { id: s, period, account, fee };
        inner.insert(s, info);
        self.services.insert(p, inner);
        assert(self@ =~= before.insert(p, before[p].insert(s, info)));
        Ok(())
    }
}

/// What registering service `s` of provider `p` gives, in the order of the
/// checks: the provider must be known, hold fewer than `max` services, and
/// not have `s` yet.
pub open spec fn register_outcome(
    c: Map<ProviderId, Map<ServiceId, ServiceInfo>>,
    max: u32,
    p: ProviderId,
    s: ServiceId,
) -> Result<(), Error> {
    if !c.contains_key(p) {
        Err(Error::ServiceProviderNotRegistered)
    } else if c[p].len() >= max {
        Err(Error::CannotRegisterService)
    } else if c[p].contains_key(s) {
        Err(Error::ServiceAlreadyRegistered)
    } else {
        Ok(())
    }
}

} // verus!
