use vstd::prelude::*;
use crate::services::instance::{InstanceView, ServerInstance, socket_of};
use crate::services::service::{
    Service, ServiceView, after_pick, next_pick, with_instance,
};

verus! {

/// The view of a service that has no instance yet.
pub open spec fn empty_service() -> ServiceView {
    ServiceView { instances: Seq::<InstanceView>::empty(), last_index: 0, server_count: 0 }
}

/// The services once `instance` has been added under `route`: appended to the
/// route's service, or as the only instance of a new service.
pub open spec fn add_to_services(
    services: Map<Seq<char>, ServiceView>,
    route: Seq<char>,
    instance: InstanceView,
) -> Map<Seq<char>, ServiceView> {
    if services.contains_key(route) {
        services.insert(route, with_instance(services[route], instance))
    } else {
        services.insert(route, with_instance(empty_service(), instance))
    }
}

/// The services once a request to `route` has been sent: the route's service
/// has advanced its rotation; a route without service changes nothing.
pub open spec fn route_services(services: Map<Seq<char>, ServiceView>, route: Seq<char>) -> Map<
    Seq<char>,
    ServiceView,
> {
    if services.contains_key(route) {
        services.insert(route, after_pick(services[route]))
    } else {
        services
    }
}

/// The address a request to `route` is sent to, if the route has a service.
pub open spec fn route_target(services: Map<Seq<char>, ServiceView>, route: Seq<char>) -> Option<
    Seq<char>,
> {
    if services.contains_key(route) {
        Some(socket_of(services[route].instances[next_pick(services[route]) as int]))
    } else {
        None
    }
}

/// Every service has at least one instance, and every instance is listed under
/// the route of the service it belongs to.
pub open spec fn services_well_formed(services: Map<Seq<char>, ServiceView>) -> bool {
    forall|route: Seq<char>|
        #[trigger] services.contains_key(route) ==> {
            &&& services[route].instances.len() > 0
            &&& forall|k: int|
                0 <= k < services[route].instances.len()
                    ==> #[trigger] services[route].instances[k].service_name == route
        }
}

/// The services of the gateway, by route prefix.
pub struct ServiceMap {
    routes: Vec<String>,
    services: Vec<Service>,
}

impl ServiceMap {
    /// The routes are distinct, each has its service, every service has an
    /// instance, and every instance is listed under its own service's route.
    pub closed spec fn wf(&self) -> bool {
        &&& self.routes@.len() == self.services@.len()
        &&& forall|i: int, j: int|
            0 <= i < j < self.routes@.len() ==> #[trigger] self.routes@[i]@
                != #[trigger] self.routes@[j]@
        &&& forall|i: int|
            0 <= i < self.services@.len() ==> {
                &&& (#[trigger] self.services@[i])@.instances.len() > 0
                &&& forall|k: int|
                    0 <= k < self.services@[i]@.instances.len()
                        ==> #[trigger] self.services@[i]@.instances[k].service_name
                        == self.routes@[i]@
            }
    }

    spec fn has_route(&self, route: Seq<char>) -> bool {
        exists|i: int| 0 <= i < self.routes@.len() && #[trigger] self.routes@[i]@ == route
    }

    spec fn slot(&self, route: Seq<char>) -> int {
        choose|i: int| 0 <= i < self.routes@.len() && #[trigger] self.routes@[i]@ == route
    }

    proof fn lemma_slot(&self, i: int)
        requires
            self.wf(),
            0 <= i < self.routes@.len(),
        ensures
            self.has_route(self.routes@[i]@),
            self.slot(self.routes@[i]@) == i,
    {
        let r = self.routes@[i]@;
        assert(self.has_route(r));
        let j = self.slot(r);
        if j != i {
            if j < i {
                assert(self.routes@[j]@ != self.routes@[i]@);
            } else {
                assert(self.routes@[i]@ != self.routes@[j]@);
            }
        }
    }

    /// Law: in every valid map each service has an instance, and each
    /// instance is listed under the route of the service it belongs to.
    pub proof fn lemma_view_well_formed(&self)
        requires
            self.wf(),
        ensures
            services_well_formed(self@),
    {
        assert forall|route: Seq<char>| #[trigger] self@.contains_key(route) implies {
            &&& self@[route].instances.len() > 0
            &&& forall|k: int|
                0 <= k < self@[route].instances.len()
                    ==> #[trigger] self@[route].instances[k].service_name == route
        } by {
            let i = self.slot(route);
            assert(self.services@[i]@.instances.len() > 0);
        }
    }

    /// A map with no service.
    pub fn new() -> (map: Self)
        ensures
            map.wf(),
            map@ == Map::<Seq<char>, ServiceView>::empty(),
    {
        let map = ServiceMap { routes: Vec::new(), services: Vec::new() };
        assert(map@ =~= Map::<Seq<char>, ServiceView>::empty());
        map
    }

    fn find(&self, route: &str) -> (slot: Option<usize>)
        requires
            self.wf(),
        ensures
            match slot {
                Some(i) => i < self.routes@.len() && self.routes@[i as int]@ == route@,
                None => !self.has_route(route@),
            },
    {
        let wanted = route.to_owned();
        let mut i: usize = 0;
        while i < self.routes.len()
            invariant
                i <= self.routes@.len(),
                wanted@ == route@,
                forall|j: int| 0 <= j < i ==> #[trigger] self.routes@[j]@ != route@,
            decreases self.routes@.len() - i,
        {
            if self.routes[i] == wanted {
                return Some(i);
            }
            i = i + 1;
        }
        None
    }

    /// The service of `route`, if any.
    pub fn get(&self, route: &str) -> (service: Option<&Service>)
        requires
            self.wf(),
        ensures
            match service {
                Some(s) => self@.contains_key(route@) && s@ == self@[route@],
                None => !self@.contains_key(route@),
            },
    {
        match self.find(route) {
            Some(i) => {
                proof {
                    self.lemma_slot(i as int);
                }
                Some(&self.services[i])
            },
            None => None,
        }
    }

    /// Adds `instance` to the service of `route`, creating the service if the
    /// route has none.
    pub fn add_instance(&mut self, route: String, instance: ServerInstance)
        requires
            old(self).wf(),
            instance@.service_name == route@,
        ensures
            final(self).wf(),
            final(self)@ == add_to_services(old(self)@, route@, instance@),
    {
        let ghost added = instance@;
        match self.find(route.as_str()) {
            Some(i) => {
                proof {
                    self.lemma_slot(i as int);
                }
                self.services[i].add_instance_server(instance);
                proof {
                    assert forall|j: int, k: int|
                        0 <= j < self.services@.len() && 0 <= k < self.services@[j]@.instances.len()
                            implies #[trigger] self.services@[j]@.instances[k].service_name
                        == self.routes@[j]@ by {
                        if j != i {
                            assert(self.services@[j] == old(self).services@[j]);
                        } else if k < old(self).services@[j]@.instances.len() {
                            assert(self.services@[j]@.instances[k]
                                == old(self).services@[j]@.instances[k]);
                        }
                    }
                    assert(self.wf());
                    assert forall|r: Seq<char>|
                        #![auto]
                        self.has_route(r) implies self.slot(r) == old(self).slot(r) by {}
                    assert(self@ =~= add_to_services(old(self)@, route@, added)) by {
                        assert forall|r: Seq<char>| #[trigger] self@.contains_key(r) implies self@[r]
                            == add_to_services(old(self)@, route@, added)[r] by {
                            let j = old(self).slot(r);
                            if r != route@ {
                                assert(j != i);
                            }
                        }
                    }
                }
            },
            None => {
                let mut service = Service::new();
                service.add_instance_server(instance);
                self.routes.push(route);
                self.services.push(service);
                proof {
                    let n = old(self).routes@.len() as int;
                    assert forall|i: int, j: int|
                        0 <= i < j < self.routes@.len() implies #[trigger] self.routes@[i]@
                        != #[trigger] self.routes@[j]@ by {
                        if j == n {
                            assert(old(self).routes@[i] == self.routes@[i]);
                        } else {
                            assert(old(self).routes@[i] == self.routes@[i]);
                            assert(old(self).routes@[j] == self.routes@[j]);
                        }
                    }
                    assert forall|i: int, k: int|
                        0 <= i < self.services@.len() && 0 <= k < self.services@[i]@.instances.len()
                            implies #[trigger] self.services@[i]@.instances[k].service_name
                        == self.routes@[i]@ by {
                        if i < n {
                            assert(old(self).services@[i] == self.services@[i]);
                            assert(old(self).routes@[i] == self.routes@[i]);
                        }
                    }
                    assert(self.wf());
                    self.lemma_slot(n);
                    assert(self@ =~= add_to_services(old(self)@, route@, added)) by {
                        assert forall|r: Seq<char>|
                            #[trigger] add_to_services(old(self)@, route@, added).contains_key(
                                r,
                            ) implies self@.contains_key(r) by {
                            if r != route@ {
                                let j = old(self).slot(r);
                                assert(self.routes@[j] == old(self).routes@[j]);
                            }
                        }
                        assert forall|r: Seq<char>| #[trigger] self@.contains_key(r) implies self@[r]
                            == add_to_services(old(self)@, route@, added)[r] by {
                            if r != route@ {
                                let j = self.slot(r);
                                assert(j != n);
                                assert(self.routes@[j] == old(self).routes@[j]);
                                assert(old(self).has_route(r));
                                old(self).lemma_slot(j);
                            } else {
                                assert(self.services@[n]@.instances =~= seq![added]);
                            }
                        }
                    }
                }
            },
        }
    }

    /// Sends the next request to `route` round robin: returns the address of
    /// the chosen instance, or `None` when the route has no service.
    pub fn next_server(&mut self, route: &str) -> (addr: Option<String>)
        requires
            old(self).wf(),
        ensures
            final(self).wf(),
            final(self)@ == route_services(old(self)@, route@),
            addr matches Some(a) ==> route_target(old(self)@, route@) == Some(a@),
            addr is None ==> route_target(old(self)@, route@) is None,
    {
        match self.find(route) {
            Some(i) => {
                proof {
                    self.lemma_slot(i as int);
                }
                let addr = self.services[i].get_server_instance_to_send();
                proof {
                    assert forall|j: int, k: int|
                        0 <= j < self.services@.len() && 0 <= k < self.services@[j]@.instances.len()
                            implies #[trigger] self.services@[j]@.instances[k].service_name
                        == self.routes@[j]@ by {
                        if j != i {
                            assert(self.services@[j] == old(self).services@[j]);
                        }
                    }
                    assert(self.wf());
                    assert(self@ =~= route_services(old(self)@, route@)) by {
                        assert forall|r: Seq<char>| #[trigger] self@.contains_key(r) implies self@[r]
                            == route_services(old(self)@, route@)[r] by {
                            let j = old(self).slot(r);
                            if r != route@ {
                                assert(j != i);
                            }
                        }
                    }
                }
                Some(addr)
            },
            None => None,
        }
    }
}

impl View for ServiceMap {
    type V = Map<Seq<char>, ServiceView>;

    closed spec fn view(&self) -> Map<Seq<char>, ServiceView> {
        Map::new(|r: Seq<char>| self.has_route(r), |r: Seq<char>| self.services@[self.slot(r)]@)
    }
}

} // verus!

verus! {

/// Law: answering a client request never adds or drops a service or an
/// instance, and keeps the services well formed.
pub proof fn lemma_routing_keeps_instances(services: Map<Seq<char>, ServiceView>, path: Seq<char>)
    ensures
        route_services(services, path).dom() == services.dom(),
        forall|route: Seq<char>|
            #[trigger] services.contains_key(route) ==> route_services(services, path)[route].instances
                == services[route].instances,
        services_well_formed(services) ==> services_well_formed(route_services(services, path)),
{
    assert(route_services(services, path).dom() =~= services.dom());
}

/// Law: a request to a route that has a service is answered with the address
/// of one of that service's own instances.
pub proof fn lemma_answer_belongs_to_route(services: Map<Seq<char>, ServiceView>, path: Seq<char>)
    requires
        services_well_formed(services),
        services.contains_key(path),
    ensures
        exists|i: int|
            0 <= i < services[path].instances.len() && route_target(services, path) == Some(
                socket_of(#[trigger] services[path].instances[i]),
            ) && services[path].instances[i].service_name == path,
{
    let i = next_pick(services[path]) as int;
    assert(services[path].instances[i].service_name == path);
}

/// Law: adding an instance under a route keeps the services well formed,
/// makes the instance the last one of the route's service, and leaves every
/// other route as it was.
pub proof fn lemma_adding_instance(
    services: Map<Seq<char>, ServiceView>,
    route: Seq<char>,
    instance: InstanceView,
)
    requires
        services_well_formed(services),
        instance.service_name == route,
    ensures
        ({
            let post = add_to_services(services, route, instance);
            &&& services_well_formed(post)
            &&& post.contains_key(route)
            &&& post[route].instances.last() == instance
            &&& post.dom() == services.dom().insert(route)
            &&& forall|other: Seq<char>|
                other != route && #[trigger] services.contains_key(other) ==> post[other]
                    == services[other]
        }),
{
    let post = add_to_services(services, route, instance);
    assert(post.dom() =~= services.dom().insert(route));
    assert forall|r: Seq<char>| #[trigger] post.contains_key(r) implies {
        &&& post[r].instances.len() > 0
        &&& forall|k: int|
            0 <= k < post[r].instances.len() ==> #[trigger] post[r].instances[k].service_name == r
    } by {
        if r == route {
            assert forall|k: int| 0 <= k < post[r].instances.len() implies #[trigger] post[r].instances[k].service_name
                == r by {
                if services.contains_key(route) && k < services[route].instances.len() {
                    assert(post[r].instances[k] == services[route].instances[k]);
                }
            }
        }
    }
}

} // verus!

verus! {

/// Law: adding an instance under a route that has a service keeps every
/// instance the service had, in order, appends the new one and leaves the
/// rotation as it was; under a route without service it creates a service
/// holding only the new instance, at the start of its rotation. No other route
/// changes.
pub proof fn lemma_add_instance_appends(
    services: Map<Seq<char>, ServiceView>,
    route: Seq<char>,
    instance: InstanceView,
)
    ensures
        add_to_services(services, route, instance).dom() == services.dom().insert(route),
        services.contains_key(route) ==> {
            let after = add_to_services(services, route, instance)[route];
            &&& after.instances.len() == services[route].instances.len() + 1
            &&& forall|k: int|
                0 <= k < services[route].instances.len() ==> #[trigger] after.instances[k]
                    == services[route].instances[k]
            &&& after.instances[services[route].instances.len() as int] == instance
            &&& after.last_index == services[route].last_index
            &&& after.server_count == services[route].server_count
        },
        !services.contains_key(route) ==> {
            let after = add_to_services(services, route, instance)[route];
            &&& after.instances.len() == 1
            &&& after.instances[0] == instance
            &&& after.last_index == 0
            &&& after.server_count == 0
        },
        forall|other: Seq<char>|
            other != route && #[trigger] services.contains_key(other) ==> add_to_services(
                services,
                route,
                instance,
            )[other] == services[other],
{
    assert(add_to_services(services, route, instance).dom() =~= services.dom().insert(route));
}

/// Law: a request to a route whose service has `n > 0` instances and last
/// handed out slot `last` goes to the instance in slot `(last + 1) % n`, and
/// leaves that slot as the service's last one; the instances and every other
/// route stay as they were. A route without service gets no answer and changes
/// nothing.
pub proof fn lemma_request_takes_next_slot(services: Map<Seq<char>, ServiceView>, route: Seq<char>)
    ensures
        route_services(services, route).dom() == services.dom(),
        forall|other: Seq<char>|
            other != route && #[trigger] services.contains_key(other) ==> route_services(
                services,
                route,
            )[other] == services[other],
        services.contains_key(route) && services[route].instances.len() > 0 ==> {
            let n = services[route].instances.len();
            let slot = (services[route].last_index + 1) % n;
            let after = route_services(services, route)[route];
            &&& route_target(services, route) == Some(socket_of(services[route].instances[slot as int]))
            &&& after.instances == services[route].instances
            &&& after.last_index == slot
            &&& after.server_count == n
        },
        !services.contains_key(route) ==> route_target(services, route) is None
            && route_services(services, route) == services,
{
    assert(route_services(services, route).dom() =~= services.dom());
}

/// Law: in a run of requests to one route (each map the previous one after a
/// request, `maps[k + 1] == route_services(maps[k], route)`), request `k` goes
/// to slot `(last + k + 1) % n` of the route's service, where `last` is the
/// slot handed out before the run; so any `n` consecutive requests reach every
/// instance of the service exactly once.
pub proof fn lemma_request_run(maps: Seq<Map<Seq<char>, ServiceView>>, route: Seq<char>)
    requires
        maps.len() > 0,
        maps[0].contains_key(route),
        maps[0][route].instances.len() > 0,
        forall|k: int|
            #![trigger maps[k + 1]]
            0 <= k < maps.len() - 1 ==> maps[k + 1] == route_services(maps[k], route),
    ensures
        forall|k: int|
            0 <= k < maps.len() ==> {
                &&& #[trigger] maps[k].contains_key(route)
                &&& maps[k][route].instances == maps[0][route].instances
                &&& route_target(maps[k], route) == Some(
                    socket_of(
                        maps[0][route].instances[((maps[0][route].last_index + k + 1)
                            % maps[0][route].instances.len() as int)],
                    ),
                )
            },
        forall|k1: int, k2: int|
            0 <= k1 < k2 < k1 + maps[0][route].instances.len() ==> #[trigger] ((
            maps[0][route].last_index + k1 + 1) % maps[0][route].instances.len() as int)
                != #[trigger] ((maps[0][route].last_index + k2 + 1)
                % maps[0][route].instances.len() as int),
        forall|start: int, slot: int|
            0 <= slot < maps[0][route].instances.len() ==> {
                let k = start + #[trigger] ((slot - maps[0][route].last_index - start - 1)
                    % maps[0][route].instances.len() as int);
                &&& start <= k < start + maps[0][route].instances.len()
                &&& (maps[0][route].last_index + k + 1) % maps[0][route].instances.len() as int
                    == slot
            },
{
    let n = maps[0][route].instances.len() as int;
    let last = maps[0][route].last_index as int;
    assert forall|k: int| 0 <= k < maps.len() implies {
        &&& #[trigger] maps[k].contains_key(route)
        &&& maps[k][route].instances == maps[0][route].instances
        &&& route_target(maps[k], route) == Some(
            socket_of(maps[0][route].instances[((last + k + 1) % n)]),
        )
    } by {
        lemma_request_run_at(maps, route, k);
    }
    assert forall|k1: int, k2: int| 0 <= k1 < k2 < k1 + n implies #[trigger] ((last + k1 + 1) % n)
        != #[trigger] ((last + k2 + 1) % n) by {
        vstd::arithmetic::div_mod::lemma_mod_equivalence(last + k2 + 1, last + k1 + 1, n);
        vstd::arithmetic::div_mod::lemma_small_mod((k2 - k1) as nat, n as nat);
    }
    assert forall|start: int, slot: int| 0 <= slot < n implies {
        let k = start + #[trigger] ((slot - last - start - 1) % n);
        &&& start <= k < start + n
        &&& (last + k + 1) % n == slot
    } by {
        let d = (slot - last - start - 1) % n;
        vstd::arithmetic::div_mod::lemma_mod_bound(slot - last - start - 1, n);
        vstd::arithmetic::div_mod::lemma_add_mod_noop_right(last + start + 1, slot - last - start
            - 1, n);
        vstd::arithmetic::div_mod::lemma_small_mod(slot as nat, n as nat);
    }
}

/// The state of the route after `k` requests of a run, as in [`lemma_request_run`].
proof fn lemma_request_run_at(maps: Seq<Map<Seq<char>, ServiceView>>, route: Seq<char>, k: int)
    requires
        maps.len() > 0,
        maps[0].contains_key(route),
        maps[0][route].instances.len() > 0,
        forall|j: int|
            #![trigger maps[j + 1]]
            0 <= j < maps.len() - 1 ==> maps[j + 1] == route_services(maps[j], route),
        0 <= k < maps.len(),
    ensures
        maps[k].contains_key(route),
        maps[k][route].instances == maps[0][route].instances,
        k > 0 ==> maps[k][route].last_index == (maps[0][route].last_index + k)
            % (maps[0][route].instances.len() as int),
        route_target(maps[k], route) == Some(
            socket_of(
                maps[0][route].instances[((maps[0][route].last_index + k + 1)
                    % maps[0][route].instances.len() as int)],
            ),
        ),
    decreases k,
{
    let n = maps[0][route].instances.len() as int;
    let last = maps[0][route].last_index as int;
    if k > 0 {
        lemma_request_run_at(maps, route, k - 1);
        assert(maps[(k - 1) + 1] == route_services(maps[k - 1], route));
        if k > 1 {
            vstd::arithmetic::div_mod::lemma_add_mod_noop_right(1, last + k - 1, n);
        }
        vstd::arithmetic::div_mod::lemma_add_mod_noop_right(1, last + k, n);
    }
}

} // verus!
