use vstd::prelude::*;
use std::collections::HashMap;
use crate::services::instance::{
    InstanceView, MAX_INACTIVITY_NANOS, ServerInstance, elapsed, inactive_at, socket_of,
};
use crate::services::service::{Service, ServiceView};
use crate::services::service_map::{
    ServiceMap, add_to_services, lemma_adding_instance, route_services, route_target,
    services_well_formed,
};

verus! {

broadcast use vstd::std_specs::hash::group_hash_axioms;

/// What an instance sends to register itself: the route prefix of its service
/// and the port it listens on.
pub struct RegisterServiceInfo {
    pub route_prefix: String,
    pub port: u16,
}

/// The registry's answer to a registration request.
#[derive(PartialEq, Eq, Structural, Debug, Clone, Copy)]
pub enum RegistryReply {
    /// The request was not sent to the registration path.
    NotFound,
    /// The request body did not hold a registration.
    BadRequest,
    /// The instance was registered under `instance_id`.
    Registered { instance_id: u64 },
}

/// HTTP status code of each answer.
pub open spec fn reply_status(reply: RegistryReply) -> u16 {
    match reply {
        RegistryReply::NotFound => 404,
        RegistryReply::BadRequest => 400,
        RegistryReply::Registered { .. } => 202,
    }
}

impl RegistryReply {
    /// The HTTP status code of the answer.
    pub fn status_code(&self) -> (code: u16)
        ensures
            code == reply_status(*self),
    {
        match self {
            RegistryReply::NotFound => 404,
            RegistryReply::BadRequest => 400,
            RegistryReply::Registered { .. } => 202,
        }
    }

    /// The plain-text body of a refusal; a registration is answered with a
    /// JSON body instead, so it has none here.
    pub fn refusal_text(&self) -> (text: Option<String>)
        ensures
            match *self {
                RegistryReply::NotFound => text matches Some(t) && t@ == "Ruta no encontrada"@,
                RegistryReply::BadRequest => text matches Some(t) && t@
                    == "Bad Request: Invalid Payload"@,
                RegistryReply::Registered { .. } => text is None,
            },
    {
        match self {
            RegistryReply::NotFound => Some("Ruta no encontrada".to_owned()),
            RegistryReply::BadRequest => Some("Bad Request: Invalid Payload".to_owned()),
            RegistryReply::Registered { .. } => None,
        }
    }
}

/// Whether `path` is the path on which instances register.
pub fn is_register_path(path: &str) -> (is_register: bool)
    ensures
        is_register == (path@ == register_path()),
{
    let register = "/register".to_owned();
    let requested = path.to_owned();
    requested == register
}

/// The state of the registry, as plain values.
pub ghost struct RegistryView {
    pub services: Map<Seq<char>, ServiceView>,
    pub instances: Map<u64, InstanceView>,
    pub next_id: u64,
    /// Whether the identifier counter has gone past `u64::MAX` and started
    /// again from 0, after which an identifier may be handed out twice.
    pub ids_wrapped: bool,
}

/// The identifier handed out after `id`; the counter wraps around.
pub open spec fn following_id(id: u64) -> u64 {
    if id == u64::MAX {
        0
    } else {
        (id + 1) as u64
    }
}

/// The path on which instances register.
pub open spec fn register_path() -> Seq<char> {
    "/register"@
}

/// The instance that a registration creates.
pub open spec fn registered_instance(
    id: u64,
    info: RegisterServiceInfo,
    ip_addr: Seq<char>,
    now: u64,
) -> InstanceView {
    InstanceView {
        id,
        service_name: info.route_prefix@,
        ip_addr,
        port: info.port,
        last_ping: now,
    }
}

/// Answer and next state of the registry for a request to `path` from
/// `ip_addr` whose body parsed to `payload`, received at `now`.
pub open spec fn register_outcome(
    pre: RegistryView,
    path: Seq<char>,
    ip_addr: Seq<char>,
    payload: Option<RegisterServiceInfo>,
    now: u64,
) -> (RegistryReply, RegistryView) {
    if path != register_path() {
        (RegistryReply::NotFound, pre)
    } else {
        match payload {
            None => (RegistryReply::BadRequest, pre),
            Some(info) => {
                let id = pre.next_id;
                let instance = registered_instance(id, info, ip_addr, now);
                (
                    RegistryReply::Registered { instance_id: id },
                    RegistryView {
                        services: add_to_services(pre.services, info.route_prefix@, instance),
                        instances: pre.instances.insert(id, instance),
                        next_id: following_id(id),
                        ids_wrapped: pre.ids_wrapped || id == u64::MAX,
                    },
                )
            },
        }
    }
}

/// `id` is one of the first `count` entries of `ids`.
pub open spec fn listed_before(ids: Seq<u64>, count: int, id: u64) -> bool {
    exists|q: int| 0 <= q < count && ids[q] == id
}

/// The instances of `instances` that are still active at `now`.
pub open spec fn active_instances(instances: Map<u64, InstanceView>, now: u64) -> Map<
    u64,
    InstanceView,
> {
    Map::new(
        |id: u64| instances.contains_key(id) && !inactive_at(instances[id].last_ping, now),
        |id: u64| instances[id],
    )
}

/// The instances once `id` has been heard from at `now`; an unknown `id`
/// changes nothing.
pub open spec fn heartbeat_instances(instances: Map<u64, InstanceView>, id: u64, now: u64) -> Map<
    u64,
    InstanceView,
> {
    if instances.contains_key(id) {
        instances.insert(id, InstanceView { last_ping: now, ..instances[id] })
    } else {
        instances
    }
}

/// Body of the answer to a client request for `path`.
pub open spec fn route_reply(services: Map<Seq<char>, ServiceView>, path: Seq<char>) -> Seq<char> {
    match route_target(services, path) {
        Some(addr) => addr,
        None => "No server"@,
    }
}

/// The route that the gateway serves from its start.
pub open spec fn default_route() -> Seq<char> {
    "/users"@
}

/// The instances that the gateway serves from its start, all heard from at `now`.
pub open spec fn default_instances(now: u64) -> Seq<InstanceView> {
    seq![
        InstanceView { id: 0, service_name: default_route(), ip_addr: "192.168.100.10"@, port: 3000, last_ping: now },
        InstanceView { id: 1, service_name: default_route(), ip_addr: "192.168.100.20"@, port: 3000, last_ping: now },
        InstanceView { id: 2, service_name: default_route(), ip_addr: "192.168.100.30"@, port: 3000, last_ping: now },
        InstanceView { id: 3, service_name: default_route(), ip_addr: "192.168.100.40"@, port: 3000, last_ping: now },
    ]
}

/// The services that the gateway serves from its start.
pub open spec fn default_services(now: u64) -> Map<Seq<char>, ServiceView> {
    Map::<Seq<char>, ServiceView>::empty().insert(
        default_route(),
        ServiceView { instances: default_instances(now), last_index: 0, server_count: 0 },
    )
}

fn default_instance(id: u64, ip_addr: &str, now: u64) -> (instance: ServerInstance)
    ensures
        instance@ == (InstanceView {
            id,
            service_name: default_route(),
            ip_addr: ip_addr@,
            port: 3000,
            last_ping: now,
        }),
{
    ServerInstance::new(id, "/users".to_owned(), ip_addr.to_owned(), 3000, now)
}

/// The services that the gateway serves from its start.
fn get_available_services(now: u64) -> (services: ServiceMap)
    ensures
        services.wf(),
        services@ == default_services(now),
{
    let mut services = ServiceMap::new();
    services.add_instance("/users".to_owned(), default_instance(0, "192.168.100.10", now));
    services.add_instance("/users".to_owned(), default_instance(1, "192.168.100.20", now));
    services.add_instance("/users".to_owned(), default_instance(2, "192.168.100.30", now));
    services.add_instance("/users".to_owned(), default_instance(3, "192.168.100.40", now));
    assert(services@[default_route()].instances =~= default_instances(now));
    assert(services@ =~= default_services(now));
    services
}

/// The registry of services and of the instances that registered themselves.
///
/// Instances register over HTTP; each gets the next identifier of a counter
/// and joins the service of its route prefix. The instance table records when
/// each registered instance was last heard from.
pub struct ServiceRegistry {
    port: u16,
    instances_map: HashMap<u64, ServerInstance>,
    services_map: ServiceMap,
    id_gen: u64,
    ids_wrapped: Ghost<bool>,
}

impl View for ServiceRegistry {
    type V = RegistryView;

    closed spec fn view(&self) -> RegistryView {
        RegistryView {
            services: self.services_map@,
            instances: self.instances_map@.map_values(|i: ServerInstance| i@),
            next_id: self.id_gen,
            ids_wrapped: self.ids_wrapped@,
        }
    }
}

impl ServiceRegistry {
    /// The service map is valid and every instance is filed under its own
    /// identifier.
    pub closed spec fn wf(&self) -> bool {
        &&& self.services_map.wf()
        &&& forall|id: u64| #[trigger]
            self.instances_map@.contains_key(id) ==> self.instances_map@[id]@.id == id
        &&& !self.ids_wrapped@ ==> forall|id: u64| #[trigger]
            self.instances_map@.contains_key(id) ==> id < self.id_gen
    }

    /// Law: in every valid registry, each instance of the table is filed under
    /// its own identifier, every identifier in the table is below the counter
    /// until the counter wraps around, and the services are well formed.
    pub proof fn lemma_registry_well_formed(&self)
        requires
            self.wf(),
        ensures
            forall|id: u64| #[trigger]
                self@.instances.contains_key(id) ==> self@.instances[id].id == id,
            !self@.ids_wrapped ==> forall|id: u64| #[trigger]
                self@.instances.contains_key(id) ==> id < self@.next_id,
            services_well_formed(self@.services),
    {
        self.services_map.lemma_view_well_formed();
    }

    /// The port the registry listens on.
    pub closed spec fn port_spec(&self) -> u16 {
        self.port
    }

    /// A registry listening on `port` that serves the default services, whose
    /// instances are taken as heard from at `now`, and has no registered instance.
    pub fn new(port: u16, now: u64) -> (registry: Self)
        ensures
            registry.wf(),
            registry.port_spec() == port,
            registry@ == (RegistryView {
                services: default_services(now),
                instances: Map::<u64, InstanceView>::empty(),
                next_id: 0,
                ids_wrapped: false,
            }),
    {
        let registry = ServiceRegistry {
            port,
            instances_map: HashMap::new(),
            services_map: get_available_services(now),
            id_gen: 0,
            ids_wrapped: Ghost(false),
        };
        assert(registry@.instances =~= Map::<u64, InstanceView>::empty());
        registry
    }

    /// The port the registry listens on.
    pub fn port(&self) -> (port: u16)
        ensures
            port == self.port_spec(),
    {
        self.port
    }

    /// The services by route prefix.
    pub fn get_available_services(&self) -> (services: &ServiceMap)
        requires
            self.wf(),
        ensures
            services.wf(),
            services@ == self@.services,
    {
        &self.services_map
    }

    /// The registered instances by identifier.
    pub fn get_all_instances(&self) -> (instances: &HashMap<u64, ServerInstance>)
        ensures
            instances@.map_values(|i: ServerInstance| i@) == self@.instances,
    {
        &self.instances_map
    }

    /// Answers a registration request to `path` from `ip_address` whose body
    /// parsed to `payload` (`None` when it did not parse), received at `now`.
    ///
    /// Only `/register` is served. A registration takes the next identifier,
    /// joins the service of its route prefix (created if the route had none)
    /// and is filed in the instance table.
    pub fn handle_registry(
        &mut self,
        path: &str,
        ip_address: String,
        payload: Option<RegisterServiceInfo>,
        now: u64,
    ) -> (reply: RegistryReply)
        requires
            old(self).wf(),
        ensures
            final(self).wf(),
            final(self).port_spec() == old(self).port_spec(),
            (reply, final(self)@) == register_outcome(old(self)@, path@, ip_address@, payload, now),
            !old(self)@.ids_wrapped ==> (reply matches RegistryReply::Registered { instance_id }
                ==> !old(self)@.instances.contains_key(instance_id)),
    {
        if !is_register_path(path) {
            return RegistryReply::NotFound;
        }
        match payload {
            None => RegistryReply::BadRequest,
            Some(info) => {
                let ghost pre = self@;
                let id: u64 = self.id_gen;
                self.id_gen = if id == u64::MAX {
                    0
                } else {
                    id + 1
                };
                proof {
                    self.ids_wrapped@ = self.ids_wrapped@ || id == u64::MAX;
                }
                let instance = ServerInstance::new(
                    id,
                    info.route_prefix.clone(),
                    ip_address,
                    info.port,
                    now,
                );
                let copy = instance.duplicate();
                self.services_map.add_instance(info.route_prefix, copy);
                self.instances_map.insert(id, instance);
                proof {
                    let expected = register_outcome(pre, path@, ip_address@, payload, now).1;
                    assert(self@.instances =~= expected.instances);
                }
                RegistryReply::Registered { instance_id: id }
            },
        }
    }

    /// Drops from the instance table every instance that is inactive at `now`,
    /// and returns the dropped instances. The services keep their instances.
    pub fn remove_inactive_instances(&mut self, now: u64) -> (removed: Vec<ServerInstance>)
        requires
            old(self).wf(),
        ensures
            final(self).wf(),
            final(self).port_spec() == old(self).port_spec(),
            final(self)@ == (RegistryView {
                instances: active_instances(old(self)@.instances, now),
                ..old(self)@
            }),
            forall|j: int|
                0 <= j < removed@.len() ==> {
                    let r = #[trigger] removed@[j]@;
                    &&& old(self)@.instances.contains_key(r.id)
                    &&& old(self)@.instances[r.id] == r
                    &&& inactive_at(r.last_ping, now)
                },
            forall|id: u64|
                #[trigger] old(self)@.instances.contains_key(id) && inactive_at(
                    old(self)@.instances[id].last_ping,
                    now,
                ) ==> exists|j: int| 0 <= j < removed@.len() && #[trigger] removed@[j]@.id == id,
            forall|j1: int, j2: int|
                0 <= j1 < j2 < removed@.len() ==> #[trigger] removed@[j1]@.id
                    != #[trigger] removed@[j2]@.id,
    {
        let ghost old_map = self.instances_map@;
        let mut stale: Vec<u64> = Vec::new();
        for key in it: self.instances_map.keys()
            invariant
                self.instances_map@ == old_map,
                forall|j: int|
                    0 <= j < stale@.len() ==> old_map.contains_key(#[trigger] stale@[j])
                        && inactive_at(old_map[stale@[j]]@.last_ping, now),
                forall|p: int|
                    0 <= p < it.index() && old_map.contains_key(*it.seq()[p]) && inactive_at(
                        old_map[*it.seq()[p]]@.last_ping,
                        now,
                    ) ==> stale@.contains(*#[trigger] it.seq()[p]),
                forall|id: u64|
                    #[trigger] old_map.contains_key(id) && inactive_at(old_map[id]@.last_ping, now)
                        ==> stale@.contains(id) || exists|p: int|
                        it.index() <= p < it.seq().len() && *#[trigger] it.seq()[p] == id,
        {
            let ghost before = stale@;
            let ghost k = it.index();
            assert(*key == *it.seq()[k]);
            match self.instances_map.get(key) {
                Some(instance) => {
                    if instance.is_inactive(now) {
                        stale.push(*key);
                    }
                },
                None => {},
            }
            assert forall|p: int|
                0 <= p < k + 1 && old_map.contains_key(*it.seq()[p]) && inactive_at(
                    old_map[*it.seq()[p]]@.last_ping,
                    now,
                ) implies stale@.contains(*#[trigger] it.seq()[p]) by {
                if p < k {
                    assert(before.contains(*it.seq()[p]));
                    let q = choose|q: int| 0 <= q < before.len() && before[q] == *it.seq()[p];
                    assert(stale@[q] == before[q]);
                } else {
                    assert(stale@[stale@.len() - 1] == *key);
                }
            }
        }
        assert(forall|id: u64|
            #[trigger] old_map.contains_key(id) && inactive_at(old_map[id]@.last_ping, now)
                ==> stale@.contains(id));
        let mut removed: Vec<ServerInstance> = Vec::new();
        let mut i: usize = 0;
        while i < stale.len()
            invariant
                i <= stale@.len(),
                self.services_map == old(self).services_map,
                self.port == old(self).port,
                self.id_gen == old(self).id_gen,
                self.ids_wrapped == old(self).ids_wrapped,
                old_map == old(self).instances_map@,
                old(self).wf(),
                forall|j: int|
                    0 <= j < stale@.len() ==> old_map.contains_key(#[trigger] stale@[j])
                        && inactive_at(old_map[stale@[j]]@.last_ping, now),
                forall|id: u64|
                    #[trigger] old_map.contains_key(id) && inactive_at(old_map[id]@.last_ping, now)
                        ==> stale@.contains(id),
                forall|id: u64|
                    #[trigger] self.instances_map@.contains_key(id) <==> (old_map.contains_key(id)
                        && !listed_before(stale@, i as int, id)),
                forall|id: u64|
                    #[trigger] self.instances_map@.contains_key(id) ==> self.instances_map@[id]
                        == old_map[id],
                forall|j: int|
                    0 <= j < removed@.len() ==> {
                        let r = #[trigger] removed@[j]@;
                        &&& old_map.contains_key(r.id)
                        &&& old_map[r.id]@ == r
                        &&& listed_before(stale@, i as int, r.id)
                    },
                forall|id: u64|
                    #[trigger] old_map.contains_key(id) && listed_before(stale@, i as int, id)
                        ==> exists|j: int| 0 <= j < removed@.len() && #[trigger] removed@[j]@.id == id,
                forall|j1: int, j2: int|
                    0 <= j1 < j2 < removed@.len() ==> #[trigger] removed@[j1]@.id
                        != #[trigger] removed@[j2]@.id,
            decreases stale@.len() - i,
        {
            let key: u64 = stale[i];
            let ghost before = removed@;
            let ghost map_before = self.instances_map@;
            assert(listed_before(stale@, i as int + 1, key));
            assert forall|id: u64| listed_before(stale@, i as int, id) implies listed_before(
                stale@,
                i as int + 1,
                id,
            ) by {
                let q = choose|q: int| 0 <= q < i && stale@[q] == id;
                assert(0 <= q < i + 1 && stale@[q] == id);
            }
            match self.instances_map.remove(&key) {
                Some(instance) => {
                    assert(map_before.contains_key(key));
                    assert(instance@.id == key);
                    removed.push(instance);
                    assert forall|j1: int, j2: int|
                        0 <= j1 < j2 < removed@.len() implies #[trigger] removed@[j1]@.id
                        != #[trigger] removed@[j2]@.id by {
                        if j2 == removed@.len() - 1 {
                            assert(removed@[j1] == before[j1]);
                            assert(listed_before(stale@, i as int, before[j1]@.id));
                        } else {
                            assert(removed@[j1] == before[j1]);
                            assert(removed@[j2] == before[j2]);
                        }
                    }
                },
                None => {},
            }
            assert forall|id: u64| #[trigger]
                self.instances_map@.contains_key(id) <==> (old_map.contains_key(id)
                    && !listed_before(stale@, i as int + 1, id)) by {
                if listed_before(stale@, i as int + 1, id) && !listed_before(stale@, i as int, id) {
                    let q = choose|q: int| 0 <= q < i + 1 && stale@[q] == id;
                    assert(q == i);
                }
            }
            assert forall|id: u64|
                #[trigger] old_map.contains_key(id) && listed_before(stale@, i as int + 1, id)
                    implies exists|j: int| 0 <= j < removed@.len() && #[trigger] removed@[j]@.id
                    == id by {
                if listed_before(stale@, i as int, id) {
                    let j = choose|j: int| 0 <= j < before.len() && #[trigger] before[j]@.id == id;
                    assert(removed@[j] == before[j]);
                } else {
                    let q = choose|q: int| 0 <= q < i + 1 && stale@[q] == id;
                    assert(q == i);
                    assert(map_before.contains_key(id));
                    assert(removed@[removed@.len() - 1]@.id == id);
                }
            }
            i = i + 1;
        }
        proof {
            assert forall|id: u64| stale@.contains(id) implies listed_before(
                stale@,
                stale@.len() as int,
                id,
            ) by {
                let q = choose|q: int| 0 <= q < stale@.len() && stale@[q] == id;
                assert(0 <= q < stale@.len() && stale@[q] == id);
            }
            assert forall|id: u64| listed_before(stale@, stale@.len() as int, id) implies stale@.contains(
                id,
            ) by {
                let q = choose|q: int| 0 <= q < stale@.len() && stale@[q] == id;
                assert(stale@[q] == id);
            }
            assert(self@.instances =~= active_instances(old(self)@.instances, now));
        }
        removed
    }

    /// Records that instance `id` was heard from at `now`, and returns its
    /// address; `None`, with nothing changed, when no instance has that id.
    pub fn record_heartbeat(&mut self, id: u64, now: u64) -> (addr: Option<String>)
        requires
            old(self).wf(),
        ensures
            final(self).wf(),
            final(self).port_spec() == old(self).port_spec(),
            final(self)@ == (RegistryView {
                instances: heartbeat_instances(old(self)@.instances, id, now),
                ..old(self)@
            }),
            match addr {
                Some(a) => old(self)@.instances.contains_key(id) && a@ == socket_of(
                    old(self)@.instances[id],
                ),
                None => !old(self)@.instances.contains_key(id),
            },
    {
        match self.instances_map.remove(&id) {
            Some(mut instance) => {
                instance.update_last_ping(now);
                let addr = instance.socket_addr();
                self.instances_map.insert(id, instance);
                proof {
                    assert(self@.instances =~= heartbeat_instances(old(self)@.instances, id, now));
                }
                Some(addr)
            },
            None => {
                assert(self.instances_map@ =~= old(self).instances_map@);
                None
            },
        }
    }
}

/// Answers a client request for `path`: the address of the instance that the
/// route's service picks round robin, or `No server` when no service has that
/// route.
pub fn handle_request(registry: &mut ServiceRegistry, path: &str) -> (body: String)
    requires
        old(registry).wf(),
    ensures
        final(registry).wf(),
        final(registry).port_spec() == old(registry).port_spec(),
        final(registry)@ == (RegistryView {
            services: route_services(old(registry)@.services, path@),
            ..old(registry)@
        }),
        body@ == route_reply(old(registry)@.services, path@),
{
    match registry.services_map.next_server(path) {
        Some(addr) => addr,
        None => "No server".to_owned(),
    }
}

} // verus!

verus! {

/// Law: a registration is answered with the next identifier; the new instance
/// is filed under that identifier and is the last instance of its route's
/// service, which then answers requests; other routes are untouched and the
/// services stay well formed.
pub proof fn lemma_registration_serves_route(
    pre: RegistryView,
    ip_addr: Seq<char>,
    info: RegisterServiceInfo,
    now: u64,
)
    requires
        services_well_formed(pre.services),
    ensures
        ({
            let (reply, post) = register_outcome(pre, register_path(), ip_addr, Some(info), now);
            let route = info.route_prefix@;
            let instance = registered_instance(pre.next_id, info, ip_addr, now);
            &&& reply == (RegistryReply::Registered { instance_id: pre.next_id })
            &&& post.next_id == following_id(pre.next_id)
            &&& post.instances.contains_key(pre.next_id)
            &&& post.instances[pre.next_id] == instance
            &&& post.services.contains_key(route)
            &&& post.services[route].instances.last() == instance
            &&& route_target(post.services, route) is Some
            &&& services_well_formed(post.services)
            &&& forall|other: Seq<char>|
                other != route && #[trigger] pre.services.contains_key(other)
                    ==> post.services.contains_key(other) && post.services[other]
                    == pre.services[other]
        }),
{
    let instance = registered_instance(pre.next_id, info, ip_addr, now);
    lemma_adding_instance(pre.services, info.route_prefix@, instance);
}

/// Law: until the identifier counter wraps around, a registration hands out
/// an identifier that no instance of the table has, and every identifier in
/// the table stays below the counter.
pub proof fn lemma_registration_uses_fresh_id(
    pre: RegistryView,
    ip_addr: Seq<char>,
    info: RegisterServiceInfo,
    now: u64,
)
    requires
        !pre.ids_wrapped,
        forall|id: u64| #[trigger] pre.instances.contains_key(id) ==> id < pre.next_id,
    ensures
        !pre.instances.contains_key(pre.next_id),
        ({
            let post = register_outcome(pre, register_path(), ip_addr, Some(info), now).1;
            &&& post.ids_wrapped == (pre.next_id == u64::MAX)
            &&& !post.ids_wrapped ==> forall|id: u64| #[trigger]
                post.instances.contains_key(id) ==> id < post.next_id
        }),
{
}

/// Law: a request to another path than `/register`, or one whose body did not
/// parse, is refused and leaves the registry as it was.
pub proof fn lemma_refused_registration_changes_nothing(
    pre: RegistryView,
    path: Seq<char>,
    ip_addr: Seq<char>,
    payload: Option<RegisterServiceInfo>,
    now: u64,
)
    requires
        path != register_path() || payload is None,
    ensures
        register_outcome(pre, path, ip_addr, payload, now).1 == pre,
        register_outcome(pre, path, ip_addr, payload, now).0 == (if path != register_path() {
            RegistryReply::NotFound
        } else {
            RegistryReply::BadRequest
        }),
{
}

/// Law: once the inactive instances are dropped at `now`, exactly the instances
/// active at `now` remain, unchanged, and dropping again at `now` changes
/// nothing.
pub proof fn lemma_cleaning_keeps_exactly_active(instances: Map<u64, InstanceView>, now: u64)
    ensures
        forall|id: u64|
            #[trigger] active_instances(instances, now).contains_key(id) <==> (
            instances.contains_key(id) && !inactive_at(instances[id].last_ping, now)),
        forall|id: u64|
            #[trigger] active_instances(instances, now).contains_key(id) ==> active_instances(
                instances,
                now,
            )[id] == instances[id],
        active_instances(active_instances(instances, now), now) == active_instances(instances, now),
{
    assert(active_instances(active_instances(instances, now), now) =~= active_instances(
        instances,
        now,
    ));
}

/// Law: an instance heard from at `at` survives every cleaning at a time that
/// is at most [`MAX_INACTIVITY_NANOS`] later; the heartbeat changes nothing
/// else of the instance.
pub proof fn lemma_heartbeat_keeps_instance(
    instances: Map<u64, InstanceView>,
    id: u64,
    at: u64,
    now: u64,
)
    requires
        instances.contains_key(id),
        elapsed(at, now) <= MAX_INACTIVITY_NANOS,
    ensures
        active_instances(heartbeat_instances(instances, id, at), now).contains_key(id),
        heartbeat_instances(instances, id, at)[id] == (InstanceView {
            last_ping: at,
            ..instances[id]
        }),
        heartbeat_instances(instances, id, at).dom() == instances.dom(),
{
    assert(heartbeat_instances(instances, id, at).dom() =~= instances.dom());
}

/// Law: a heartbeat of an identifier that no instance has changes nothing.
pub proof fn lemma_unknown_heartbeat_changes_nothing(
    instances: Map<u64, InstanceView>,
    id: u64,
    at: u64,
)
    requires
        !instances.contains_key(id),
    ensures
        heartbeat_instances(instances, id, at) == instances,
{
}

} // verus!

verus! {

/// Law: cleaning at `now` keeps an instance exactly when it pinged at most ten
/// seconds (10_000_000_000 ns) before `now`, or at or after `now`; every
/// instance silent for longer is dropped.
pub proof fn lemma_cleaning_drops_silent_instances(instances: Map<u64, InstanceView>, now: u64)
    ensures
        forall|id: u64|
            #[trigger] active_instances(instances, now).contains_key(id) <==> (
            instances.contains_key(id) && (now as int) - (instances[id].last_ping as int)
                <= 10_000_000_000),
        forall|id: u64|
            instances.contains_key(id) && (now as int) - (instances[id].last_ping as int)
                > 10_000_000_000 ==> !#[trigger] active_instances(instances, now).contains_key(id),
{
}

/// Law: a heartbeat for `id` sets that instance's last ping to `now` and
/// changes nothing else: no other instance, and no other field of that one;
/// an unknown `id` changes nothing at all.
pub proof fn lemma_heartbeat_touches_only_its_instance(
    instances: Map<u64, InstanceView>,
    id: u64,
    now: u64,
)
    ensures
        heartbeat_instances(instances, id, now).dom() == instances.dom(),
        forall|other: u64|
            other != id && #[trigger] instances.contains_key(other) ==> heartbeat_instances(
                instances,
                id,
                now,
            )[other] == instances[other],
        instances.contains_key(id) ==> {
            let after = heartbeat_instances(instances, id, now)[id];
            &&& after.last_ping == now
            &&& after.id == instances[id].id
            &&& after.service_name == instances[id].service_name
            &&& after.ip_addr == instances[id].ip_addr
            &&& after.port == instances[id].port
        },
        !instances.contains_key(id) ==> heartbeat_instances(instances, id, now) == instances,
{
    assert(heartbeat_instances(instances, id, now).dom() =~= instances.dom());
}

} // verus!
