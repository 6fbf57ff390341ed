use vstd::prelude::*;
use crate::load_balancing::LoadBalancingStrategy;
use crate::round_robin::{
    RoundRobin, lemma_round_robin_visits_each_server_once, rotate, rotate_times, rotations_to_reach,
};
use crate::services::instance::{InstanceView, ServerInstance, socket_of};

verus! {

/// What a service is, as plain values: its instances in the order they were
/// added, and the state of its round-robin policy.
pub ghost struct ServiceView {
    pub instances: Seq<InstanceView>,
    pub last_index: nat,
    pub server_count: nat,
}

/// Slot of the instance that the next request to the service goes to.
pub open spec fn next_pick(service: ServiceView) -> nat {
    rotate(service.last_index, service.instances.len())
}

/// The service once the next request has been sent to `next_pick(service)`.
pub open spec fn after_pick(service: ServiceView) -> ServiceView {
    ServiceView {
        last_index: next_pick(service),
        server_count: service.instances.len(),
        ..service
    }
}

/// The service with `instance` appended to its instances.
pub open spec fn with_instance(service: ServiceView, instance: InstanceView) -> ServiceView {
    ServiceView { instances: service.instances.push(instance), ..service }
}

/// `index` is the position of the first instance of `instances` that listens
/// on `ip_addr`.
pub open spec fn first_at_ip(instances: Seq<InstanceView>, ip_addr: Seq<char>, index: int) -> bool {
    &&& 0 <= index < instances.len()
    &&& instances[index].ip_addr == ip_addr
    &&& forall|j: int| 0 <= j < index ==> instances[j].ip_addr != ip_addr
}

/// The instances behind one route, and the round-robin policy that spreads
/// requests over them.
pub struct Service {
    servers_list: Vec<ServerInstance>,
    load_balancer: RoundRobin,
}

impl View for Service {
    type V = ServiceView;

    closed spec fn view(&self) -> ServiceView {
        ServiceView {
            instances: self.servers_list@.map_values(|i: ServerInstance| i@),
            last_index: self.load_balancer.last_index(),
            server_count: self.load_balancer.server_count(),
        }
    }
}

impl Service {
    /// A service with no instance yet.
    pub fn new() -> (service: Self)
        ensures
            service@ == (ServiceView {
                instances: Seq::<InstanceView>::empty(),
                last_index: 0,
                server_count: 0,
            }),
    {
        let service = Service { servers_list: Vec::new(), load_balancer: RoundRobin::new() };
        assert(service@.instances =~= Seq::<InstanceView>::empty());
        service
    }

    /// Appends an instance to the service.
    pub fn add_instance_server(&mut self, server_instance: ServerInstance)
        ensures
            final(self)@ == with_instance(old(self)@, server_instance@),
    {
        let ghost added = server_instance@;
        self.servers_list.push(server_instance);
        assert(self@.instances =~= old(self)@.instances.push(added));
    }

    /// Number of instances of the service.
    pub fn len(&self) -> (n: usize)
        ensures
            n == self@.instances.len(),
    {
        self.servers_list.len()
    }

    /// Picks the instance for the next request, round robin, and returns its
    /// address `ip:port`.
    pub fn get_server_instance_to_send(&mut self) -> (addr: String)
        requires
            old(self)@.instances.len() > 0,
        ensures
            addr@ == socket_of(old(self)@.instances[next_pick(old(self)@) as int]),
            final(self)@ == after_pick(old(self)@),
    {
        self.load_balancer.num_servers(self.servers_list.len());
        let index: usize = self.load_balancer.get_next_index();
        let addr = self.servers_list[index].socket_addr();
        assert(self@.instances =~= old(self)@.instances);
        addr
    }

    /// The first instance listening on `ip_addr`, if any.
    pub fn get_server_from_ip(&self, ip_addr: &str) -> (found: Option<&ServerInstance>)
        ensures
            match found {
                Some(instance) => exists|i: int|
                    #![trigger self@.instances[i]]
                    first_at_ip(self@.instances, ip_addr@, i) && instance@ == self@.instances[i],
                None => forall|i: int|
                    0 <= i < self@.instances.len() ==> #[trigger] self@.instances[i].ip_addr
                        != ip_addr@,
            },
    {
        let wanted = ip_addr.to_owned();
        let mut i: usize = 0;
        while i < self.servers_list.len()
            invariant
                i <= self.servers_list@.len(),
                wanted@ == ip_addr@,
                forall|j: int| 0 <= j < i ==> #[trigger] self@.instances[j].ip_addr != ip_addr@,
            decreases self.servers_list@.len() - i,
        {
            if *self.servers_list[i].ip_addr() == wanted {
                assert(first_at_ip(self@.instances, ip_addr@, i as int));
                return Some(&self.servers_list[i]);
            }
            i = i + 1;
        }
        None
    }
}

} // verus!

verus! {

/// The service after `k` requests have been sent to it.
pub open spec fn after_picks(service: ServiceView, k: nat) -> ServiceView
    decreases k,
{
    if k == 0 {
        service
    } else {
        after_pick(after_picks(service, (k - 1) as nat))
    }
}

/// The request that follows `k` earlier ones goes to the instance that `k + 1`
/// rotations after the service's last pick land on; requests never change the
/// instances.
pub proof fn lemma_requests_follow_rotation(service: ServiceView, k: nat)
    requires
        service.instances.len() > 0,
    ensures
        after_picks(service, k).instances == service.instances,
        next_pick(after_picks(service, k)) == rotate_times(
            service.last_index,
            service.instances.len(),
            k + 1,
        ),
    decreases k,
{
    reveal_with_fuel(rotate_times, 2);
    if k > 0 {
        lemma_requests_follow_rotation(service, (k - 1) as nat);
    }
}

/// Law: `n` consecutive requests to a service of `n` instances reach every
/// instance, and none twice.
pub proof fn lemma_requests_reach_each_instance_once(service: ServiceView)
    requires
        service.instances.len() > 0,
    ensures
        forall|slot: nat|
            slot < service.instances.len() ==> {
                let k = #[trigger] rotations_to_reach(
                    service.last_index,
                    service.instances.len(),
                    slot,
                );
                &&& 1 <= k <= service.instances.len()
                &&& next_pick(after_picks(service, (k - 1) as nat)) == slot
            },
        forall|k1: nat, k2: nat|
            k1 < k2 < service.instances.len() ==> #[trigger] next_pick(after_picks(service, k1))
                != #[trigger] next_pick(after_picks(service, k2)),
{
    let n = service.instances.len();
    lemma_round_robin_visits_each_server_once(service.last_index, n);
    assert forall|slot: nat| slot < n implies {
        let k = #[trigger] rotations_to_reach(service.last_index, n, slot);
        &&& 1 <= k <= n
        &&& next_pick(after_picks(service, (k - 1) as nat)) == slot
    } by {
        let k = rotations_to_reach(service.last_index, n, slot);
        lemma_requests_follow_rotation(service, (k - 1) as nat);
    }
    assert forall|k1: nat, k2: nat| k1 < k2 < n implies #[trigger] next_pick(
        after_picks(service, k1),
    ) != #[trigger] next_pick(after_picks(service, k2)) by {
        lemma_requests_follow_rotation(service, k1);
        lemma_requests_follow_rotation(service, k2);
        assert(rotate_times(service.last_index, n, k1 + 1) != rotate_times(
            service.last_index,
            n,
            k2 + 1,
        ));
    }
}

} // verus!
