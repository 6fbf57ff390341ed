use vstd::prelude::*;
use crate::load_balancing::LoadBalancingStrategy;
use crate::round_robin::{
    RoundRobin, lemma_rotate_times_closed_form, lemma_round_robin_visits_each_server_once, rotate,
    rotate_times, rotations_to_reach,
};

verus! {

/// `post` is what `pre` may become when it hands out `server`: the policy is
/// told the number of servers (reaching `resized`), picks a slot `index` below
/// it, and `server` is the address in that slot; the addresses stay as they are.
pub open spec fn hands_out<S: LoadBalancingStrategy>(
    pre: ServerGroup<S>,
    server: Seq<char>,
    post: ServerGroup<S>,
) -> bool {
    &&& post.servers() == pre.servers()
    &&& exists|resized: S, index: nat|
        #![trigger resized.picks(index, post.balancer())]
        {
            &&& pre.balancer().resizes(pre.servers().len(), resized)
            &&& resized.server_count() == pre.servers().len()
            &&& resized.picks(index, post.balancer())
            &&& index < pre.servers().len()
            &&& server == pre.servers()[index as int]
        }
}

/// A list of server addresses and the policy that picks among them.
pub struct ServerGroup<S> {
    servers: Vec<String>,
    load_balancer: S,
}

impl<S: LoadBalancingStrategy> ServerGroup<S> {
    /// The addresses of the group, in the order they were added.
    pub closed spec fn servers(&self) -> Seq<Seq<char>> {
        self.servers@.map_values(|s: String| s@)
    }

    /// The current state of the group's policy.
    pub closed spec fn balancer(&self) -> S {
        self.load_balancer
    }

    /// An empty group that will pick with `load_balancer`.
    pub fn new(load_balancer: S) -> (group: Self)
        ensures
            group.servers() == Seq::<Seq<char>>::empty(),
            group.balancer() == load_balancer,
    {
        ServerGroup { servers: Vec::new(), load_balancer }
    }

    /// Appends an address to the group.
    pub fn add_server(&mut self, ip_server: String)
        ensures
            final(self).servers() == old(self).servers().push(ip_server@),
            final(self).balancer() == old(self).balancer(),
    {
        self.servers.push(ip_server);
        assert(self.servers@.map_values(|s: String| s@) =~= old(self).servers().push(ip_server@));
    }

    /// Tells the policy how many servers there are, lets it pick one, and
    /// returns a copy of the picked address.
    pub fn get_next_server(&mut self) -> (server: String)
        requires
            old(self).servers().len() > 0,
        ensures
            hands_out(*old(self), server@, *final(self)),
    {
        self.load_balancer.num_servers(self.servers.len());
        let ghost resized = self.load_balancer;
        let index: usize = self.load_balancer.get_next_index();
        let server = self.servers[index].clone();
        assert(self.servers()[index as int] == server@);
        assert(self.servers() == old(self).servers());
        assert(resized.server_count() == old(self).servers().len());
        assert(self.balancer() == self.load_balancer);
        assert(resized.picks(index as nat, self.load_balancer));
        server
    }
}

} // verus!

verus! {

/// Law: in a group that picks round robin, each request gets the address right
/// after the one handed out last, counting over the group's current size.
pub proof fn lemma_round_robin_group_picks_next(
    pre: RoundRobin,
    count: nat,
    resized: RoundRobin,
    index: nat,
    post: RoundRobin,
)
    requires
        pre.resizes(count, resized),
        resized.picks(index, post),
    ensures
        index == rotate(pre.last_index(), count),
        post.last_index() == index,
        post.server_count() == count,
{
}

} // verus!

verus! {

/// Slot of the address that a round-robin group hands out next.
pub open spec fn next_slot(group: ServerGroup<RoundRobin>) -> nat {
    rotate(group.balancer().last_index(), group.servers().len())
}

/// A round-robin group hands out the address of its next slot and remembers
/// that slot as the last one handed out.
pub proof fn lemma_round_robin_hands_out(
    pre: ServerGroup<RoundRobin>,
    server: Seq<char>,
    post: ServerGroup<RoundRobin>,
)
    requires
        hands_out(pre, server, post),
    ensures
        post.servers() == pre.servers(),
        server == pre.servers()[next_slot(pre) as int],
        post.balancer().last_index() == next_slot(pre),
{
    let (resized, index) = choose|resized: RoundRobin, index: nat|
        {
            &&& pre.balancer().resizes(pre.servers().len(), resized)
            &&& resized.server_count() == pre.servers().len()
            &&& #[trigger] resized.picks(index, post.balancer())
            &&& index < pre.servers().len()
            &&& server == pre.servers()[index as int]
        };
}

/// In a run of requests to a round-robin group with no address added in
/// between (`groups[k]` hands out `served[k]` and becomes `groups[k + 1]`),
/// the slot of request `k` is `k - start + 1` rotations after the last slot of
/// `groups[start]`, and the addresses stay as they are.
pub proof fn lemma_round_robin_group_run_from(
    groups: Seq<ServerGroup<RoundRobin>>,
    served: Seq<Seq<char>>,
    start: int,
    k: int,
)
    requires
        groups.len() == served.len() + 1,
        forall|j: int|
            #![trigger served[j]]
            0 <= j < served.len() ==> hands_out(groups[j], served[j], groups[j + 1]),
        0 <= start <= k < served.len(),
    ensures
        groups[k].servers() == groups[start].servers(),
        groups[k + 1].servers() == groups[start].servers(),
        next_slot(groups[k]) == rotate_times(
            groups[start].balancer().last_index(),
            groups[start].servers().len(),
            (k - start + 1) as nat,
        ),
        served[k] == groups[start].servers()[next_slot(groups[k]) as int],
    decreases k - start,
{
    reveal_with_fuel(rotate_times, 2);
    lemma_round_robin_hands_out(groups[k], served[k], groups[k + 1]);
    if k > start {
        lemma_round_robin_group_run_from(groups, served, start, k - 1);
        lemma_round_robin_hands_out(groups[k - 1], served[k - 1], groups[k]);
    }
}

/// Law: a round-robin group of `n > 0` addresses that is asked `n` times in a
/// row, with no address added in between, hands out the address of every slot
/// exactly once; its answers repeat with period `n`.
pub proof fn lemma_round_robin_group_run(groups: Seq<ServerGroup<RoundRobin>>, served: Seq<Seq<char>>)
    requires
        groups.len() == served.len() + 1,
        groups[0].servers().len() > 0,
        forall|j: int|
            #![trigger served[j]]
            0 <= j < served.len() ==> hands_out(groups[j], served[j], groups[j + 1]),
    ensures
        forall|k: int|
            0 <= k < served.len() ==> #[trigger] served[k] == groups[0].servers()[next_slot(
                groups[k],
            ) as int],
        forall|start: int, slot: nat|
            0 <= start && start + groups[0].servers().len() <= served.len() && slot
                < groups[0].servers().len() ==> {
                let k = start + #[trigger] rotations_to_reach(
                    groups[start].balancer().last_index(),
                    groups[0].servers().len(),
                    slot,
                ) - 1;
                &&& start <= k < start + groups[0].servers().len()
                &&& next_slot(groups[k]) == slot
            },
        forall|k1: int, k2: int|
            0 <= k1 < k2 < served.len() && k2 - k1 < groups[0].servers().len() ==> #[trigger] next_slot(
                groups[k1],
            ) != #[trigger] next_slot(groups[k2]),
        forall|k: int|
            0 <= k && k + groups[0].servers().len() < served.len() ==> #[trigger] served[k
                + groups[0].servers().len()] == served[k],
{
    let n = groups[0].servers().len();
    assert forall|k: int| 0 <= k < served.len() implies #[trigger] served[k]
        == groups[0].servers()[next_slot(groups[k]) as int] by {
        lemma_round_robin_group_run_from(groups, served, 0, k);
    }
    assert forall|start: int, slot: nat|
        0 <= start && start + n <= served.len() && slot < n implies {
        let k = start + #[trigger] rotations_to_reach(groups[start].balancer().last_index(), n, slot) - 1;
        &&& start <= k < start + n
        &&& next_slot(groups[k]) == slot
    } by {
        lemma_round_robin_group_run_from(groups, served, 0, start);
        lemma_round_robin_visits_each_server_once(groups[start].balancer().last_index(), n);
        let r = rotations_to_reach(groups[start].balancer().last_index(), n, slot);
        lemma_round_robin_group_run_from(groups, served, start, start + r - 1);
    }
    assert forall|k1: int, k2: int|
        0 <= k1 < k2 < served.len() && k2 - k1 < n implies #[trigger] next_slot(groups[k1])
        != #[trigger] next_slot(groups[k2]) by {
        lemma_round_robin_group_run_from(groups, served, 0, k1);
        lemma_round_robin_group_run_from(groups, served, k1, k2);
        lemma_round_robin_group_run_from(groups, served, k1, k1);
        lemma_round_robin_visits_each_server_once(groups[k1].balancer().last_index(), n);
        assert(rotate_times(groups[k1].balancer().last_index(), n, 1) != rotate_times(
            groups[k1].balancer().last_index(),
            n,
            (k2 - k1 + 1) as nat,
        ));
    }
    assert forall|k: int| 0 <= k && k + n < served.len() implies #[trigger] served[k + n]
        == served[k] by {
        lemma_round_robin_group_run_from(groups, served, 0, k);
        lemma_round_robin_group_run_from(groups, served, 0, k + n);
        lemma_rotate_times_closed_form(groups[0].balancer().last_index(), n, (k + 1) as nat);
        lemma_rotate_times_closed_form(groups[0].balancer().last_index(), n, (k + n + 1) as nat);
        vstd::arithmetic::div_mod::lemma_mod_add_multiples_vanish(
            (groups[0].balancer().last_index() + k + 1) as int,
            n as int,
        );
    }
}

} // verus!
