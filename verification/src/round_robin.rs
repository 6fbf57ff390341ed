use vstd::prelude::*;
use crate::load_balancing::LoadBalancingStrategy;

verus! {

/// Slot that a rotation over `count` servers chooses right after `last`.
pub open spec fn rotate(last: nat, count: nat) -> nat {
    (last + 1) % count
}

/// Slot chosen by the `k`-th of `k` consecutive rotations that start after `last`.
pub open spec fn rotate_times(last: nat, count: nat, k: nat) -> nat
    decreases k,
{
    if k == 0 {
        last
    } else {
        rotate(rotate_times(last, count, (k - 1) as nat), count)
    }
}

/// Round-robin policy: every call hands out the slot after the one handed out last.
pub struct RoundRobin {
    next_index: usize,
    num_servers: usize,
}

impl RoundRobin {
    #[verifier::type_invariant]
    spec fn index_in_range(self) -> bool {
        self.next_index < usize::MAX
    }

    /// Slot handed out by the last call (0 before any call).
    pub closed spec fn last_index(&self) -> nat {
        self.next_index as nat
    }

    /// A policy that has handed out nothing yet and knows of no server.
    pub fn new() -> (rr: Self)
        ensures
            rr.last_index() < usize::MAX,
            rr.last_index() == 0,
            rr.server_count() == 0,
    {
        RoundRobin { next_index: 0, num_servers: 0 }
    }
}

impl LoadBalancingStrategy for RoundRobin {
    closed spec fn server_count(&self) -> nat {
        self.num_servers as nat
    }

    open spec fn picks(&self, index: nat, post: Self) -> bool {
        &&& index == rotate(self.last_index(), self.server_count())
        &&& post.last_index() == index
        &&& post.server_count() == self.server_count()
    }

    open spec fn resizes(&self, count: nat, post: Self) -> bool {
        &&& post.server_count() == count
        &&& post.last_index() == self.last_index()
    }

    fn get_next_index(&mut self) -> (index: usize)
        ensures
            final(self).last_index() < usize::MAX,
    {
        proof {
            use_type_invariant(&*self);
        }
        let next: usize = (self.next_index + 1) % self.num_servers;
        self.next_index = next;
        next
    }

    fn num_servers(&mut self, num_servers: usize)
        ensures
            final(self).last_index() < usize::MAX,
    {
        proof {
            use_type_invariant(&*self);
        }
        self.num_servers = num_servers;
    }
}

} // verus!

verus! {

/// Number of consecutive rotations after `last` that land on slot `slot`.
pub open spec fn rotations_to_reach(last: nat, count: nat, slot: nat) -> nat {
    ((((slot as int) - (last as int) - 1) % (count as int)) + 1) as nat
}

/// After `k >= 1` rotations starting after `last`, the chosen slot is `(last + k) % count`.
pub proof fn lemma_rotate_times_closed_form(last: nat, count: nat, k: nat)
    requires
        count > 0,
        k >= 1,
    ensures
        rotate_times(last, count, k) == (last + k) % count,
    decreases k,
{
    if k == 1 {
        reveal_with_fuel(rotate_times, 2);
    } else {
        lemma_rotate_times_closed_form(last, count, (k - 1) as nat);
        vstd::arithmetic::div_mod::lemma_add_mod_noop_right(
            1,
            (last + k - 1) as int,
            count as int,
        );
    }
}

/// Law: with `count > 0` servers, the `count` picks that follow any state of a
/// round-robin policy hand out every slot below `count`, and no slot twice.
pub proof fn lemma_round_robin_visits_each_server_once(last: nat, count: nat)
    requires
        count > 0,
    ensures
        forall|slot: nat|
            slot < count ==> {
                let k = #[trigger] rotations_to_reach(last, count, slot);
                &&& 1 <= k <= count
                &&& rotate_times(last, count, k) == slot
            },
        forall|k1: nat, k2: nat|
            1 <= k1 < k2 <= count ==> #[trigger] rotate_times(last, count, k1)
                != #[trigger] rotate_times(last, count, k2),
{
    assert forall|slot: nat| slot < count implies {
        let k = #[trigger] rotations_to_reach(last, count, slot);
        &&& 1 <= k <= count
        &&& rotate_times(last, count, k) == slot
    } by {
        let d = ((slot as int) - (last as int) - 1) % (count as int);
        vstd::arithmetic::div_mod::lemma_mod_bound((slot as int) - (last as int) - 1, count as int);
        let k = rotations_to_reach(last, count, slot);
        assert(k == d + 1);
        lemma_rotate_times_closed_form(last, count, k);
        vstd::arithmetic::div_mod::lemma_add_mod_noop_right(
            (last + 1) as int,
            (slot as int) - (last as int) - 1,
            count as int,
        );
        vstd::arithmetic::div_mod::lemma_small_mod(slot, count);
    }
    assert forall|k1: nat, k2: nat| 1 <= k1 < k2 <= count implies #[trigger] rotate_times(
        last,
        count,
        k1,
    ) != #[trigger] rotate_times(last, count, k2) by {
        lemma_rotate_times_closed_form(last, count, k1);
        lemma_rotate_times_closed_form(last, count, k2);
        vstd::arithmetic::div_mod::lemma_mod_equivalence(
            (last + k2) as int,
            (last + k1) as int,
            count as int,
        );
        vstd::arithmetic::div_mod::lemma_small_mod((k2 - k1) as nat, count);
    }
}

} // verus!

verus! {

/// In a run of picks on a round-robin policy without resizes in between
/// (`states[k]` picks `indices[k]` and becomes `states[k + 1]`), the pick at
/// position `k` is `k - start + 1` rotations after the state at `start`.
pub proof fn lemma_round_robin_run_from(
    states: Seq<RoundRobin>,
    indices: Seq<nat>,
    start: int,
    k: int,
)
    requires
        states.len() == indices.len() + 1,
        forall|j: int|
            #![trigger indices[j]]
            0 <= j < indices.len() ==> states[j].picks(indices[j], states[j + 1]),
        0 <= start <= k < indices.len(),
    ensures
        states[k].server_count() == states[start].server_count(),
        indices[k] == rotate_times(
            states[start].last_index(),
            states[start].server_count(),
            (k - start + 1) as nat,
        ),
    decreases k - start,
{
    reveal_with_fuel(rotate_times, 2);
    if k > start {
        lemma_round_robin_run_from(states, indices, start, k - 1);
        assert(states[k - 1].picks(indices[k - 1], states[k]));
        assert(states[k].picks(indices[k], states[k + 1]));
    } else {
        assert(states[k].picks(indices[k], states[k + 1]));
    }
}

/// Law: in a run of calls on a round-robin policy that knows `count > 0`
/// servers, with no resize in between, any `count` consecutive picks hand out
/// every slot below `count` exactly once, and the picks repeat with period
/// `count`.
pub proof fn lemma_round_robin_run(states: Seq<RoundRobin>, indices: Seq<nat>)
    requires
        states.len() == indices.len() + 1,
        states[0].server_count() > 0,
        forall|j: int|
            #![trigger indices[j]]
            0 <= j < indices.len() ==> states[j].picks(indices[j], states[j + 1]),
    ensures
        forall|start: int, slot: nat|
            0 <= start && start + states[0].server_count() <= indices.len() && slot
                < states[0].server_count() ==> {
                let k = start + #[trigger] rotations_to_reach(
                    states[start].last_index(),
                    states[0].server_count(),
                    slot,
                ) - 1;
                &&& start <= k < start + states[0].server_count()
                &&& indices[k] == slot
            },
        forall|k1: int, k2: int|
            0 <= k1 < k2 < indices.len() && k2 - k1 < states[0].server_count() ==> #[trigger] indices[k1]
                != #[trigger] indices[k2],
        forall|k: int|
            0 <= k && k + states[0].server_count() < indices.len() ==> #[trigger] indices[k
                + states[0].server_count()] == indices[k],
{
    let count = states[0].server_count();
    assert forall|start: int, slot: nat|
        0 <= start && start + count <= indices.len() && slot < count implies {
        let k = start + #[trigger] rotations_to_reach(states[start].last_index(), count, slot) - 1;
        &&& start <= k < start + count
        &&& indices[k] == slot
    } by {
        lemma_round_robin_run_from(states, indices, 0, start);
        lemma_round_robin_visits_each_server_once(states[start].last_index(), count);
        let r = rotations_to_reach(states[start].last_index(), count, slot);
        lemma_round_robin_run_from(states, indices, start, start + r - 1);
    }
    assert forall|k1: int, k2: int|
        0 <= k1 < k2 < indices.len() && k2 - k1 < count implies #[trigger] indices[k1]
        != #[trigger] indices[k2] by {
        lemma_round_robin_run_from(states, indices, 0, k1);
        lemma_round_robin_run_from(states, indices, k1, k2);
        lemma_round_robin_run_from(states, indices, k1, k1);
        lemma_round_robin_visits_each_server_once(states[k1].last_index(), count);
        assert(rotate_times(states[k1].last_index(), count, 1) != rotate_times(
            states[k1].last_index(),
            count,
            (k2 - k1 + 1) as nat,
        ));
    }
    assert forall|k: int| 0 <= k && k + count < indices.len() implies #[trigger] indices[k + count]
        == indices[k] by {
        lemma_round_robin_run_from(states, indices, 0, k);
        lemma_round_robin_run_from(states, indices, 0, k + count);
        lemma_rotate_times_closed_form(states[0].last_index(), count, (k + 1) as nat);
        lemma_rotate_times_closed_form(states[0].last_index(), count, (k + count + 1) as nat);
        vstd::arithmetic::div_mod::lemma_mod_add_multiples_vanish(
            (states[0].last_index() + k + 1) as int,
            count as int,
        );
    }
}

} // verus!
