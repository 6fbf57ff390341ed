use vstd::prelude::*;

verus! {

/// A policy that picks which of a group's servers handles the next request.
///
/// The policy is told how many servers there are (`num_servers`) and is then
/// asked for the slot of the next one (`get_next_index`). Each implementation
/// describes its own transitions through `picks` and `resizes`; every
/// implementation must return a slot inside the current server count.
pub trait LoadBalancingStrategy: Sized {
    /// Number of servers the policy currently balances over.
    spec fn server_count(&self) -> nat;

    /// `post` is a state the policy may reach from `self` by choosing `index`.
    spec fn picks(&self, index: nat, post: Self) -> bool;

    /// `post` is a state the policy may reach from `self` when told that there
    /// are `count` servers.
    spec fn resizes(&self, count: nat, post: Self) -> bool;

    /// Chooses the slot of the server for the next request.
    fn get_next_index(&mut self) -> (index: usize)
        requires
            old(self).server_count() > 0,
        ensures
            index < old(self).server_count(),
            final(self).server_count() == old(self).server_count(),
            old(self).picks(index as nat, *final(self)),
    ;

    /// Tells the policy how many servers there are.
    fn num_servers(&mut self, num_servers: usize)
        ensures
            final(self).server_count() == num_servers,
            old(self).resizes(num_servers as nat, *final(self)),
    ;
}

} // verus!
