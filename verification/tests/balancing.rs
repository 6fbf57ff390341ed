use api_gateway::load_balancing::LoadBalancingStrategy;
use api_gateway::round_robin::RoundRobin;
use api_gateway::server_group::ServerGroup;

#[test]
fn round_robin_starts_after_slot_zero() {
    let mut rr = RoundRobin::new();
    rr.num_servers(4);
    assert_eq!(rr.get_next_index(), 1);
    assert_eq!(rr.get_next_index(), 2);
    assert_eq!(rr.get_next_index(), 3);
    assert_eq!(rr.get_next_index(), 0);
    assert_eq!(rr.get_next_index(), 1);
}

#[test]
fn round_robin_visits_every_slot_once_per_cycle() {
    let mut rr = RoundRobin::new();
    rr.num_servers(5);
    let mut seen = vec![0u32; 5];
    for _ in 0..5 {
        seen[rr.get_next_index()] += 1;
    }
    assert_eq!(seen, vec![1, 1, 1, 1, 1]);
}

#[test]
fn round_robin_single_server_always_zero() {
    let mut rr = RoundRobin::new();
    rr.num_servers(1);
    for _ in 0..3 {
        assert_eq!(rr.get_next_index(), 0);
    }
}

#[test]
fn round_robin_resize_keeps_last_slot() {
    let mut rr = RoundRobin::new();
    rr.num_servers(10);
    for _ in 0..7 {
        rr.get_next_index();
    }
    // The last slot handed out is 7; with 3 servers the next one is (7 + 1) % 3.
    rr.num_servers(3);
    assert_eq!(rr.get_next_index(), 2);
    assert_eq!(rr.get_next_index(), 0);
}

#[test]
fn server_group_rotates_over_added_servers() {
    let mut group = ServerGroup::new(RoundRobin::new());
    group.add_server(String::from("10.0.0.1:80"));
    group.add_server(String::from("10.0.0.2:80"));
    group.add_server(String::from("10.0.0.3:80"));
    assert_eq!(group.get_next_server(), "10.0.0.2:80");
    assert_eq!(group.get_next_server(), "10.0.0.3:80");
    assert_eq!(group.get_next_server(), "10.0.0.1:80");
    assert_eq!(group.get_next_server(), "10.0.0.2:80");
}

#[test]
fn server_group_follows_growth() {
    let mut group = ServerGroup::new(RoundRobin::new());
    group.add_server(String::from("a"));
    assert_eq!(group.get_next_server(), "a");
    group.add_server(String::from("b"));
    // last slot was 0; with two servers the next is 1
    assert_eq!(group.get_next_server(), "b");
    assert_eq!(group.get_next_server(), "a");
}
