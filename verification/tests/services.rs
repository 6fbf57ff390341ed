use api_gateway::services::health::{HealthChecker, HeartbeatPayload, HeartbeatReply};
use api_gateway::services::instance::MAX_INACTIVITY_NANOS;
use api_gateway::services::registry::{
    handle_request, is_register_path, RegisterServiceInfo, RegistryReply, ServiceRegistry,
};
use api_gateway::services::service::Service;
use api_gateway::services::service_map::ServiceMap;
use api_gateway::services::ServerInstance;

const SECOND: u64 = 1_000_000_000;

fn info(route: &str, port: u16) -> Option<RegisterServiceInfo> {
    Some(RegisterServiceInfo { route_prefix: String::from(route), port })
}

#[test]
fn instance_accessors() {
    let instance = ServerInstance::new(7, String::from("/users"), String::from("10.1.2.3"), 8080, 42);
    assert_eq!(instance.id(), 7);
    assert_eq!(instance.service_belongs(), "/users");
    assert_eq!(instance.ip_addr(), "10.1.2.3");
    assert_eq!(instance.port(), 8080);
    assert_eq!(instance.socket_addr(), "10.1.2.3:8080");
    assert_eq!(instance.last_ping(), 42);
}

#[test]
fn instance_inactivity_threshold() {
    let mut instance = ServerInstance::new(1, String::from("/a"), String::from("h"), 1, 100);
    assert!(!instance.is_inactive(100 + MAX_INACTIVITY_NANOS));
    assert!(instance.is_inactive(101 + MAX_INACTIVITY_NANOS));
    // A clock reading before the last ping counts as no time elapsed.
    assert!(!instance.is_inactive(0));
    instance.update_last_ping(200 + MAX_INACTIVITY_NANOS);
    assert!(!instance.is_inactive(101 + MAX_INACTIVITY_NANOS));
    assert_eq!(instance.last_ping(), 200 + MAX_INACTIVITY_NANOS);
}

#[test]
fn service_round_robin_over_instances() {
    let mut service = Service::new();
    service.add_instance_server(ServerInstance::new(0, String::from("/s"), String::from("a"), 1, 0));
    service.add_instance_server(ServerInstance::new(1, String::from("/s"), String::from("b"), 2, 0));
    service.add_instance_server(ServerInstance::new(2, String::from("/s"), String::from("c"), 3, 0));
    assert_eq!(service.len(), 3);
    assert_eq!(service.get_server_instance_to_send(), "b:2");
    assert_eq!(service.get_server_instance_to_send(), "c:3");
    assert_eq!(service.get_server_instance_to_send(), "a:1");
}

#[test]
fn service_finds_first_instance_by_ip() {
    let mut service = Service::new();
    service.add_instance_server(ServerInstance::new(0, String::from("/s"), String::from("a"), 1, 0));
    service.add_instance_server(ServerInstance::new(1, String::from("/s"), String::from("b"), 2, 0));
    service.add_instance_server(ServerInstance::new(2, String::from("/s"), String::from("b"), 3, 0));
    assert_eq!(service.get_server_from_ip("b").map(|i| i.id()), Some(1));
    assert_eq!(service.get_server_from_ip("a").map(|i| i.id()), Some(0));
    assert!(service.get_server_from_ip("z").is_none());
}

#[test]
fn service_map_adds_and_routes() {
    let mut map = ServiceMap::new();
    assert!(map.get("/x").is_none());
    assert_eq!(map.next_server("/x"), None);
    map.add_instance(String::from("/x"), ServerInstance::new(0, String::from("/x"), String::from("h1"), 10, 0));
    map.add_instance(String::from("/x"), ServerInstance::new(1, String::from("/x"), String::from("h2"), 20, 0));
    map.add_instance(String::from("/y"), ServerInstance::new(2, String::from("/y"), String::from("h3"), 30, 0));
    assert_eq!(map.get("/x").map(|s| s.len()), Some(2));
    assert_eq!(map.get("/y").map(|s| s.len()), Some(1));
    assert_eq!(map.next_server("/x"), Some(String::from("h2:20")));
    assert_eq!(map.next_server("/y"), Some(String::from("h3:30")));
    assert_eq!(map.next_server("/x"), Some(String::from("h1:10")));
}

#[test]
fn registry_starts_with_default_users_service() {
    let mut registry = ServiceRegistry::new(8500, 0);
    assert_eq!(registry.port(), 8500);
    assert!(registry.get_all_instances().is_empty());
    assert_eq!(registry.get_available_services().get("/users").map(|s| s.len()), Some(4));
    assert_eq!(handle_request(&mut registry, "/users"), "192.168.100.20:3000");
    assert_eq!(handle_request(&mut registry, "/users"), "192.168.100.30:3000");
    assert_eq!(handle_request(&mut registry, "/users"), "192.168.100.40:3000");
    assert_eq!(handle_request(&mut registry, "/users"), "192.168.100.10:3000");
}

#[test]
fn unknown_route_gets_no_server() {
    let mut registry = ServiceRegistry::new(8500, 0);
    assert_eq!(handle_request(&mut registry, "/orders"), "No server");
    assert_eq!(handle_request(&mut registry, "/"), "No server");
}

#[test]
fn registration_on_other_path_is_not_found() {
    let mut registry = ServiceRegistry::new(8500, 0);
    let reply = registry.handle_registry("/other", String::from("10.0.0.9"), info("/orders", 81), 1);
    assert_eq!(reply, RegistryReply::NotFound);
    assert_eq!(reply.status_code(), 404);
    assert!(registry.get_all_instances().is_empty());
    assert_eq!(handle_request(&mut registry, "/orders"), "No server");
}

#[test]
fn registration_without_payload_is_bad_request() {
    let mut registry = ServiceRegistry::new(8500, 0);
    let reply = registry.handle_registry("/register", String::from("10.0.0.9"), None, 1);
    assert_eq!(reply, RegistryReply::BadRequest);
    assert_eq!(reply.status_code(), 400);
    assert!(registry.get_all_instances().is_empty());
}

#[test]
fn registration_creates_service_and_serves_route() {
    let mut registry = ServiceRegistry::new(8500, 0);
    let reply = registry.handle_registry("/register", String::from("10.0.0.9"), info("/orders", 81), 5);
    assert_eq!(reply, RegistryReply::Registered { instance_id: 0 });
    assert_eq!(reply.status_code(), 202);
    let instance = registry.get_all_instances().get(&0).unwrap();
    assert_eq!(instance.socket_addr(), "10.0.0.9:81");
    assert_eq!(instance.service_belongs(), "/orders");
    assert_eq!(instance.last_ping(), 5);
    assert_eq!(handle_request(&mut registry, "/orders"), "10.0.0.9:81");
}

#[test]
fn registration_joins_existing_service_with_consecutive_ids() {
    let mut registry = ServiceRegistry::new(8500, 0);
    let first = registry.handle_registry("/register", String::from("10.0.0.9"), info("/users", 81), 5);
    let second = registry.handle_registry("/register", String::from("10.0.0.8"), info("/orders", 82), 6);
    assert_eq!(first, RegistryReply::Registered { instance_id: 0 });
    assert_eq!(second, RegistryReply::Registered { instance_id: 1 });
    assert_eq!(registry.get_available_services().get("/users").map(|s| s.len()), Some(5));
    assert_eq!(registry.get_all_instances().len(), 2);
    // the new instance is the fifth of /users: reached after four requests
    assert_eq!(handle_request(&mut registry, "/users"), "192.168.100.20:3000");
    assert_eq!(handle_request(&mut registry, "/users"), "192.168.100.30:3000");
    assert_eq!(handle_request(&mut registry, "/users"), "192.168.100.40:3000");
    assert_eq!(handle_request(&mut registry, "/users"), "10.0.0.9:81");
    assert_eq!(handle_request(&mut registry, "/users"), "192.168.100.10:3000");
}

#[test]
fn cleaning_drops_only_silent_instances() {
    let mut registry = ServiceRegistry::new(8500, 0);
    registry.handle_registry("/register", String::from("10.0.0.1"), info("/a", 1), 0);
    registry.handle_registry("/register", String::from("10.0.0.2"), info("/a", 2), 5 * SECOND);
    let removed = registry.remove_inactive_instances(12 * SECOND);
    assert_eq!(removed.len(), 1);
    assert_eq!(removed[0].id(), 0);
    assert!(registry.get_all_instances().get(&0).is_none());
    assert!(registry.get_all_instances().get(&1).is_some());
    // services keep their instances
    assert_eq!(registry.get_available_services().get("/a").map(|s| s.len()), Some(2));
    // cleaning again at the same time removes nothing
    assert!(registry.remove_inactive_instances(12 * SECOND).is_empty());
}

#[test]
fn cleaning_keeps_instance_at_exact_limit() {
    let mut registry = ServiceRegistry::new(8500, 0);
    registry.handle_registry("/register", String::from("10.0.0.1"), info("/a", 1), SECOND);
    assert!(registry.remove_inactive_instances(SECOND + MAX_INACTIVITY_NANOS).is_empty());
    assert_eq!(registry.remove_inactive_instances(SECOND + MAX_INACTIVITY_NANOS + 1).len(), 1);
}

#[test]
fn heartbeat_keeps_instance_alive() {
    let mut registry = ServiceRegistry::new(8500, 0);
    let checker = HealthChecker::new(8505);
    assert_eq!(checker.port(), 8505);
    registry.handle_registry("/register", String::from("10.0.0.1"), info("/a", 1), 0);
    let reply = checker.handle_heartbeat(&mut registry, Some(HeartbeatPayload { id: 0 }), 8 * SECOND);
    match reply {
        HeartbeatReply::Ack { id, address, message } => {
            assert_eq!(id, 0);
            assert_eq!(address, "10.0.0.1:1");
            assert_eq!(message, "{\"id\": 0 }");
        }
        _ => panic!("expected an acknowledgement"),
    }
    assert_eq!(registry.get_all_instances().get(&0).unwrap().last_ping(), 8 * SECOND);
    assert!(registry.remove_inactive_instances(15 * SECOND).is_empty());
}

#[test]
fn heartbeat_of_unknown_instance_changes_nothing() {
    let mut registry = ServiceRegistry::new(8500, 0);
    let checker = HealthChecker::new(8505);
    registry.handle_registry("/register", String::from("10.0.0.1"), info("/a", 1), 0);
    match checker.handle_heartbeat(&mut registry, Some(HeartbeatPayload { id: 9 }), SECOND) {
        HeartbeatReply::UnknownInstance { id } => assert_eq!(id, 9),
        _ => panic!("expected an unknown instance"),
    }
    assert_eq!(registry.get_all_instances().get(&0).unwrap().last_ping(), 0);
    match checker.handle_heartbeat(&mut registry, None, SECOND) {
        HeartbeatReply::Malformed => {}
        _ => panic!("expected a malformed heartbeat"),
    }
}

#[test]
fn duplicate_copies_instance() {
    let instance = ServerInstance::new(3, String::from("/s"), String::from("h"), 9, 77);
    let copy = instance.duplicate();
    assert_eq!(copy.id(), 3);
    assert_eq!(copy.socket_addr(), "h:9");
    assert_eq!(copy.last_ping(), 77);
}

#[test]
fn refusal_texts_and_register_path() {
    assert_eq!(RegistryReply::NotFound.refusal_text(), Some(String::from("Ruta no encontrada")));
    assert_eq!(
        RegistryReply::BadRequest.refusal_text(),
        Some(String::from("Bad Request: Invalid Payload"))
    );
    assert_eq!(RegistryReply::Registered { instance_id: 3 }.refusal_text(), None);
    assert!(is_register_path("/register"));
    assert!(!is_register_path("/register/"));
    assert!(!is_register_path("/users"));
}

#[test]
fn registered_ids_are_fresh() {
    let mut registry = ServiceRegistry::new(8500, 0);
    for expected in 0..5u64 {
        let reply = registry.handle_registry("/register", String::from("10.0.0.1"), info("/a", 1), 0);
        assert_eq!(reply, RegistryReply::Registered { instance_id: expected });
    }
    assert_eq!(registry.get_all_instances().len(), 5);
}
