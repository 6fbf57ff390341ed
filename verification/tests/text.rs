use api_gateway::services::health::ack_message;
use api_gateway::text::decimal_string;

#[test]
fn decimal_of_zero_and_small() {
    assert_eq!(decimal_string(0), "0");
    assert_eq!(decimal_string(7), "7");
    assert_eq!(decimal_string(10), "10");
}

#[test]
fn decimal_of_large_values() {
    assert_eq!(decimal_string(3000), "3000");
    assert_eq!(decimal_string(65535), "65535");
    assert_eq!(decimal_string(u64::MAX), u64::MAX.to_string());
}

#[test]
fn ack_message_matches_format() {
    assert_eq!(ack_message(5), format!("{{\"id\": {} }}", 5));
    assert_eq!(ack_message(0), "{\"id\": 0 }");
    assert_eq!(ack_message(1234567), "{\"id\": 1234567 }");
}
