use vstd::prelude::*;
use crate::services::instance::socket_of;
use crate::services::registry::{RegistryView, ServiceRegistry, heartbeat_instances};
use crate::text::{decimal, decimal_string};

verus! {

/// What an instance sends to report that it is alive.
pub struct HeartbeatPayload {
    pub id: u64,
}

/// What the health checker does with a heartbeat datagram.
pub enum HeartbeatReply {
    /// Instance `id` is known: `message` goes back to the sender; `address` is
    /// where the instance listens.
    Ack { id: u64, address: String, message: String },
    /// No instance has identifier `id`; nothing is sent back.
    UnknownInstance { id: u64 },
    /// The datagram did not hold a heartbeat; nothing is sent back.
    Malformed,
}

/// The acknowledgement sent back for a heartbeat of instance `id`:
/// `{"id": ` and the identifier in decimal, then ` }`.
pub open spec fn ack_text(id: u64) -> Seq<char> {
    seq!['{', '"', 'i', 'd', '"', ':', ' '] + decimal(id as nat) + seq![' ', '}']
}

/// Writes the acknowledgement of a heartbeat of instance `id`.
pub fn ack_message(id: u64) -> (message: String)
    ensures
        message@ == ack_text(id),
{
    let open = "{\"id\": ";
    let close = " }";
    proof {
        reveal_strlit("{\"id\": ");
        reveal_strlit(" }");
    }
    let mut message = open.to_owned();
    let digits = decimal_string(id);
    message.append(digits.as_str());
    message.append(close);
    proof {
        assert(message@ =~= ack_text(id));
    }
    message
}

/// Listens for heartbeats of registered instances and records when each was
/// last heard from.
pub struct HealthChecker {
    port: u16,
}

impl HealthChecker {
    /// The port the health checker listens on.
    pub closed spec fn port_spec(&self) -> u16 {
        self.port
    }

    /// A health checker listening on `port`.
    pub fn new(port: u16) -> (checker: Self)
        ensures
            checker.port_spec() == port,
    {
        HealthChecker { port }
    }

    /// The port the health checker listens on.
    pub fn port(&self) -> (port: u16)
        ensures
            port == self.port_spec(),
    {
        self.port
    }

    /// Handles a heartbeat received at `now` whose datagram parsed to
    /// `payload` (`None` when it did not parse). A known instance is marked as
    /// heard from at `now` and acknowledged.
    pub fn handle_heartbeat(
        &self,
        registry: &mut ServiceRegistry,
        payload: Option<HeartbeatPayload>,
        now: u64,
    ) -> (reply: HeartbeatReply)
        requires
            old(registry).wf(),
        ensures
            final(registry).wf(),
            final(registry).port_spec() == old(registry).port_spec(),
            match payload {
                None => {
                    &&& reply is Malformed
                    &&& final(registry)@ == old(registry)@
                },
                Some(beat) => {
                    &&& final(registry)@ == (RegistryView {
                        instances: heartbeat_instances(old(registry)@.instances, beat.id, now),
                        ..old(registry)@
                    })
                    &&& if old(registry)@.instances.contains_key(beat.id) {
                        &&& reply matches HeartbeatReply::Ack { id, address, message }
                        &&& id == beat.id
                        &&& address@ == socket_of(old(registry)@.instances[beat.id])
                        &&& message@ == ack_text(beat.id)
                    } else {
                        reply == (HeartbeatReply::UnknownInstance { id: beat.id })
                    }
                },
            },
    {
        match payload {
            None => HeartbeatReply::Malformed,
            Some(beat) => {
                let id: u64 = beat.id;
                let message = ack_message(id);
                match registry.record_heartbeat(id, now) {
                    Some(address) => HeartbeatReply::Ack { id, address, message },
                    None => HeartbeatReply::UnknownInstance { id },
                }
            },
        }
    }
}

} // verus!
