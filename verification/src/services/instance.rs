use vstd::prelude::*;
use crate::text::{decimal, decimal_string};

verus! {

/// How long an instance may stay silent before it counts as inactive:
/// ten seconds, in nanoseconds.
pub const MAX_INACTIVITY_NANOS: u64 = 10_000_000_000;

/// Time from `since` to `now`, both in nanoseconds on one monotonic clock;
/// zero when `now` is not after `since`.
pub open spec fn elapsed(since: u64, now: u64) -> nat {
    if now >= since {
        (now - since) as nat
    } else {
        0
    }
}

/// An instance last heard from at `last_ping` is inactive at `now` when more
/// than [`MAX_INACTIVITY_NANOS`] have passed since.
pub open spec fn inactive_at(last_ping: u64, now: u64) -> bool {
    elapsed(last_ping, now) > MAX_INACTIVITY_NANOS
}

/// `ip:port`, the port in decimal.
pub open spec fn socket_text(ip_addr: Seq<char>, port: u16) -> Seq<char> {
    ip_addr + seq![':'] + decimal(port as nat)
}

/// What a server instance is, as plain values.
pub ghost struct InstanceView {
    pub id: u64,
    pub service_name: Seq<char>,
    pub ip_addr: Seq<char>,
    pub port: u16,
    pub last_ping: u64,
}

/// The address `ip:port` of an instance.
pub open spec fn socket_of(instance: InstanceView) -> Seq<char> {
    socket_text(instance.ip_addr, instance.port)
}

/// One running backend of a service: where it listens and when it last
/// reported itself alive (nanoseconds on the gateway's monotonic clock).
pub struct ServerInstance {
    id: u64,
    service_name: String,
    ip_addr: String,
    port: u16,
    last_ping: u64,
}

impl View for ServerInstance {
    type V = InstanceView;

    closed spec fn view(&self) -> InstanceView {
        InstanceView {
            id: self.id,
            service_name: self.service_name@,
            ip_addr: self.ip_addr@,
            port: self.port,
            last_ping: self.last_ping,
        }
    }
}

impl ServerInstance {
    /// An instance of `service_name` at `ip_addr:port`, heard from at `now`.
    pub fn new(id: u64, service_name: String, ip_addr: String, port: u16, now: u64) -> (instance:
        Self)
        ensures
            instance@ == (InstanceView {
                id,
                service_name: service_name@,
                ip_addr: ip_addr@,
                port,
                last_ping: now,
            }),
    {
        ServerInstance { id, service_name, ip_addr, port, last_ping: now }
    }

    pub fn id(&self) -> (id: u64)
        ensures
            id == self@.id,
    {
        self.id
    }

    /// The route prefix of the service the instance belongs to.
    pub fn service_belongs(&self) -> (name: String)
        ensures
            name@ == self@.service_name,
    {
        self.service_name.clone()
    }

    pub fn ip_addr(&self) -> (ip_addr: &String)
        ensures
            ip_addr@ == self@.ip_addr,
    {
        &self.ip_addr
    }

    pub fn port(&self) -> (port: u16)
        ensures
            port == self@.port,
    {
        self.port
    }

    /// The address `ip:port` of the instance.
    pub fn socket_addr(&self) -> (addr: String)
        ensures
            addr@ == socket_of(self@),
    {
        let mut addr = self.ip_addr.clone();
        let sep = ":";
        proof {
            reveal_strlit(":");
        }
        addr.append(sep);
        let port_text = decimal_string(self.port as u64);
        addr.append(port_text.as_str());
        addr
    }

    /// When the instance was last heard from.
    pub fn last_ping(&self) -> (at: u64)
        ensures
            at == self@.last_ping,
    {
        self.last_ping
    }

    /// Records that the instance was heard from at `new_last_ping`.
    pub fn update_last_ping(&mut self, new_last_ping: u64)
        ensures
            final(self)@ == (InstanceView { last_ping: new_last_ping, ..old(self)@ }),
    {
        self.last_ping = new_last_ping;
    }

    /// Whether the instance counts as inactive at `now`.
    pub fn is_inactive(&self, now: u64) -> (inactive: bool)
        ensures
            inactive == inactive_at(self@.last_ping, now),
            inactive == ((now as int) - (self@.last_ping as int) > 10_000_000_000),
    {
        let elapsed: u64 = if now >= self.last_ping {
            now - self.last_ping
        } else {
            0
        };
        elapsed > MAX_INACTIVITY_NANOS
    }

    /// A separate copy of the instance.
    pub fn duplicate(&self) -> (copy: Self)
        ensures
            copy@ == self@,
    {
        ServerInstance {
            id: self.id,
            service_name: self.service_name.clone(),
            ip_addr: self.ip_addr.clone(),
            port: self.port,
            last_ping: self.last_ping,
        }
    }
}

} // verus!

verus! {

/// Law: an instance counts as inactive at `now` exactly when `now` is more than
/// ten seconds (10_000_000_000 ns) after its last ping; a clock reading at or
/// before the last ping never makes it inactive.
pub proof fn lemma_inactive_iff_silent_too_long(last_ping: u64, now: u64)
    ensures
        inactive_at(last_ping, now) <==> (now as int) - (last_ping as int) > 10_000_000_000,
        now <= last_ping ==> !inactive_at(last_ping, now),
        forall|later: u64|
            now <= later && inactive_at(last_ping, now) ==> #[trigger] inactive_at(last_ping, later),
{
}

} // verus!
