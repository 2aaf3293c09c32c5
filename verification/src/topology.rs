//! Topology store: devices, links and packets held in explicit arenas,
//! addressed by stable indices, together with the construction helpers.
use vstd::prelude::*;

use crate::model::{
    DeviceKindV, DeviceV, EmitterV, LinkV, PacketV, PortV, PositionV, WorldV, valid_port, wf,
    wf_device,
};

verus! {

/// Human-readable device name, for presentation only.
pub struct Label(pub String);

/// How many ports a device has; port indices run `0..count`.
pub struct Ports {
    pub count: usize,
}

/// An addressable slot on a device: device index plus port index. Two port
/// references are equal exactly when both fields agree.
#[derive(Copy, Clone, Debug, PartialEq, Eq, Structural, Hash)]
pub struct PortRef {
    pub device: usize,
    pub index: usize,
}

/// Marker for hub behavior: re-broadcast arrivals out of every other port.
pub struct HubLogic;

/// Emitter behavior: emit a copy of `payload` at `port` every `interval_t`
/// ticks; `timer_t` counts the ticks since the last emission.
pub struct Emitter {
    pub payload: Vec<u8>,
    pub port: usize,
    pub interval_t: usize,
    pub timer_t: usize,
}

/// Marker for sink behavior: log and destroy whatever arrives.
pub struct ConsoleSink;

/// The two endpoints a link connects. Undirected.
pub struct ConnectsPorts {
    pub a: PortRef,
    pub b: PortRef,
}

/// A link's latency in ticks.
pub struct LatencyT(pub usize);

/// The bytes a packet carries.
pub struct Payload(pub Vec<u8>);

/// The two sub-states of a packet parked at a port.
#[derive(Copy, Clone, Debug, PartialEq, Eq, Structural)]
pub enum PortState {
    JustArrived,
    ReadyToSend,
}

/// A packet parked at a port.
pub struct AtPort {
    pub port: PortRef,
    pub state: PortState,
}

/// A packet crossing a link: `delay` ticks remain of `delay_full`.
pub struct Transit {
    pub from: PortRef,
    pub to: PortRef,
    pub delay: usize,
    pub delay_full: usize,
}

/// Exactly one position state per packet, as a structural invariant.
pub enum Position {
    AtPort(AtPort),
    InTransit(Transit),
}

/// The behavior a device carries.
pub enum DeviceKind {
    Emitter(Emitter),
    Sink(ConsoleSink),
    Hub(HubLogic),
}

/// A device: label, ports, and exactly one behavior.
pub struct Device {
    pub label: Label,
    pub ports: Ports,
    pub kind: DeviceKind,
}

/// A link: two endpoints and a latency.
pub struct Link {
    pub connects: ConnectsPorts,
    pub latency: LatencyT,
}

/// A packet: payload bytes and its position.
pub struct Packet {
    pub payload: Payload,
    pub position: Position,
}

/// The whole topology. Devices and links are created at build time and
/// persist; packet slots become `None` when the packet is destroyed; the
/// sink log holds every payload consumed so far, in consumption order.
pub struct World {
    pub devices: Vec<Device>,
    pub links: Vec<Link>,
    pub packets: Vec<Option<Packet>>,
    pub sink_log: Vec<Payload>,
}

impl View for PortRef {
    type V = PortV;

    open spec fn view(&self) -> PortV {
        PortV { device: self.device as int, index: self.index as int }
    }
}

impl View for Position {
    type V = PositionV;

    open spec fn view(&self) -> PositionV {
        match self {
            Position::AtPort(at) => PositionV::AtPort { port: at.port@, state: at.state },
            Position::InTransit(t) => PositionV::InTransit {
                from: t.from@,
                to: t.to@,
                delay: t.delay as int,
                delay_full: t.delay_full as int,
            },
        }
    }
}

impl View for Packet {
    type V = PacketV;

    open spec fn view(&self) -> PacketV {
        PacketV { payload: self.payload.0@, position: self.position@ }
    }
}

impl View for DeviceKind {
    type V = DeviceKindV;

    open spec fn view(&self) -> DeviceKindV {
        match self {
            DeviceKind::Emitter(e) => DeviceKindV::Emitter(
                EmitterV {
                    payload: e.payload@,
                    port: e.port as int,
                    interval_t: e.interval_t as int,
                    timer_t: e.timer_t as int,
                },
            ),
            DeviceKind::Sink(_) => DeviceKindV::Sink,
            DeviceKind::Hub(_) => DeviceKindV::Hub,
        }
    }
}

impl View for Device {
    type V = DeviceV;

    open spec fn view(&self) -> DeviceV {
        DeviceV { label: self.label.0@, port_count: self.ports.count as int, kind: self.kind@ }
    }
}

impl View for Link {
    type V = LinkV;

    open spec fn view(&self) -> LinkV {
        LinkV { a: self.connects.a@, b: self.connects.b@, latency: self.latency.0 as int }
    }
}

impl View for World {
    type V = WorldV;

    open spec fn view(&self) -> WorldV {
        WorldV {
            devices: self.devices@.map_values(|d: Device| d@),
            links: self.links@.map_values(|l: Link| l@),
            packets: self.packets@.map_values(
                |p: Option<Packet>|
                    match p {
                        Some(pk) => Some(pk@),
                        None => None,
                    },
            ),
            sink_log: self.sink_log@.map_values(|p: Payload| p.0@),
        }
    }
}

impl World {
    /// An empty topology: no devices, no links, no packets, nothing logged.
    pub fn new() -> (w: World)
        ensures
            w@.devices == Seq::<DeviceV>::empty(),
            w@.links == Seq::<LinkV>::empty(),
            w@.packets == Seq::<Option<PacketV>>::empty(),
            w@.sink_log == Seq::<Seq<u8>>::empty(),
            wf(w@),
    {
        let w = World { devices: Vec::new(), links: Vec::new(), packets: Vec::new(), sink_log: Vec::new() };
        proof {
            assert(w@.devices =~= Seq::<DeviceV>::empty());
            assert(w@.links =~= Seq::<LinkV>::empty());
            assert(w@.packets =~= Seq::<Option<PacketV>>::empty());
            assert(w@.sink_log =~= Seq::<Seq<u8>>::empty());
        }
        w
    }
}

/// Create an emitter device. A device must have at least one port: creating
/// one with zero ports is a fatal configuration error and is ruled out here.
pub fn spawn_spammer(
    w: &mut World,
    label: String,
    num_ports: usize,
    payload: Vec<u8>,
    interval_t: usize,
) -> (id: usize)
    requires
        num_ports >= 1,
        wf(old(w)@),
    ensures
        id == old(w)@.devices.len(),
        final(w)@.devices == old(w)@.devices.push(
            DeviceV {
                label: label@,
                port_count: num_ports as int,
                kind: DeviceKindV::Emitter(
                    EmitterV {
                        payload: payload@,
                        port: 0,
                        interval_t: interval_t as int,
                        timer_t: 0,
                    },
                ),
            },
        ),
        final(w)@.links == old(w)@.links,
        final(w)@.packets == old(w)@.packets,
        final(w)@.sink_log == old(w)@.sink_log,
        wf(final(w)@),
{
    let id = w.devices.len();
    w.devices.push(
        Device {
            label: Label(label),
            ports: Ports { count: num_ports },
            kind: DeviceKind::Emitter(Emitter { payload, port: 0, interval_t, timer_t: 0 }),
        },
    );
    proof {
        assert(w@.devices =~= old(w)@.devices.push(w.devices@.last()@));
        assert(w@.links =~= old(w)@.links);
        assert(w@.packets =~= old(w)@.packets);
        assert(w@.sink_log =~= old(w)@.sink_log);
        lemma_push_device_wf(old(w)@, w@);
    }
    id
}

/// Create a sink device. Zero ports is a fatal configuration error.
pub fn spawn_sink(w: &mut World, label: String, n_ports: usize) -> (id: usize)
    requires
        n_ports >= 1,
        wf(old(w)@),
    ensures
        id == old(w)@.devices.len(),
        final(w)@.devices == old(w)@.devices.push(
            DeviceV { label: label@, port_count: n_ports as int, kind: DeviceKindV::Sink },
        ),
        final(w)@.links == old(w)@.links,
        final(w)@.packets == old(w)@.packets,
        final(w)@.sink_log == old(w)@.sink_log,
        wf(final(w)@),
{
    let id = w.devices.len();
    w.devices.push(
        Device { label: Label(label), ports: Ports { count: n_ports }, kind: DeviceKind::Sink(ConsoleSink) },
    );
    proof {
        assert(w@.devices =~= old(w)@.devices.push(w.devices@.last()@));
        assert(w@.links =~= old(w)@.links);
        assert(w@.packets =~= old(w)@.packets);
        assert(w@.sink_log =~= old(w)@.sink_log);
        lemma_push_device_wf(old(w)@, w@);
    }
    id
}

/// Create a hub device. Zero ports is a fatal configuration error; a hub
/// needs at least two ports to be useful, but one port is legal and simply
/// drops whatever arrives.
pub fn spawn_hub(w: &mut World, label: String, n_ports: usize) -> (id: usize)
    requires
        n_ports >= 1,
        wf(old(w)@),
    ensures
        id == old(w)@.devices.len(),
        final(w)@.devices == old(w)@.devices.push(
            DeviceV { label: label@, port_count: n_ports as int, kind: DeviceKindV::Hub },
        ),
        final(w)@.links == old(w)@.links,
        final(w)@.packets == old(w)@.packets,
        final(w)@.sink_log == old(w)@.sink_log,
        wf(final(w)@),
{
    let id = w.devices.len();
    w.devices.push(
        Device { label: Label(label), ports: Ports { count: n_ports }, kind: DeviceKind::Hub(HubLogic) },
    );
    proof {
        assert(w@.devices =~= old(w)@.devices.push(w.devices@.last()@));
        assert(w@.links =~= old(w)@.links);
        assert(w@.packets =~= old(w)@.packets);
        assert(w@.sink_log =~= old(w)@.sink_log);
        lemma_push_device_wf(old(w)@, w@);
    }
    id
}

/// Wire two existing ports together with the given latency. The engine
/// trusts topology construction, so both endpoints must exist.
pub fn spawn_link(
    w: &mut World,
    a_device: usize,
    a_port: usize,
    b_device: usize,
    b_port: usize,
    latency_t: usize,
) -> (id: usize)
    requires
        wf(old(w)@),
        valid_port(old(w)@.devices, PortV { device: a_device as int, index: a_port as int }),
        valid_port(old(w)@.devices, PortV { device: b_device as int, index: b_port as int }),
    ensures
        id == old(w)@.links.len(),
        final(w)@.links == old(w)@.links.push(
            LinkV {
                a: PortV { device: a_device as int, index: a_port as int },
                b: PortV { device: b_device as int, index: b_port as int },
                latency: latency_t as int,
            },
        ),
        final(w)@.devices == old(w)@.devices,
        final(w)@.packets == old(w)@.packets,
        final(w)@.sink_log == old(w)@.sink_log,
        wf(final(w)@),
{
    let id = w.links.len();
    w.links.push(
        Link {
            connects: ConnectsPorts {
                a: PortRef { device: a_device, index: a_port },
                b: PortRef { device: b_device, index: b_port },
            },
            latency: LatencyT(latency_t),
        },
    );
    proof {
        assert(w@.devices =~= old(w)@.devices);
        assert(w@.links =~= old(w)@.links.push(w.links@.last()@));
        assert(w@.packets =~= old(w)@.packets);
        assert(w@.sink_log =~= old(w)@.sink_log);
    }
    id
}

/// Stage a fresh ready-to-send packet at an existing port.
pub fn spawn_packet(w: &mut World, payload: Vec<u8>, machine: usize, port: usize)
    requires
        wf(old(w)@),
        valid_port(old(w)@.devices, PortV { device: machine as int, index: port as int }),
    ensures
        final(w)@.packets == old(w)@.packets.push(
            Some(crate::model::ready_packet(payload@, machine as int, port as int)),
        ),
        final(w)@.devices == old(w)@.devices,
        final(w)@.links == old(w)@.links,
        final(w)@.sink_log == old(w)@.sink_log,
        wf(final(w)@),
{
    w.packets.push(
        Some(
            Packet {
                payload: Payload(payload),
                position: Position::AtPort(
                    AtPort {
                        port: PortRef { device: machine, index: port },
                        state: PortState::ReadyToSend,
                    },
                ),
            },
        ),
    );
    proof {
        assert(w@.devices =~= old(w)@.devices);
        assert(w@.links =~= old(w)@.links);
        assert(w@.sink_log =~= old(w)@.sink_log);
        assert(w@.packets =~= old(w)@.packets.push(
            Some(crate::model::ready_packet(w.packets@.last()->Some_0.payload.0@, machine as int, port as int)),
        ));
    }
}

/// A device pushed onto a well-formed world keeps it well-formed, provided
/// the new device is itself well-formed and everything else is unchanged.
proof fn lemma_push_device_wf(pre: WorldV, post: WorldV)
    requires
        wf(pre),
        post.devices.len() == pre.devices.len() + 1,
        forall|i: int| 0 <= i < pre.devices.len() ==> post.devices[i] == pre.devices[i],
        wf_device(post.devices.last()),
        post.links == pre.links,
        post.packets == pre.packets,
    ensures
        wf(post),
{
    assert forall|i: int| 0 <= i < post.links.len() implies valid_port(
        post.devices,
        (#[trigger] post.links[i]).a,
    ) && valid_port(post.devices, post.links[i].b) by {
        assert(valid_port(pre.devices, pre.links[i].a));
        assert(valid_port(pre.devices, pre.links[i].b));
    }
    assert forall|i: int| 0 <= i < post.packets.len() implies match #[trigger] post.packets[i] {
        Some(pk) => crate::model::wf_packet(post.devices, pk),
        None => true,
    } by {
        match post.packets[i] {
            Some(pk) => {
                assert(crate::model::wf_packet(pre.devices, pk));
                match pk.position {
                    PositionV::AtPort { port, state } => {
                        assert(valid_port(pre.devices, port));
                    },
                    PositionV::InTransit { from, to, .. } => {
                        assert(valid_port(pre.devices, from));
                        assert(valid_port(pre.devices, to));
                    },
                }
            },
            None => {},
        }
    }
}

} // verus!
