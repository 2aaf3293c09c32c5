//! Mathematical model of the simulation: abstract views of the topology and
//! the five per-tick sub-systems as pure transformers on those views.
use vstd::prelude::*;

use crate::topology::PortState;

verus! {

/// Abstract endpoint: a device index paired with a port index on that device.
#[verifier::ext_equal]
pub struct PortV {
    pub device: int,
    pub index: int,
}

/// Abstract emitter behavior state.
#[verifier::ext_equal]
pub struct EmitterV {
    pub payload: Seq<u8>,
    pub port: int,
    pub interval_t: int,
    pub timer_t: int,
}

/// The behavior a device carries: exactly one of emitter, sink, or hub.
#[verifier::ext_equal]
pub enum DeviceKindV {
    Emitter(EmitterV),
    Sink,
    Hub,
}

/// Abstract device: label, number of ports, and behavior.
#[verifier::ext_equal]
pub struct DeviceV {
    pub label: Seq<char>,
    pub port_count: int,
    pub kind: DeviceKindV,
}

/// Abstract link: two endpoints and a latency in ticks. Undirected.
#[verifier::ext_equal]
pub struct LinkV {
    pub a: PortV,
    pub b: PortV,
    pub latency: int,
}

/// Abstract packet position: parked at a port (ready or just arrived) or in
/// transit on a link with `delay` ticks remaining out of `delay_full`.
#[verifier::ext_equal]
pub enum PositionV {
    AtPort { port: PortV, state: PortState },
    InTransit { from: PortV, to: PortV, delay: int, delay_full: int },
}

/// Abstract packet: payload bytes plus exactly one position state.
#[verifier::ext_equal]
pub struct PacketV {
    pub payload: Seq<u8>,
    pub position: PositionV,
}

/// Abstract topology: devices and links persist for the simulation's
/// lifetime; packet slots are `None` once the packet is destroyed; the sink
/// log records every payload a sink has consumed, in consumption order.
#[verifier::ext_equal]
pub struct WorldV {
    pub devices: Seq<DeviceV>,
    pub links: Seq<LinkV>,
    pub packets: Seq<Option<PacketV>>,
    pub sink_log: Seq<Seq<u8>>,
}

/// The endpoint exists: its device is real and its index is a real port.
pub open spec fn valid_port(devs: Seq<DeviceV>, p: PortV) -> bool {
    &&& 0 <= p.device < devs.len()
    &&& 0 <= p.index < devs[p.device].port_count
}

/// Device invariant: at least one port; an emitter's source port exists and
/// its timer has not yet reached a full interval.
pub open spec fn wf_device(d: DeviceV) -> bool {
    &&& d.port_count >= 1
    &&& match d.kind {
        DeviceKindV::Emitter(e) => {
            &&& 0 <= e.port < d.port_count
            &&& 0 <= e.timer_t
            &&& 0 <= e.interval_t
            &&& e.interval_t == 0 ==> e.timer_t == 0
            &&& e.interval_t > 0 ==> e.timer_t < e.interval_t
        },
        _ => true,
    }
}

/// Packet invariant: every referenced port exists, and a packet in transit
/// has spent at most its link's full latency.
pub open spec fn wf_packet(devs: Seq<DeviceV>, pk: PacketV) -> bool {
    match pk.position {
        PositionV::AtPort { port, state } => valid_port(devs, port),
        PositionV::InTransit { from, to, delay, delay_full } => {
            &&& valid_port(devs, from)
            &&& valid_port(devs, to)
            &&& 0 <= delay <= delay_full
        },
    }
}

/// Topology invariant, required before and preserved by every tick.
pub open spec fn wf(w: WorldV) -> bool {
    &&& forall|i: int| 0 <= i < w.devices.len() ==> wf_device(#[trigger] w.devices[i])
    &&& forall|i: int|
        0 <= i < w.links.len() ==> valid_port(w.devices, (#[trigger] w.links[i]).a)
            && valid_port(w.devices, w.links[i].b) && 0 <= w.links[i].latency
    &&& forall|i: int|
        0 <= i < w.packets.len() ==> match #[trigger] w.packets[i] {
            Some(pk) => wf_packet(w.devices, pk),
            None => true,
        }
}

/// A fresh packet staged at a port, ready to depart.
pub open spec fn ready_packet(payload: Seq<u8>, device: int, index: int) -> PacketV {
    PacketV {
        payload,
        position: PositionV::AtPort {
            port: PortV { device, index },
            state: PortState::ReadyToSend,
        },
    }
}

/// The emitter emits this tick: its timer, once incremented, reaches the
/// interval. An interval of zero therefore emits every tick.
pub open spec fn emitter_fires(d: DeviceV) -> bool {
    match d.kind {
        DeviceKindV::Emitter(e) => e.timer_t + 1 >= e.interval_t,
        _ => false,
    }
}

/// One tick of an emitter's timer: reset on emission, else increment.
pub open spec fn bump_emitter(d: DeviceV) -> DeviceV {
    match d.kind {
        DeviceKindV::Emitter(e) => DeviceV {
            kind: DeviceKindV::Emitter(
                EmitterV {
                    timer_t: if e.timer_t + 1 >= e.interval_t {
                        0
                    } else {
                        e.timer_t + 1
                    },
                    ..e
                },
            ),
            ..d
        },
        _ => d,
    }
}

/// The emitter state a device carries (meaningful only for emitters).
pub open spec fn emitter_of(d: DeviceV) -> EmitterV {
    match d.kind {
        DeviceKindV::Emitter(e) => e,
        _ => EmitterV { payload: Seq::<u8>::empty(), port: 0, interval_t: 0, timer_t: 0 },
    }
}

/// The same emitter device with its timer set to `t`.
pub open spec fn emitter_with_timer(d: DeviceV, t: int) -> DeviceV {
    DeviceV { kind: DeviceKindV::Emitter(EmitterV { timer_t: t, ..emitter_of(d) }), ..d }
}

/// The packet an emitter at device index `i` creates when it fires: a ready
/// copy of its payload at its source port.
pub open spec fn fired_packet(d: DeviceV, i: int) -> PacketV {
    match d.kind {
        DeviceKindV::Emitter(e) => ready_packet(e.payload, i, e.port),
        _ => ready_packet(Seq::<u8>::empty(), i, 0),
    }
}

/// The packets the emit sub-system creates, in device order: one ready
/// packet at the source port of each emitter that fires.
pub open spec fn emitted_packets(devs: Seq<DeviceV>) -> Seq<PacketV>
    decreases devs.len(),
{
    if devs.len() == 0 {
        Seq::<PacketV>::empty()
    } else {
        emitted_packets(devs.drop_last()) + (match devs.last().kind {
            DeviceKindV::Emitter(e) => if e.timer_t + 1 >= e.interval_t {
                seq![ready_packet(e.payload, devs.len() - 1, e.port)]
            } else {
                Seq::<PacketV>::empty()
            },
            _ => Seq::<PacketV>::empty(),
        })
    }
}

/// Emit sub-system: advance every emitter's timer and append the emitted
/// packets; nothing else changes.
pub open spec fn emit_step(w: WorldV) -> WorldV {
    WorldV {
        devices: w.devices.map_values(|d: DeviceV| bump_emitter(d)),
        packets: w.packets + emitted_packets(w.devices).map_values(|p: PacketV| Some(p)),
        ..w
    }
}

/// The port a parked packet sits at (or a transiting packet's destination).
pub open spec fn parked_port(pk: PacketV) -> PortV {
    match pk.position {
        PositionV::AtPort { port, .. } => port,
        PositionV::InTransit { to, .. } => to,
    }
}

/// Ticks a transiting packet still has to spend on its link.
pub open spec fn transit_delay(pk: PacketV) -> int {
    match pk.position {
        PositionV::InTransit { delay, .. } => delay,
        _ => 0,
    }
}

/// The full latency of the link a transiting packet is crossing.
pub open spec fn transit_full(pk: PacketV) -> int {
    match pk.position {
        PositionV::InTransit { delay_full, .. } => delay_full,
        _ => 0,
    }
}

/// The port a transiting packet departed from.
pub open spec fn transit_from(pk: PacketV) -> PortV {
    match pk.position {
        PositionV::InTransit { from, .. } => from,
        _ => PortV { device: 0, index: 0 },
    }
}

/// The packet has just arrived at a port of a hub device.
pub open spec fn at_hub_arrived(devs: Seq<DeviceV>, pk: PacketV) -> bool {
    match pk.position {
        PositionV::AtPort { port, state } => {
            &&& state == PortState::JustArrived
            &&& 0 <= port.device < devs.len()
            &&& devs[port.device].kind is Hub
        },
        _ => false,
    }
}

/// Ready copies of a payload on every port `0..n` of a device except the
/// arrival port `skip`, in ascending port order.
pub open spec fn hub_copies(payload: Seq<u8>, device: int, n: int, skip: int) -> Seq<PacketV>
    decreases n,
{
    if n <= 0 {
        Seq::<PacketV>::empty()
    } else {
        hub_copies(payload, device, n - 1, skip) + (if n - 1 == skip {
            Seq::<PacketV>::empty()
        } else {
            seq![ready_packet(payload, device, n - 1)]
        })
    }
}

/// All copies the hub-propagate sub-system creates for packet slots below
/// `upto`, in slot order.
pub open spec fn hub_spawned(w: WorldV, upto: int) -> Seq<PacketV>
    decreases upto,
{
    if upto <= 0 {
        Seq::<PacketV>::empty()
    } else {
        hub_spawned(w, upto - 1) + (match w.packets[upto - 1] {
            Some(pk) => if at_hub_arrived(w.devices, pk) {
                hub_copies(
                    pk.payload,
                    parked_port(pk).device,
                    w.devices[parked_port(pk).device].port_count,
                    parked_port(pk).index,
                )
            } else {
                Seq::<PacketV>::empty()
            },
            None => Seq::<PacketV>::empty(),
        })
    }
}

/// Hub-propagate sub-system: every packet just arrived at a hub is
/// destroyed and replaced by ready copies on all the hub's other ports.
pub open spec fn hub_step(w: WorldV) -> WorldV {
    WorldV {
        packets: Seq::new(
            w.packets.len(),
            |p: int|
                match w.packets[p] {
                    Some(pk) => if at_hub_arrived(w.devices, pk) {
                        None
                    } else {
                        Some(pk)
                    },
                    None => None,
                },
        ) + hub_spawned(w, w.packets.len() as int).map_values(|p: PacketV| Some(p)),
        ..w
    }
}

/// The port is one of the link's two endpoints.
pub open spec fn on_link(l: LinkV, p: PortV) -> bool {
    l.a == p || l.b == p
}

/// The lowest-indexed link with the given port as an endpoint, if any.
pub open spec fn find_link(links: Seq<LinkV>, p: PortV) -> Option<int>
    decreases links.len(),
{
    if links.len() == 0 {
        None
    } else {
        match find_link(links.drop_last(), p) {
            Some(i) => Some(i),
            None => if on_link(links.last(), p) {
                Some(links.len() - 1)
            } else {
                None
            },
        }
    }
}

/// The packet is parked at a port and eligible to depart this tick.
pub open spec fn ready_at(pk: PacketV) -> bool {
    match pk.position {
        PositionV::AtPort { port, state } => state == PortState::ReadyToSend,
        _ => false,
    }
}

/// What becomes of a ready packet: if its port is wired, it enters transit
/// toward the link's other endpoint with the link's full latency; a packet
/// at an unwired port stays ready, which is a silent no-op.
pub open spec fn depart_packet(links: Seq<LinkV>, pk: PacketV) -> PacketV {
    match find_link(links, parked_port(pk)) {
        Some(i) => {
            let l = links[i];
            let dest = if l.a == parked_port(pk) {
                l.b
            } else {
                l.a
            };
            PacketV {
                payload: pk.payload,
                position: PositionV::InTransit {
                    from: parked_port(pk),
                    to: dest,
                    delay: l.latency,
                    delay_full: l.latency,
                },
            }
        },
        None => pk,
    }
}

/// Depart sub-system: every ready packet at a wired port enters transit.
pub open spec fn depart_step(w: WorldV) -> WorldV {
    WorldV {
        packets: Seq::new(
            w.packets.len(),
            |p: int|
                match w.packets[p] {
                    Some(pk) => if ready_at(pk) {
                        Some(depart_packet(w.links, pk))
                    } else {
                        Some(pk)
                    },
                    None => None,
                },
        ),
        ..w
    }
}

/// Which packet slots hold a packet in transit; taken before depart runs so
/// that a packet never arrives in the very tick it departed.
pub open spec fn transit_mask(w: WorldV) -> Seq<bool> {
    Seq::new(
        w.packets.len(),
        |p: int|
            match w.packets[p] {
                Some(pk) => pk.position is InTransit,
                None => false,
            },
    )
}

/// One move step for a packet in transit: the check precedes the decrement,
/// so a positive delay is decremented and a zero delay means arrival -- but
/// only for a packet already in transit before this tick's depart ran.
pub open spec fn move_packet(pk: PacketV, carried: bool) -> PacketV {
    match pk.position {
        PositionV::InTransit { from, to, delay, delay_full } => if delay > 0 {
            PacketV {
                position: PositionV::InTransit { from, to, delay: delay - 1, delay_full },
                ..pk
            }
        } else if carried {
            PacketV { position: PositionV::AtPort { port: to, state: PortState::JustArrived }, ..pk }
        } else {
            pk
        },
        _ => pk,
    }
}

/// Move sub-system: advance every packet in transit; those whose delay ran
/// out on an earlier tick arrive at their destination port.
pub open spec fn move_step(w: WorldV, carried: Seq<bool>) -> WorldV {
    WorldV {
        packets: Seq::new(
            w.packets.len(),
            |p: int|
                match w.packets[p] {
                    Some(pk) => Some(move_packet(pk, 0 <= p < carried.len() && carried[p])),
                    None => None,
                },
        ),
        ..w
    }
}

/// The packet has just arrived at a port of a sink device.
pub open spec fn at_sink_arrived(devs: Seq<DeviceV>, pk: PacketV) -> bool {
    match pk.position {
        PositionV::AtPort { port, state } => {
            &&& state == PortState::JustArrived
            &&& 0 <= port.device < devs.len()
            &&& devs[port.device].kind is Sink
        },
        _ => false,
    }
}

/// The payloads the sink-consume sub-system records for packet slots below
/// `upto`, byte for byte, in slot order.
pub open spec fn consumed_payloads(w: WorldV, upto: int) -> Seq<Seq<u8>>
    decreases upto,
{
    if upto <= 0 {
        Seq::<Seq<u8>>::empty()
    } else {
        consumed_payloads(w, upto - 1) + (match w.packets[upto - 1] {
            Some(pk) => if at_sink_arrived(w.devices, pk) {
                seq![pk.payload]
            } else {
                Seq::<Seq<u8>>::empty()
            },
            None => Seq::<Seq<u8>>::empty(),
        })
    }
}

/// Sink-consume sub-system: every packet just arrived at a sink is logged
/// and destroyed.
pub open spec fn sink_step(w: WorldV) -> WorldV {
    WorldV {
        packets: Seq::new(
            w.packets.len(),
            |p: int|
                match w.packets[p] {
                    Some(pk) => if at_sink_arrived(w.devices, pk) {
                        None
                    } else {
                        Some(pk)
                    },
                    None => None,
                },
        ),
        sink_log: w.sink_log + consumed_payloads(w, w.packets.len() as int),
        ..w
    }
}

/// One full tick: the five sub-systems in their fixed order, each observing
/// the state its predecessors left. The transit mask is taken before depart
/// so that departure and arrival never fall on the same tick.
pub open spec fn tick_spec(w: WorldV) -> WorldV {
    let after_emit = emit_step(w);
    let after_hub = hub_step(after_emit);
    let mask = transit_mask(after_hub);
    let after_depart = depart_step(after_hub);
    let after_move = move_step(after_depart, mask);
    sink_step(after_move)
}

/// `n` consecutive ticks.
pub open spec fn run_ticks(w: WorldV, n: nat) -> WorldV
    decreases n,
{
    if n == 0 {
        w
    } else {
        tick_spec(run_ticks(w, (n - 1) as nat))
    }
}

} // verus!
