//! The tick pipeline: five ordered sub-systems (emit, hub-propagate, depart,
//! move, sink-consume), each verified against its transformer in the model.
use vstd::prelude::*;

use crate::model::{
    at_hub_arrived, at_sink_arrived, bump_emitter, consumed_payloads, depart_packet, depart_step,
    emit_step, emitted_packets, find_link, hub_copies, hub_spawned, hub_step, move_packet,
    move_step, on_link, parked_port, ready_at, ready_packet, sink_step, tick_spec, transit_mask,
    wf, PacketV, PortV,
};
use crate::topology::{
    AtPort, Device, DeviceKind, Emitter, Packet, Payload, PortRef, PortState, Position, Transit,
    World,
};

verus! {

/// Byte-for-byte copy of a payload.
fn clone_bytes(v: &Vec<u8>) -> (r: Vec<u8>)
    ensures
        r@ == v@,
{
    let mut r: Vec<u8> = Vec::new();
    let mut i: usize = 0;
    while i < v.len()
        invariant
            i <= v.len(),
            r@.len() == i,
            forall|j: int| 0 <= j < i ==> r@[j] == v@[j],
        decreases v.len() - i,
    {
        r.push(v[i]);
        i = i + 1;
    }
    proof {
        assert(r@ =~= v@);
    }
    r
}

/// Emit sub-system: advance every emitter's timer; each emitter whose timer
/// reaches its interval resets it and stages a fresh copy of its payload,
/// ready to send, at its source port.
#[verifier::loop_isolation(false)]
pub fn emitter_system(w: &mut World)
    requires
        wf(old(w)@),
    ensures
        final(w)@ == emit_step(old(w)@),
{
    let ghost w0 = *old(w);
    let n = w.devices.len();
    let mut i: usize = 0;
    while i < n
        invariant
            i <= n,
            w.devices@.len() == n,
            w.links == w0.links,
            w.sink_log == w0.sink_log,
            forall|j: int| 0 <= j < i ==> (#[trigger] w.devices@[j])@ == bump_emitter(w0@.devices[j]),
            forall|j: int| i <= j < n ==> (#[trigger] w.devices@[j]) == w0.devices@[j],
            w@.packets == w0@.packets + emitted_packets(w0@.devices.take(i as int)).map_values(
                |p: PacketV| Some(p),
            ),
        decreases n - i,
    {
        let ghost packets_pre = w@.packets;
        let ghost devs_pre = w.devices@;
        proof {
            assert(w0@.devices[i as int] == w.devices@[i as int]@);
            assert(w0@.devices.take(i + 1).drop_last() =~= w0@.devices.take(i as int));
            assert(w0@.devices.take(i + 1).last() == w0@.devices[i as int]);
        }
        let d = w.devices.remove(i);
        let Device { label, ports, kind } = d;
        match kind {
            DeviceKind::Emitter(e) => {
                proof {
                    assert(crate::model::wf_device(w0@.devices[i as int]));
                }
                let bumped = e.timer_t + 1;
                let fire = bumped >= e.interval_t;
                let new_timer = if fire {
                    0
                } else {
                    bumped
                };
                if fire {
                    let copy = clone_bytes(&e.payload);
                    w.packets.push(
                        Some(
                            Packet {
                                payload: Payload(copy),
                                position: Position::AtPort(
                                    AtPort {
                                        port: PortRef { device: i, index: e.port },
                                        state: PortState::ReadyToSend,
                                    },
                                ),
                            },
                        ),
                    );
                    proof {
                        assert(w.packets@.last()->Some_0@ =~= ready_packet(
                            e.payload@,
                            i as int,
                            e.port as int,
                        ));
                        assert(w@.packets =~= packets_pre.push(
                            Some(ready_packet(e.payload@, i as int, e.port as int)),
                        ));
                    }
                }
                let d2 = Device {
                    label,
                    ports,
                    kind: DeviceKind::Emitter(
                        Emitter {
                            payload: e.payload,
                            port: e.port,
                            interval_t: e.interval_t,
                            timer_t: new_timer,
                        },
                    ),
                };
                proof {
                    assert(d2@ =~= bump_emitter(w0@.devices[i as int]));
                }
                w.devices.insert(i, d2);
            },
            DeviceKind::Sink(s) => {
                let d2 = Device { label, ports, kind: DeviceKind::Sink(s) };
                proof {
                    assert(d2@ =~= bump_emitter(w0@.devices[i as int]));
                }
                w.devices.insert(i, d2);
            },
            DeviceKind::Hub(h) => {
                let d2 = Device { label, ports, kind: DeviceKind::Hub(h) };
                proof {
                    assert(d2@ =~= bump_emitter(w0@.devices[i as int]));
                }
                w.devices.insert(i, d2);
            },
        }
        proof {
            assert(w.devices@ =~= devs_pre.update(i as int, w.devices@[i as int]));
            assert(w@.packets =~= w0@.packets + emitted_packets(
                w0@.devices.take(i + 1),
            ).map_values(|p: PacketV| Some(p)));
        }
        i = i + 1;
    }
    proof {
        assert(w0@.devices.take(n as int) =~= w0@.devices);
        assert(w@.devices =~= emit_step(w0@).devices);
        assert(w@.links =~= emit_step(w0@).links);
        assert(w@.sink_log =~= emit_step(w0@).sink_log);
        assert(w@ =~= emit_step(w0@));
    }
}

/// Hub-propagate sub-system: every packet just arrived at a hub is replaced
/// by ready copies on all of the hub's other ports, then destroyed. A hub
/// with a single port propagates to no one: the arrival is silently dropped.
#[verifier::loop_isolation(false)]
pub fn hub_propagate_system(w: &mut World)
    requires
        wf(old(w)@),
    ensures
        final(w)@ == hub_step(old(w)@),
{
    let ghost w0 = *old(w);
    let n = w.packets.len();
    let mut p: usize = 0;
    while p < n
        invariant
            p <= n,
            w.devices == w0.devices,
            w.links == w0.links,
            w.sink_log == w0.sink_log,
            w.packets@.len() == n + hub_spawned(w0@, p as int).len(),
            forall|j: int|
                0 <= j < p ==> (#[trigger] w@.packets[j]) == hub_step(w0@).packets[j],
            forall|j: int| p <= j < n ==> (#[trigger] w.packets@[j]) == w0.packets@[j],
            w@.packets.skip(n as int) == hub_spawned(w0@, p as int).map_values(
                |q: PacketV| Some(q),
            ),
        decreases n - p,
    {
        let ghost spawned_pre = hub_spawned(w0@, p as int);
        proof {
            assert(w0@.packets[p as int] == match w.packets@[p as int] {
                Some(pk) => Some(pk@),
                None => None,
            });
        }
        // decide whether slot p holds a packet just arrived at a hub
        let mut handle = false;
        let mut port = PortRef { device: 0, index: 0 };
        match &w.packets[p] {
            Some(pk) => match &pk.position {
                Position::AtPort(at) => {
                    if match at.state {
                        PortState::JustArrived => true,
                        PortState::ReadyToSend => false,
                    } {
                        proof {
                            assert(crate::model::wf_packet(w0@.devices, w0@.packets[p as int]->Some_0));
                        }
                        let is_hub = match &w.devices[at.port.device].kind {
                            DeviceKind::Hub(_) => true,
                            _ => false,
                        };
                        if is_hub {
                            handle = true;
                            port = at.port;
                        }
                    }
                },
                Position::InTransit(_) => {},
            },
            None => {},
        }
        proof {
            assert(handle == (w0@.packets[p as int] is Some && at_hub_arrived(
                w0@.devices,
                w0@.packets[p as int]->Some_0,
            )));
        }
        if handle {
            let ghost pkv = w0@.packets[p as int]->Some_0;
            let ghost base = w@.packets;
            let ghost base_exec = w.packets@;
            let slot = w.packets.remove(p);
            let payload = match slot {
                Some(pk) => pk.payload.0,
                None => Vec::new(),
            };
            proof {
                assert(payload@ == pkv.payload);
                assert(w@.packets =~= base.remove(p as int));
            }
            let count = w.devices[port.device].ports.count;
            let ghost dev = port.device as int;
            let ghost skip = port.index as int;
            proof {
                assert(count as int == w0@.devices[dev].port_count);
                assert(parked_port(pkv) == port@);
            }
            let mut k: usize = 0;
            while k < count
                invariant
                    k <= count,
                    w.devices == w0.devices,
                    w.links == w0.links,
                    w.sink_log == w0.sink_log,
                    w.packets@.len() >= base_exec.len() - 1,
                    w.packets@.take(base_exec.len() - 1) =~= base_exec.remove(p as int),
                    w@.packets =~= base.remove(p as int) + hub_copies(
                        pkv.payload,
                        dev,
                        k as int,
                        skip,
                    ).map_values(|q: PacketV| Some(q)),
                    payload@ == pkv.payload,
                decreases count - k,
            {
                let ghost before = w@.packets;
                if k != port.index {
                    let copy = clone_bytes(&payload);
                    w.packets.push(
                        Some(
                            Packet {
                                payload: Payload(copy),
                                position: Position::AtPort(
                                    AtPort {
                                        port: PortRef { device: port.device, index: k },
                                        state: PortState::ReadyToSend,
                                    },
                                ),
                            },
                        ),
                    );
                    proof {
                        assert(w.packets@.last()->Some_0@ =~= ready_packet(pkv.payload, dev, k as int));
                        assert(w@.packets =~= before.push(
                            Some(ready_packet(pkv.payload, dev, k as int)),
                        ));
                        assert(hub_copies(pkv.payload, dev, k + 1, skip) =~= hub_copies(
                            pkv.payload,
                            dev,
                            k as int,
                            skip,
                        ).push(ready_packet(pkv.payload, dev, k as int)));
                        assert(w@.packets =~= base.remove(p as int) + hub_copies(
                            pkv.payload,
                            dev,
                            k + 1,
                            skip,
                        ).map_values(|q: PacketV| Some(q)));
                    }
                } else {
                    proof {
                        assert(hub_copies(pkv.payload, dev, k + 1, skip) =~= hub_copies(
                            pkv.payload,
                            dev,
                            k as int,
                            skip,
                        ));
                    }
                }
                k = k + 1;
            }
            let ghost with_copies = w@.packets;
            let ghost new_copies = hub_copies(pkv.payload, dev, count as int, skip).map_values(
                |q: PacketV| Some(q),
            );
            w.packets.insert(p, None);
            proof {
                assert(w@.packets =~= with_copies.insert(p as int, None));
                assert(with_copies.insert(p as int, None) =~= base.update(p as int, None)
                    + new_copies);
                assert(base.skip(n as int) == hub_spawned(w0@, p as int).map_values(
                    |q: PacketV| Some(q),
                ));
                assert(w@.packets.skip(n as int) =~= base.skip(n as int) + new_copies);
                assert(hub_spawned(w0@, p + 1) =~= spawned_pre + hub_copies(
                    pkv.payload,
                    dev,
                    count as int,
                    skip,
                ));
                assert(hub_spawned(w0@, p + 1).map_values(|q: PacketV| Some(q))
                    =~= hub_spawned(w0@, p as int).map_values(|q: PacketV| Some(q)) + new_copies);
                assert(w@.packets.skip(n as int) =~= hub_spawned(w0@, p + 1).map_values(
                    |q: PacketV| Some(q),
                ));
                assert(w@.packets[p as int] == hub_step(w0@).packets[p as int]);
                assert(forall|j: int|
                    0 <= j < p ==> (#[trigger] w@.packets[j]) == base[j]);
                assert(forall|j: int|
                    p < j < n ==> (#[trigger] w@.packets[j]) == base[j]);
                assert(forall|j: int|
                    p < j < n ==> (#[trigger] w.packets@[j]) == base_exec.remove(p as int)[j - 1]);
                assert(forall|j: int|
                    p < j < n ==> (#[trigger] w.packets@[j]) == base_exec[j]);
            }
        } else {
            proof {
                assert(hub_spawned(w0@, p + 1) =~= spawned_pre);
                assert(w@.packets[p as int] == hub_step(w0@).packets[p as int]);
            }
        }
        p = p + 1;
    }
    proof {
        assert(w@.packets =~= hub_step(w0@).packets);
        assert(w@ =~= hub_step(w0@));
    }
}

/// Which packet slots currently hold a packet in transit. Taken between
/// hub-propagate and depart, this records which packets may complete their
/// journey this tick: a packet never arrives in the tick it departed.
pub fn transit_snapshot(w: &World) -> (m: Vec<bool>)
    ensures
        m@ == transit_mask(w@),
{
    let mut m: Vec<bool> = Vec::new();
    let mut p: usize = 0;
    let n = w.packets.len();
    while p < n
        invariant
            p <= n,
            n == w.packets@.len(),
            m@.len() == p,
            forall|j: int| 0 <= j < p ==> m@[j] == transit_mask(w@)[j],
        decreases n - p,
    {
        let is_transit = match &w.packets[p] {
            Some(pk) => match &pk.position {
                Position::InTransit(_) => true,
                _ => false,
            },
            None => false,
        };
        m.push(is_transit);
        p = p + 1;
    }
    proof {
        assert(m@ =~= transit_mask(w@));
    }
    m
}

/// Depart sub-system: every ready packet whose port is an endpoint of some
/// link (the lowest-indexed one, if several) leaves the port and enters
/// transit toward the link's other endpoint with the link's full latency.
/// A ready packet at an unwired port is left untouched: a silent no-op.
#[verifier::loop_isolation(false)]
pub fn link_depart_system(w: &mut World)
    requires
        wf(old(w)@),
    ensures
        final(w)@ == depart_step(old(w)@),
{
    let ghost w0 = *old(w);
    let n = w.packets.len();
    let nlinks = w.links.len();
    let mut p: usize = 0;
    while p < n
        invariant
            p <= n,
            w.devices == w0.devices,
            w.links == w0.links,
            w.sink_log == w0.sink_log,
            w.packets@.len() == n,
            forall|j: int|
                0 <= j < p ==> (#[trigger] w@.packets[j]) == depart_step(w0@).packets[j],
            forall|j: int| p <= j < n ==> (#[trigger] w.packets@[j]) == w0.packets@[j],
        decreases n - p,
    {
        let ghost base = w@.packets;
        let mut ready = false;
        let mut port = PortRef { device: 0, index: 0 };
        match &w.packets[p] {
            Some(pk) => match &pk.position {
                Position::AtPort(at) => {
                    match at.state {
                        PortState::ReadyToSend => {
                            ready = true;
                            port = at.port;
                        },
                        PortState::JustArrived => {},
                    }
                },
                Position::InTransit(_) => {},
            },
            None => {},
        }
        proof {
            assert(ready == (w0@.packets[p as int] is Some && ready_at(
                w0@.packets[p as int]->Some_0,
            )));
        }
        if ready {
            let ghost pkv = w0@.packets[p as int]->Some_0;
            proof {
                assert(parked_port(pkv) == port@);
            }
            // find the lowest-indexed link with this port as an endpoint
            let mut dest: Option<PortRef> = None;
            let mut latency: usize = 0;
            let mut j: usize = 0;
            while j < nlinks && dest.is_none()
                invariant
                    j <= nlinks,
                    match dest {
                        Some(d) => {
                            &&& find_link(w0@.links, port@) is Some
                            &&& {
                                let l = w0@.links[find_link(w0@.links, port@)->Some_0];
                                &&& d@ == (if l.a == port@ {
                                    l.b
                                } else {
                                    l.a
                                })
                                &&& latency as int == l.latency
                            }
                        },
                        None => find_link(w0@.links.take(j as int), port@) is None,
                    },
                decreases nlinks - j,
            {
                proof {
                    assert(w0@.links.take(j + 1).drop_last() =~= w0@.links.take(j as int));
                    assert(w0@.links.take(j + 1).last() == w0@.links[j as int]);
                }
                let conn = &w.links[j].connects;
                let matches_a = conn.a == port;
                let matches_b = conn.b == port;
                proof {
                    assert(matches_a == (w0@.links[j as int].a == port@));
                    assert(matches_b == (w0@.links[j as int].b == port@));
                }
                if matches_a || matches_b {
                    dest = Some(if matches_a {
                        conn.b
                    } else {
                        conn.a
                    });
                    latency = w.links[j].latency.0;
                    proof {
                        assert(on_link(w0@.links[j as int], port@));
                        assert(find_link(w0@.links.take(j + 1), port@) == Some(j as int));
                        lemma_find_link_stable(w0@.links, port@, j + 1, j as int);
                    }
                } else {
                    proof {
                        assert(!on_link(w0@.links[j as int], port@));
                        assert(find_link(w0@.links.take(j + 1), port@) is None);
                    }
                }
                j = j + 1;
            }
            proof {
                if dest is None {
                    assert(j == nlinks);
                    assert(w0@.links.take(nlinks as int) =~= w0@.links);
                    assert(find_link(w0@.links, port@) is None);
                }
            }
            match dest {
                Some(to) => {
                    let slot = w.packets.remove(p);
                    let payload = match slot {
                        Some(pk) => pk.payload,
                        None => Payload(Vec::new()),
                    };
                    w.packets.insert(
                        p,
                        Some(
                            Packet {
                                payload,
                                position: Position::InTransit(
                                    Transit { from: port, to, delay: latency, delay_full: latency },
                                ),
                            },
                        ),
                    );
                    proof {
                        assert(w@.packets[p as int]->Some_0 =~= depart_packet(w0@.links, pkv));
                        assert(w@.packets =~= base.update(
                            p as int,
                            Some(depart_packet(w0@.links, pkv)),
                        ));
                    }
                },
                None => {
                    proof {
                        assert(depart_packet(w0@.links, pkv) == pkv);
                    }
                },
            }
        }
        proof {
            assert(w@.packets[p as int] == depart_step(w0@).packets[p as int]);
        }
        p = p + 1;
    }
    proof {
        assert(w@.packets =~= depart_step(w0@).packets);
        assert(w@ =~= depart_step(w0@));
    }
}

/// Once a `Some` result is found at a prefix, longer prefixes agree.
proof fn lemma_find_link_stable(links: Seq<crate::model::LinkV>, p: PortV, j: int, i: int)
    requires
        0 <= j <= links.len(),
        find_link(links.take(j), p) == Some(i),
    ensures
        find_link(links, p) == Some(i),
    decreases links.len() - j,
{
    if j == links.len() {
        assert(links.take(j) =~= links);
    } else {
        assert(links.take(j + 1).drop_last() =~= links.take(j));
        assert(find_link(links.take(j + 1), p) == Some(i));
        lemma_find_link_stable(links, p, j + 1, i);
    }
}

/// Move sub-system: a packet in transit with delay remaining is moved one
/// tick closer; one whose delay already ran out arrives, just-arrived, at
/// its destination port -- unless it only departed this very tick.
#[verifier::loop_isolation(false)]
pub fn link_move_system(w: &mut World, carried: &Vec<bool>)
    requires
        wf(old(w)@),
        carried@.len() == old(w)@.packets.len(),
    ensures
        final(w)@ == move_step(old(w)@, carried@),
{
    let ghost w0 = *old(w);
    let n = w.packets.len();
    let mut p: usize = 0;
    while p < n
        invariant
            p <= n,
            w.devices == w0.devices,
            w.links == w0.links,
            w.sink_log == w0.sink_log,
            w.packets@.len() == n,
            forall|j: int|
                0 <= j < p ==> (#[trigger] w@.packets[j]) == move_step(w0@, carried@).packets[j],
            forall|j: int| p <= j < n ==> (#[trigger] w.packets@[j]) == w0.packets@[j],
        decreases n - p,
    {
        let ghost base = w@.packets;
        let mut in_transit = false;
        match &w.packets[p] {
            Some(pk) => match &pk.position {
                Position::InTransit(_) => {
                    in_transit = true;
                },
                _ => {},
            },
            None => {},
        }
        if in_transit {
            let ghost pkv = w0@.packets[p as int]->Some_0;
            let slot = w.packets.remove(p);
            let new_slot = match slot {
                Some(pk) => {
                    let Packet { payload, position } = pk;
                    match position {
                        Position::InTransit(t) => {
                            if t.delay > 0 {
                                Some(
                                    Packet {
                                        payload,
                                        position: Position::InTransit(
                                            Transit {
                                                from: t.from,
                                                to: t.to,
                                                delay: t.delay - 1,
                                                delay_full: t.delay_full,
                                            },
                                        ),
                                    },
                                )
                            } else if carried[p] {
                                Some(
                                    Packet {
                                        payload,
                                        position: Position::AtPort(
                                            AtPort { port: t.to, state: PortState::JustArrived },
                                        ),
                                    },
                                )
                            } else {
                                Some(
                                    Packet {
                                        payload,
                                        position: Position::InTransit(t),
                                    },
                                )
                            }
                        },
                        other => Some(Packet { payload, position: other }),
                    }
                },
                None => None,
            };
            w.packets.insert(p, new_slot);
            proof {
                assert(w@.packets[p as int]->Some_0 =~= move_packet(
                    pkv,
                    0 <= p < carried@.len() && carried@[p as int],
                ));
                assert(w@.packets =~= base.update(p as int, w@.packets[p as int]));
            }
        }
        proof {
            assert(w@.packets[p as int] == move_step(w0@, carried@).packets[p as int]);
        }
        p = p + 1;
    }
    proof {
        assert(w@.packets =~= move_step(w0@, carried@).packets);
        assert(w@ =~= move_step(w0@, carried@));
    }
}

/// Sink-consume sub-system: every packet just arrived at a sink has its
/// payload recorded, byte for byte, in the sink log, and is destroyed.
#[verifier::loop_isolation(false)]
pub fn sink_consume_system(w: &mut World)
    requires
        wf(old(w)@),
    ensures
        final(w)@ == sink_step(old(w)@),
{
    let ghost w0 = *old(w);
    let n = w.packets.len();
    let mut p: usize = 0;
    while p < n
        invariant
            p <= n,
            w.devices == w0.devices,
            w.links == w0.links,
            w.packets@.len() == n,
            forall|j: int|
                0 <= j < p ==> (#[trigger] w@.packets[j]) == sink_step(w0@).packets[j],
            forall|j: int| p <= j < n ==> (#[trigger] w.packets@[j]) == w0.packets@[j],
            w@.sink_log == w0@.sink_log + consumed_payloads(w0@, p as int),
        decreases n - p,
    {
        let ghost base = w@.packets;
        let ghost log_pre = w@.sink_log;
        let mut consume = false;
        match &w.packets[p] {
            Some(pk) => match &pk.position {
                Position::AtPort(at) => {
                    if match at.state {
                        PortState::JustArrived => true,
                        PortState::ReadyToSend => false,
                    } {
                        proof {
                            assert(crate::model::wf_packet(w0@.devices, w0@.packets[p as int]->Some_0));
                        }
                        let is_sink = match &w.devices[at.port.device].kind {
                            DeviceKind::Sink(_) => true,
                            _ => false,
                        };
                        if is_sink {
                            consume = true;
                        }
                    }
                },
                Position::InTransit(_) => {},
            },
            None => {},
        }
        proof {
            assert(consume == (w0@.packets[p as int] is Some && at_sink_arrived(
                w0@.devices,
                w0@.packets[p as int]->Some_0,
            )));
        }
        if consume {
            let ghost pkv = w0@.packets[p as int]->Some_0;
            let slot = w.packets.remove(p);
            match slot {
                Some(pk) => {
                    w.sink_log.push(pk.payload);
                },
                None => {},
            }
            w.packets.insert(p, None);
            proof {
                assert(w@.sink_log =~= log_pre.push(pkv.payload));
                assert(consumed_payloads(w0@, p + 1) =~= consumed_payloads(w0@, p as int).push(
                    pkv.payload,
                ));
                assert(w@.sink_log =~= w0@.sink_log + consumed_payloads(w0@, p + 1));
                assert(w@.packets =~= base.update(p as int, None));
            }
        } else {
            proof {
                assert(consumed_payloads(w0@, p + 1) =~= consumed_payloads(w0@, p as int));
            }
        }
        proof {
            assert(w@.packets[p as int] == sink_step(w0@).packets[p as int]);
        }
        p = p + 1;
    }
    proof {
        assert(w@.packets =~= sink_step(w0@).packets);
        assert(w@.sink_log =~= sink_step(w0@).sink_log);
        assert(w@ =~= sink_step(w0@));
    }
}

/// One full simulation tick: emit, hub-propagate, depart, move and
/// sink-consume run once, in that fixed order, each observing the state its
/// predecessors left; the transit snapshot taken before depart keeps a
/// packet from arriving in the very tick it departed. The tick leaves the
/// world exactly as the model's tick transformer says, and a well-formed
/// topology stays well-formed.
pub fn tick(w: &mut World)
    requires
        wf(old(w)@),
    ensures
        final(w)@ == tick_spec(old(w)@),
        wf(final(w)@),
{
    let ghost w0 = *old(w);
    emitter_system(w);
    proof {
        crate::laws::lemma_emit_step_wf(w0@);
    }
    hub_propagate_system(w);
    proof {
        crate::laws::lemma_hub_step_wf(emit_step(w0@));
    }
    let carried = transit_snapshot(w);
    link_depart_system(w);
    proof {
        crate::laws::lemma_depart_step_wf(hub_step(emit_step(w0@)));
    }
    link_move_system(w, &carried);
    proof {
        crate::laws::lemma_move_step_wf(
            depart_step(hub_step(emit_step(w0@))),
            transit_mask(hub_step(emit_step(w0@))),
        );
    }
    sink_consume_system(w);
    proof {
        crate::laws::lemma_sink_step_wf(
            move_step(
                depart_step(hub_step(emit_step(w0@))),
                transit_mask(hub_step(emit_step(w0@))),
            ),
        );
    }
}

} // verus!
