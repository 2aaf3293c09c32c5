use netsim::systems::tick;
use netsim::topology::{
    DeviceKind, PortRef, PortState, Position, World,
};
use netsim::topology::{spawn_hub, spawn_link, spawn_packet, spawn_sink, spawn_spammer};

fn live_packets(w: &World) -> usize {
    w.packets.iter().filter(|p| p.is_some()).count()
}

/// An emitter with interval 2 linked straight to a sink over latency 1:
/// nothing on tick 1, departure on tick 2, arrival and consumption on tick 3
/// with the exact payload logged.
#[test]
fn end_to_end_direct_link() {
    let mut w = World::new();
    let e = spawn_spammer(&mut w, "E".to_string(), 1, vec![1, 2, 3], 2);
    let s = spawn_sink(&mut w, "S".to_string(), 1);
    spawn_link(&mut w, e, 0, s, 0, 1);

    tick(&mut w);
    assert_eq!(w.packets.len(), 0);
    assert_eq!(w.sink_log.len(), 0);

    tick(&mut w);
    assert_eq!(w.packets.len(), 1);
    match &w.packets[0] {
        Some(pk) => {
            assert_eq!(pk.payload.0, vec![1, 2, 3]);
            match &pk.position {
                Position::InTransit(t) => {
                    assert_eq!(t.from, PortRef { device: e, index: 0 });
                    assert_eq!(t.to, PortRef { device: s, index: 0 });
                    assert_eq!(t.delay, 0);
                    assert_eq!(t.delay_full, 1);
                }
                _ => panic!("packet should be in transit after tick 2"),
            }
        }
        None => panic!("packet should exist after tick 2"),
    }
    assert_eq!(w.sink_log.len(), 0);

    tick(&mut w);
    assert!(w.packets[0].is_none());
    assert_eq!(w.sink_log.len(), 1);
    assert_eq!(w.sink_log[0].0, vec![1, 2, 3]);
}

/// Emitter -> hub with three ports -> two sinks, all latencies 1: the packet
/// emitted on tick 1 reaches the hub on tick 2, the two copies depart on
/// tick 3 (none out of the arrival port), and both sinks consume on tick 4.
#[test]
fn end_to_end_hub_broadcast() {
    let mut w = World::new();
    let e = spawn_spammer(&mut w, "E".to_string(), 1, vec![7, 8], 10);
    let hub = spawn_hub(&mut w, "HUB".to_string(), 3);
    let s1 = spawn_sink(&mut w, "S1".to_string(), 1);
    let s2 = spawn_sink(&mut w, "S2".to_string(), 1);
    spawn_link(&mut w, e, 0, hub, 0, 1);
    spawn_link(&mut w, hub, 1, s1, 0, 1);
    spawn_link(&mut w, hub, 2, s2, 0, 1);

    // the packet is emitted on tick 10 and departs the same tick
    for _ in 0..9 {
        tick(&mut w);
        assert_eq!(w.packets.len(), 0);
    }
    tick(&mut w);
    tick(&mut w);
    // arrival at the hub on tick 2
    match &w.packets[0] {
        Some(pk) => match &pk.position {
            Position::AtPort(at) => {
                assert_eq!(at.port, PortRef { device: hub, index: 0 });
                assert_eq!(at.state, PortState::JustArrived);
            }
            _ => panic!("packet should sit at the hub after tick 2"),
        },
        None => panic!("packet should exist after tick 2"),
    }

    tick(&mut w);
    // the original is destroyed; exactly two copies, never on port 0
    assert!(w.packets[0].is_none());
    let mut transit_ports = Vec::new();
    for slot in w.packets.iter() {
        if let Some(pk) = slot {
            assert_eq!(pk.payload.0, vec![7, 8]);
            match &pk.position {
                Position::InTransit(t) => {
                    assert_eq!(t.from.device, hub);
                    assert_ne!(t.from.index, 0);
                    transit_ports.push(t.from.index);
                }
                _ => panic!("copies should be in transit after tick 3"),
            }
        }
    }
    assert_eq!(transit_ports, vec![1, 2]);

    tick(&mut w);
    assert_eq!(live_packets(&w), 0);
    assert_eq!(w.sink_log.len(), 2);
    assert_eq!(w.sink_log[0].0, vec![7, 8]);
    assert_eq!(w.sink_log[1].0, vec![7, 8]);
}

/// An emitter with interval 3 and an unwired port: packets appear on ticks
/// 3 and 6 only, never early, and stay ready to send forever.
#[test]
fn emitter_emits_on_schedule_never_early() {
    let mut w = World::new();
    let e = spawn_spammer(&mut w, "E".to_string(), 1, vec![9], 3);
    for t in 1..=6 {
        tick(&mut w);
        let expected = t / 3;
        assert_eq!(w.packets.len(), expected, "after tick {}", t);
    }
    for slot in w.packets.iter() {
        match slot {
            Some(pk) => match &pk.position {
                Position::AtPort(at) => {
                    assert_eq!(at.port, PortRef { device: e, index: 0 });
                    assert_eq!(at.state, PortState::ReadyToSend);
                }
                _ => panic!("unwired packets must stay parked"),
            },
            None => panic!("nothing consumes these packets"),
        }
    }
    match &w.devices[e].kind {
        DeviceKind::Emitter(em) => assert_eq!(em.timer_t, 0),
        _ => panic!("device should be an emitter"),
    }
}

/// A zero-latency link still takes one tick: the packet departs on one tick
/// and arrives on the next, never in the tick it departed.
#[test]
fn zero_latency_arrives_next_tick() {
    let mut w = World::new();
    let e = spawn_spammer(&mut w, "E".to_string(), 1, vec![5], 1);
    let s = spawn_sink(&mut w, "S".to_string(), 1);
    spawn_link(&mut w, e, 0, s, 0, 0);

    tick(&mut w);
    match &w.packets[0] {
        Some(pk) => match &pk.position {
            Position::InTransit(t) => {
                assert_eq!(t.delay, 0);
                assert_eq!(t.delay_full, 0);
            }
            _ => panic!("packet should be in transit after tick 1"),
        },
        None => panic!("packet should exist after tick 1"),
    }
    assert_eq!(w.sink_log.len(), 0);

    tick(&mut w);
    assert!(w.packets[0].is_none());
    assert_eq!(w.sink_log.len(), 1);
    assert_eq!(w.sink_log[0].0, vec![5]);
}

/// A link with latency 3: the packet is in transit for exactly three ticks
/// after the tick it departs on, and is consumed on the tick after that.
#[test]
fn latency_three_takes_three_ticks() {
    let mut w = World::new();
    let e = spawn_spammer(&mut w, "E".to_string(), 1, vec![1], 1);
    let s = spawn_sink(&mut w, "S".to_string(), 1);
    spawn_link(&mut w, e, 0, s, 0, 3);

    tick(&mut w); // departs; delay 3 -> 2
    for expected_delay in [1usize, 0] {
        tick(&mut w);
        match &w.packets[0] {
            Some(pk) => match &pk.position {
                Position::InTransit(t) => assert_eq!(t.delay, expected_delay),
                _ => panic!("still in transit"),
            },
            None => panic!("packet should exist"),
        }
        assert_eq!(w.sink_log.len(), 0);
    }
    tick(&mut w); // arrival and consumption: tick 4 = departure tick + 3
    assert!(w.packets[0].is_none());
    assert_eq!(w.sink_log.len(), 1);
}

/// A hub with a single port drops an arrival: no copies, packet destroyed.
#[test]
fn single_port_hub_drops_packet() {
    let mut w = World::new();
    let e = spawn_spammer(&mut w, "E".to_string(), 1, vec![4], 1000);
    let hub = spawn_hub(&mut w, "HUB".to_string(), 1);
    spawn_link(&mut w, e, 0, hub, 0, 0);
    netsim::topology::spawn_packet(&mut w, vec![4], e, 0);

    tick(&mut w); // departs over the zero-latency link
    tick(&mut w); // arrives at the hub
    assert_eq!(live_packets(&w), 1);
    match &w.packets[0] {
        Some(pk) => match &pk.position {
            Position::AtPort(at) => {
                assert_eq!(at.port, PortRef { device: hub, index: 0 });
                assert_eq!(at.state, PortState::JustArrived);
            }
            _ => panic!("the packet should have arrived at the hub"),
        },
        None => panic!("the packet still exists after tick 2"),
    }
    tick(&mut w); // hub propagates to nobody and destroys the packet
    assert_eq!(live_packets(&w), 0);
    assert!(w.packets[0].is_none());
    assert_eq!(w.sink_log.len(), 0);
}

/// A packet that arrives at a device with no consuming behavior is a valid,
/// permanently stuck state, not an error.
#[test]
fn arrival_without_consumer_stays_forever() {
    let mut w = World::new();
    let e = spawn_spammer(&mut w, "E".to_string(), 1, vec![6], 1);
    let other = spawn_spammer(&mut w, "E2".to_string(), 1, vec![0], 1000);
    spawn_link(&mut w, e, 0, other, 0, 0);

    tick(&mut w);
    tick(&mut w); // arrives at the other emitter's port
    for _ in 0..3 {
        match &w.packets[0] {
            Some(pk) => match &pk.position {
                Position::AtPort(at) => {
                    assert_eq!(at.port, PortRef { device: other, index: 0 });
                    assert_eq!(at.state, PortState::JustArrived);
                }
                _ => panic!("the arrival should stay parked"),
            },
            None => panic!("nothing may destroy the arrival"),
        }
        tick(&mut w);
    }
}

/// The sink log holds the exact payload bytes, unmodified, even for odd
/// values, and the emitter keeps its own payload for the next emission.
#[test]
fn sink_logs_exact_bytes() {
    let mut w = World::new();
    let payload = vec![0u8, 255, 17, 0, 3];
    let e = spawn_spammer(&mut w, "E".to_string(), 2, payload.clone(), 1);
    let s = spawn_sink(&mut w, "S".to_string(), 2);
    spawn_link(&mut w, e, 0, s, 0, 0);

    for _ in 0..4 {
        tick(&mut w);
    }
    assert!(w.sink_log.len() >= 2);
    for logged in w.sink_log.iter() {
        assert_eq!(logged.0, payload);
    }
    match &w.devices[e].kind {
        DeviceKind::Emitter(em) => assert_eq!(em.payload, payload),
        _ => panic!("device should be an emitter"),
    }
}

/// Running zero ticks leaves topology and packet states untouched.
#[test]
fn zero_ticks_change_nothing() {
    let mut w = World::new();
    let e = spawn_spammer(&mut w, "E".to_string(), 4, vec![1, 2], 5);
    let s = spawn_sink(&mut w, "S".to_string(), 2);
    let l = spawn_link(&mut w, e, 1, s, 0, 7);
    spawn_packet(&mut w, vec![3, 4], e, 1);

    assert_eq!(w.devices.len(), 2);
    assert_eq!(w.links.len(), l + 1);
    assert_eq!(w.packets.len(), 1);
    match &w.packets[0] {
        Some(pk) => {
            assert_eq!(pk.payload.0, vec![3, 4]);
            match &pk.position {
                Position::AtPort(at) => {
                    assert_eq!(at.port, PortRef { device: e, index: 1 });
                    assert_eq!(at.state, PortState::ReadyToSend);
                }
                _ => panic!("a staged packet is ready to send"),
            }
        }
        None => panic!("the staged packet exists"),
    }
    assert_eq!(w.sink_log.len(), 0);
    match &w.devices[e].kind {
        DeviceKind::Emitter(em) => {
            assert_eq!(em.timer_t, 0);
            assert_eq!(em.interval_t, 5);
        }
        _ => panic!("device should be an emitter"),
    }
}

/// An emitter with interval zero emits on every single tick.
#[test]
fn interval_zero_emits_every_tick() {
    let mut w = World::new();
    spawn_spammer(&mut w, "E".to_string(), 1, vec![1], 0);
    for t in 1..=3 {
        tick(&mut w);
        assert_eq!(w.packets.len(), t);
    }
}
