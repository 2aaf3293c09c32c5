//! The laws the engine obeys: the topology invariant is preserved by every
//! sub-system and by a whole tick, emitters emit on schedule and never early,
//! transit takes exactly the link latency, hubs copy to every port but the
//! arrival port, sinks log exactly the bytes they receive, and running zero
//! ticks changes nothing.
use vstd::prelude::*;

use vstd::arithmetic::div_mod::{lemma_add_mod_noop, lemma_mod_self_0, lemma_small_mod};

use crate::model::{
    at_hub_arrived, at_sink_arrived, bump_emitter, consumed_payloads, depart_packet, depart_step,
    emit_step, emitted_packets, emitter_fires, emitter_of, emitter_with_timer, find_link,
    fired_packet, hub_copies, hub_spawned, hub_step, move_packet, move_step, on_link, parked_port,
    ready_at, ready_packet, run_ticks, sink_step, tick_spec, transit_delay, transit_from,
    transit_full, transit_mask, valid_port, wf, wf_device, wf_packet, DeviceV, LinkV, PacketV,
    PortV, PositionV, WorldV,
};
use crate::topology::PortState;

verus! {

// ------------------------------------------------------------------
// Preservation of the topology invariant
// ------------------------------------------------------------------

/// Validity of a port depends only on how many devices there are and how
/// many ports each has.
proof fn lemma_valid_port_transfer(devs1: Seq<DeviceV>, devs2: Seq<DeviceV>, p: PortV)
    requires
        devs1.len() == devs2.len(),
        forall|i: int|
            0 <= i < devs1.len() ==> (#[trigger] devs2[i]).port_count == devs1[i].port_count,
        valid_port(devs1, p),
    ensures
        valid_port(devs2, p),
{
}

/// Every packet the emit sub-system creates comes from an emitter that
/// fired, as that emitter's own fresh ready packet.
proof fn lemma_emitted_packets_elems(devs: Seq<DeviceV>)
    ensures
        forall|q: int|
            0 <= q < emitted_packets(devs).len() ==> exists|d: int|
                0 <= d < devs.len() && emitter_fires(devs[d]) && #[trigger] emitted_packets(
                    devs,
                )[q] == fired_packet(devs[d], d),
    decreases devs.len(),
{
    if devs.len() > 0 {
        let prefix = devs.drop_last();
        lemma_emitted_packets_elems(prefix);
        assert forall|q: int| 0 <= q < emitted_packets(devs).len() implies exists|d: int|
            0 <= d < devs.len() && emitter_fires(devs[d]) && #[trigger] emitted_packets(devs)[q]
                == fired_packet(devs[d], d) by {
            if q < emitted_packets(prefix).len() {
                let d = choose|d: int|
                    0 <= d < prefix.len() && emitter_fires(prefix[d]) && emitted_packets(prefix)[q]
                        == fired_packet(prefix[d], d);
                assert(devs[d] == prefix[d]);
                assert(emitted_packets(devs)[q] == emitted_packets(prefix)[q]);
                assert(0 <= d < devs.len() && emitter_fires(devs[d]) && emitted_packets(devs)[q]
                    == fired_packet(devs[d], d));
            } else {
                let d = devs.len() - 1;
                assert(emitter_fires(devs[d]));
                assert(emitted_packets(devs)[q] == fired_packet(devs[d], d));
                assert(0 <= d < devs.len() && emitter_fires(devs[d]) && emitted_packets(devs)[q]
                    == fired_packet(devs[d], d));
            }
        }
    }
}

/// Every emitter that fires has its fresh packet among the emitted ones.
proof fn lemma_emitted_packets_contains(devs: Seq<DeviceV>)
    ensures
        forall|d: int|
            0 <= d < devs.len() && emitter_fires(#[trigger] devs[d]) ==> emitted_packets(
                devs,
            ).contains(fired_packet(devs[d], d)),
    decreases devs.len(),
{
    if devs.len() > 0 {
        let prefix = devs.drop_last();
        lemma_emitted_packets_contains(prefix);
        assert forall|d: int|
            0 <= d < devs.len() && emitter_fires(#[trigger] devs[d]) implies emitted_packets(
            devs,
        ).contains(fired_packet(devs[d], d)) by {
            if d < prefix.len() {
                assert(prefix[d] == devs[d]);
                assert(emitted_packets(prefix).contains(fired_packet(prefix[d], d)));
                let i = choose|i: int|
                    0 <= i < emitted_packets(prefix).len() && emitted_packets(prefix)[i]
                        == fired_packet(prefix[d], d);
                assert(emitted_packets(devs)[i] == fired_packet(devs[d], d));
            } else {
                let i = emitted_packets(prefix).len() as int;
                assert(emitted_packets(devs)[i] == fired_packet(devs[d], d));
            }
        }
    }
}

/// The emit sub-system preserves the topology invariant.
pub proof fn lemma_emit_step_wf(w: WorldV)
    requires
        wf(w),
    ensures
        wf(emit_step(w)),
{
    let w2 = emit_step(w);
    assert forall|i: int| 0 <= i < w2.devices.len() implies wf_device(
        #[trigger] w2.devices[i],
    ) by {
        assert(w2.devices[i] == bump_emitter(w.devices[i]));
        assert(wf_device(w.devices[i]));
    }
    assert forall|i: int|
        0 <= i < w.devices.len() implies (#[trigger] w2.devices[i]).port_count
        == w.devices[i].port_count by {
        assert(w2.devices[i] == bump_emitter(w.devices[i]));
    }
    assert forall|i: int| 0 <= i < w2.links.len() implies valid_port(
        w2.devices,
        (#[trigger] w2.links[i]).a,
    ) && valid_port(w2.devices, w2.links[i].b) && 0 <= w2.links[i].latency by {
        lemma_valid_port_transfer(w.devices, w2.devices, w.links[i].a);
        lemma_valid_port_transfer(w.devices, w2.devices, w.links[i].b);
    }
    lemma_emitted_packets_elems(w.devices);
    assert forall|i: int| 0 <= i < w2.packets.len() implies match #[trigger] w2.packets[i] {
        Some(pk) => wf_packet(w2.devices, pk),
        None => true,
    } by {
        if i < w.packets.len() {
            assert(w2.packets[i] == w.packets[i]);
            match w.packets[i] {
                Some(pk) => {
                    assert(wf_packet(w.devices, pk));
                    match pk.position {
                        PositionV::AtPort { port, .. } => {
                            lemma_valid_port_transfer(w.devices, w2.devices, port);
                        },
                        PositionV::InTransit { from, to, .. } => {
                            lemma_valid_port_transfer(w.devices, w2.devices, from);
                            lemma_valid_port_transfer(w.devices, w2.devices, to);
                        },
                    }
                },
                None => {},
            }
        } else {
            let q = i - w.packets.len();
            assert(w2.packets[i] == Some(emitted_packets(w.devices)[q]));
            let d = choose|d: int|
                0 <= d < w.devices.len() && emitter_fires(w.devices[d]) && emitted_packets(
                    w.devices,
                )[q] == fired_packet(w.devices[d], d);
            assert(wf_device(w.devices[d]));
            let pk = emitted_packets(w.devices)[q];
            assert(valid_port(w.devices, PortV { device: d, index: emitter_of(w.devices[d]).port }));
            lemma_valid_port_transfer(
                w.devices,
                w2.devices,
                PortV { device: d, index: emitter_of(w.devices[d]).port },
            );
            assert(wf_packet(w2.devices, pk));
        }
    }
}

/// Every copy a hub stages carries the arrival payload, sits ready at one of
/// the hub's ports other than the arrival port, and there is one copy for
/// each such port.
pub proof fn lemma_hub_copies_elems(payload: Seq<u8>, device: int, n: int, skip: int)
    ensures
        forall|q: int|
            0 <= q < hub_copies(payload, device, n, skip).len() ==> exists|x: int|
                0 <= x < n && x != skip && #[trigger] hub_copies(payload, device, n, skip)[q]
                    == ready_packet(payload, device, x),
    decreases n,
{
    if n > 0 {
        lemma_hub_copies_elems(payload, device, n - 1, skip);
        assert forall|q: int| 0 <= q < hub_copies(payload, device, n, skip).len() implies exists|
            x: int,
        |
            0 <= x < n && x != skip && #[trigger] hub_copies(payload, device, n, skip)[q]
                == ready_packet(payload, device, x) by {
            let shorter = hub_copies(payload, device, n - 1, skip);
            if q < shorter.len() {
                let x = choose|x: int|
                    0 <= x < n - 1 && x != skip && shorter[q] == ready_packet(payload, device, x);
                assert(hub_copies(payload, device, n, skip)[q] == shorter[q]);
                assert(0 <= x < n && x != skip && hub_copies(payload, device, n, skip)[q]
                    == ready_packet(payload, device, x));
            } else {
                let x = n - 1;
                assert(x != skip);
                assert(hub_copies(payload, device, n, skip)[q] == ready_packet(
                    payload,
                    device,
                    x,
                ));
                assert(0 <= x < n && x != skip && hub_copies(payload, device, n, skip)[q]
                    == ready_packet(payload, device, x));
            }
        }
    }
}

/// A hub with `n` ports creates exactly `n - 1` copies of an arrival on a
/// real port: one for every port except the one it arrived on.
pub proof fn lemma_hub_copies_len(payload: Seq<u8>, device: int, n: int, skip: int)
    requires
        0 <= n,
    ensures
        hub_copies(payload, device, n, skip).len() == if 0 <= skip < n {
            n - 1
        } else {
            n
        },
    decreases n,
{
    if n > 0 {
        lemma_hub_copies_len(payload, device, n - 1, skip);
    }
}

/// Everything the hub sub-system stages is a well-formed ready packet.
proof fn lemma_hub_spawned_wf(w: WorldV, upto: int)
    requires
        wf(w),
        upto <= w.packets.len(),
    ensures
        forall|q: int|
            0 <= q < hub_spawned(w, upto).len() ==> wf_packet(
                w.devices,
                #[trigger] hub_spawned(w, upto)[q],
            ),
    decreases upto,
{
    if upto > 0 {
        lemma_hub_spawned_wf(w, upto - 1);
        match w.packets[upto - 1] {
            Some(pk) => {
                if at_hub_arrived(w.devices, pk) {
                    let port = parked_port(pk);
                    let n = w.devices[port.device].port_count;
                    assert(wf_packet(w.devices, pk));
                    lemma_hub_copies_elems(pk.payload, port.device, n, port.index);
                    assert forall|q: int| 0 <= q < hub_spawned(w, upto).len() implies wf_packet(
                        w.devices,
                        #[trigger] hub_spawned(w, upto)[q],
                    ) by {
                        let shorter = hub_spawned(w, upto - 1);
                        if q < shorter.len() {
                            assert(hub_spawned(w, upto)[q] == shorter[q]);
                        } else {
                            let copies = hub_copies(pk.payload, port.device, n, port.index);
                            assert(hub_spawned(w, upto)[q] == copies[q - shorter.len()]);
                            let x = choose|x: int|
                                0 <= x < n && x != port.index && copies[q - shorter.len()]
                                    == ready_packet(pk.payload, port.device, x);
                            assert(valid_port(w.devices, PortV { device: port.device, index: x }));
                        }
                    }
                }
            },
            None => {},
        }
    }
}

/// The hub-propagate sub-system preserves the topology invariant.
pub proof fn lemma_hub_step_wf(w: WorldV)
    requires
        wf(w),
    ensures
        wf(hub_step(w)),
{
    let w2 = hub_step(w);
    lemma_hub_spawned_wf(w, w.packets.len() as int);
    assert forall|i: int| 0 <= i < w2.packets.len() implies match #[trigger] w2.packets[i] {
        Some(pk) => wf_packet(w2.devices, pk),
        None => true,
    } by {
        if i < w.packets.len() {
            match w.packets[i] {
                Some(pk) => {
                    assert(wf_packet(w.devices, pk));
                },
                None => {},
            }
        } else {
            let q = i - w.packets.len();
            assert(w2.packets[i] == Some(hub_spawned(w, w.packets.len() as int)[q]));
        }
    }
}

/// A found link index is a real link with the port as one of its endpoints.
proof fn lemma_find_link_on(links: Seq<LinkV>, p: PortV)
    ensures
        match find_link(links, p) {
            Some(i) => 0 <= i < links.len() && on_link(links[i], p),
            None => true,
        },
    decreases links.len(),
{
    if links.len() > 0 {
        lemma_find_link_on(links.drop_last(), p);
        match find_link(links.drop_last(), p) {
            Some(i) => {
                assert(links.drop_last()[i] == links[i]);
            },
            None => {},
        }
    }
}

/// The depart sub-system preserves the topology invariant.
pub proof fn lemma_depart_step_wf(w: WorldV)
    requires
        wf(w),
    ensures
        wf(depart_step(w)),
{
    let w2 = depart_step(w);
    assert forall|i: int| 0 <= i < w2.packets.len() implies match #[trigger] w2.packets[i] {
        Some(pk) => wf_packet(w2.devices, pk),
        None => true,
    } by {
        match w.packets[i] {
            Some(pk) => {
                assert(wf_packet(w.devices, pk));
                if ready_at(pk) {
                    lemma_find_link_on(w.links, parked_port(pk));
                    match find_link(w.links, parked_port(pk)) {
                        Some(l) => {
                            assert(valid_port(w.devices, w.links[l].a));
                            assert(valid_port(w.devices, w.links[l].b));
                            assert(0 <= w.links[l].latency);
                        },
                        None => {},
                    }
                    assert(wf_packet(w.devices, depart_packet(w.links, pk)));
                }
            },
            None => {},
        }
    }
}

/// The move sub-system preserves the topology invariant.
pub proof fn lemma_move_step_wf(w: WorldV, carried: Seq<bool>)
    requires
        wf(w),
    ensures
        wf(move_step(w, carried)),
{
    let w2 = move_step(w, carried);
    assert forall|i: int| 0 <= i < w2.packets.len() implies match #[trigger] w2.packets[i] {
        Some(pk) => wf_packet(w2.devices, pk),
        None => true,
    } by {
        match w.packets[i] {
            Some(pk) => {
                assert(wf_packet(w.devices, pk));
                assert(wf_packet(w.devices, move_packet(pk, 0 <= i < carried.len() && carried[i])));
            },
            None => {},
        }
    }
}

/// The sink-consume sub-system preserves the topology invariant.
pub proof fn lemma_sink_step_wf(w: WorldV)
    requires
        wf(w),
    ensures
        wf(sink_step(w)),
{
    let w2 = sink_step(w);
    assert forall|i: int| 0 <= i < w2.packets.len() implies match #[trigger] w2.packets[i] {
        Some(pk) => wf_packet(w2.devices, pk),
        None => true,
    } by {
        match w.packets[i] {
            Some(pk) => {
                assert(wf_packet(w.devices, pk));
            },
            None => {},
        }
    }
}

/// A whole tick preserves the topology invariant.
pub proof fn lemma_tick_spec_wf(w: WorldV)
    requires
        wf(w),
    ensures
        wf(tick_spec(w)),
{
    lemma_emit_step_wf(w);
    lemma_hub_step_wf(emit_step(w));
    lemma_depart_step_wf(hub_step(emit_step(w)));
    lemma_move_step_wf(depart_step(hub_step(emit_step(w))), transit_mask(hub_step(emit_step(w))));
    lemma_sink_step_wf(
        move_step(depart_step(hub_step(emit_step(w))), transit_mask(hub_step(emit_step(w)))),
    );
}

/// Any number of ticks preserves the topology invariant.
pub proof fn lemma_run_ticks_wf(w: WorldV, n: nat)
    requires
        wf(w),
    ensures
        wf(run_ticks(w, n)),
    decreases n,
{
    if n > 0 {
        lemma_run_ticks_wf(w, (n - 1) as nat);
        lemma_tick_spec_wf(run_ticks(w, (n - 1) as nat));
    }
}

/// A tick never deletes a packet slot, so packet indices are stable.
pub proof fn lemma_tick_keeps_slots(w: WorldV)
    ensures
        tick_spec(w).packets.len() >= w.packets.len(),
        tick_spec(w).devices.len() == w.devices.len(),
{
}

// ------------------------------------------------------------------
// Law: running zero ticks changes nothing
// ------------------------------------------------------------------

/// Running zero ticks leaves the topology and every packet state unchanged.
pub proof fn lemma_zero_ticks_identity(w: WorldV)
    ensures
        run_ticks(w, 0) == w,
{
}

// ------------------------------------------------------------------
// Law: emitters emit on schedule and never early
// ------------------------------------------------------------------

/// How a remainder evolves when the dividend grows by one.
proof fn lemma_mod_succ(j: int, k: int)
    requires
        j >= 0,
        k >= 1,
    ensures
        0 <= j % k < k,
        (j + 1) % k == if j % k == k - 1 {
            0int
        } else {
            j % k + 1
        },
{
    lemma_add_mod_noop(j, 1, k);
    if k == 1 {
        lemma_mod_self_0(1);
        lemma_small_mod(0, 1);
    } else {
        lemma_small_mod(1, k as nat);
        if j % k == k - 1 {
            lemma_mod_self_0(k);
        } else {
            lemma_small_mod((j % k + 1) as nat, k as nat);
        }
    }
}

/// In one tick, the only thing that happens to an emitter device is one
/// timer step; when it fires, its fresh packet is among the packets the emit
/// sub-system appended; when it does not fire, no packet of this device is
/// appended at all -- an emitter never emits early.
pub proof fn lemma_emitter_never_early(w: WorldV, d: int)
    requires
        0 <= d < w.devices.len(),
        w.devices[d].kind is Emitter,
    ensures
        tick_spec(w).devices[d] == bump_emitter(w.devices[d]),
        emitter_fires(w.devices[d]) ==> emit_step(w).packets.contains(
            Some(fired_packet(w.devices[d], d)),
        ),
        !emitter_fires(w.devices[d]) ==> forall|q: int|
            w.packets.len() <= q < emit_step(w).packets.len() ==> parked_port(
                (#[trigger] emit_step(w).packets[q])->Some_0,
            ).device != d,
{
    assert(emit_step(w).devices[d] == bump_emitter(w.devices[d]));
    assert(tick_spec(w).devices[d] == bump_emitter(w.devices[d]));
    if emitter_fires(w.devices[d]) {
        lemma_emitted_packets_contains(w.devices);
        let i = choose|i: int|
            0 <= i < emitted_packets(w.devices).len() && emitted_packets(w.devices)[i]
                == fired_packet(w.devices[d], d);
        assert(emit_step(w).packets[w.packets.len() + i] == Some(fired_packet(w.devices[d], d)));
        assert(emit_step(w).packets.contains(Some(fired_packet(w.devices[d], d))));
    } else {
        lemma_emitted_packets_elems(w.devices);
        assert forall|q: int|
            w.packets.len() <= q < emit_step(w).packets.len() implies parked_port(
            (#[trigger] emit_step(w).packets[q])->Some_0,
        ).device != d by {
            let e = q - w.packets.len();
            assert(emit_step(w).packets[q] == Some(emitted_packets(w.devices)[e]));
            let d2 = choose|d2: int|
                0 <= d2 < w.devices.len() && emitter_fires(w.devices[d2]) && emitted_packets(
                    w.devices,
                )[e] == fired_packet(w.devices[d2], d2);
            assert(parked_port(fired_packet(w.devices[d2], d2)).device == d2);
        }
    }
}

/// Law: an emitter created with a zero timer and interval `k >= 1` carries
/// timer `j % k` after `j` ticks and fires during tick `j + 1` exactly when
/// `j + 1` is a multiple of `k` -- it emits on ticks `k, 2k, 3k, ...` of its
/// own life and never on any other.
pub proof fn lemma_emitter_schedule(w: WorldV, d: int, n: nat)
    requires
        0 <= d < w.devices.len(),
        w.devices[d].kind is Emitter,
        emitter_of(w.devices[d]).timer_t == 0,
        emitter_of(w.devices[d]).interval_t >= 1,
    ensures
        forall|j: nat|
            j <= n ==> (#[trigger] run_ticks(w, j)).devices[d] == emitter_with_timer(
                w.devices[d],
                (j as int) % emitter_of(w.devices[d]).interval_t,
            ),
        forall|j: nat|
            j < n ==> (emitter_fires(#[trigger] run_ticks(w, j).devices[d]) <==> ((j + 1) as int)
                % emitter_of(w.devices[d]).interval_t == 0),
    decreases n,
{
    let k = emitter_of(w.devices[d]).interval_t;
    if n == 0 {
        lemma_small_mod(0, k as nat);
        assert(run_ticks(w, 0).devices[d] == w.devices[d]);
        assert(emitter_with_timer(w.devices[d], 0) == w.devices[d]);
    } else {
        lemma_emitter_schedule(w, d, (n - 1) as nat);
        lemma_run_ticks_devices(w, (n - 1) as nat, d);
        let prev = run_ticks(w, (n - 1) as nat);
        let t = ((n - 1) as int) % k;
        lemma_mod_succ((n - 1) as int, k);
        assert(prev.devices[d] == emitter_with_timer(w.devices[d], t));
        assert(run_ticks(w, n) == tick_spec(prev));
        assert(tick_spec(prev).devices[d] == bump_emitter(prev.devices[d]));
        assert(bump_emitter(emitter_with_timer(w.devices[d], t)) == emitter_with_timer(
            w.devices[d],
            if t + 1 >= k {
                0int
            } else {
                t + 1
            },
        ));
        assert(run_ticks(w, n).devices[d] == emitter_with_timer(w.devices[d], (n as int) % k));
        assert forall|j: nat| j < n implies (emitter_fires(#[trigger] run_ticks(w, j).devices[d])
            <==> ((j + 1) as int) % k == 0) by {
            lemma_mod_succ(j as int, k);
            lemma_run_ticks_devices(w, j, d);
            assert(run_ticks(w, j).devices[d] == emitter_with_timer(
                w.devices[d],
                (j as int) % k,
            ));
        }
    }
}

// ------------------------------------------------------------------
// Law: transit takes exactly the link latency, never less, never more
// ------------------------------------------------------------------

/// What the depart sub-system does to a ready packet: over a wired port it
/// enters transit from that port toward the other endpoint of the
/// lowest-indexed matching link, with delay and total both set to that
/// link's full latency; at an unwired port it is left exactly as it was.
pub proof fn lemma_depart_exact(w: WorldV, p: int)
    requires
        0 <= p < w.packets.len(),
        w.packets[p] is Some,
        ready_at(w.packets[p]->Some_0),
    ensures
        ({
            let pk = w.packets[p]->Some_0;
            let port = parked_port(pk);
            match find_link(w.links, port) {
                Some(i) => depart_step(w).packets[p] == Some(
                    PacketV {
                        payload: pk.payload,
                        position: PositionV::InTransit {
                            from: port,
                            to: if w.links[i].a == port {
                                w.links[i].b
                            } else {
                                w.links[i].a
                            },
                            delay: w.links[i].latency,
                            delay_full: w.links[i].latency,
                        },
                    },
                ),
                None => depart_step(w).packets[p] == w.packets[p],
            }
        }),
{
}

/// What one tick does to a packet already in transit: a positive delay is
/// decremented by exactly one; a delay of zero means arrival at the
/// destination port this tick -- consumed at once if that port belongs to a
/// sink, parked just-arrived otherwise.
pub proof fn lemma_transit_progress(w: WorldV, p: int)
    requires
        wf(w),
        0 <= p < w.packets.len(),
        w.packets[p] is Some,
        w.packets[p]->Some_0.position is InTransit,
    ensures
        transit_delay(w.packets[p]->Some_0) > 0 ==> tick_spec(w).packets[p] == Some(
            PacketV {
                payload: w.packets[p]->Some_0.payload,
                position: PositionV::InTransit {
                    from: transit_from(w.packets[p]->Some_0),
                    to: parked_port(w.packets[p]->Some_0),
                    delay: transit_delay(w.packets[p]->Some_0) - 1,
                    delay_full: transit_full(w.packets[p]->Some_0),
                },
            },
        ),
        transit_delay(w.packets[p]->Some_0) == 0 && !(w.devices[parked_port(
            w.packets[p]->Some_0,
        ).device].kind is Sink) ==> tick_spec(w).packets[p] == Some(
            PacketV {
                payload: w.packets[p]->Some_0.payload,
                position: PositionV::AtPort {
                    port: parked_port(w.packets[p]->Some_0),
                    state: PortState::JustArrived,
                },
            },
        ),
        transit_delay(w.packets[p]->Some_0) == 0 && w.devices[parked_port(
            w.packets[p]->Some_0,
        ).device].kind is Sink ==> tick_spec(w).packets[p] is None && tick_spec(
            w,
        ).sink_log.contains(w.packets[p]->Some_0.payload),
{
    let pk = w.packets[p]->Some_0;
    let to = parked_port(pk);
    let w1 = emit_step(w);
    let w2 = hub_step(w1);
    let mask = transit_mask(w2);
    let w3 = depart_step(w2);
    let w4 = move_step(w3, mask);
    assert(w1.packets[p] == w.packets[p]);
    assert(w2.packets[p] == w.packets[p]);
    assert(mask[p]);
    assert(w3.packets[p] == w.packets[p]);
    assert(w4.packets[p] == Some(move_packet(pk, true)));
    assert(wf_packet(w.devices, pk));
    assert(w4.devices[to.device].kind is Sink <==> w.devices[to.device].kind is Sink) by {
        assert(w4.devices[to.device] == bump_emitter(w.devices[to.device]));
    }
    if transit_delay(pk) == 0 && w.devices[to.device].kind is Sink {
        let arrived = move_packet(pk, true);
        assert(at_sink_arrived(w4.devices, arrived));
        assert(tick_spec(w).packets[p] is None);
        lemma_consumed_contains(w4, p, w4.packets.len() as int);
        let i = choose|i: int|
            0 <= i < consumed_payloads(w4, w4.packets.len() as int).len() && consumed_payloads(
                w4,
                w4.packets.len() as int,
            )[i] == arrived.payload;
        assert(tick_spec(w).sink_log[w4.sink_log.len() + i] == arrived.payload);
        assert(tick_spec(w).sink_log.contains(pk.payload));
    }
}

/// A just-arrived packet at a sink has its payload among the payloads the
/// sink sub-system consumes.
proof fn lemma_consumed_contains(w: WorldV, p: int, upto: int)
    requires
        0 <= p < upto <= w.packets.len(),
        w.packets[p] is Some,
        at_sink_arrived(w.devices, w.packets[p]->Some_0),
    ensures
        consumed_payloads(w, upto).contains(w.packets[p]->Some_0.payload),
    decreases upto,
{
    if upto == p + 1 {
        let shorter = consumed_payloads(w, p);
        assert(consumed_payloads(w, upto)[shorter.len() as int] == w.packets[p]->Some_0.payload);
    } else {
        lemma_consumed_contains(w, p, upto - 1);
        let i = choose|i: int|
            0 <= i < consumed_payloads(w, upto - 1).len() && #[trigger] consumed_payloads(
                w,
                upto - 1,
            )[i] == w.packets[p]->Some_0.payload;
        assert(consumed_payloads(w, upto)[i] == w.packets[p]->Some_0.payload);
    }
}

/// Law, first half: a packet in transit with `r` ticks of delay left is
/// still in transit after every one of the next `r` ticks -- it never
/// arrives early -- with its delay counted down one per tick.
pub proof fn lemma_transit_never_early(w: WorldV, p: int, m: nat)
    requires
        wf(w),
        0 <= p < w.packets.len(),
        w.packets[p] is Some,
        w.packets[p]->Some_0.position is InTransit,
        m <= transit_delay(w.packets[p]->Some_0),
    ensures
        run_ticks(w, m).packets.len() >= w.packets.len(),
        run_ticks(w, m).packets[p] == Some(
            PacketV {
                payload: w.packets[p]->Some_0.payload,
                position: PositionV::InTransit {
                    from: transit_from(w.packets[p]->Some_0),
                    to: parked_port(w.packets[p]->Some_0),
                    delay: transit_delay(w.packets[p]->Some_0) - m,
                    delay_full: transit_full(w.packets[p]->Some_0),
                },
            },
        ),
    decreases m,
{
    let pk = w.packets[p]->Some_0;
    if m == 0 {
        assert(run_ticks(w, 0) == w);
        assert(pk == PacketV {
            payload: pk.payload,
            position: PositionV::InTransit {
                from: transit_from(pk),
                to: parked_port(pk),
                delay: transit_delay(pk),
                delay_full: transit_full(pk),
            },
        });
    } else {
        lemma_transit_never_early(w, p, (m - 1) as nat);
        let prev = run_ticks(w, (m - 1) as nat);
        lemma_run_ticks_wf(w, (m - 1) as nat);
        lemma_transit_progress(prev, p);
        assert(run_ticks(w, m) == tick_spec(prev));
    }
}

/// Law, second half: a packet in transit with `r` ticks of delay left
/// arrives exactly one tick after its delay runs out -- at its destination
/// port if that device is not a sink, consumed and logged if it is. Together
/// with the first half: transit entered with delay `r` ends after exactly
/// `r + 1` ticks, never earlier and never later. Since depart installs
/// delay `L` and the same tick's move already decrements a positive delay,
/// a packet departing with link latency `L >= 1` arrives `L` ticks after the
/// tick it departed on, and with latency `0` on the very next tick.
pub proof fn lemma_transit_arrival(w: WorldV, p: int)
    requires
        wf(w),
        0 <= p < w.packets.len(),
        w.packets[p] is Some,
        w.packets[p]->Some_0.position is InTransit,
    ensures
        ({
            let pk = w.packets[p]->Some_0;
            let steps = (transit_delay(pk) + 1) as nat;
            let to = parked_port(pk);
            &&& !(w.devices[to.device].kind is Sink) ==> run_ticks(w, steps).packets[p] == Some(
                PacketV {
                    payload: pk.payload,
                    position: PositionV::AtPort { port: to, state: PortState::JustArrived },
                },
            )
            &&& w.devices[to.device].kind is Sink ==> run_ticks(w, steps).packets[p] is None
                && run_ticks(w, steps).sink_log.contains(pk.payload)
        }),
{
    let pk = w.packets[p]->Some_0;
    let r = transit_delay(pk) as nat;
    lemma_transit_never_early(w, p, r);
    let prev = run_ticks(w, r);
    lemma_run_ticks_wf(w, r);
    lemma_transit_progress(prev, p);
    assert(run_ticks(w, (r + 1) as nat) == tick_spec(prev));
    assert forall|i: int|
        0 <= i < w.devices.len() implies (#[trigger] run_ticks(w, r).devices[i]).kind is Sink
        <==> w.devices[i].kind is Sink by {
        lemma_run_ticks_devices(w, r, i);
    }
}

/// Across any number of ticks a device keeps its ports and its nature: only
/// an emitter's timer ever changes.
pub proof fn lemma_run_ticks_devices(w: WorldV, n: nat, d: int)
    requires
        0 <= d < w.devices.len(),
    ensures
        run_ticks(w, n).devices.len() == w.devices.len(),
        run_ticks(w, n).devices[d].port_count == w.devices[d].port_count,
        run_ticks(w, n).devices[d].label == w.devices[d].label,
        run_ticks(w, n).devices[d].kind is Sink <==> w.devices[d].kind is Sink,
        run_ticks(w, n).devices[d].kind is Hub <==> w.devices[d].kind is Hub,
        run_ticks(w, n).devices[d].kind is Emitter <==> w.devices[d].kind is Emitter,
    decreases n,
{
    if n > 0 {
        lemma_run_ticks_devices(w, (n - 1) as nat, d);
        let prev = run_ticks(w, (n - 1) as nat);
        assert(run_ticks(w, n).devices[d] == bump_emitter(prev.devices[d]));
    }
}

// ------------------------------------------------------------------
// Law: a hub copies to every port but the arrival port, and only those
// ------------------------------------------------------------------

/// Longer hub-propagation scans only append staged copies.
proof fn lemma_hub_spawned_prefix(w: WorldV, a: int, b: int)
    requires
        0 <= a <= b,
    ensures
        hub_spawned(w, a).len() <= hub_spawned(w, b).len(),
        forall|q: int|
            0 <= q < hub_spawned(w, a).len() ==> #[trigger] hub_spawned(w, b)[q] == hub_spawned(
                w,
                a,
            )[q],
    decreases b - a,
{
    if a < b {
        lemma_hub_spawned_prefix(w, a, b - 1);
    }
}

/// Law: a packet just arrived at a hub with `n` ports is destroyed and
/// replaced by exactly `n - 1` ready copies, one on each port of the hub
/// other than the arrival port -- never on the arrival port itself -- each
/// carrying the arrival payload unchanged.
pub proof fn lemma_hub_rebroadcast(w: WorldV, p: int)
    requires
        wf(w),
        0 <= p < w.packets.len(),
        w.packets[p] is Some,
        at_hub_arrived(w.devices, w.packets[p]->Some_0),
    ensures
        hub_step(w).packets[p] is None,
        ({
            let pk = w.packets[p]->Some_0;
            let port = parked_port(pk);
            let nports = w.devices[port.device].port_count;
            let copies = hub_copies(pk.payload, port.device, nports, port.index);
            let off = w.packets.len() + hub_spawned(w, p).len();
            &&& copies.len() == nports - 1
            &&& forall|q: int|
                0 <= q < copies.len() ==> #[trigger] hub_step(w).packets[off + q] == Some(
                    copies[q],
                )
            &&& forall|q: int|
                0 <= q < copies.len() ==> exists|x: int|
                    0 <= x < nports && x != port.index && #[trigger] copies[q] == ready_packet(
                        pk.payload,
                        port.device,
                        x,
                    )
        }),
{
    let pk = w.packets[p]->Some_0;
    let port = parked_port(pk);
    let nports = w.devices[port.device].port_count;
    let copies = hub_copies(pk.payload, port.device, nports, port.index);
    let off = w.packets.len() + hub_spawned(w, p).len();
    assert(wf_packet(w.devices, pk));
    assert(0 <= port.index < nports);
    lemma_hub_copies_len(pk.payload, port.device, nports, port.index);
    lemma_hub_copies_elems(pk.payload, port.device, nports, port.index);
    assert(hub_spawned(w, p + 1) == hub_spawned(w, p) + copies);
    lemma_hub_spawned_prefix(w, p + 1, w.packets.len() as int);
    assert forall|q: int| 0 <= q < copies.len() implies #[trigger] hub_step(w).packets[off + q]
        == Some(copies[q]) by {
        assert(hub_spawned(w, p + 1)[hub_spawned(w, p).len() + q] == copies[q]);
        assert(hub_spawned(w, w.packets.len() as int)[hub_spawned(w, p).len() + q] == copies[q]);
        assert(hub_step(w).packets[off + q] == Some(
            hub_spawned(w, w.packets.len() as int)[hub_spawned(w, p).len() + q],
        ));
    }
}

// ------------------------------------------------------------------
// Law: a sink logs exactly the payload bytes it received, unmodified
// ------------------------------------------------------------------

/// Everything the sink sub-system consumes is the payload of some packet
/// that had just arrived at a sink, byte for byte.
proof fn lemma_consumed_elems(w: WorldV, upto: int)
    requires
        upto <= w.packets.len(),
    ensures
        forall|q: int|
            0 <= q < consumed_payloads(w, upto).len() ==> exists|p: int|
                0 <= p < upto && w.packets[p] is Some && at_sink_arrived(
                    w.devices,
                    w.packets[p]->Some_0,
                ) && #[trigger] consumed_payloads(w, upto)[q] == w.packets[p]->Some_0.payload,
    decreases upto,
{
    if upto > 0 {
        lemma_consumed_elems(w, upto - 1);
        assert forall|q: int| 0 <= q < consumed_payloads(w, upto).len() implies exists|p: int|
            0 <= p < upto && w.packets[p] is Some && at_sink_arrived(
                w.devices,
                w.packets[p]->Some_0,
            ) && #[trigger] consumed_payloads(w, upto)[q] == w.packets[p]->Some_0.payload by {
            let shorter = consumed_payloads(w, upto - 1);
            if q < shorter.len() {
                let p = choose|p: int|
                    0 <= p < upto - 1 && w.packets[p] is Some && at_sink_arrived(
                        w.devices,
                        w.packets[p]->Some_0,
                    ) && shorter[q] == w.packets[p]->Some_0.payload;
                assert(consumed_payloads(w, upto)[q] == shorter[q]);
                assert(0 <= p < upto && w.packets[p] is Some && at_sink_arrived(
                    w.devices,
                    w.packets[p]->Some_0,
                ) && consumed_payloads(w, upto)[q] == w.packets[p]->Some_0.payload);
            } else {
                let p = upto - 1;
                assert(consumed_payloads(w, upto)[q] == w.packets[p]->Some_0.payload);
                assert(0 <= p < upto && w.packets[p] is Some && at_sink_arrived(
                    w.devices,
                    w.packets[p]->Some_0,
                ) && consumed_payloads(w, upto)[q] == w.packets[p]->Some_0.payload);
            }
        }
    }
}

/// Law: the sink sub-system destroys a packet just arrived at a sink and
/// appends its exact payload bytes to the log; and everything ever appended
/// to the log is the unmodified payload of such a packet.
pub proof fn lemma_sink_logs_exact(w: WorldV, p: int)
    requires
        0 <= p < w.packets.len(),
        w.packets[p] is Some,
        at_sink_arrived(w.devices, w.packets[p]->Some_0),
    ensures
        sink_step(w).packets[p] is None,
        sink_step(w).sink_log.contains(w.packets[p]->Some_0.payload),
{
    lemma_consumed_contains(w, p, w.packets.len() as int);
    let i = choose|i: int|
        0 <= i < consumed_payloads(w, w.packets.len() as int).len() && consumed_payloads(
            w,
            w.packets.len() as int,
        )[i] == w.packets[p]->Some_0.payload;
    assert(sink_step(w).sink_log[w.sink_log.len() + i] == w.packets[p]->Some_0.payload);
}

/// Law, converse half: nothing enters the sink log but the exact payload of
/// a packet that had just arrived at a sink.
pub proof fn lemma_sink_log_only_arrivals(w: WorldV, b: Seq<u8>)
    requires
        sink_step(w).sink_log.contains(b),
    ensures
        w.sink_log.contains(b) || exists|p: int|
            0 <= p < w.packets.len() && w.packets[p] is Some && at_sink_arrived(
                w.devices,
                (#[trigger] w.packets[p])->Some_0,
            ) && w.packets[p]->Some_0.payload == b,
{
    let i = choose|i: int|
        0 <= i < sink_step(w).sink_log.len() && sink_step(w).sink_log[i] == b;
    if i < w.sink_log.len() {
        assert(w.sink_log[i] == b);
    } else {
        lemma_consumed_elems(w, w.packets.len() as int);
        let q = i - w.sink_log.len();
        assert(consumed_payloads(w, w.packets.len() as int)[q] == b);
        let p = choose|p: int|
            0 <= p < w.packets.len() && w.packets[p] is Some && at_sink_arrived(
                w.devices,
                w.packets[p]->Some_0,
            ) && consumed_payloads(w, w.packets.len() as int)[q] == w.packets[p]->Some_0.payload;
        assert(0 <= p < w.packets.len() && w.packets[p] is Some && at_sink_arrived(
            w.devices,
            (w.packets[p])->Some_0,
        ) && w.packets[p]->Some_0.payload == b);
    }
}

} // verus!
