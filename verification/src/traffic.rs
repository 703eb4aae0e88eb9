//! Traffic accumulators.
//!
//! A `TrafficInfo` gathers, for one time slice, the bytes each peer moved,
//! grouped by network and peer public key and stamped with the sample time.
//! Every `add` keeps the per-level totals equal to the sums of what was
//! added, and the nested key-value vectors behave as maps.

use vstd::prelude::*;
use crate::keys::Pubkey;
use crate::kvmap::{
    kv_at, kv_contains, kv_map, kv_unique, lemma_kv_push, lemma_kv_update, lemma_kv_at_index,
};

verus! {

/// Received and sent byte counts.
#[derive(Clone, Copy, Debug, PartialEq, Eq, Structural)]
pub struct Traffic {
    /// Received bytes.
    pub rx: usize,
    /// Sent bytes.
    pub tx: usize,
}

impl Traffic {
    /// A traffic item from its two counters.
    pub fn new(rx: usize, tx: usize) -> (r: Traffic)
        ensures
            r.rx == rx,
            r.tx == tx,
    {
        Traffic { rx, tx }
    }

    /// Add another item's counters onto this one.
    pub fn add(&mut self, other: &Traffic)
        requires
            old(self).rx + other.rx <= usize::MAX,
            old(self).tx + other.tx <= usize::MAX,
        ensures
            final(self).rx == old(self).rx + other.rx,
            final(self).tx == old(self).tx + other.tx,
    {
        self.rx = self.rx + other.rx;
        self.tx = self.tx + other.tx;
    }
}

impl Default for Traffic {
    /// The zero traffic item.
    fn default() -> (r: Traffic)
        ensures
            r.rx == 0,
            r.tx == 0,
    {
        Traffic { rx: 0, tx: 0 }
    }
}

/// Key-value pairs keyed by a public key, read by the key's text.
pub open spec fn by_text<V>(s: Seq<(Pubkey, V)>) -> Seq<(Seq<u8>, V)> {
    s.map(|i: int, e: (Pubkey, V)| (e.0.text@, e.1))
}

/// Traffic from one peer: its total and a map from sample time to item.
#[derive(Clone, Debug)]
pub struct DeviceTraffic {
    /// Total traffic from this peer.
    pub traffic: Traffic,
    /// Traffic per sample timestamp.
    pub times: Vec<(usize, Traffic)>,
}

impl DeviceTraffic {
    pub open spec fn wf(self) -> bool {
        kv_unique(self.times@)
    }

    /// The empty per-peer accumulator.
    pub fn new() -> (r: DeviceTraffic)
        ensures
            r.traffic.rx == 0,
            r.traffic.tx == 0,
            r.times@.len() == 0,
            r.wf(),
    {
        DeviceTraffic { traffic: Traffic { rx: 0, tx: 0 }, times: Vec::new() }
    }

    /// Record an item at a sample time: the total grows by the item, and
    /// the time map gains (or replaces) the entry at that time.
    pub fn add(&mut self, time: usize, traffic: Traffic)
        requires
            old(self).wf(),
            old(self).traffic.rx + traffic.rx <= usize::MAX,
            old(self).traffic.tx + traffic.tx <= usize::MAX,
        ensures
            final(self).wf(),
            final(self).traffic.rx == old(self).traffic.rx + traffic.rx,
            final(self).traffic.tx == old(self).traffic.tx + traffic.tx,
            kv_map(final(self).times@) =~= kv_map(old(self).times@).insert(time, traffic),
    {
        self.traffic.add(&traffic);
        let ghost s0 = self.times@;
        let n: usize = self.times.len();
        let mut i: usize = 0;
        while i < n
            invariant
                n == self.times@.len(),
                0 <= i <= n,
                self.times@ == s0,
                s0 == old(self).times@,
                kv_unique(s0),
                self.traffic.rx == old(self).traffic.rx + traffic.rx,
                self.traffic.tx == old(self).traffic.tx + traffic.tx,
                forall|j: int| 0 <= j < i ==> self.times@[j].0 != time,
            decreases n - i,
        {
            if self.times[i].0 == time {
                self.times[i] = (time, traffic);
                proof {
                    lemma_kv_update(s0, i as int, traffic);
                }
                return ;
            }
            i = i + 1;
        }
        self.times.push((time, traffic));
        proof {
            lemma_kv_push(s0, time, traffic);
        }
    }
}

/// Traffic within one network: its total and per-peer accumulators.
#[derive(Clone, Debug)]
pub struct NetworkTraffic {
    /// Total traffic in this network.
    pub traffic: Traffic,
    /// Traffic per peer, keyed by peer public key.
    pub devices: Vec<(Pubkey, DeviceTraffic)>,
}

impl NetworkTraffic {
    pub open spec fn wf(self) -> bool {
        &&& kv_unique(by_text(self.devices@))
        &&& (forall|i: int| 0 <= i < self.devices@.len() ==> (#[trigger] self.devices@[i].1).wf())
    }

    /// The empty per-network accumulator.
    pub fn new() -> (r: NetworkTraffic)
        ensures
            r.traffic.rx == 0,
            r.traffic.tx == 0,
            r.devices@.len() == 0,
            r.wf(),
    {
        NetworkTraffic { traffic: Traffic { rx: 0, tx: 0 }, devices: Vec::new() }
    }

    /// Record an item for a peer at a sample time. The network total grows
    /// by the item; the peer's accumulator gains it as `DeviceTraffic::add`
    /// does, starting from empty for a peer not yet seen; other peers'
    /// entries are untouched.
    pub fn add(&mut self, device: Pubkey, time: usize, traffic: Traffic)
        requires
            old(self).wf(),
            old(self).traffic.rx + traffic.rx <= usize::MAX,
            old(self).traffic.tx + traffic.tx <= usize::MAX,
            kv_contains(by_text(old(self).devices@), device.text@) ==> (kv_at(
                by_text(old(self).devices@),
                device.text@,
            ).traffic.rx + traffic.rx <= usize::MAX && kv_at(
                by_text(old(self).devices@),
                device.text@,
            ).traffic.tx + traffic.tx <= usize::MAX),
        ensures
            final(self).wf(),
            final(self).traffic.rx == old(self).traffic.rx + traffic.rx,
            final(self).traffic.tx == old(self).traffic.tx + traffic.tx,
            kv_map(by_text(final(self).devices@)).dom() =~= kv_map(
                by_text(old(self).devices@),
            ).dom().insert(device.text@),
            forall|k: Seq<u8>|
                k != device.text@ && kv_contains(by_text(old(self).devices@), k) ==> kv_at(
                    by_text(final(self).devices@),
                    k,
                ) == kv_at(by_text(old(self).devices@), k),
            kv_contains(by_text(old(self).devices@), device.text@) ==> (kv_at(
                by_text(final(self).devices@),
                device.text@,
            ).traffic.rx == kv_at(by_text(old(self).devices@), device.text@).traffic.rx
                + traffic.rx && kv_at(
                by_text(final(self).devices@),
                device.text@,
            ).traffic.tx == kv_at(by_text(old(self).devices@), device.text@).traffic.tx
                + traffic.tx && kv_map(
                kv_at(by_text(final(self).devices@), device.text@).times@,
            ) =~= kv_map(kv_at(by_text(old(self).devices@), device.text@).times@).insert(
                time,
                traffic,
            )),
            !kv_contains(by_text(old(self).devices@), device.text@) ==> (kv_at(
                by_text(final(self).devices@),
                device.text@,
            ).traffic.rx == traffic.rx && kv_at(
                by_text(final(self).devices@),
                device.text@,
            ).traffic.tx == traffic.tx && kv_map(
                kv_at(by_text(final(self).devices@), device.text@).times@,
            ) =~= Map::<usize, Traffic>::empty().insert(time, traffic)),
    {
        self.traffic.add(&traffic);
        let ghost s0 = self.devices@;
        let n: usize = self.devices.len();
        let mut i: usize = 0;
        while i < n
            invariant
                n == self.devices@.len(),
                0 <= i <= n,
                self.devices@ == s0,
                s0 == old(self).devices@,
                kv_unique(by_text(s0)),
                forall|j: int| 0 <= j < s0.len() ==> (#[trigger] s0[j].1).wf(),
                self.traffic.rx == old(self).traffic.rx + traffic.rx,
                self.traffic.tx == old(self).traffic.tx + traffic.tx,
                kv_contains(by_text(s0), device.text@) ==> (kv_at(
                    by_text(s0),
                    device.text@,
                ).traffic.rx + traffic.rx <= usize::MAX && kv_at(
                    by_text(s0),
                    device.text@,
                ).traffic.tx + traffic.tx <= usize::MAX),
                forall|j: int| 0 <= j < i ==> by_text(s0)[j].0 != device.text@,
            decreases n - i,
        {
            if crate::bytes::bytes_eq(&self.devices[i].0.text, &device.text) {
                proof {
                    assert(by_text(s0)[i as int].0 == device.text@);
                    lemma_kv_at_index(by_text(s0), i as int);
                }
                let (k0, mut d) = self.devices.remove(i);
                d.add(time, traffic);
                self.devices.insert(i, (k0, d));
                proof {
                    let s1 = self.devices@;
                    assert(s1 =~= s0.update(i as int, (k0, d)));
                    assert(by_text(s1) =~= by_text(s0).update(i as int, (device.text@, d)));
                    assert(by_text(s0)[i as int] == (device.text@, kv_at(
                        by_text(s0),
                        device.text@,
                    )));
                    lemma_kv_update(by_text(s0), i as int, d);
                    assert(kv_map(by_text(s1)).dom() =~= kv_map(by_text(s0)).dom().insert(
                        device.text@,
                    ));
                    assert(kv_at(by_text(s1), device.text@) == d) by {
                        lemma_kv_at_index(by_text(s1), i as int);
                    }
                    assert forall|k: Seq<u8>|
                        k != device.text@ && kv_contains(by_text(s0), k) implies kv_at(
                        by_text(s1),
                        k,
                    ) == kv_at(by_text(s0), k) by {
                        assert(kv_map(by_text(s1))[k] == kv_map(by_text(s0)).insert(
                            device.text@,
                            d,
                        )[k]);
                    }
                    assert forall|j: int|
                        0 <= j < self.devices@.len() implies (#[trigger] self.devices@[j].1).wf()
                        by {
                        if j != i {
                            assert(s0[j].1.wf());
                        }
                    }
                }
                return ;
            }
            i = i + 1;
        }
        let mut d = DeviceTraffic::new();
        d.add(time, traffic);
        self.devices.push((device, d));
        proof {
            let s1 = self.devices@;
            assert(s1 =~= s0.push((device, d)));
            assert(by_text(s1) =~= by_text(s0).push((device.text@, d)));
            assert(!kv_contains(by_text(s0), device.text@));
            lemma_kv_push(by_text(s0), device.text@, d);
            assert(kv_at(by_text(s1), device.text@) == d) by {
                lemma_kv_at_index(by_text(s1), s0.len() as int);
            }
            assert(kv_map(by_text(s1)).dom() =~= kv_map(by_text(s0)).dom().insert(device.text@));
            assert forall|k: Seq<u8>|
                k != device.text@ && kv_contains(by_text(s0), k) implies kv_at(by_text(s1), k)
                == kv_at(by_text(s0), k) by {
                assert(kv_map(by_text(s1))[k] == kv_map(by_text(s0)).insert(device.text@, d)[k]);
            }
            assert(kv_map(d.times@) =~= Map::<usize, Traffic>::empty().insert(time, traffic));
            assert forall|j: int|
                0 <= j < self.devices@.len() implies (#[trigger] self.devices@[j].1).wf() by {
                if j < s0.len() {
                    assert(s0[j].1.wf());
                }
            }
        }
    }
}

/// The peer accumulator a key holds in a network entry, if any.
pub open spec fn dev_lookup(nt: Option<NetworkTraffic>, k: Seq<u8>) -> Option<DeviceTraffic> {
    match nt {
        Option::Some(n) => if kv_contains(by_text(n.devices@), k) {
            Option::Some(kv_at(by_text(n.devices@), k))
        } else {
            Option::None
        },
        Option::None => Option::None,
    }
}

/// The device keys a network entry holds.
pub open spec fn dev_dom(nt: Option<NetworkTraffic>) -> Set<Seq<u8>> {
    match nt {
        Option::Some(n) => kv_map(by_text(n.devices@)).dom(),
        Option::None => Set::empty(),
    }
}

/// A peer accumulator gained exactly one item: its total grew by the
/// item, and its time map gained (or replaced) the entry at the sample
/// time; an absent accumulator counts as empty.
pub open spec fn device_gains(
    d0: Option<DeviceTraffic>,
    d1: DeviceTraffic,
    time: usize,
    traffic: Traffic,
) -> bool {
    match d0 {
        Option::Some(d) => d1.traffic.rx == d.traffic.rx + traffic.rx && d1.traffic.tx
            == d.traffic.tx + traffic.tx && kv_map(d1.times@) =~= kv_map(d.times@).insert(
            time,
            traffic,
        ),
        Option::None => d1.traffic.rx == traffic.rx && d1.traffic.tx == traffic.tx && kv_map(
            d1.times@,
        ) =~= Map::<usize, Traffic>::empty().insert(time, traffic),
    }
}

/// A network entry gained exactly one item for one peer: its total grew
/// by the item, the peer's accumulator gained it, and every other peer's
/// accumulator is untouched; an absent entry counts as empty.
pub open spec fn network_gains(
    nt0: Option<NetworkTraffic>,
    nt1: NetworkTraffic,
    device: Pubkey,
    time: usize,
    traffic: Traffic,
) -> bool {
    &&& nt1.traffic.rx == (match nt0 {
        Option::Some(n) => n.traffic.rx,
        Option::None => 0,
    }) + traffic.rx
    &&& nt1.traffic.tx == (match nt0 {
        Option::Some(n) => n.traffic.tx,
        Option::None => 0,
    }) + traffic.tx
    &&& kv_map(by_text(nt1.devices@)).dom() =~= dev_dom(nt0).insert(device.text@)
    &&& (forall|k: Seq<u8>|
        k != device.text@ && (#[trigger] dev_lookup(nt0, k)) is Some ==> Option::Some(
            kv_at(by_text(nt1.devices@), k),
        ) == dev_lookup(nt0, k))
    &&& device_gains(
        dev_lookup(nt0, device.text@),
        kv_at(by_text(nt1.devices@), device.text@),
        time,
        traffic,
    )
}

/// Traffic data for one time slice.
#[derive(Clone, Debug)]
pub struct TrafficInfo {
    /// Start of the time slice, as a UNIX timestamp.
    pub start_time: usize,
    /// End of the time slice, as a UNIX timestamp.
    pub stop_time: usize,
    /// Sum of all traffic in this slice.
    pub traffic: Traffic,
    /// Traffic per network, keyed by network public key.
    pub networks: Vec<(Pubkey, NetworkTraffic)>,
}

impl TrafficInfo {
    pub open spec fn wf(self) -> bool {
        &&& kv_unique(by_text(self.networks@))
        &&& (forall|i: int| 0 <= i < self.networks@.len() ==> (#[trigger] self.networks@[i].1).wf())
    }

    /// An empty slice beginning at a start time.
    pub fn new(start_time: usize) -> (r: TrafficInfo)
        ensures
            r.start_time == start_time,
            r.stop_time == start_time,
            r.traffic.rx == 0,
            r.traffic.tx == 0,
            r.networks@.len() == 0,
            r.wf(),
    {
        TrafficInfo {
            start_time,
            stop_time: start_time,
            traffic: Traffic { rx: 0, tx: 0 },
            networks: Vec::new(),
        }
    }

    /// The network entry a key holds in a slice, if any.
    pub open spec fn net_lookup(self, k: Seq<u8>) -> Option<NetworkTraffic> {
        if kv_contains(by_text(self.networks@), k) {
            Option::Some(kv_at(by_text(self.networks@), k))
        } else {
            Option::None
        }
    }

    /// The whole effect of recording one item: the slice total grows by
    /// the item, the slice end time covers the sample time, the network's
    /// entry gains the item for the peer, down to the peer's total and
    /// time map, and every other network entry is untouched.
    pub open spec fn added_spec(
        self,
        post: TrafficInfo,
        network: Pubkey,
        device: Pubkey,
        time: usize,
        traffic: Traffic,
    ) -> bool {
        &&& post.start_time == self.start_time
        &&& post.stop_time == (if time > self.stop_time {
            time
        } else {
            self.stop_time
        })
        &&& post.traffic.rx == self.traffic.rx + traffic.rx
        &&& post.traffic.tx == self.traffic.tx + traffic.tx
        &&& kv_map(by_text(post.networks@)).dom() =~= kv_map(by_text(self.networks@)).dom().insert(
            network.text@,
        )
        &&& (forall|k: Seq<u8>|
            k != network.text@ && kv_contains(by_text(self.networks@), k) ==> kv_at(
                by_text(post.networks@),
                k,
            ) == kv_at(by_text(self.networks@), k))
        &&& network_gains(
            self.net_lookup(network.text@),
            kv_at(by_text(post.networks@), network.text@),
            device,
            time,
            traffic,
        )
    }

    /// Record an item for a peer of a network at a sample time, with the
    /// whole effect of `added_spec`: slice totals and end time move, and
    /// the network's entry gains the item for the peer down to its time
    /// map, starting from empty for a new network or peer.
    pub fn add(&mut self, network: Pubkey, device: Pubkey, time: usize, traffic: Traffic)
        requires
            old(self).wf(),
            old(self).traffic.rx + traffic.rx <= usize::MAX,
            old(self).traffic.tx + traffic.tx <= usize::MAX,
            kv_contains(by_text(old(self).networks@), network.text@) ==> ({
                let nt = kv_at(by_text(old(self).networks@), network.text@);
                nt.traffic.rx + traffic.rx <= usize::MAX && nt.traffic.tx + traffic.tx
                    <= usize::MAX && (kv_contains(by_text(nt.devices@), device.text@) ==> (kv_at(
                    by_text(nt.devices@),
                    device.text@,
                ).traffic.rx + traffic.rx <= usize::MAX && kv_at(
                    by_text(nt.devices@),
                    device.text@,
                ).traffic.tx + traffic.tx <= usize::MAX))
            }),
        ensures
            final(self).wf(),
            old(self).added_spec(*final(self), network, device, time, traffic),
    {
        self.traffic.add(&traffic);
        if time > self.stop_time {
            self.stop_time = time;
        }
        let ghost s0 = self.networks@;
        let n: usize = self.networks.len();
        let mut i: usize = 0;
        while i < n
            invariant
                n == self.networks@.len(),
                0 <= i <= n,
                self.networks@ == s0,
                s0 == old(self).networks@,
                kv_unique(by_text(s0)),
                forall|j: int| 0 <= j < s0.len() ==> (#[trigger] s0[j].1).wf(),
                self.traffic.rx == old(self).traffic.rx + traffic.rx,
                self.traffic.tx == old(self).traffic.tx + traffic.tx,
                self.start_time == old(self).start_time,
                self.stop_time == (if time > old(self).stop_time {
                    time
                } else {
                    old(self).stop_time
                }),
                kv_contains(by_text(s0), network.text@) ==> ({
                    let nt = kv_at(by_text(s0), network.text@);
                    nt.traffic.rx + traffic.rx <= usize::MAX && nt.traffic.tx + traffic.tx
                        <= usize::MAX && (kv_contains(by_text(nt.devices@), device.text@) ==> (
                    kv_at(by_text(nt.devices@), device.text@).traffic.rx + traffic.rx
                        <= usize::MAX && kv_at(by_text(nt.devices@), device.text@).traffic.tx
                        + traffic.tx <= usize::MAX))
                }),
                forall|j: int| 0 <= j < i ==> by_text(s0)[j].0 != network.text@,
            decreases n - i,
        {
            if crate::bytes::bytes_eq(&self.networks[i].0.text, &network.text) {
                proof {
                    assert(by_text(s0)[i as int].0 == network.text@);
                    lemma_kv_at_index(by_text(s0), i as int);
                    assert(s0[i as int].1.wf());
                }
                let (k0, mut nt) = self.networks.remove(i);
                let ghost nt_pre = nt;
                nt.add(device, time, traffic);
                self.networks.insert(i, (k0, nt));
                proof {
                    let s1 = self.networks@;
                    assert(s1 =~= s0.update(i as int, (k0, nt)));
                    assert(by_text(s1) =~= by_text(s0).update(i as int, (network.text@, nt)));
                    lemma_kv_update(by_text(s0), i as int, nt);
                    assert(kv_map(by_text(s1)).dom() =~= kv_map(by_text(s0)).dom().insert(
                        network.text@,
                    ));
                    assert(kv_at(by_text(s1), network.text@) == nt) by {
                        lemma_kv_at_index(by_text(s1), i as int);
                    }
                    assert forall|k: Seq<u8>|
                        k != network.text@ && kv_contains(by_text(s0), k) implies kv_at(
                        by_text(s1),
                        k,
                    ) == kv_at(by_text(s0), k) by {
                        assert(kv_map(by_text(s1))[k] == kv_map(by_text(s0)).insert(
                            network.text@,
                            nt,
                        )[k]);
                    }
                    assert forall|j: int|
                        0 <= j < self.networks@.len() implies (#[trigger] self.networks@[j].1).wf()
                        by {
                        if j != i {
                            assert(s0[j].1.wf());
                        }
                    }
                    assert(kv_map(by_text(nt.devices@)).dom().contains(device.text@));
                    assert(kv_contains(by_text(nt.devices@), device.text@));
                    // the network entry gained exactly this item
                    assert(kv_at(by_text(s0), network.text@) == nt_pre);
                    assert(old(self).net_lookup(network.text@) == Option::Some(nt_pre));
                    assert forall|k: Seq<u8>|
                        k != device.text@ && (#[trigger] dev_lookup(
                            Option::Some(nt_pre),
                            k,
                        )) is Some implies Option::Some(kv_at(by_text(nt.devices@), k))
                        == dev_lookup(Option::Some(nt_pre), k) by {
                        assert(kv_contains(by_text(nt_pre.devices@), k));
                    }
                    if kv_contains(by_text(nt_pre.devices@), device.text@) {
                        assert(device_gains(
                            dev_lookup(Option::Some(nt_pre), device.text@),
                            kv_at(by_text(nt.devices@), device.text@),
                            time,
                            traffic,
                        ));
                    } else {
                        assert(dev_lookup(Option::Some(nt_pre), device.text@) is None);
                        assert(device_gains(
                            Option::None,
                            kv_at(by_text(nt.devices@), device.text@),
                            time,
                            traffic,
                        ));
                    }
                    assert(network_gains(Option::Some(nt_pre), nt, device, time, traffic));
                    assert(old(self).added_spec(*self, network, device, time, traffic));
                }
                return ;
            }
            i = i + 1;
        }
        let mut nt = NetworkTraffic::new();
        let ghost nt_empty = nt;
        nt.add(device, time, traffic);
        self.networks.push((network, nt));
        proof {
            let s1 = self.networks@;
            assert(s1 =~= s0.push((network, nt)));
            assert(by_text(s1) =~= by_text(s0).push((network.text@, nt)));
            assert(!kv_contains(by_text(s0), network.text@));
            lemma_kv_push(by_text(s0), network.text@, nt);
            assert(kv_at(by_text(s1), network.text@) == nt) by {
                lemma_kv_at_index(by_text(s1), s0.len() as int);
            }
            assert(kv_map(by_text(s1)).dom() =~= kv_map(by_text(s0)).dom().insert(network.text@));
            assert forall|k: Seq<u8>|
                k != network.text@ && kv_contains(by_text(s0), k) implies kv_at(by_text(s1), k)
                == kv_at(by_text(s0), k) by {
                assert(kv_map(by_text(s1))[k] == kv_map(by_text(s0)).insert(network.text@, nt)[k]);
            }
            assert forall|j: int|
                0 <= j < self.networks@.len() implies (#[trigger] self.networks@[j].1).wf() by {
                if j < s0.len() {
                    assert(s0[j].1.wf());
                }
            }
            assert(kv_map(by_text(nt.devices@)).dom().contains(device.text@));
            assert(kv_contains(by_text(nt.devices@), device.text@));
            // a new network entry gained exactly this item, from empty
            assert(old(self).net_lookup(network.text@) is None);
            assert(kv_map(by_text(nt_empty.devices@)).dom() =~= Set::<Seq<u8>>::empty()) by {
                assert(by_text(nt_empty.devices@).len() == 0);
            }
            assert(!kv_contains(by_text(nt_empty.devices@), device.text@));
            assert(device_gains(
                Option::None,
                kv_at(by_text(nt.devices@), device.text@),
                time,
                traffic,
            ));
            assert forall|k: Seq<u8>|
                k != device.text@ && (#[trigger] dev_lookup(Option::None, k)) is Some implies
                Option::Some(kv_at(by_text(nt.devices@), k)) == dev_lookup(Option::None, k) by {}
            assert(network_gains(Option::None, nt, device, time, traffic));
            assert(old(self).added_spec(*self, network, device, time, traffic));
        }
    }
}

impl NetworkTraffic {
    /// Look a peer's accumulator up.
    pub fn get_device(&self, key: &Pubkey) -> (r: Option<&DeviceTraffic>)
        requires
            kv_unique(by_text(self.devices@)),
        ensures
            r is Some <==> kv_contains(by_text(self.devices@), key.text@),
            r matches Some(d) ==> *d == kv_at(by_text(self.devices@), key.text@),
    {
        let n: usize = self.devices.len();
        let mut i: usize = 0;
        while i < n
            invariant
                n == self.devices@.len(),
                0 <= i <= n,
                kv_unique(by_text(self.devices@)),
                forall|j: int| 0 <= j < i ==> by_text(self.devices@)[j].0 != key.text@,
            decreases n - i,
        {
            if crate::bytes::bytes_eq(&self.devices[i].0.text, &key.text) {
                proof {
                    lemma_kv_at_index(by_text(self.devices@), i as int);
                }
                return Option::Some(&self.devices[i].1);
            }
            i = i + 1;
        }
        Option::None
    }
}

impl TrafficInfo {
    /// Look a network's accumulator up.
    pub fn get_network(&self, key: &Pubkey) -> (r: Option<&NetworkTraffic>)
        requires
            kv_unique(by_text(self.networks@)),
        ensures
            r is Some <==> kv_contains(by_text(self.networks@), key.text@),
            r matches Some(nt) ==> *nt == kv_at(by_text(self.networks@), key.text@),
    {
        let n: usize = self.networks.len();
        let mut i: usize = 0;
        while i < n
            invariant
                n == self.networks@.len(),
                0 <= i <= n,
                kv_unique(by_text(self.networks@)),
                forall|j: int| 0 <= j < i ==> by_text(self.networks@)[j].0 != key.text@,
            decreases n - i,
        {
            if crate::bytes::bytes_eq(&self.networks[i].0.text, &key.text) {
                proof {
                    lemma_kv_at_index(by_text(self.networks@), i as int);
                }
                return Option::Some(&self.networks[i].1);
            }
            i = i + 1;
        }
        Option::None
    }

    /// Whether all counters can take the item without overflowing.
    pub open spec fn can_add(self, network: Pubkey, device: Pubkey, traffic: Traffic) -> bool {
        &&& self.traffic.rx + traffic.rx <= usize::MAX
        &&& self.traffic.tx + traffic.tx <= usize::MAX
        &&& (kv_contains(by_text(self.networks@), network.text@) ==> ({
            let nt = kv_at(by_text(self.networks@), network.text@);
            nt.traffic.rx + traffic.rx <= usize::MAX && nt.traffic.tx + traffic.tx <= usize::MAX
                && (kv_contains(by_text(nt.devices@), device.text@) ==> (kv_at(
                by_text(nt.devices@),
                device.text@,
            ).traffic.rx + traffic.rx <= usize::MAX && kv_at(
                by_text(nt.devices@),
                device.text@,
            ).traffic.tx + traffic.tx <= usize::MAX))
        }))
    }

    /// Record an item as `add` does when every counter can take it; leave
    /// the slice untouched and report failure where one would overflow.
    pub fn add_checked(&mut self, network: Pubkey, device: Pubkey, time: usize, traffic: Traffic)
        -> (r: bool)
        requires
            old(self).wf(),
        ensures
            r == old(self).can_add(network, device, traffic),
            final(self).wf(),
            !r ==> *final(self) == *old(self),
            r ==> old(self).added_spec(*final(self), network, device, time, traffic),
    {
        if !(self.traffic.rx <= usize::MAX - traffic.rx && self.traffic.tx <= usize::MAX
            - traffic.tx) {
            return false;
        }
        let inner_ok: bool = match self.get_network(&network) {
            Option::Some(nt) => {
                if nt.traffic.rx <= usize::MAX - traffic.rx && nt.traffic.tx <= usize::MAX
                    - traffic.tx {
                    match nt.get_device(&device) {
                        Option::Some(d) => d.traffic.rx <= usize::MAX - traffic.rx
                            && d.traffic.tx <= usize::MAX - traffic.tx,
                        Option::None => true,
                    }
                } else {
                    false
                }
            },
            Option::None => true,
        };
        if inner_ok {
            self.add(network, device, time, traffic);
            true
        } else {
            false
        }
    }
}

} // verus!
