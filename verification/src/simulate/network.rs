use vstd::prelude::*;
use crate::perm::{filter_map_seq, lemma_filter_map_len, lemma_filter_map_perm, lemma_filter_map_push};
use vstd::multiset::Multiset;
use crate::simulate::memory::DimmId;
use crate::simulate::topology::{Topology, links_well_formed};

verus! {

broadcast use vstd::seq_lib::group_seq_properties;

/// What a message asks its recipient to do.
#[derive(Debug, Clone, Copy, PartialEq, Eq, Structural)]
pub enum NMPMessageWork {
    /// Mark the object at this address.
    Mark(u64),
    /// Load the slot at this address.
    Load(u64),
}

/// A message between near-memory processors; each processor sends at most
/// one per tick.
#[derive(Debug, Clone, Copy, PartialEq, Eq, Structural)]
pub struct NMPMessage {
    pub recipient: usize,
    pub work: NMPMessageWork,
}

impl NMPMessage {
    /// A request to mark object `o`.
    pub fn new_mark(recipient: usize, o: u64) -> (r: Self)
        ensures
            r == (NMPMessage { recipient, work: NMPMessageWork::Mark(o) }),
    {
        NMPMessage { recipient, work: NMPMessageWork::Mark(o) }
    }

    /// A request to load slot `slot`.
    pub fn new_load(recipient: usize, slot: u64) -> (r: Self)
        ensures
            r == (NMPMessage { recipient, work: NMPMessageWork::Load(slot) }),
    {
        NMPMessage { recipient, work: NMPMessageWork::Load(slot) }
    }
}

/// A message in transit through the network.
#[derive(Debug)]
pub struct InFlightMessage {
    pub message: NMPMessage,
    /// Full route of directed links to traverse.
    pub route: Vec<(DimmId, DimmId)>,
    /// Index of the current hop in `route`.
    pub current_hop: usize,
    /// Cycles remaining on the current hop.
    pub remaining_hop_latency: usize,
}

/// The statistics of one directed link.
#[derive(Debug, Clone, Copy)]
pub struct LinkState {
    pub from_dimm: u8,
    pub to_dimm: u8,
    /// Total messages that have traversed this link.
    pub messages_forwarded: usize,
    /// Messages that entered this link during the current tick.
    pub current_tick_count: usize,
    /// The largest number of messages that entered this link in one tick.
    pub peak_tick_count: usize,
}

/// Summary of bandwidth statistics for one directed link.
#[derive(Debug, Clone, Copy)]
pub struct LinkBandwidthStats {
    pub from_dimm: u8,
    pub to_dimm: u8,
    pub messages_forwarded: usize,
    /// Peak messages in a single tick on this directed link.
    pub peak_messages_per_tick: usize,
}

/// A directed link named by the ids of its two DIMMs.
pub open spec fn link_key(l: (DimmId, DimmId)) -> (u8, u8) {
    (l.0.0, l.1.0)
}

/// The link a state keeps statistics for.
pub open spec fn state_key(s: LinkState) -> (u8, u8) {
    (s.from_dimm, s.to_dimm)
}

/// Lexicographic order on directed links.
pub open spec fn key_le(a: (u8, u8), b: (u8, u8)) -> bool {
    a.0 < b.0 || (a.0 == b.0 && a.1 <= b.1)
}

/// `key` is one of the links in `links`.
pub open spec fn registered(links: Seq<LinkState>, key: (u8, u8)) -> bool {
    exists|j: int| 0 <= j < links.len() && state_key(#[trigger] links[j]) == key
}

/// No link has two states.
pub open spec fn keys_unique(links: Seq<LinkState>) -> bool {
    forall|i: int, j: int| 0 <= i < j < links.len() ==> state_key(links[i]) != state_key(links[j])
}

/// A message ends its journey this tick.
pub open spec fn arrives(m: InFlightMessage) -> bool {
    m.remaining_hop_latency == 1 && m.current_hop + 1 >= m.route@.len()
}

/// A message stays in flight this tick.
pub open spec fn stays(m: InFlightMessage) -> bool {
    !arrives(m)
}

/// A message moves onto its next link this tick.
pub open spec fn advances(m: InFlightMessage) -> bool {
    m.remaining_hop_latency == 1 && m.current_hop + 1 < m.route@.len()
}

/// The link a message moves onto when it advances.
pub open spec fn next_link_key(m: InFlightMessage) -> (u8, u8) {
    link_key(m.route@[m.current_hop + 1])
}

/// The message carried.
pub open spec fn payload(m: InFlightMessage) -> NMPMessage {
    m.message
}

/// A message after one cycle, when it stays in flight.
pub open spec fn step(per_hop: nat) -> spec_fn(InFlightMessage) -> InFlightMessage {
    |m: InFlightMessage|
        if m.remaining_hop_latency == 1 {
            InFlightMessage {
                message: m.message,
                route: m.route,
                current_hop: (m.current_hop + 1) as usize,
                remaining_hop_latency: per_hop as usize,
            }
        } else {
            InFlightMessage {
                message: m.message,
                route: m.route,
                current_hop: m.current_hop,
                remaining_hop_latency: (m.remaining_hop_latency - 1) as usize,
            }
        }
}

/// A message that can be carried by a network whose links are `links`.
pub open spec fn message_wf(m: InFlightMessage, links: Seq<LinkState>, per_hop: nat) -> bool {
    &&& 1 <= m.remaining_hop_latency <= per_hop
    &&& m.current_hop < m.route@.len()
    &&& forall|h: int| 0 <= h < m.route@.len() ==> registered(links, link_key(#[trigger] m.route@[h]))
}

/// The links traversed in one tick by the messages `msgs`.
pub open spec fn traversals(msgs: Seq<InFlightMessage>) -> Multiset<(u8, u8)> {
    filter_map_seq(msgs, |m: InFlightMessage| advances(m), |m: InFlightMessage| next_link_key(m)).to_multiset()
}

/// The network fabric: hop-by-hop message forwarding with per-link bandwidth tracking.
#[derive(Debug)]
pub struct Network {
    in_flight: Vec<InFlightMessage>,
    links: Vec<LinkState>,
    per_hop_latency: usize,
}

impl Network {
    /// The messages in flight.
    pub closed spec fn in_flight_spec(&self) -> Seq<InFlightMessage> {
        self.in_flight@
    }

    /// The directed links and their statistics.
    pub closed spec fn links_spec(&self) -> Seq<LinkState> {
        self.links@
    }

    /// Cycles per hop.
    pub closed spec fn per_hop_spec(&self) -> nat {
        self.per_hop_latency as nat
    }

    /// Every link occurs once, and every message in flight is on a route of
    /// registered links with a hop in progress.
    pub open spec fn wf(&self) -> bool {
        &&& self.per_hop_spec() >= 1
        &&& keys_unique(self.links_spec())
        &&& forall|j: int|
            0 <= j < self.links_spec().len() ==> (#[trigger] self.links_spec()[j]).current_tick_count
                <= self.links_spec()[j].messages_forwarded && self.links_spec()[j].peak_tick_count
                <= self.links_spec()[j].messages_forwarded
        &&& forall|k: int|
            0 <= k < self.in_flight_spec().len() ==> message_wf(
                #[trigger] self.in_flight_spec()[k],
                self.links_spec(),
                self.per_hop_spec(),
            )
    }

    /// Builds the network of a topology: both directions of every link,
    /// all counters zero.
    pub fn new<T: Topology>(topology: &T) -> (r: Self)
        ensures
            r.wf(),
            r.in_flight_spec().len() == 0,
            r.per_hop_spec() == crate::simulate::topology::PER_HOP_LATENCY,
            forall|key: (u8, u8)|
                registered(r.links_spec(), key) <==> (exists|k: int|
                    0 <= k < topology.link_set().len() && (key == link_key(
                        #[trigger] topology.link_set()[k],
                    ) || key == (topology.link_set()[k].1.0, topology.link_set()[k].0.0))),
            forall|j: int|
                0 <= j < r.links_spec().len() ==> {
                    let s = #[trigger] r.links_spec()[j];
                    &&& s.messages_forwarded == 0
                    &&& s.current_tick_count == 0
                    &&& s.peak_tick_count == 0
                },
    {
        let topo_links = topology.get_links();
        let mut links: Vec<LinkState> = Vec::new();
        let mut i: usize = 0;
        while i < topo_links.len()
            invariant
                i <= topo_links@.len(),
                topo_links@ == topology.link_set(),
                links_well_formed(topo_links@),
                links@.len() == 2 * i,
                forall|k: int|
                    0 <= k < i ==> {
                        &&& state_key(links@[2 * k]) == link_key(#[trigger] topo_links@[k])
                        &&& state_key(links@[2 * k + 1]) == (topo_links@[k].1.0, topo_links@[k].0.0)
                    },
                forall|j: int|
                    0 <= j < links@.len() ==> {
                        let s = #[trigger] links@[j];
                        &&& s.messages_forwarded == 0
                        &&& s.current_tick_count == 0
                        &&& s.peak_tick_count == 0
                    },
            decreases topo_links@.len() - i,
        {
            let (a, b) = topo_links[i];
            links.push(
                LinkState {
                    from_dimm: a.0,
                    to_dimm: b.0,
                    messages_forwarded: 0,
                    current_tick_count: 0,
                    peak_tick_count: 0,
                },
            );
            links.push(
                LinkState {
                    from_dimm: b.0,
                    to_dimm: a.0,
                    messages_forwarded: 0,
                    current_tick_count: 0,
                    peak_tick_count: 0,
                },
            );
            i += 1;
        }
        let net = Network {
            in_flight: Vec::new(),
            links,
            per_hop_latency: topology.get_per_hop_latency(),
        };
        proof {
            let tl = topo_links@;
            let ls = links@;
            assert forall|x: int, y: int| 0 <= x < y < ls.len() implies state_key(ls[x]) != state_key(
                ls[y],
            ) by {
                let kx = x / 2;
                let ky = y / 2;
                assert(ls[x] == ls[2 * kx + x % 2]);
                assert(ls[y] == ls[2 * ky + y % 2]);
                assert(tl[kx] == tl[kx]);
                assert(tl[ky] == tl[ky]);
                assert(tl[kx].0.0 < tl[kx].1.0);
                assert(tl[ky].0.0 < tl[ky].1.0);
                if kx != ky {
                    assert(tl[kx] != tl[ky]);
                }
            }
            assert forall|key: (u8, u8)|
                registered(ls, key) <==> (exists|k: int|
                    0 <= k < tl.len() && (key == link_key(#[trigger] tl[k]) || key == (
                        tl[k].1.0,
                        tl[k].0.0,
                    ))) by {
                if registered(ls, key) {
                    let j = choose|j: int| 0 <= j < ls.len() && state_key(#[trigger] ls[j]) == key;
                    let k = j / 2;
                    assert(ls[j] == ls[2 * k + j % 2]);
                    assert(tl[k] == tl[k]);
                }
                if exists|k: int|
                    0 <= k < tl.len() && (key == link_key(#[trigger] tl[k]) || key == (
                        tl[k].1.0,
                        tl[k].0.0,
                    )) {
                    let k = choose|k: int|
                        0 <= k < tl.len() && (key == link_key(#[trigger] tl[k]) || key == (
                            tl[k].1.0,
                            tl[k].0.0,
                        ));
                    assert(tl[k] == tl[k]);
                    if key == link_key(tl[k]) {
                        assert(state_key(ls[2 * k]) == key);
                    } else {
                        assert(state_key(ls[2 * k + 1]) == key);
                    }
                }
            }
        }
        net
    }

    /// Returns true if there are no messages in flight.
    pub fn is_empty(&self) -> (r: bool)
        ensures
            r == (self.in_flight_spec().len() == 0),
    {
        self.in_flight.len() == 0
    }

    /// The position of a registered link in the statistics.
    fn find_link(&self, key: (u8, u8)) -> (j: usize)
        requires
            registered(self.links_spec(), key),
        ensures
            j < self.links_spec().len(),
            state_key(self.links_spec()[j as int]) == key,
    {
        let mut j: usize = 0;
        while j < self.links.len()
            invariant
                j <= self.links@.len(),
                registered(self.links@, key),
                forall|x: int| 0 <= x < j ==> state_key(#[trigger] self.links@[x]) != key,
            decreases self.links@.len() - j,
        {
            let s = self.links[j];
            if s.from_dimm == key.0 && s.to_dimm == key.1 {
                return j;
            }
            j += 1;
        }
        proof {
            let x = choose|x: int| 0 <= x < self.links@.len() && state_key(#[trigger] self.links@[x]) == key;
            assert(state_key(self.links@[x]) != key);
        }
        0
    }

    /// Counts one message entering `link`, in total and in the current tick.
    fn record_link_traversal(&mut self, link: (DimmId, DimmId))
        requires
            registered(old(self).links_spec(), link_key(link)),
            keys_unique(old(self).links_spec()),
            forall|j: int|
                0 <= j < old(self).links_spec().len() && state_key(old(self).links_spec()[j])
                    == link_key(link) ==> {
                    &&& (#[trigger] old(self).links_spec()[j]).messages_forwarded < usize::MAX
                    &&& old(self).links_spec()[j].current_tick_count < usize::MAX
                },
        ensures
            final(self).in_flight_spec() == old(self).in_flight_spec(),
            final(self).per_hop_spec() == old(self).per_hop_spec(),
            final(self).links_spec().len() == old(self).links_spec().len(),
            forall|j: int|
                0 <= j < old(self).links_spec().len() ==> {
                    let o = old(self).links_spec()[j];
                    let n = #[trigger] final(self).links_spec()[j];
                    let hit: int = if state_key(o) == link_key(link) {
                        1
                    } else {
                        0
                    };
                    &&& state_key(n) == state_key(o)
                    &&& n.peak_tick_count == o.peak_tick_count
                    &&& n.messages_forwarded == o.messages_forwarded + hit
                    &&& n.current_tick_count == o.current_tick_count + hit
                },
    {
        let j = self.find_link((link.0.0, link.1.0));
        let s = self.links[j];
        let ghost old_links = self.links@;
        proof {
            assert(state_key(old_links[j as int]) == link_key(link));
        }
        self.links.set(
            j,
            LinkState {
                from_dimm: s.from_dimm,
                to_dimm: s.to_dimm,
                messages_forwarded: s.messages_forwarded + 1,
                current_tick_count: s.current_tick_count + 1,
                peak_tick_count: s.peak_tick_count,
            },
        );
        proof {
            assert forall|x: int| 0 <= x < old_links.len() && x != j implies state_key(old_links[x]) != link_key(
                link,
            ) by {
                if x < j {
                    assert(state_key(old_links[x]) != state_key(old_links[j as int]));
                } else {
                    assert(state_key(old_links[j as int]) != state_key(old_links[x]));
                }
            }
        }
    }

    /// Every link has room for `extra` more messages in its counters.
    pub open spec fn counters_have_room(&self, extra: nat) -> bool {
        forall|j: int|
            0 <= j < self.links_spec().len() ==> {
                &&& (#[trigger] self.links_spec()[j]).messages_forwarded + extra <= usize::MAX
                &&& self.links_spec()[j].current_tick_count + extra <= usize::MAX
            }
    }

    /// Injects a new message; its first link is counted at once.
    pub fn inject(&mut self, msg: NMPMessage, route: Vec<(DimmId, DimmId)>)
        requires
            old(self).wf(),
            route@.len() >= 1,
            forall|h: int| 0 <= h < route@.len() ==> registered(old(self).links_spec(), link_key(#[trigger] route@[h])),
            old(self).counters_have_room(1),
        ensures
            final(self).wf(),
            final(self).per_hop_spec() == old(self).per_hop_spec(),
            final(self).in_flight_spec() == old(self).in_flight_spec().push(
                InFlightMessage {
                    message: msg,
                    route,
                    current_hop: 0,
                    remaining_hop_latency: old(self).per_hop_spec() as usize,
                },
            ),
            final(self).links_spec().len() == old(self).links_spec().len(),
            forall|j: int|
                0 <= j < old(self).links_spec().len() ==> {
                    let o = old(self).links_spec()[j];
                    let n = #[trigger] final(self).links_spec()[j];
                    let hit: int = if state_key(o) == link_key(route@[0]) {
                        1
                    } else {
                        0
                    };
                    &&& state_key(n) == state_key(o)
                    &&& n.peak_tick_count == o.peak_tick_count
                    &&& n.messages_forwarded == o.messages_forwarded + hit
                    &&& n.current_tick_count == o.current_tick_count + hit
                },
    {
        let first = route[0];
        let ghost old_links = self.links@;
        self.record_link_traversal(first);
        proof {
            lemma_same_keys_registered(old_links, self.links@);
        }
        let ph = self.per_hop_latency;
        self.in_flight.push(
            InFlightMessage { message: msg, route, current_hop: 0, remaining_hop_latency: ph },
        );
    }

    /// Advances every message in flight by one cycle and returns the
    /// messages that reached their destination DIMM. Per-tick link counts
    /// are first folded into the peaks and reset.
    pub fn tick(&mut self) -> (delivered: Vec<NMPMessage>)
        requires
            old(self).wf(),
            old(self).counters_have_room(old(self).in_flight_spec().len()),
        ensures
            final(self).wf(),
            final(self).per_hop_spec() == old(self).per_hop_spec(),
            delivered@.to_multiset() == filter_map_seq(
                old(self).in_flight_spec(),
                |m: InFlightMessage| arrives(m),
                |m: InFlightMessage| payload(m),
            ).to_multiset(),
            final(self).in_flight_spec().to_multiset() == filter_map_seq(
                old(self).in_flight_spec(),
                |m: InFlightMessage| stays(m),
                step(old(self).per_hop_spec()),
            ).to_multiset(),
            final(self).links_spec().len() == old(self).links_spec().len(),
            forall|j: int|
                0 <= j < old(self).links_spec().len() ==> {
                    let o = old(self).links_spec()[j];
                    let n = #[trigger] final(self).links_spec()[j];
                    let t = traversals(old(self).in_flight_spec()).count(state_key(o));
                    &&& state_key(n) == state_key(o)
                    &&& n.peak_tick_count == if o.current_tick_count > o.peak_tick_count {
                        o.current_tick_count
                    } else {
                        o.peak_tick_count
                    }
                    &&& n.messages_forwarded == o.messages_forwarded + t
                    &&& n.current_tick_count == t
                },
    {
        let ghost start_links = self.links@;
        let ghost orig = self.in_flight@;
        let ghost ph = self.per_hop_latency as nat;
        // Fold the per-tick counts into the peaks, then reset them.
        let mut j: usize = 0;
        while j < self.links.len()
            invariant
                j <= self.links@.len(),
                self.links@.len() == start_links.len(),
                self.in_flight@ == orig,
                self.per_hop_latency == ph,
                forall|x: int|
                    0 <= x < start_links.len() ==> {
                        let o = start_links[x];
                        let n = #[trigger] self.links@[x];
                        &&& state_key(n) == state_key(o)
                        &&& n.messages_forwarded == o.messages_forwarded
                        &&& x < j ==> n.current_tick_count == 0
                        &&& x >= j ==> n == o
                        &&& x < j ==> n.peak_tick_count == if o.current_tick_count > o.peak_tick_count {
                            o.current_tick_count
                        } else {
                            o.peak_tick_count
                        }
                    },
            decreases self.links@.len() - j,
        {
            let s = self.links[j];
            let peak = if s.current_tick_count > s.peak_tick_count {
                s.current_tick_count
            } else {
                s.peak_tick_count
            };
            self.links.set(
                j,
                LinkState {
                    from_dimm: s.from_dimm,
                    to_dimm: s.to_dimm,
                    messages_forwarded: s.messages_forwarded,
                    current_tick_count: 0,
                    peak_tick_count: peak,
                },
            );
            j += 1;
        }
        let ghost flushed = self.links@;
        proof {
            lemma_same_keys_registered(start_links, flushed);
            assert(keys_unique(flushed));
        }
        let mut delivered: Vec<NMPMessage> = Vec::new();
        let ghost mut done: Seq<InFlightMessage> = Seq::empty();
        proof {
            assert(done + orig.subrange(0, orig.len() as int) =~= orig);
        }
        let mut i: usize = 0;
        while i < self.in_flight.len()
            invariant
                ph >= 1,
                self.per_hop_latency == ph,
                self.links@.len() == flushed.len(),
                keys_unique(flushed),
                forall|x: int|
                    0 <= x < flushed.len() ==> {
                        &&& (#[trigger] flushed[x]).current_tick_count == 0
                        &&& flushed[x].messages_forwarded + orig.len() <= usize::MAX
                    },
                forall|x: int|
                    0 <= x < flushed.len() ==> {
                        let o = flushed[x];
                        let n = #[trigger] self.links@[x];
                        let t = traversals(done).count(state_key(o));
                        &&& state_key(n) == state_key(o)
                        &&& n.peak_tick_count == o.peak_tick_count
                        &&& n.messages_forwarded == o.messages_forwarded + t
                        &&& n.current_tick_count == t
                    },
                i <= self.in_flight@.len(),
                done.len() + (self.in_flight@.len() - i) == orig.len(),
                (done + self.in_flight@.subrange(i as int, self.in_flight@.len() as int)).to_multiset()
                    == orig.to_multiset(),
                self.in_flight@.subrange(0, i as int) == filter_map_seq(
                    done,
                    |m: InFlightMessage| stays(m),
                    step(ph),
                ),
                delivered@ == filter_map_seq(
                    done,
                    |m: InFlightMessage| arrives(m),
                    |m: InFlightMessage| payload(m),
                ),
                forall|k: int|
                    0 <= k < self.in_flight@.len() ==> message_wf(
                        #[trigger] self.in_flight@[k],
                        flushed,
                        ph,
                    ),
            decreases self.in_flight@.len() - i,
        {
            let ghost v = self.in_flight@;
            let ghost m = v[i as int];
            let rem = self.in_flight[i].remaining_hop_latency - 1;
            if rem == 0 {
                let rlen = self.in_flight[i].route.len();
                let cur = self.in_flight[i].current_hop;
                proof {
                    assert(message_wf(v[i as int], flushed, ph));
                }
                let hop = cur + 1;
                if hop >= rlen {
                    let msg = self.in_flight.swap_remove(i);
                    proof {
                        lemma_filter_map_push(done, m, |m: InFlightMessage| stays(m), step(ph));
                        lemma_filter_map_push(
                            done,
                            m,
                            |m: InFlightMessage| arrives(m),
                            |m: InFlightMessage| payload(m),
                        );
                        lemma_filter_map_push(
                            done,
                            m,
                            |m: InFlightMessage| advances(m),
                            |m: InFlightMessage| next_link_key(m),
                        );
                        let nv = self.in_flight@;
                        assert(nv.subrange(0, i as int) =~= v.subrange(0, i as int));
                        let len = v.len() as int;
                        if i + 1 == len {
                            assert(nv.subrange(i as int, nv.len() as int) =~= Seq::<InFlightMessage>::empty());
                            assert(done.push(m) + nv.subrange(i as int, nv.len() as int) =~= done + v.subrange(
                                i as int,
                                len,
                            ));
                        } else {
                            let mid = v.subrange(i + 1, len - 1);
                            let last = v[len - 1];
                            assert(v.subrange(i as int, len) =~= seq![m] + mid + seq![last]);
                            assert(nv.subrange(i as int, nv.len() as int) =~= seq![last] + mid);
                            vstd::seq_lib::lemma_multiset_commutative(seq![m] + mid, seq![last]);
                            vstd::seq_lib::lemma_multiset_commutative(seq![m], mid);
                            vstd::seq_lib::lemma_multiset_commutative(seq![last], mid);
                            vstd::seq_lib::lemma_multiset_commutative(done.push(m), seq![last] + mid);
                            vstd::seq_lib::lemma_multiset_commutative(done, v.subrange(i as int, len));
                            vstd::seq_lib::lemma_multiset_commutative(done, seq![m]);
                            assert(done.push(m) == done + seq![m]);
                            assert((seq![m] + mid + seq![last]).to_multiset() =~= seq![m].to_multiset().add(
                                mid.to_multiset(),
                            ).add(seq![last].to_multiset()));
                            assert((seq![last] + mid).to_multiset() =~= seq![last].to_multiset().add(
                                mid.to_multiset(),
                            ));
                            assert((done.push(m) + nv.subrange(i as int, nv.len() as int)).to_multiset()
                                =~= (done + v.subrange(i as int, len)).to_multiset());
                        }
                        done = done.push(m);
                    }
                    delivered.push(msg.message);
                } else {
                    let next_link = self.in_flight[i].route[hop];
                    proof {
                        lemma_filter_map_len(
                            done,
                            |m: InFlightMessage| advances(m),
                            |m: InFlightMessage| next_link_key(m),
                        );
                        assert forall|x: int|
                            0 <= x < self.links@.len() && state_key(self.links@[x]) == link_key(
                                next_link,
                            ) implies (#[trigger] self.links@[x]).messages_forwarded < usize::MAX
                            && self.links@[x].current_tick_count < usize::MAX by {
                            crate::perm::lemma_count_le_len(
                                filter_map_seq(
                                    done,
                                    |m: InFlightMessage| advances(m),
                                    |m: InFlightMessage| next_link_key(m),
                                ),
                                state_key(flushed[x]),
                            );
                        }
                        lemma_same_keys_registered(flushed, self.links@);
                        assert(registered(flushed, link_key(m.route@[hop as int])));
                        assert(keys_unique(self.links@)) by {
                            assert forall|a: int, b: int| 0 <= a < b < self.links@.len() implies state_key(
                                self.links@[a],
                            ) != state_key(self.links@[b]) by {
                                assert(state_key(self.links@[a]) == state_key(flushed[a]));
                                assert(state_key(self.links@[b]) == state_key(flushed[b]));
                            }
                        }
                    }
                    let ghost before_links = self.links@;
                    self.record_link_traversal(next_link);
                    let per_hop = self.per_hop_latency;
                    self.in_flight[i].current_hop = hop;
                    self.in_flight[i].remaining_hop_latency = per_hop;
                    proof {
                        lemma_filter_map_push(done, m, |m: InFlightMessage| stays(m), step(ph));
                        lemma_filter_map_push(
                            done,
                            m,
                            |m: InFlightMessage| arrives(m),
                            |m: InFlightMessage| payload(m),
                        );
                        lemma_filter_map_push(
                            done,
                            m,
                            |m: InFlightMessage| advances(m),
                            |m: InFlightMessage| next_link_key(m),
                        );
                        filter_map_seq(
                            done,
                            |m: InFlightMessage| advances(m),
                            |m: InFlightMessage| next_link_key(m),
                        ).to_multiset_ensures();
                        let nv = self.in_flight@;
                        assert(nv[i as int] == step(ph)(m));
                        assert(nv.subrange(0, i + 1) =~= v.subrange(0, i as int).push(step(ph)(m)));
                        assert(done.push(m) + nv.subrange(i + 1, nv.len() as int) =~= done + v.subrange(
                            i as int,
                            v.len() as int,
                        ));
                        done = done.push(m);
                    }
                    i += 1;
                }
            } else {
                self.in_flight[i].remaining_hop_latency = rem;
                proof {
                    lemma_filter_map_push(done, m, |m: InFlightMessage| stays(m), step(ph));
                    lemma_filter_map_push(
                        done,
                        m,
                        |m: InFlightMessage| arrives(m),
                        |m: InFlightMessage| payload(m),
                    );
                    lemma_filter_map_push(
                        done,
                        m,
                        |m: InFlightMessage| advances(m),
                        |m: InFlightMessage| next_link_key(m),
                    );
                    let nv = self.in_flight@;
                    assert(nv[i as int] == step(ph)(m));
                    assert(nv.subrange(0, i + 1) =~= v.subrange(0, i as int).push(step(ph)(m)));
                    assert(done.push(m) + nv.subrange(i + 1, nv.len() as int) =~= done + v.subrange(
                        i as int,
                        v.len() as int,
                    ));
                    done = done.push(m);
                }
                i += 1;
            }
        }
        proof {
            let v = self.in_flight@;
            assert(v.subrange(i as int, v.len() as int) =~= Seq::<InFlightMessage>::empty());
            assert(done + v.subrange(i as int, v.len() as int) =~= done);
            assert(v.subrange(0, i as int) =~= v);
            lemma_filter_map_perm(done, orig, |m: InFlightMessage| stays(m), step(ph));
            lemma_filter_map_perm(
                done,
                orig,
                |m: InFlightMessage| arrives(m),
                |m: InFlightMessage| payload(m),
            );
            lemma_filter_map_perm(
                done,
                orig,
                |m: InFlightMessage| advances(m),
                |m: InFlightMessage| next_link_key(m),
            );
            lemma_same_keys_registered(flushed, self.links@);
            assert forall|k: int| 0 <= k < v.len() implies message_wf(#[trigger] v[k], self.links@, ph) by {
                assert(message_wf(v[k], flushed, ph));
            }
        }
        delivered
    }
}

/// The bandwidth summary of a link.
pub open spec fn to_stats(s: LinkState) -> LinkBandwidthStats {
    LinkBandwidthStats {
        from_dimm: s.from_dimm,
        to_dimm: s.to_dimm,
        messages_forwarded: s.messages_forwarded,
        peak_messages_per_tick: s.peak_tick_count,
    }
}

/// The link a summary describes.
pub open spec fn stats_key(s: LinkBandwidthStats) -> (u8, u8) {
    (s.from_dimm, s.to_dimm)
}

/// Summaries ordered by link.
pub open spec fn stats_sorted(s: Seq<LinkBandwidthStats>) -> bool {
    forall|i: int, j: int| 0 <= i < j < s.len() ==> key_le(stats_key(s[i]), stats_key(s[j]))
}

impl Network {
    /// Per-directed-link bandwidth statistics, ordered by link.
    pub fn bandwidth_stats(&self) -> (r: Vec<LinkBandwidthStats>)
        ensures
            r@.to_multiset() == self.links_spec().map_values(|s: LinkState| to_stats(s)).to_multiset(),
            stats_sorted(r@),
    {
        let mut rest: Vec<LinkBandwidthStats> = Vec::new();
        let mut j: usize = 0;
        while j < self.links.len()
            invariant
                j <= self.links@.len(),
                rest@ =~= self.links@.subrange(0, j as int).map_values(|s: LinkState| to_stats(s)),
            decreases self.links@.len() - j,
        {
            let s = self.links[j];
            rest.push(
                LinkBandwidthStats {
                    from_dimm: s.from_dimm,
                    to_dimm: s.to_dimm,
                    messages_forwarded: s.messages_forwarded,
                    peak_messages_per_tick: s.peak_tick_count,
                },
            );
            j += 1;
        }
        proof {
            assert(self.links@.subrange(0, self.links@.len() as int) =~= self.links@);
        }
        let ghost all = rest@;
        let mut out: Vec<LinkBandwidthStats> = Vec::new();
        while rest.len() > 0
            invariant
                out@.to_multiset().add(rest@.to_multiset()) == all.to_multiset(),
                stats_sorted(out@),
                forall|a: int, b: int|
                    0 <= a < out@.len() && 0 <= b < rest@.len() ==> key_le(
                        stats_key(out@[a]),
                        stats_key(rest@[b]),
                    ),
            decreases rest@.len(),
        {
            let mut best: usize = 0;
            let mut k: usize = 1;
            while k < rest.len()
                invariant
                    best < rest@.len(),
                    1 <= k <= rest@.len(),
                    best < k,
                    forall|b: int| 0 <= b < k ==> key_le(stats_key(rest@[best as int]), stats_key(#[trigger] rest@[b])),
                decreases rest@.len() - k,
            {
                let c = rest[k];
                let cur = rest[best];
                if c.from_dimm < cur.from_dimm || (c.from_dimm == cur.from_dimm && c.to_dimm < cur.to_dimm) {
                    best = k;
                }
                k += 1;
            }
            let ghost old_rest = rest@;
            let ghost old_out = out@;
            let picked = rest.remove(best);
            out.push(picked);
            proof {
                old_rest.to_multiset_ensures();
                old_out.to_multiset_ensures();
                assert(rest@ == old_rest.remove(best as int));
                assert(rest@.to_multiset() =~= old_rest.to_multiset().remove(picked));
                assert(old_rest.to_multiset().count(picked) > 0) by {
                    assert(old_rest.contains(picked));
                }
                assert(out@.to_multiset().add(rest@.to_multiset()) =~= old_out.to_multiset().add(
                    old_rest.to_multiset(),
                ));
                assert forall|a: int, b: int|
                    0 <= a < out@.len() && 0 <= b < rest@.len() implies key_le(
                        stats_key(out@[a]),
                        stats_key(rest@[b]),
                    ) by {
                    if b < best {
                        assert(rest@[b] == old_rest[b]);
                    } else {
                        assert(rest@[b] == old_rest[b + 1]);
                    }
                    if a < old_out.len() {
                    } else {
                        assert(out@[a] == picked);
                    }
                }
            }
        }
        proof {
            rest@.to_multiset_ensures();
            assert(rest@.to_multiset() =~= Multiset::empty());
            assert(out@.to_multiset().add(Multiset::empty()) =~= out@.to_multiset());
        }
        out
    }
}

/// Two statistics tables that name the same links, position by position,
/// register the same links.
proof fn lemma_same_keys_registered(a: Seq<LinkState>, b: Seq<LinkState>)
    requires
        a.len() == b.len(),
        forall|x: int| 0 <= x < a.len() ==> state_key(#[trigger] b[x]) == state_key(a[x]),
    ensures
        forall|key: (u8, u8)| registered(a, key) <==> registered(b, key),
        keys_unique(a) ==> keys_unique(b),
{
    assert forall|key: (u8, u8)| registered(a, key) <==> registered(b, key) by {
        if registered(a, key) {
            let j = choose|j: int| 0 <= j < a.len() && state_key(#[trigger] a[j]) == key;
            assert(state_key(b[j]) == key);
        }
        if registered(b, key) {
            let j = choose|j: int| 0 <= j < b.len() && state_key(#[trigger] b[j]) == key;
            assert(state_key(b[j]) == state_key(a[j]));
        }
    }
    if keys_unique(a) {
        assert forall|x: int, y: int| 0 <= x < y < b.len() implies state_key(b[x]) != state_key(b[y]) by {
            assert(state_key(b[x]) == state_key(a[x]));
            assert(state_key(b[y]) == state_key(a[y]));
        }
    }
}

/// Cycles left before message `m` reaches its destination: the hops after
/// the current one at `per_hop` cycles each, plus what is left of the
/// current hop.
pub open spec fn cycles_left(m: InFlightMessage, per_hop: nat) -> int {
    (m.route@.len() - m.current_hop - 1) * per_hop + m.remaining_hop_latency
}

/// The links a message in flight has still to enter, in order.
pub open spec fn links_ahead(m: InFlightMessage) -> Seq<(u8, u8)> {
    m.route@.subrange(m.current_hop + 1, m.route@.len() as int).map_values(|l: (DimmId, DimmId)| link_key(l))
}

/// A hop in progress on a route.
pub open spec fn in_progress(m: InFlightMessage, per_hop: nat) -> bool {
    &&& 1 <= m.remaining_hop_latency <= per_hop
    &&& m.current_hop < m.route@.len()
}

/// A message that `inject` puts in flight on route `route` with `per_hop`
/// cycles per hop has `route.len() * per_hop` cycles left, and has still
/// to enter every link of its route after the first, which `inject`
/// counts at once.
pub proof fn lemma_injected(msg: NMPMessage, route: Vec<(DimmId, DimmId)>, per_hop: nat)
    requires
        route@.len() >= 1,
        per_hop >= 1,
        per_hop <= usize::MAX,
    ensures
        ({
            let m = InFlightMessage { message: msg, route, current_hop: 0, remaining_hop_latency: per_hop as usize };
            &&& in_progress(m, per_hop)
            &&& cycles_left(m, per_hop) == route@.len() * per_hop
            &&& seq![link_key(route@[0])] + links_ahead(m) == route@.map_values(|l: (DimmId, DimmId)| link_key(l))
        }),
{
    let m = InFlightMessage { message: msg, route, current_hop: 0, remaining_hop_latency: per_hop as usize };
    let n = route@.len() as int;
    assert((n - 1) * per_hop + per_hop == n * per_hop) by (nonlinear_arith);
    assert(seq![link_key(route@[0])] + links_ahead(m) =~= route@.map_values(|l: (DimmId, DimmId)| link_key(l)));
}

/// One tick takes one cycle off a message in flight, and the message
/// arrives exactly on the tick when one cycle was left; a message that
/// moves onto its next link enters the first link it had still to enter,
/// and one that stays on its link enters none.  So a message injected on
/// a route of `n` links arrives on the `n * per_hop`-th tick after it was
/// injected, is delivered once, and enters each link of its route once,
/// in order.
pub proof fn lemma_message_step(m: InFlightMessage, per_hop: nat)
    requires
        in_progress(m, per_hop),
        per_hop <= usize::MAX,
    ensures
        cycles_left(m, per_hop) >= 1,
        arrives(m) <==> cycles_left(m, per_hop) == 1,
        arrives(m) ==> links_ahead(m).len() == 0,
        stays(m) ==> in_progress(step(per_hop)(m), per_hop),
        stays(m) ==> cycles_left(step(per_hop)(m), per_hop) == cycles_left(m, per_hop) - 1,
        advances(m) ==> links_ahead(m).len() > 0 && next_link_key(m) == links_ahead(m)[0] && links_ahead(
            step(per_hop)(m),
        ) == links_ahead(m).drop_first(),
        stays(m) && !advances(m) ==> links_ahead(step(per_hop)(m)) == links_ahead(m),
{
    let a = m.route@.len() - m.current_hop - 1;
    let r = m.remaining_hop_latency as int;
    assert(a * per_hop >= 0) by (nonlinear_arith)
        requires
            a >= 0,
    ;
    if a >= 1 {
        assert(a * per_hop >= per_hop) by (nonlinear_arith)
            requires
                a >= 1,
        ;
        assert((a - 1) * per_hop + per_hop == a * per_hop) by (nonlinear_arith);
    }
    assert(cycles_left(m, per_hop) == a * per_hop + r);
    if a == 0 {
        assert(a * per_hop == 0) by (nonlinear_arith)
            requires
                a == 0,
        ;
        assert(cycles_left(m, per_hop) == r);
    } else {
        assert(a * per_hop >= per_hop) by (nonlinear_arith)
            requires
                a >= 1,
        ;
        assert(!arrives(m));
    }
    assert(m.route@.len() == m.route.len());
    let n = step(per_hop)(m);
    if advances(m) {
        assert(n.remaining_hop_latency == per_hop);
        assert(n.current_hop == m.current_hop + 1);
        assert(cycles_left(n, per_hop) == (a - 1) * per_hop + per_hop);
        assert(n.route == m.route);
        assert(links_ahead(n) =~= links_ahead(m).drop_first());
    } else if stays(m) {
        assert(m.remaining_hop_latency != 1);
        assert(n.remaining_hop_latency == m.remaining_hop_latency - 1);
        assert(n.current_hop == m.current_hop);
        assert(n.route == m.route);
        assert(links_ahead(n) =~= links_ahead(m));
    }
}

/// No link has seen more messages enter it in one tick than it has
/// forwarded in all: the peak per tick is at most the total.
pub proof fn lemma_peak_le_forwarded(net: Network)
    requires
        net.wf(),
    ensures
        forall|j: int|
            0 <= j < net.links_spec().len() ==> (#[trigger] net.links_spec()[j]).peak_tick_count
                <= net.links_spec()[j].messages_forwarded,
{
}

/// Every message in flight either arrives or stays: what a tick delivers
/// and what it keeps in flight number as many as were in flight.
pub proof fn lemma_tick_conserves(msgs: Seq<InFlightMessage>, per_hop: nat)
    ensures
        filter_map_seq(msgs, |m: InFlightMessage| arrives(m), |m: InFlightMessage| payload(m)).len() + filter_map_seq(
            msgs,
            |m: InFlightMessage| stays(m),
            step(per_hop),
        ).len() == msgs.len(),
    decreases msgs.len(),
{
    if msgs.len() > 0 {
        let init = msgs.drop_last();
        let x = msgs.last();
        assert(msgs == init.push(x));
        lemma_filter_map_push(init, x, |m: InFlightMessage| arrives(m), |m: InFlightMessage| payload(m));
        lemma_filter_map_push(init, x, |m: InFlightMessage| stays(m), step(per_hop));
        lemma_tick_conserves(init, per_hop);
    }
}

} // verus!
