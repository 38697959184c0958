use vstd::prelude::*;
use crate::simulate::memory::DimmId;

verus! {

/// Cycles a message spends on each DIMM-to-DIMM link.
pub const PER_HOP_LATENCY: usize = 4;

/// A link written with its lower DIMM id first.
pub open spec fn undirected(link: (DimmId, DimmId)) -> (DimmId, DimmId) {
    if link.0.0 <= link.1.0 {
        link
    } else {
        (link.1, link.0)
    }
}

/// `route` is a walk from `from` to `to` whose every hop uses one of `links`.
pub open spec fn is_route(
    route: Seq<(DimmId, DimmId)>,
    from: DimmId,
    to: DimmId,
    links: Seq<(DimmId, DimmId)>,
) -> bool {
    &&& route.len() >= 1
    &&& route[0].0 == from
    &&& route[route.len() - 1].1 == to
    &&& forall|k: int| 0 <= k < route.len() - 1 ==> #[trigger] route[k].1 == route[k + 1].0
    &&& forall|k: int| 0 <= k < route.len() ==> links.contains(undirected(#[trigger] route[k]))
}

/// Every link is written `(a, b)` with `a < b`, and no link occurs twice.
pub open spec fn links_well_formed(links: Seq<(DimmId, DimmId)>) -> bool {
    &&& forall|k: int| 0 <= k < links.len() ==> (#[trigger] links[k]).0.0 < links[k].1.0
    &&& forall|i: int, j: int| 0 <= i < j < links.len() ==> links[i] != links[j]
}

/// A DIMM interconnect.
pub trait Topology {
    /// The undirected links of the topology.
    spec fn link_set(&self) -> Seq<(DimmId, DimmId)>;

    /// The number of DIMMs, with ids `0..num_dimms`.
    spec fn num_dimms(&self) -> nat;

    /// The ordered sequence of directed DIMM-to-DIMM links a message must traverse.
    fn get_route(&self, from_dimm: DimmId, to_dimm: DimmId) -> (r: Vec<(DimmId, DimmId)>)
        requires
            from_dimm != to_dimm,
            (from_dimm.0 as nat) < self.num_dimms(),
            (to_dimm.0 as nat) < self.num_dimms(),
        ensures
            is_route(r@, from_dimm, to_dimm, self.link_set()),
    ;

    /// All undirected links, each `(a, b)` with `a < b`.
    fn get_links(&self) -> (r: Vec<(DimmId, DimmId)>)
        ensures
            r@ == self.link_set(),
            links_well_formed(r@),
            forall|k: int|
                0 <= k < r@.len() ==> ((#[trigger] r@[k]).1.0 as nat) < self.num_dimms(),
    ;

    /// Number of DIMMs in the topology.
    fn get_num_dimms(&self) -> (r: u8)
        ensures
            r as nat == self.num_dimms(),
    ;

    /// A sort key `(group, is_reverse)` that orders directed links by their
    /// physical arrangement, the forward direction first.
    fn link_sort_key(&self, from_dimm: DimmId, to_dimm: DimmId) -> (usize, bool)
        requires
            (from_dimm.0 as nat) < self.num_dimms(),
            (to_dimm.0 as nat) < self.num_dimms(),
    ;

    /// Cycles a message spends on one link.
    fn get_per_hop_latency(&self) -> (r: usize)
        ensures
            r == PER_HOP_LATENCY,
    ;
}

/// The DIMM at each position of the line and of the ring: 0, 2, 1, 3.
pub open spec fn chain_dimm(pos: int) -> DimmId {
    if pos == 0 {
        DimmId(0)
    } else if pos == 1 {
        DimmId(2)
    } else if pos == 2 {
        DimmId(1)
    } else {
        DimmId(3)
    }
}

/// The position of each DIMM along the line and the ring.
pub open spec fn chain_position(d: DimmId) -> int {
    if d.0 == 0 {
        0
    } else if d.0 == 2 {
        1
    } else if d.0 == 1 {
        2
    } else {
        3
    }
}

/// The route along the line from position `f` to position `t`.
pub open spec fn line_route_spec(f: int, t: int) -> Seq<(DimmId, DimmId)> {
    if f < t {
        Seq::new((t - f) as nat, |k: int| (chain_dimm(f + k), chain_dimm(f + k + 1)))
    } else {
        Seq::new((f - t) as nat, |k: int| (chain_dimm(f - k), chain_dimm(f - k - 1)))
    }
}

/// The links of the line 0 - 2 - 1 - 3.
pub open spec fn line_links() -> Seq<(DimmId, DimmId)> {
    seq![(DimmId(0), DimmId(2)), (DimmId(1), DimmId(2)), (DimmId(1), DimmId(3))]
}

/// Four DIMMs on a line: 0 - 2 - 1 - 3.
pub struct LineTopology {
    position_of: [usize; 4],
    dimm_at: [DimmId; 4],
}

impl LineTopology {
    #[verifier::type_invariant]
    spec fn wf(self) -> bool {
        &&& forall|p: int| 0 <= p < 4 ==> #[trigger] self.dimm_at@[p] == chain_dimm(p)
        &&& forall|d: int| 0 <= d < 4 ==> #[trigger] self.position_of@[d] == chain_position(DimmId(d as u8))
    }

    /// The DIMMs in order along the line, by position.
    pub closed spec fn order(self) -> Seq<DimmId> {
        self.dimm_at@
    }

    /// The position of each DIMM along the line, by DIMM id.
    pub closed spec fn positions(self) -> Seq<usize> {
        self.position_of@
    }

    /// The line 0 - 2 - 1 - 3.
    pub fn new() -> (r: Self)
        ensures
            r.order().len() == 4,
            forall|p: int| 0 <= p < 4 ==> #[trigger] r.order()[p] == chain_dimm(p),
            r.positions().len() == 4,
            forall|d: int| 0 <= d < 4 ==> #[trigger] r.positions()[d] == chain_position(DimmId(d as u8)),
    {
        let dimm_at = [DimmId(0), DimmId(2), DimmId(1), DimmId(3)];
        let mut position_of = [0usize; 4];
        let mut pos: usize = 0;
        while pos < 4
            invariant
                0 <= pos <= 4,
                forall|p: int| 0 <= p < 4 ==> #[trigger] dimm_at@[p] == chain_dimm(p),
                forall|p: int| 0 <= p < pos ==> position_of@[chain_dimm(p).0 as int] == p,
            decreases 4 - pos,
        {
            let dimm = dimm_at[pos];
            position_of.set(dimm.0 as usize, pos);
            pos += 1;
        }
        assert(forall|d: int| 0 <= d < 4 ==> #[trigger] position_of@[d] == chain_position(DimmId(d as u8))) by {
            assert(position_of@[chain_dimm(0).0 as int] == 0);
            assert(position_of@[chain_dimm(1).0 as int] == 1);
            assert(position_of@[chain_dimm(2).0 as int] == 2);
            assert(position_of@[chain_dimm(3).0 as int] == 3);
        }
        LineTopology { position_of, dimm_at }
    }

    /// The position of a DIMM along the line.
    pub fn position(&self, d: DimmId) -> (r: usize)
        requires
            d.0 < 4,
        ensures
            r == chain_position(d),
    {
        proof {
            use_type_invariant(self);
        }
        self.position_of[d.0 as usize]
    }
}

/// The line's hop between positions `p` and `p + 1` is one of its links.
proof fn lemma_line_hop_is_link(p: int)
    requires
        0 <= p < 3,
    ensures
        line_links().contains(undirected((chain_dimm(p), chain_dimm(p + 1)))),
        line_links().contains(undirected((chain_dimm(p + 1), chain_dimm(p)))),
{
    if p == 0 {
        assert(line_links()[0] == undirected((chain_dimm(p), chain_dimm(p + 1))));
    } else if p == 1 {
        assert(line_links()[1] == undirected((chain_dimm(p), chain_dimm(p + 1))));
    } else {
        assert(line_links()[2] == undirected((chain_dimm(p), chain_dimm(p + 1))));
    }
}

impl Topology for LineTopology {
    open spec fn link_set(&self) -> Seq<(DimmId, DimmId)> {
        line_links()
    }

    open spec fn num_dimms(&self) -> nat {
        4
    }

    fn get_route(&self, from_dimm: DimmId, to_dimm: DimmId) -> (r: Vec<(DimmId, DimmId)>)
        ensures
            r@ == line_route_spec(chain_position(from_dimm), chain_position(to_dimm)),
    {
        proof {
            use_type_invariant(self);
        }
        let from_pos = self.position_of[from_dimm.0 as usize];
        let to_pos = self.position_of[to_dimm.0 as usize];
        let ghost f = from_pos as int;
        let ghost t = to_pos as int;
        let mut route: Vec<(DimmId, DimmId)> = Vec::new();
        if from_pos < to_pos {
            let mut i = from_pos;
            while i < to_pos
                invariant
                    from_pos <= i <= to_pos <= 3,
                    f == from_pos,
                    forall|p: int| 0 <= p < 4 ==> #[trigger] self.dimm_at@[p] == chain_dimm(p),
                    route@ =~= Seq::new((i - f) as nat, |k: int| (chain_dimm(f + k), chain_dimm(f + k + 1))),
                decreases to_pos - i,
            {
                route.push((self.dimm_at[i], self.dimm_at[i + 1]));
                i += 1;
            }
        } else {
            let mut i = from_pos;
            while i > to_pos
                invariant
                    to_pos <= i <= from_pos <= 3,
                    f == from_pos,
                    forall|p: int| 0 <= p < 4 ==> #[trigger] self.dimm_at@[p] == chain_dimm(p),
                    route@ =~= Seq::new((f - i) as nat, |k: int| (chain_dimm(f - k), chain_dimm(f - k - 1))),
                decreases i - to_pos,
            {
                route.push((self.dimm_at[i], self.dimm_at[i - 1]));
                i -= 1;
            }
        }
        proof {
            let rt = route@;
            assert(from_dimm.0 != to_dimm.0);
            assert(f != t);
            assert forall|k: int| 0 <= k < rt.len() implies line_links().contains(undirected(#[trigger] rt[k])) by {
                if f < t {
                    lemma_line_hop_is_link(f + k);
                } else {
                    lemma_line_hop_is_link(f - k - 1);
                }
            }
        }
        route
    }

    fn get_links(&self) -> (r: Vec<(DimmId, DimmId)>) {
        proof {
            use_type_invariant(self);
        }
        let mut links: Vec<(DimmId, DimmId)> = Vec::new();
        let mut i: usize = 0;
        while i < 3
            invariant
                i <= 3,
                forall|p: int| 0 <= p < 4 ==> #[trigger] self.dimm_at@[p] == chain_dimm(p),
                links@ =~= line_links().subrange(0, i as int),
            decreases 3 - i,
        {
            let a = self.dimm_at[i];
            let b = self.dimm_at[i + 1];
            let lo = if a.0 < b.0 { a.0 } else { b.0 };
            let hi = if a.0 < b.0 { b.0 } else { a.0 };
            links.push((DimmId(lo), DimmId(hi)));
            i += 1;
        }
        links
    }

    fn get_num_dimms(&self) -> (r: u8) {
        4
    }

    fn link_sort_key(&self, from_dimm: DimmId, to_dimm: DimmId) -> (r: (usize, bool))
        ensures
            r.0 == if chain_position(from_dimm) < chain_position(to_dimm) {
                chain_position(from_dimm)
            } else {
                chain_position(to_dimm)
            },
            r.1 == (chain_position(from_dimm) > chain_position(to_dimm)),
    {
        let from_pos = self.position(from_dimm);
        let to_pos = self.position(to_dimm);
        let min_pos = if from_pos < to_pos { from_pos } else { to_pos };
        let is_reverse = from_pos > to_pos;
        (min_pos, is_reverse)
    }

    fn get_per_hop_latency(&self) -> (r: usize) {
        PER_HOP_LATENCY
    }
}


/// The position reached after `k` steps clockwise from `f` on the ring.
pub open spec fn ring_pos(p: int) -> int {
    p % 4
}

/// The route around the ring from position `f` to position `t`: the shorter
/// way, clockwise when both ways are equally long.
pub open spec fn ring_route_spec(f: int, t: int) -> Seq<(DimmId, DimmId)> {
    let cw = (t + 4 - f) % 4;
    let ccw = (f + 4 - t) % 4;
    if cw <= ccw {
        Seq::new(cw as nat, |k: int| (chain_dimm(ring_pos(f + k)), chain_dimm(ring_pos(f + k + 1))))
    } else {
        Seq::new(
            ccw as nat,
            |k: int| (chain_dimm(ring_pos(f + 4 - k)), chain_dimm(ring_pos(f + 4 - k - 1))),
        )
    }
}

/// The links of the ring 0 - 2 - 1 - 3 - 0.
pub open spec fn ring_links() -> Seq<(DimmId, DimmId)> {
    seq![
        (DimmId(0), DimmId(2)),
        (DimmId(1), DimmId(2)),
        (DimmId(1), DimmId(3)),
        (DimmId(0), DimmId(3)),
    ]
}

/// Four DIMMs on a ring: 0 - 2 - 1 - 3 - 0.
pub struct RingTopology {
    dimm_at: [DimmId; 4],
    position_of: [usize; 4],
}

/// The number of DIMMs on the ring.
pub const RING_SIZE: usize = 4;

impl RingTopology {
    #[verifier::type_invariant]
    spec fn wf(self) -> bool {
        &&& forall|p: int| 0 <= p < 4 ==> #[trigger] self.dimm_at@[p] == chain_dimm(p)
        &&& forall|d: int| 0 <= d < 4 ==> #[trigger] self.position_of@[d] == chain_position(DimmId(d as u8))
    }

    /// The DIMMs in order along the ring, by position.
    pub closed spec fn order(self) -> Seq<DimmId> {
        self.dimm_at@
    }

    /// The position of each DIMM along the ring, by DIMM id.
    pub closed spec fn positions(self) -> Seq<usize> {
        self.position_of@
    }

    /// The ring 0 - 2 - 1 - 3 - 0.
    pub fn new() -> (r: Self)
        ensures
            r.order().len() == 4,
            forall|p: int| 0 <= p < 4 ==> #[trigger] r.order()[p] == chain_dimm(p),
            r.positions().len() == 4,
            forall|d: int| 0 <= d < 4 ==> #[trigger] r.positions()[d] == chain_position(DimmId(d as u8)),
    {
        let dimm_at = [DimmId(0), DimmId(2), DimmId(1), DimmId(3)];
        let mut position_of = [0usize; 4];
        let mut pos: usize = 0;
        while pos < 4
            invariant
                0 <= pos <= 4,
                forall|p: int| 0 <= p < 4 ==> #[trigger] dimm_at@[p] == chain_dimm(p),
                forall|p: int| 0 <= p < pos ==> position_of@[chain_dimm(p).0 as int] == p,
            decreases 4 - pos,
        {
            let dimm = dimm_at[pos];
            position_of.set(dimm.0 as usize, pos);
            pos += 1;
        }
        assert(forall|d: int| 0 <= d < 4 ==> #[trigger] position_of@[d] == chain_position(DimmId(d as u8))) by {
            assert(position_of@[chain_dimm(0).0 as int] == 0);
            assert(position_of@[chain_dimm(1).0 as int] == 1);
            assert(position_of@[chain_dimm(2).0 as int] == 2);
            assert(position_of@[chain_dimm(3).0 as int] == 3);
        }
        RingTopology { dimm_at, position_of }
    }

    /// The position of a DIMM on the ring.
    pub fn position(&self, d: DimmId) -> (r: usize)
        requires
            d.0 < 4,
        ensures
            r == chain_position(d),
    {
        proof {
            use_type_invariant(self);
        }
        self.position_of[d.0 as usize]
    }
}

/// The ring's hop between positions `p` and `p + 1` (mod 4) is one of its links.
proof fn lemma_ring_hop_is_link(p: int)
    requires
        0 <= p < 4,
    ensures
        ring_links().contains(undirected((chain_dimm(p), chain_dimm(ring_pos(p + 1))))),
        ring_links().contains(undirected((chain_dimm(ring_pos(p + 1)), chain_dimm(p)))),
{
    if p == 0 {
        assert(ring_links()[0] == undirected((chain_dimm(p), chain_dimm(ring_pos(p + 1)))));
    } else if p == 1 {
        assert(ring_links()[1] == undirected((chain_dimm(p), chain_dimm(ring_pos(p + 1)))));
    } else if p == 2 {
        assert(ring_links()[2] == undirected((chain_dimm(p), chain_dimm(ring_pos(p + 1)))));
    } else {
        assert(ring_links()[3] == undirected((chain_dimm(p), chain_dimm(ring_pos(p + 1)))));
    }
}

impl Topology for RingTopology {
    open spec fn link_set(&self) -> Seq<(DimmId, DimmId)> {
        ring_links()
    }

    open spec fn num_dimms(&self) -> nat {
        4
    }

    fn get_route(&self, from_dimm: DimmId, to_dimm: DimmId) -> (r: Vec<(DimmId, DimmId)>)
        ensures
            r@ == ring_route_spec(chain_position(from_dimm), chain_position(to_dimm)),
    {
        proof {
            use_type_invariant(self);
        }
        let from_pos = self.position_of[from_dimm.0 as usize];
        let to_pos = self.position_of[to_dimm.0 as usize];
        let n = RING_SIZE;
        let ghost f = from_pos as int;
        let cw_dist = (to_pos + n - from_pos) % n;
        let ccw_dist = (from_pos + n - to_pos) % n;
        let mut route: Vec<(DimmId, DimmId)> = Vec::new();
        if cw_dist <= ccw_dist {
            let mut step: usize = 0;
            while step < cw_dist
                invariant
                    step <= cw_dist < 4,
                    from_pos < 4,
                    f == from_pos,
                    n == 4,
                    forall|p: int| 0 <= p < 4 ==> #[trigger] self.dimm_at@[p] == chain_dimm(p),
                    route@ =~= Seq::new(
                        step as nat,
                        |k: int| (chain_dimm(ring_pos(f + k)), chain_dimm(ring_pos(f + k + 1))),
                    ),
                decreases cw_dist - step,
            {
                let cur = (from_pos + step) % n;
                let next = (from_pos + step + 1) % n;
                route.push((self.dimm_at[cur], self.dimm_at[next]));
                step += 1;
            }
        } else {
            let mut step: usize = 0;
            while step < ccw_dist
                invariant
                    step <= ccw_dist < 4,
                    from_pos < 4,
                    f == from_pos,
                    n == 4,
                    forall|p: int| 0 <= p < 4 ==> #[trigger] self.dimm_at@[p] == chain_dimm(p),
                    route@ =~= Seq::new(
                        step as nat,
                        |k: int|
                            (chain_dimm(ring_pos(f + 4 - k)), chain_dimm(ring_pos(f + 4 - k - 1))),
                    ),
                decreases ccw_dist - step,
            {
                let cur = (from_pos + n - step) % n;
                let next = (from_pos + n - step - 1) % n;
                route.push((self.dimm_at[cur], self.dimm_at[next]));
                step += 1;
            }
        }
        proof {
            let rt = route@;
            let t = to_pos as int;
            assert(f != t);
            assert forall|k: int| 0 <= k < rt.len() implies ring_links().contains(undirected(#[trigger] rt[k])) by {
                if (t + 4 - f) % 4 <= (f + 4 - t) % 4 {
                    lemma_ring_hop_is_link(ring_pos(f + k));
                    assert(ring_pos(ring_pos(f + k) + 1) == ring_pos(f + k + 1));
                } else {
                    lemma_ring_hop_is_link(ring_pos(f + 4 - k - 1));
                    assert(ring_pos(ring_pos(f + 4 - k - 1) + 1) == ring_pos(f + 4 - k));
                }
            }
        }
        route
    }

    fn get_links(&self) -> (r: Vec<(DimmId, DimmId)>) {
        proof {
            use_type_invariant(self);
        }
        let n = RING_SIZE;
        let mut links: Vec<(DimmId, DimmId)> = Vec::new();
        let mut i: usize = 0;
        while i < n
            invariant
                i <= n,
                n == 4,
                forall|p: int| 0 <= p < 4 ==> #[trigger] self.dimm_at@[p] == chain_dimm(p),
                links@ =~= ring_links().subrange(0, i as int),
            decreases n - i,
        {
            let a = self.dimm_at[i];
            let b = self.dimm_at[(i + 1) % n];
            let lo = if a.0 < b.0 { a.0 } else { b.0 };
            let hi = if a.0 < b.0 { b.0 } else { a.0 };
            links.push((DimmId(lo), DimmId(hi)));
            i += 1;
        }
        links
    }

    fn get_num_dimms(&self) -> (r: u8) {
        RING_SIZE as u8
    }

    fn link_sort_key(&self, from_dimm: DimmId, to_dimm: DimmId) -> (r: (usize, bool))
        ensures
            ({
                let f = chain_position(from_dimm);
                let t = chain_position(to_dimm);
                let is_wrap = (f == 0 && t == 3) || (f == 3 && t == 0);
                &&& r.0 == if is_wrap {
                    3
                } else if f < t {
                    f
                } else {
                    t
                }
                &&& r.1 == if is_wrap {
                    f == 0
                } else {
                    f > t
                }
            }),
    {
        let from_pos = self.position(from_dimm);
        let to_pos = self.position(to_dimm);
        let n = RING_SIZE;
        let is_wrap = (from_pos == 0 && to_pos == n - 1) || (from_pos == n - 1 && to_pos == 0);
        let min_pos = if is_wrap {
            n - 1
        } else if from_pos < to_pos {
            from_pos
        } else {
            to_pos
        };
        let is_reverse = if is_wrap {
            from_pos == 0
        } else {
            from_pos > to_pos
        };
        (min_pos, is_reverse)
    }

    fn get_per_hop_latency(&self) -> (r: usize) {
        PER_HOP_LATENCY
    }
}

/// On the four-DIMM ring every route takes at most two hops.
pub proof fn lemma_ring_route_at_most_two_hops(from_dimm: DimmId, to_dimm: DimmId)
    requires
        from_dimm.0 < 4,
        to_dimm.0 < 4,
        from_dimm != to_dimm,
    ensures
        ring_route_spec(chain_position(from_dimm), chain_position(to_dimm)).len() <= 2,
{
}

/// On the ring a route and its reverse take the same number of hops.
pub proof fn lemma_ring_route_symmetric(from_dimm: DimmId, to_dimm: DimmId)
    requires
        from_dimm.0 < 4,
        to_dimm.0 < 4,
        from_dimm != to_dimm,
    ensures
        ring_route_spec(chain_position(from_dimm), chain_position(to_dimm)).len()
            == ring_route_spec(chain_position(to_dimm), chain_position(from_dimm)).len(),
{
}

/// On the line a route takes as many hops as the DIMMs are positions apart,
/// in either direction.
pub proof fn lemma_line_route_length(from_dimm: DimmId, to_dimm: DimmId)
    requires
        from_dimm.0 < 4,
        to_dimm.0 < 4,
        from_dimm != to_dimm,
    ensures
        line_route_spec(chain_position(from_dimm), chain_position(to_dimm)).len() == (if chain_position(
            from_dimm,
        ) < chain_position(to_dimm) {
            chain_position(to_dimm) - chain_position(from_dimm)
        } else {
            chain_position(from_dimm) - chain_position(to_dimm)
        }),
        line_route_spec(chain_position(from_dimm), chain_position(to_dimm)).len()
            == line_route_spec(chain_position(to_dimm), chain_position(from_dimm)).len(),
{
}


/// The link between DIMMs `a` and `b`.
pub open spec fn dimm_pair(a: int, b: int) -> (DimmId, DimmId) {
    (DimmId(a as u8), DimmId(b as u8))
}

/// The links `(i, j)` with `i < j < n` for one fixed `i`, by increasing `j`.
pub open spec fn fc_row(n: int, i: int) -> Seq<(DimmId, DimmId)> {
    Seq::new((n - i - 1) as nat, |k: int| (DimmId(i as u8), DimmId((i + 1 + k) as u8)))
}

/// The links `(a, b)` with `a < i` and `a < b < n`, in lexicographic order.
pub open spec fn fc_links_upto(n: int, i: int) -> Seq<(DimmId, DimmId)>
    decreases i,
{
    if i <= 0 {
        Seq::empty()
    } else {
        fc_links_upto(n, i - 1) + fc_row(n, i - 1)
    }
}

/// Every pair of distinct DIMMs among `n`, in lexicographic order.
pub open spec fn fc_links(n: int) -> Seq<(DimmId, DimmId)> {
    fc_links_upto(n, n)
}

/// The links `fc_links_upto(n, i)` are the pairs `(a, b)` with
/// `a < b < n` and `a < i`, each listed once, lower id first.
pub proof fn lemma_fc_links_upto(n: int, i: int)
    requires
        0 <= i <= n < 256,
    ensures
        forall|k: int|
            0 <= k < fc_links_upto(n, i).len() ==> {
                let l = #[trigger] fc_links_upto(n, i)[k];
                &&& l.0.0 < l.1.0
                &&& (l.1.0 as int) < n
                &&& (l.0.0 as int) < i
            },
        forall|a: int, b: int|
            0 <= a < b < n && a < i ==> #[trigger] fc_links_upto(n, i).contains(dimm_pair(a, b)),
        links_well_formed(fc_links_upto(n, i)),
    decreases i,
{
    if i > 0 {
        lemma_fc_links_upto(n, i - 1);
        let prev = fc_links_upto(n, i - 1);
        let row = fc_row(n, i - 1);
        let all = prev + row;
        assert(fc_links_upto(n, i) == all);
        assert forall|a: int, b: int|
            0 <= a < b < n && a < i implies #[trigger] all.contains(dimm_pair(a, b)) by {
            if a < i - 1 {
                assert(prev.contains(dimm_pair(a, b)));
                let k = choose|k: int| 0 <= k < prev.len() && prev[k] == dimm_pair(a, b);
                assert(all[k] == prev[k]);
            } else {
                let k = b - i;
                assert(row[k] == dimm_pair(a, b));
                assert(all[prev.len() + k] == row[k]);
            }
        }
        assert forall|x: int, y: int| 0 <= x < y < all.len() implies all[x] != all[y] by {
            if y < prev.len() {
            } else if x >= prev.len() {
                assert(all[x] == row[x - prev.len()]);
                assert(all[y] == row[y - prev.len()]);
            } else {
                assert(all[x] == prev[x]);
                assert(all[y] == row[y - prev.len()]);
            }
        }
    }
}

/// Every DIMM linked directly to every other one.
pub struct FullyConnectedTopology {
    num_dimms: usize,
}

impl FullyConnectedTopology {
    #[verifier::type_invariant]
    spec fn wf(self) -> bool {
        self.num_dimms < 256
    }

    /// The view of the topology: its number of DIMMs.
    pub closed spec fn dimm_count(&self) -> nat {
        self.num_dimms as nat
    }

    /// `num_dimms` DIMMs, all pairwise linked. DIMM ids are bytes, so there
    /// are fewer than 256 of them.
    pub fn new(num_dimms: usize) -> (r: Self)
        requires
            num_dimms < 256,
        ensures
            r.dimm_count() == num_dimms,
    {
        FullyConnectedTopology { num_dimms }
    }
}

impl Topology for FullyConnectedTopology {
    open spec fn link_set(&self) -> Seq<(DimmId, DimmId)> {
        fc_links(self.dimm_count() as int)
    }

    open spec fn num_dimms(&self) -> nat {
        self.dimm_count()
    }

    fn get_route(&self, from_dimm: DimmId, to_dimm: DimmId) -> (r: Vec<(DimmId, DimmId)>)
        ensures
            r@ == seq![(from_dimm, to_dimm)],
    {
        proof {
            use_type_invariant(self);
            lemma_fc_links_upto(self.num_dimms as int, self.num_dimms as int);
            let u = undirected((from_dimm, to_dimm));
            assert(u == dimm_pair(u.0.0 as int, u.1.0 as int));
            assert(fc_links_upto(self.num_dimms as int, self.num_dimms as int).contains(
                dimm_pair(u.0.0 as int, u.1.0 as int),
            ));
        }
        let mut route: Vec<(DimmId, DimmId)> = Vec::new();
        route.push((from_dimm, to_dimm));
        route
    }

    fn get_links(&self) -> (r: Vec<(DimmId, DimmId)>) {
        proof {
            use_type_invariant(self);
        }
        let n = self.num_dimms as u8;
        let ghost ni = n as int;
        let mut links: Vec<(DimmId, DimmId)> = Vec::new();
        let mut i: u8 = 0;
        while i < n
            invariant
                i <= n,
                ni == n,
                ni == self.num_dimms,
                links@ =~= fc_links_upto(ni, i as int),
            decreases n - i,
        {
            let mut j: u8 = i + 1;
            let ghost start = links@;
            while j < n
                invariant
                    i < n,
                    i + 1 <= j <= n,
                    ni == n,
                    start == fc_links_upto(ni, i as int),
                    links@ =~= start + fc_row(ni, i as int).subrange(0, j - i - 1),
                decreases n - j,
            {
                links.push((DimmId(i), DimmId(j)));
                j += 1;
            }
            assert(fc_row(ni, i as int).subrange(0, j - i - 1) =~= fc_row(ni, i as int));
            i += 1;
        }
        proof {
            lemma_fc_links_upto(ni, ni);
        }
        links
    }

    fn get_num_dimms(&self) -> (r: u8) {
        proof {
            use_type_invariant(self);
        }
        self.num_dimms as u8
    }

    fn link_sort_key(&self, from_dimm: DimmId, to_dimm: DimmId) -> (r: (usize, bool))
        ensures
            ({
                let lo = if from_dimm.0 < to_dimm.0 { from_dimm.0 } else { to_dimm.0 };
                let hi = if from_dimm.0 < to_dimm.0 { to_dimm.0 } else { from_dimm.0 };
                &&& r.0 == lo * self.num_dimms() + hi
                &&& r.1 == (from_dimm.0 > to_dimm.0)
            }),
    {
        proof {
            use_type_invariant(self);
        }
        let min_dimm = if from_dimm.0 < to_dimm.0 { from_dimm.0 } else { to_dimm.0 };
        let max_dimm = if from_dimm.0 < to_dimm.0 { to_dimm.0 } else { from_dimm.0 };
        assert((min_dimm as usize) * self.num_dimms <= 255 * 255) by (nonlinear_arith)
            requires
                min_dimm < 256,
                self.num_dimms < 256,
        ;
        let group_id = (min_dimm as usize) * self.num_dimms + (max_dimm as usize);
        let is_reverse = from_dimm.0 > to_dimm.0;
        (group_id, is_reverse)
    }

    fn get_per_hop_latency(&self) -> (r: usize) {
        PER_HOP_LATENCY
    }
}

} // verus!
