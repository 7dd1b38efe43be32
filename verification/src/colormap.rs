//! Four-coloring of a region map's adjacency graph.
//!
//! During search, every region carries a *domain*: a 4-bit set of the colors
//! still possible for it.  [`ColorMap`] packs two domains per byte.  The
//! solver tightens domains to a fixpoint (a region fixed to one color removes
//! that color from its neighbors) and branches on a region with the fewest
//! remaining candidates, exploring branches through an explicit stack.

use vstd::prelude::*;

use crate::map::RegionId;
use crate::map::RegionMap;

verus! {

/// One of the four labels assigned to regions.
#[derive(Clone, Copy, Debug, PartialEq, Eq, Structural)]
pub enum Color {
    C1,
    C2,
    C3,
    C4,
}

impl Color {
    /// The bit this color occupies inside a 4-bit domain.
    pub open spec fn spec_mask(self) -> u8 {
        match self {
            Color::C1 => 1,
            Color::C2 => 2,
            Color::C3 => 4,
            Color::C4 => 8,
        }
    }

    /// Returns the domain bitmask of this color.
    pub fn mask(self) -> (m: u8)
        ensures
            m == self.spec_mask(),
    {
        match self {
            Color::C1 => 1,
            Color::C2 => 2,
            Color::C3 => 4,
            Color::C4 => 8,
        }
    }
}

/// A domain holds exactly one color.
pub open spec fn singleton(d: u8) -> bool {
    d == 1 || d == 2 || d == 4 || d == 8
}

/// Number of colors in a domain (its 4-bit population count).
pub open spec fn nbits(d: u8) -> int {
    (((d >> 3) & 1) + ((d >> 2) & 1) + ((d >> 1) & 1) + (d & 1)) as int
}

/// Outcome of one propagation run over a candidate coloring.
enum SolutionState {
    /// Some region lost every color: the search node is infeasible.
    CannotSolve,
    /// Every region kept exactly one color: the node is a solution.
    Solved,
    /// Propagation stalled with some region still undecided.
    Unknown,
}

proof fn lemma_and_comm(a: u8, b: u8)
    ensures
        a & b == b & a,
{
    assert(a & b == b & a) by (bit_vector);
}

/// A domain that is a subset of another has no more colors, and strictly
/// fewer when the two differ.
proof fn lemma_subset_nbits(a: u8, b: u8)
    requires
        a & !b == 0,
        a <= 15,
        b <= 15,
    ensures
        nbits(a) <= nbits(b),
        a != b ==> nbits(a) < nbits(b),
{
    assert((a & !b == 0 && a <= 15 && b <= 15) ==> (nbits(a) <= nbits(b) && (a != b
        ==> nbits(a) < nbits(b)))) by (bit_vector);
}

/// Total number of colors left in the domains of regions `0 .. k`.
spec fn sum_bits_to(cm: ColorMap, k: int) -> int
    decreases k,
{
    if k <= 0 {
        0
    } else {
        sum_bits_to(cm, k - 1) + nbits(cm.spec_at(k - 1))
    }
}

proof fn lemma_sum_congruent(a: ColorMap, b: ColorMap, k: int)
    requires
        forall|r: int| 0 <= r < k ==> a.spec_at(r) == b.spec_at(r),
    ensures
        sum_bits_to(a, k) == sum_bits_to(b, k),
    decreases k,
{
    if k > 0 {
        lemma_sum_congruent(a, b, k - 1);
    }
}

proof fn lemma_sum_update(a: ColorMap, b: ColorMap, t: int, k: int)
    requires
        forall|r: int| 0 <= r < k && r != t ==> a.spec_at(r) == b.spec_at(r),
    ensures
        0 <= t < k ==> sum_bits_to(b, k) == sum_bits_to(a, k) - nbits(a.spec_at(t)) + nbits(
            b.spec_at(t),
        ),
        !(0 <= t < k) ==> sum_bits_to(b, k) == sum_bits_to(a, k),
    decreases k,
{
    if k > 0 {
        lemma_sum_update(a, b, t, k - 1);
    }
}

proof fn lemma_sum_nonneg(a: ColorMap, k: int)
    ensures
        sum_bits_to(a, k) >= 0,
    decreases k,
{
    if k > 0 {
        lemma_sum_nonneg(a, k - 1);
    }
}

proof fn lemma_sum_le(a: ColorMap, b: ColorMap, k: int)
    requires
        forall|r: int| 0 <= r < k ==> nbits(a.spec_at(r)) <= nbits(b.spec_at(r)),
    ensures
        sum_bits_to(a, k) <= sum_bits_to(b, k),
    decreases k,
{
    if k > 0 {
        lemma_sum_le(a, b, k - 1);
    }
}

/// Total number of colors left over all domains of `cm`.
spec fn sum_bits(cm: ColorMap) -> int {
    sum_bits_to(cm, cm.spec_regions())
}

proof fn lemma_sum_lower(a: ColorMap, r: int, k: int)
    requires
        0 <= r < k,
    ensures
        sum_bits_to(a, k) >= nbits(a.spec_at(r)),
    decreases k,
{
    if r == k - 1 {
        lemma_sum_nonneg(a, k - 1);
    } else {
        lemma_sum_lower(a, r, k - 1);
    }
}

/// `5^k` (and `1` for `k <= 0`): the weight of a search node whose domains
/// hold `k` colors in total.  A node is heavier than the at most four
/// one-color-narrower children it is replaced by, which bounds the search.
spec fn pow5(k: int) -> int
    decreases k,
{
    if k <= 0 {
        1
    } else {
        5 * pow5(k - 1)
    }
}

proof fn lemma_pow5_pos(k: int)
    ensures
        pow5(k) >= 1,
    decreases k,
{
    if k > 0 {
        lemma_pow5_pos(k - 1);
    }
}

proof fn lemma_pow5_mono(a: int, b: int)
    requires
        a <= b,
    ensures
        pow5(a) <= pow5(b),
    decreases b,
{
    if a < b && b > 0 {
        lemma_pow5_mono(a, b - 1);
        lemma_pow5_pos(b - 1);
    }
}

/// Combined weight of all nodes awaiting exploration.
spec fn stack_measure(s: Seq<ColorMap>) -> int
    decreases s.len(),
{
    if s.len() == 0 {
        0
    } else {
        stack_measure(s.drop_last()) + pow5(sum_bits(s.last()))
    }
}

proof fn lemma_stack_measure_nonneg(s: Seq<ColorMap>)
    ensures
        stack_measure(s) >= 0,
    decreases s.len(),
{
    if s.len() > 0 {
        lemma_stack_measure_nonneg(s.drop_last());
        lemma_pow5_pos(sum_bits(s.last()));
    }
}

proof fn lemma_stack_measure_push(s: Seq<ColorMap>, x: ColorMap)
    ensures
        stack_measure(s.push(x)) == stack_measure(s) + pow5(sum_bits(x)),
{
    assert(s.push(x).drop_last() =~= s);
}

/// One propagation step never removes a color that a valid coloring uses:
/// if a coloring picks `an` for the neighbor of a region fixed to `c`, then
/// `an` avoids `c` and so survives the removal.
proof fn lemma_step_keeps(an: u8, od: u8, c: u8)
    requires
        an & !od == 0,
        an & c == 0,
    ensures
        an & !(od & !c) == 0,
{
    assert((an & !od == 0 && an & c == 0) ==> an & !(od & !c) == 0) by (bit_vector);
}

/// A singleton domain within a singleton domain equals it.
proof fn lemma_singleton_within(a: u8, c: u8)
    requires
        singleton(a),
        singleton(c),
        a & !c == 0,
    ensures
        a == c,
{
    assert((singleton(a) && singleton(c) && a & !c == 0) ==> a == c) by (bit_vector);
}

/// An element of a stack survives a possible push on top of it.
proof fn lemma_prefix_step(a: Seq<ColorMap>, b: Seq<ColorMap>, idx: int)
    requires
        0 <= idx < a.len(),
        b == a || (b.len() == a.len() + 1 && b.subrange(0, a.len() as int) == a),
    ensures
        b[idx] == a[idx],
{
    if b != a {
        assert(b.subrange(0, a.len() as int)[idx] == a[idx]);
    }
}

/// Every domain is a 4-bit value.
proof fn lemma_at_bounded(cm: ColorMap, r: int)
    requires
        cm.wf(),
        0 <= r < cm.spec_regions(),
    ensures
        cm.spec_at(r) <= 15,
{
    let b = cm.possible_colors@[r / 2];
    assert(b >> 4 <= 15 && b & 0xf <= 15) by (bit_vector);
}

/// Number of colors in a 4-bit domain `d`, as executable code.
fn domain_len(d: u8) -> (n: u8)
    ensures
        n as int == nbits(d),
{
    proof {
        assert(((d >> 3) & 1) <= 1 && ((d >> 2) & 1) <= 1 && ((d >> 1) & 1) <= 1 && (d & 1)
            <= 1) by (bit_vector);
    }
    ((d >> 3) & 1) + ((d >> 2) & 1) + ((d >> 1) & 1) + (d & 1)
}

/// The set of colors still considered possible for every region of one map,
/// packed two 4-bit domains per byte.
#[derive(Clone, Debug, PartialEq, Eq)]
pub struct ColorMap {
    // Domain of region `rid` in the low nibble of byte `rid / 2` when `rid`
    // is even, in the high nibble when it is odd.
    possible_colors: Vec<u8>,

    // Number of regions this color map covers.
    regions: usize,
}

impl ColorMap {
    /// Number of regions this color map covers.
    pub closed spec fn spec_regions(self) -> int {
        self.regions as int
    }

    /// The packed byte vector has one nibble per region.
    pub closed spec fn wf(self) -> bool {
        self.possible_colors@.len() == self.regions / 2 + self.regions % 2
    }

    /// Domain of region `rid`: the 4-bit set of its still-possible colors.
    pub closed spec fn spec_at(self, rid: int) -> u8 {
        if rid % 2 == 1 {
            self.possible_colors@[rid / 2] >> 4
        } else {
            self.possible_colors@[rid / 2] & 0xf
        }
    }

    /// Returns the number of regions this color map covers.
    pub fn num_regions(&self) -> (n: usize)
        ensures
            n == self.spec_regions(),
    {
        self.regions
    }

    /// Returns the domain of region `rid`.
    pub fn at(&self, rid: RegionId) -> (c: u8)
        requires
            self.wf(),
            rid < self.spec_regions(),
        ensures
            c == self.spec_at(rid as int),
            c <= 0xf,
    {
        let pcs = self.possible_colors[rid / 2];
        if rid % 2 == 1 {
            proof {
                assert(pcs >> 4 <= 0xf) by (bit_vector);
            }
            pcs >> 4
        } else {
            proof {
                assert(pcs & 0xf <= 0xf) by (bit_vector);
            }
            pcs & 0xf
        }
    }

    /// Returns the first solution of a fresh search over `m`'s adjacency
    /// graph.  The search is complete: a solution comes back whenever any
    /// valid four-coloring of `m` exists, and `None` only when none does.
    pub fn color(m: &RegionMap) -> (r: Option<ColorMap>)
        requires
            m.wf_adjacency(),
        ensures
            r matches Some(cm) ==> cm.wf() && cm.is_solution(*m),
            r is None ==> forall|cm: ColorMap|
                #![trigger cm.is_solution(*m)]
                !(cm.wf() && cm.is_solution(*m)),
    {
        let mut it = Self::all_possible_colorings(m);
        let ghost it0 = it;
        let r = it.next();
        proof {
            if r is None {
                assert forall|cm: ColorMap|
                    #![trigger cm.is_solution(*m)]
                    cm.wf() && cm.is_solution(*m) implies false by {
                    assert(cm.spec_regions() == m.n_regions());
                    assert(it0.covers(cm));
                }
            }
        }
        r
    }

    /// Starts an independent, lazily stepped enumeration of the valid
    /// four-colorings of `m`'s adjacency graph.  The fresh search holds one
    /// pending node that still admits every candidate coloring; every
    /// coloring the search yields is a solution of `m`.
    pub fn all_possible_colorings<'s>(m: &'s RegionMap) -> (it: SolutionIter<'s>)
        requires
            m.wf_adjacency(),
        ensures
            it.wf(),
            it.spec_map() == *m,
            !it.is_exhausted(),
            it.fresh(*m),
            forall|cm: ColorMap|
                #![trigger cm.spec_regions()]
                cm.wf() && cm.spec_regions() == m.n_regions() ==> it.covers(cm),
    {
        SolutionIter::new(m)
    }

    /// Returns the color a resolved region settled on.
    pub fn color_of_region(&self, rid: RegionId) -> (c: Color)
        requires
            self.wf(),
            rid < self.spec_regions(),
            singleton(self.spec_at(rid as int)),
        ensures
            c.spec_mask() == self.spec_at(rid as int),
    {
        let d = self.at(rid);
        if d == 1 {
            return Color::C1;
        }
        if d == 2 {
            return Color::C2;
        }
        if d == 4 {
            return Color::C3;
        }
        Color::C4
    }

    /// An exact copy: same region count, same domains.
    fn duplicate(&self) -> (r: ColorMap)
        requires
            self.wf(),
        ensures
            r.wf(),
            r.spec_regions() == self.spec_regions(),
            forall|rr: int| 0 <= rr < r.spec_regions() ==> r.spec_at(rr) == self.spec_at(rr),
    {
        let len = self.possible_colors.len();
        let mut pc: Vec<u8> = Vec::new();
        while pc.len() < len
            invariant
                pc@.len() <= len,
                len == self.possible_colors@.len(),
                forall|i: int| 0 <= i < pc@.len() ==> pc@[i] == self.possible_colors@[i],
            decreases len - pc@.len(),
        {
            let i = pc.len();
            pc.push(self.possible_colors[i]);
        }
        proof {
            assert(pc@ =~= self.possible_colors@);
        }
        ColorMap { possible_colors: pc, regions: self.regions }
    }

    /// Every color `self` still allows is also allowed by `other`: `self`'s
    /// domains lie within `other`'s.
    pub open spec fn within(self, other: ColorMap) -> bool {
        &&& self.spec_regions() == other.spec_regions()
        &&& forall|r: int|
            0 <= r < self.spec_regions() ==> (#[trigger] self.spec_at(r)) & !other.spec_at(r)
                == 0
    }

    /// `self` and `other` give every region the same domain.
    pub open spec fn same_domains(self, other: ColorMap) -> bool {
        &&& self.spec_regions() == other.spec_regions()
        &&& forall|r: int|
            0 <= r < self.spec_regions() ==> (#[trigger] self.spec_at(r)) == other.spec_at(r)
    }

    /// The domains are at a propagation fixpoint: every region fixed to a
    /// single color already has that color removed from all its neighbors.
    pub open spec fn propagated(self, m: RegionMap) -> bool {
        forall|i: int, k: int|
            0 <= i < self.spec_regions() && singleton(self.spec_at(i)) && 0 <= k
                < m.regions@[i].neighbors@.len() ==> self.spec_at(i) & self.spec_at(
                #[trigger] m.regions@[i].neighbors@[k] as int,
            ) == 0
    }

    /// `self` is a valid coloring of `m`: every region's domain is resolved
    /// to exactly one color, and adjacent regions never share their color.
    pub open spec fn is_solution(self, m: RegionMap) -> bool {
        &&& self.spec_regions() == m.n_regions()
        &&& forall|r: int| 0 <= r < self.spec_regions() ==> singleton(#[trigger] self.spec_at(r))
        &&& forall|i: int, j: int|
            0 <= i < m.n_regions() && 0 <= j < m.n_regions() && #[trigger] m.adj(i, j)
                ==> self.spec_at(i) & self.spec_at(j) == 0
    }

    /// Tightens the domains to a fixpoint: whenever a region's domain holds a
    /// single color, that color is removed from every neighbor's domain, until
    /// a full pass changes nothing.  Reports whether the coloring is solved,
    /// infeasible, or still undecided; domains only ever shrink.
    fn remove_conflicts(&mut self, map: &RegionMap) -> (r: SolutionState)
        requires
            old(self).wf(),
            old(self).spec_regions() == map.n_regions(),
            map.wf_adjacency(),
        ensures
            final(self).wf(),
            final(self).spec_regions() == old(self).spec_regions(),
            forall|r0: int|
                0 <= r0 < final(self).spec_regions() ==> (#[trigger] final(self).spec_at(r0))
                    & !old(self).spec_at(r0) == 0,
            r is Solved ==> final(self).is_solution(*map),
            r is Unknown ==> forall|r0: int|
                0 <= r0 < final(self).spec_regions() ==> (#[trigger] final(self).spec_at(r0)) != 0,
            r is Unknown ==> exists|r0: int|
                0 <= r0 < final(self).spec_regions() && nbits(#[trigger] final(self).spec_at(r0))
                    >= 2,
            forall|cm: ColorMap|
                #![trigger cm.within(*old(self))]
                cm.wf() && cm.is_solution(*map) && cm.within(*old(self)) ==> cm.within(
                    *final(self),
                ),
            r is CannotSolve ==> forall|cm: ColorMap|
                #![trigger cm.within(*old(self))]
                !(cm.wf() && cm.is_solution(*map) && cm.within(*old(self))),
            !(r is CannotSolve) ==> final(self).propagated(*map),
    {
        let n = self.regions;
        proof {
            assert forall|r0: int| 0 <= r0 < n implies (#[trigger] self.spec_at(r0)) & !old(
                self,
            ).spec_at(r0) == 0 by {
                let d = self.spec_at(r0);
                assert(d & !d == 0) by (bit_vector);
            }
        }
        loop
            invariant
                self.wf(),
                n as int == self.spec_regions(),
                n as int == old(self).spec_regions(),
                self.spec_regions() == map.n_regions(),
                map.wf_adjacency(),
                forall|r0: int|
                    0 <= r0 < n ==> (#[trigger] self.spec_at(r0)) & !old(self).spec_at(r0) == 0,
                forall|cm: ColorMap|
                    #![trigger cm.within(*old(self))]
                    cm.wf() && cm.is_solution(*map) && cm.within(*old(self)) ==> cm.within(
                        *self,
                    ),
            decreases sum_bits_to(*self, n as int),
        {
            let ghost snap: ColorMap = *self;
            let mut stalled = true;
            let mut solved = true;
            let mut rid: usize = 0;
            while rid < n
                invariant
                    self.wf(),
                    n as int == self.spec_regions(),
                    n as int == old(self).spec_regions(),
                    self.spec_regions() == map.n_regions(),
                    map.wf_adjacency(),
                    rid <= n,
                    forall|r0: int|
                        0 <= r0 < n ==> (#[trigger] self.spec_at(r0)) & !old(self).spec_at(r0)
                            == 0,
                    stalled ==> forall|r0: int|
                        0 <= r0 < n ==> (#[trigger] self.spec_at(r0)) == snap.spec_at(r0),
                    stalled ==> forall|r0: int|
                        0 <= r0 < rid ==> (#[trigger] self.spec_at(r0)) != 0,
                    stalled && solved ==> forall|r0: int|
                        0 <= r0 < rid ==> singleton(#[trigger] self.spec_at(r0)),
                    stalled ==> forall|r0: int, k: int|
                        0 <= r0 < rid && singleton(self.spec_at(r0)) && 0 <= k
                            < map.regions@[r0].neighbors@.len() ==> self.spec_at(r0)
                            & self.spec_at(#[trigger] map.regions@[r0].neighbors@[k] as int)
                            == 0,
                    stalled && !solved ==> exists|r0: int|
                        0 <= r0 < rid && nbits(#[trigger] self.spec_at(r0)) >= 2,
                    !stalled ==> sum_bits_to(*self, n as int) < sum_bits_to(snap, n as int),
                    forall|cm: ColorMap|
                        #![trigger cm.within(*old(self))]
                        cm.wf() && cm.is_solution(*map) && cm.within(*old(self)) ==> cm.within(
                            *self,
                        ),
                decreases n - rid,
            {
                let c = self.at(rid);
                if c == 0 {
                    proof {
                        assert forall|cm: ColorMap|
                            #![trigger cm.within(*old(self))]
                            cm.wf() && cm.is_solution(*map) && cm.within(
                                *old(self),
                            ) implies false by {
                            assert(cm.within(*self));
                            let a = cm.spec_at(rid as int);
                            assert(singleton(a));
                            assert(a & !self.spec_at(rid as int) == 0);
                            assert(!(singleton(a) && a & !0u8 == 0)) by (bit_vector);
                        }
                    }
                    return SolutionState::CannotSolve;
                }
                let csize = domain_len(c);
                if csize != 1 {
                    solved = false;
                    proof {
                        assert((c <= 15 && c != 0 && nbits(c) != 1) ==> nbits(c) >= 2)
                            by (bit_vector);
                        assert((c <= 15 && nbits(c) != 1) ==> !singleton(c)) by (bit_vector);
                    }
                } else {
                    let nb_len = map.regions[rid].neighbors.len();
                    let mut k: usize = 0;
                    while k < nb_len
                        invariant
                            self.wf(),
                            n as int == self.spec_regions(),
                            n as int == old(self).spec_regions(),
                            self.spec_regions() == map.n_regions(),
                            map.wf_adjacency(),
                            rid < n,
                            k <= nb_len,
                            nb_len == map.regions@[rid as int].neighbors@.len(),
                            c <= 15,
                            nbits(c) == 1,
                            forall|r0: int|
                                0 <= r0 < n ==> (#[trigger] self.spec_at(r0)) & !old(
                                    self,
                                ).spec_at(r0) == 0,
                            stalled ==> forall|r0: int|
                                0 <= r0 < n ==> (#[trigger] self.spec_at(r0)) == snap.spec_at(
                                    r0,
                                ),
                            self.spec_at(rid as int) == c,
                            stalled ==> forall|r0: int|
                                0 <= r0 < rid ==> (#[trigger] self.spec_at(r0)) != 0,
                            stalled && solved ==> forall|r0: int|
                                0 <= r0 < rid ==> singleton(#[trigger] self.spec_at(r0)),
                            stalled ==> forall|r0: int, kk: int|
                                0 <= r0 < rid && singleton(self.spec_at(r0)) && 0 <= kk
                                    < map.regions@[r0].neighbors@.len() ==> self.spec_at(r0)
                                    & self.spec_at(
                                    #[trigger] map.regions@[r0].neighbors@[kk] as int,
                                ) == 0,
                            forall|cm: ColorMap|
                                #![trigger cm.within(*old(self))]
                                cm.wf() && cm.is_solution(*map) && cm.within(*old(self))
                                    ==> cm.within(*self),
                            stalled ==> forall|kk: int|
                                0 <= kk < k ==> c & self.spec_at(
                                    #[trigger] map.regions@[rid as int].neighbors@[kk] as int,
                                ) == 0,
                            stalled && !solved ==> exists|r0: int|
                                0 <= r0 < rid && nbits(#[trigger] self.spec_at(r0)) >= 2,
                            !stalled ==> sum_bits_to(*self, n as int) < sum_bits_to(
                                snap,
                                n as int,
                            ),
                        decreases nb_len - k,
                    {
                        let neigh = map.regions[rid].neighbors[k];
                        let old_d = self.at(neigh);
                        let new_d = old_d & !c;
                        proof {
                            assert((old_d & !c) <= 15 && (old_d & !c) & !old_d == 0 && ((old_d
                                & !c) == old_d ==> c & old_d == 0)) by (bit_vector)
                                requires
                                    old_d <= 15,
                            ;
                        }
                        let ghost before: ColorMap = *self;
                        self.set(neigh, new_d);
                        proof {
                            let nn = n as int;
                            lemma_sum_update(before, *self, neigh as int, nn);
                            lemma_subset_nbits(new_d, old_d);
                            assert((c <= 15 && nbits(c) == 1) ==> singleton(c)) by (bit_vector);
                            assert forall|cm: ColorMap|
                                #![trigger cm.within(*old(self))]
                                cm.wf() && cm.is_solution(*map) && cm.within(
                                    *old(self),
                                ) implies cm.within(*self) by {
                                assert(cm.within(before));
                                let ar = cm.spec_at(rid as int);
                                let an = cm.spec_at(neigh as int);
                                assert(singleton(ar));
                                assert(ar & !before.spec_at(rid as int) == 0);
                                lemma_singleton_within(ar, c);
                                assert(map.regions@[rid as int].neighbors@[k as int] == neigh);
                                assert(map.regions@[rid as int].neighbors@.contains(neigh));
                                assert(map.adj(rid as int, neigh as int));
                                assert(ar & an == 0);
                                lemma_and_comm(an, c);
                                assert(an & !before.spec_at(neigh as int) == 0);
                                lemma_step_keeps(an, old_d, c);
                                assert forall|r: int|
                                    0 <= r < cm.spec_regions() implies (#[trigger] cm.spec_at(
                                    r,
                                )) & !self.spec_at(r) == 0 by {
                                    if r != neigh {
                                        assert(self.spec_at(r) == before.spec_at(r));
                                    }
                                }
                            }
                            if stalled {
                                lemma_sum_congruent(before, snap, nn);
                            }
                            if old_d == new_d {
                                assert forall|r0: int| 0 <= r0 < n implies (
                                #[trigger] self.spec_at(r0)) == before.spec_at(r0) by {}
                                lemma_sum_congruent(before, *self, nn);
                            }
                            assert forall|r0: int| 0 <= r0 < n implies (#[trigger] self.spec_at(
                                r0,
                            )) & !old(self).spec_at(r0) == 0 by {
                                if r0 == neigh {
                                    let orig = old(self).spec_at(r0);
                                    assert(((old_d & !c) & !old_d == 0 && old_d & !orig == 0)
                                        ==> (old_d & !c) & !orig == 0) by (bit_vector);
                                }
                            }
                        }
                        if old_d != new_d {
                            stalled = false;
                            solved = false;
                        }
                        k += 1;
                    }
                    proof {
                        if stalled {
                            assert forall|r0: int, kk: int|
                                0 <= r0 < rid + 1 && singleton(self.spec_at(r0)) && 0 <= kk
                                    < map.regions@[r0].neighbors@.len() implies self.spec_at(r0)
                                & self.spec_at(
                                #[trigger] map.regions@[r0].neighbors@[kk] as int,
                            ) == 0 by {
                                if r0 == rid {
                                    let j = map.regions@[r0].neighbors@[kk] as int;
                                    lemma_and_comm(c, self.spec_at(j));
                                }
                            }
                        }
                        assert((c <= 15 && nbits(c) == 1) ==> singleton(c)) by (bit_vector);
                    }
                }
                rid += 1;
            }
            if stalled {
                if solved {
                    return SolutionState::Solved;
                } else {
                    return SolutionState::Unknown;
                }
            }
            proof {
                lemma_sum_nonneg(*self, n as int);
            }
        }
    }

    /// Sets the domain of region `rid` to `v`, leaving every other domain
    /// unchanged.
    pub fn set(&mut self, rid: RegionId, v: u8)
        requires
            old(self).wf(),
            rid < old(self).spec_regions(),
            v <= 0xf,
        ensures
            final(self).wf(),
            final(self).spec_regions() == old(self).spec_regions(),
            final(self).spec_at(rid as int) == v,
            forall|r: int|
                0 <= r < final(self).spec_regions() && r != rid ==> final(self).spec_at(r) == old(
                    self,
                ).spec_at(r),
    {
        let old_b = self.possible_colors[rid / 2];
        let pcs: u8 = if rid % 2 == 1 {
            (v << 4) | (old_b & 0xf)
        } else {
            (old_b & 0xf0) | (v & 0xf)
        };
        self.possible_colors.set(rid / 2, pcs);
        proof {
            let vv = v;
            let ob = old_b;
            assert(vv <= 0xf ==> ((vv << 4) | (ob & 0xf)) >> 4 == vv) by (bit_vector);
            assert(vv <= 0xf ==> ((vv << 4) | (ob & 0xf)) & 0xf == ob & 0xf) by (bit_vector);
            assert(vv <= 0xf ==> ((ob & 0xf0) | (vv & 0xf)) & 0xf == vv) by (bit_vector);
            assert(((ob & 0xf0) | (vv & 0xf)) >> 4 == ob >> 4) by (bit_vector);
            assert forall|r: int|
                0 <= r < self.spec_regions() && r != rid implies self.spec_at(r) == old(
                self,
            ).spec_at(r) by {
                if r / 2 != rid / 2 {
                    assert(self.possible_colors@[r / 2] == old(self).possible_colors@[r / 2]);
                } else {
                    assert(r % 2 != rid as int % 2);
                }
            }
        }
    }
}

/// Two adjacent regions of a solved coloring never resolve to the same color.
pub proof fn lemma_solution_adjacent_distinct(cm: ColorMap, m: RegionMap, i: int, j: int)
    requires
        cm.is_solution(m),
        0 <= i < m.n_regions(),
        0 <= j < m.n_regions(),
        m.adj(i, j),
    ensures
        cm.spec_at(i) != cm.spec_at(j),
{
    let a = cm.spec_at(i);
    let b = cm.spec_at(j);
    assert((singleton(a) && a & b == 0) ==> a != b) by (bit_vector);
}

/// The backtracking search over candidate colorings: an explicit stack of
/// [`ColorMap`] nodes awaiting propagation.  Each [`SolutionIter::next`] call
/// resumes where the stack left off and pops, propagates and branches until
/// it either yields a solution of the map or exhausts the stack.
pub struct SolutionIter<'m> {
    stack: Vec<ColorMap>,
    map: &'m RegionMap,
}

impl<'m> SolutionIter<'m> {
    /// The region map this search enumerates the colorings of.
    pub closed spec fn spec_map(self) -> RegionMap {
        *self.map
    }

    /// No candidate is left to explore: the enumeration has ended.
    pub closed spec fn is_exhausted(self) -> bool {
        self.stack@.len() == 0
    }

    /// Some pending search node still admits the coloring `cm`: `cm`'s
    /// domains lie within that node's domains.
    pub closed spec fn covers(self, cm: ColorMap) -> bool {
        exists|i: int| 0 <= i < self.stack@.len() && cm.within(#[trigger] self.stack@[i])
    }

    /// The search is fresh: one pending node, giving every region all four
    /// colors.
    pub closed spec fn fresh(self, m: RegionMap) -> bool {
        &&& self.stack@.len() == 1
        &&& self.stack@[0].wf()
        &&& self.stack@[0].spec_regions() == m.n_regions()
        &&& forall|r: int| 0 <= r < m.n_regions() ==> self.stack@[0].spec_at(r) == 0xf
    }

    /// Every pending node covers the map's regions, and the map's adjacency
    /// lists are valid.
    pub closed spec fn wf(self) -> bool {
        &&& self.map.wf_adjacency()
        &&& forall|i: int|
            0 <= i < self.stack@.len() ==> (#[trigger] self.stack@[i]).wf()
                && self.stack@[i].spec_regions() == self.map.n_regions()
    }

    /// Starts a fresh search over `map`, rooted in the single node in which
    /// all four colors are still possible for every region.
    pub fn new(map: &'m RegionMap) -> (it: SolutionIter<'m>)
        requires
            map.wf_adjacency(),
        ensures
            it.wf(),
            it.spec_map() == *map,
            !it.is_exhausted(),
            it.fresh(*map),
            forall|cm: ColorMap|
                #![trigger cm.spec_regions()]
                cm.wf() && cm.spec_regions() == map.n_regions() ==> it.covers(cm),
    {
        let nregions = map.regions.len();
        let len = nregions / 2 + nregions % 2;
        let mut cm: Vec<u8> = Vec::new();
        while cm.len() < len
            invariant
                cm@.len() <= len,
                forall|i: int| 0 <= i < cm@.len() ==> cm@[i] == 0xff,
            decreases len - cm@.len(),
        {
            cm.push(0xff);
        }
        let root = ColorMap { possible_colors: cm, regions: nregions };
        proof {
            assert forall|r: int| 0 <= r < nregions implies root.spec_at(r) == 0xf by {
                assert(0xffu8 >> 4 == 0xf && 0xffu8 & 0xf == 0xf) by (bit_vector);
            }
        }
        let mut stack: Vec<ColorMap> = Vec::new();
        stack.push(root);
        let it = SolutionIter { stack, map };
        proof {
            assert forall|c: ColorMap|
                c.wf() && c.spec_regions() == map.n_regions() implies it.covers(c) by {
                assert forall|r: int|
                    0 <= r < c.spec_regions() implies (#[trigger] c.spec_at(r)) & !root.spec_at(
                    r,
                ) == 0 by {
                    lemma_at_bounded(c, r);
                    let a = c.spec_at(r);
                    assert(a <= 15 ==> a & !0xfu8 == 0) by (bit_vector);
                }
                assert(c.within(it.stack@[0]));
            }
        }
        it
    }

    /// Duplicates `cm`, collapses the duplicate's domain for `rid` to the
    /// single color `mask`, and pushes it as a new search node.
    fn branch_push(&mut self, cm: &ColorMap, rid: RegionId, mask: u8)
        requires
            old(self).wf(),
            cm.wf(),
            cm.spec_regions() == old(self).spec_map().n_regions(),
            rid < cm.spec_regions(),
            mask <= 15,
            nbits(mask) == 1,
        ensures
            final(self).wf(),
            final(self).spec_map() == old(self).spec_map(),
            stack_measure(final(self).stack@) == stack_measure(old(self).stack@) + pow5(
                sum_bits(*cm) - nbits(cm.spec_at(rid as int)) + 1,
            ),
            final(self).stack@.len() == old(self).stack@.len() + 1,
            final(self).stack@.subrange(0, old(self).stack@.len() as int) == old(self).stack@,
            final(self).stack@.last().wf(),
            final(self).stack@.last().spec_regions() == cm.spec_regions(),
            final(self).stack@.last().spec_at(rid as int) == mask,
            forall|r: int|
                0 <= r < cm.spec_regions() && r != rid ==> final(self).stack@.last().spec_at(r)
                    == cm.spec_at(r),
    {
        let mut child = cm.duplicate();
        child.set(rid, mask);
        proof {
            lemma_sum_update(*cm, child, rid as int, cm.spec_regions());
            lemma_stack_measure_push(self.stack@, child);
        }
        self.stack.push(child);
        proof {
            assert(self.stack@.subrange(0, self.stack@.len() - 1) =~= old(self).stack@);
        }
    }

    /// Pops, propagates and branches until a node solves the map (which is
    /// then returned) or the stack runs out (no further solution exists down
    /// any pending branch).
    pub fn next(&mut self) -> (r: Option<ColorMap>)
        requires
            old(self).wf(),
        ensures
            final(self).wf(),
            final(self).spec_map() == old(self).spec_map(),
            r matches Some(cm) ==> cm.wf() && cm.is_solution(old(self).spec_map()),
            r is None ==> final(self).is_exhausted(),
            old(self).is_exhausted() ==> r is None,
            r is None ==> forall|cm: ColorMap|
                #![trigger old(self).covers(cm)]
                !(cm.wf() && cm.is_solution(old(self).spec_map()) && old(self).covers(cm)),
            forall|cm: ColorMap|
                #![trigger old(self).covers(cm)]
                cm.wf() && cm.is_solution(old(self).spec_map()) && old(self).covers(cm) ==> (
                final(self).covers(cm) || (r matches Some(s) && cm.same_domains(s))),
    {
        loop
            invariant
                self.wf(),
                self.spec_map() == old(self).spec_map(),
                old(self).is_exhausted() ==> self.is_exhausted(),
                forall|cm: ColorMap|
                    #![trigger old(self).covers(cm)]
                    cm.wf() && cm.is_solution(old(self).spec_map()) && old(self).covers(cm)
                        ==> self.covers(cm),
            decreases stack_measure(self.stack@),
        {
            let ghost s0 = self.stack@;
            let popped = self.stack.pop();
            let mut color_map = match popped {
                Some(c) => c,
                None => {
                    proof {
                        assert forall|cm: ColorMap|
                            #![trigger old(self).covers(cm)]
                            cm.wf() && cm.is_solution(old(self).spec_map()) && old(
                                self,
                            ).covers(cm) implies false by {
                            assert(self.covers(cm));
                        }
                    }
                    return None;
                },
            };
            proof {
                assert(s0.subrange(0, s0.len() - 1) =~= s0.drop_last());
                lemma_stack_measure_nonneg(self.stack@);
                lemma_pow5_pos(sum_bits(s0.last()));
            }
            let ghost popped0 = color_map;
            let m_ref = self.map;
            let state = color_map.remove_conflicts(m_ref);
            match state {
                SolutionState::Solved => {
                    proof {
                        assert forall|cm: ColorMap|
                            #![trigger old(self).covers(cm)]
                            cm.wf() && cm.is_solution(old(self).spec_map()) && old(
                                self,
                            ).covers(cm) implies (self.covers(cm) || cm.same_domains(
                            color_map,
                        )) by {
                            let i = choose|i: int| 0 <= i < s0.len() && cm.within(#[trigger] s0[i]);
                            if i < s0.len() - 1 {
                                assert(self.stack@[i] == s0[i]);
                                assert(cm.within(self.stack@[i]));
                                assert(self.covers(cm));
                            } else {
                                assert(cm.within(popped0));
                                assert(cm.within(color_map));
                                assert forall|r: int|
                                    0 <= r < cm.spec_regions() implies (#[trigger] cm.spec_at(
                                    r,
                                )) == color_map.spec_at(r) by {
                                    lemma_singleton_within(
                                        cm.spec_at(r),
                                        color_map.spec_at(r),
                                    );
                                }
                                assert(cm.same_domains(color_map));
                            }
                        }
                    }
                    return Some(color_map);
                },
                SolutionState::CannotSolve => {
                    proof {
                        assert forall|cm: ColorMap|
                            #![trigger old(self).covers(cm)]
                            cm.wf() && cm.is_solution(old(self).spec_map()) && old(
                                self,
                            ).covers(cm) implies self.covers(cm) by {
                            let i = choose|i: int| 0 <= i < s0.len() && cm.within(#[trigger] s0[i]);
                            if i < s0.len() - 1 {
                                assert(self.stack@[i] == s0[i]);
                                assert(cm.within(self.stack@[i]));
                            } else {
                                assert(cm.within(popped0));
                                assert(false);
                            }
                        }
                    }
                },
                SolutionState::Unknown => {
                    proof {
                        assert forall|r0: int|
                            0 <= r0 < color_map.spec_regions() implies nbits(
                            color_map.spec_at(r0),
                        ) <= nbits(popped0.spec_at(r0)) by {
                            lemma_at_bounded(popped0, r0);
                            lemma_at_bounded(color_map, r0);
                            lemma_subset_nbits(color_map.spec_at(r0), popped0.spec_at(r0));
                        }
                        lemma_sum_le(color_map, popped0, color_map.spec_regions());
                    }
                    // pick the region with the fewest remaining colors (at
                    // least two) to branch on; ties go to the lowest id
                    let n = color_map.num_regions();
                    let mut best: usize = 0;
                    let mut best_len: u8 = 0;
                    let mut found = false;
                    let mut rid: usize = 0;
                    while rid < n
                        invariant
                            color_map.wf(),
                            n as int == color_map.spec_regions(),
                            rid <= n,
                            found ==> best < n && best_len as int == nbits(
                                color_map.spec_at(best as int),
                            ) && best_len != 1,
                            !found ==> forall|r0: int|
                                0 <= r0 < rid ==> nbits(#[trigger] color_map.spec_at(r0)) == 1,
                        decreases n - rid,
                    {
                        let l = domain_len(color_map.at(rid));
                        if l != 1 && (!found || l < best_len) {
                            found = true;
                            best = rid;
                            best_len = l;
                        }
                        rid += 1;
                    }
                    proof {
                        if !found {
                            let r0 = choose|r0: int|
                                0 <= r0 < color_map.spec_regions() && nbits(
                                    #[trigger] color_map.spec_at(r0),
                                ) >= 2;
                            assert(false);
                        }
                    }
                    let pcs = color_map.at(best);
                    proof {
                        assert((pcs <= 15 && pcs != 0 && nbits(pcs) != 1) ==> nbits(pcs) >= 2)
                            by (bit_vector);
                        assert(nbits(8u8) == 1 && nbits(4u8) == 1 && nbits(2u8) == 1 && nbits(
                            1u8,
                        ) == 1) by (bit_vector);
                        lemma_sum_lower(color_map, best as int, color_map.spec_regions());
                        lemma_pow5_mono(
                            sum_bits(color_map) - nbits(pcs) + 1,
                            sum_bits(popped0) - 1,
                        );
                        lemma_pow5_pos(sum_bits(popped0) - 1);
                    }
                    let ghost mid = self.stack@;
                    // push the four candidate colors, highest bit first, so
                    // they are explored lowest bit first
                    if pcs & 8 != 0 {
                        self.branch_push(&color_map, best, 8);
                    }
                    let ghost m8 = self.stack@;
                    if pcs & 4 != 0 {
                        self.branch_push(&color_map, best, 4);
                    }
                    let ghost m4 = self.stack@;
                    if pcs & 2 != 0 {
                        self.branch_push(&color_map, best, 2);
                    }
                    let ghost m2 = self.stack@;
                    if pcs & 1 != 0 {
                        self.branch_push(&color_map, best, 1);
                    }
                    proof {
                        lemma_stack_measure_nonneg(self.stack@);
                        // every coloring the popped node admitted is admitted
                        // by the child that fixes its color for `best`
                        assert forall|cm: ColorMap|
                            #![trigger old(self).covers(cm)]
                            cm.wf() && cm.is_solution(old(self).spec_map()) && old(
                                self,
                            ).covers(cm) implies self.covers(cm) by {
                            let i = choose|i: int| 0 <= i < s0.len() && cm.within(#[trigger] s0[i]);
                            if i < s0.len() - 1 {
                                assert(mid[i] == s0[i]);
                                lemma_prefix_step(mid, m8, i);
                                lemma_prefix_step(m8, m4, i);
                                lemma_prefix_step(m4, m2, i);
                                lemma_prefix_step(m2, self.stack@, i);
                                assert(cm.within(self.stack@[i]));
                                assert(self.covers(cm));
                            } else {
                                assert(cm.within(popped0));
                                assert(cm.within(color_map));
                                let ab = cm.spec_at(best as int);
                                assert(singleton(ab));
                                assert(ab & !pcs == 0);
                                assert((singleton(ab) && ab & !pcs == 0) ==> ((ab == 8 && pcs
                                    & 8 != 0) || (ab == 4 && pcs & 4 != 0) || (ab == 2 && pcs
                                    & 2 != 0) || (ab == 1 && pcs & 1 != 0))) by (bit_vector);
                                assert(ab & !ab == 0) by (bit_vector);
                                if ab == 8 {
                                    let idx = m8.len() - 1;
                                    lemma_prefix_step(m8, m4, idx);
                                    lemma_prefix_step(m4, m2, idx);
                                    lemma_prefix_step(m2, self.stack@, idx);
                                    assert(self.stack@[idx] == m8.last());
                                    assert(cm.within(self.stack@[idx]));
                                } else if ab == 4 {
                                    let idx = m4.len() - 1;
                                    lemma_prefix_step(m4, m2, idx);
                                    lemma_prefix_step(m2, self.stack@, idx);
                                    assert(self.stack@[idx] == m4.last());
                                    assert(cm.within(self.stack@[idx]));
                                } else if ab == 2 {
                                    let idx = m2.len() - 1;
                                    lemma_prefix_step(m2, self.stack@, idx);
                                    assert(self.stack@[idx] == m2.last());
                                    assert(cm.within(self.stack@[idx]));
                                } else {
                                    let idx = self.stack@.len() - 1;
                                    assert(cm.within(self.stack@[idx]));
                                }
                                assert(self.covers(cm));
                            }
                        }
                    }
                },
            }
        }
    }
}

} // verus!
