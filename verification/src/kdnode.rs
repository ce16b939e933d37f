//! The flat node arena and its builder: cost-driven recursive binary
//! space partitioning.

use vstd::prelude::*;

use crate::aabb::{spec_clip, spec_volume, Vector3, AABB};
use crate::candidate::{
    cand_event_wf, cand_le, cands_wf, has_begin, has_item, sorted_cands, Candidate, Candidates,
    Side,
};
use crate::config::{BuilderConfig, MAX_ITEMS};
use crate::plane::{spec_axis, spec_is_cutting, Dimension, Plane};
use crate::ray::{hits, lemma_mul_le_mono, ray_box_sat};

verus! {

/// One entry of the flat tree arena.
#[derive(Debug)]
pub enum KDTreeNode {
    /// A terminal node holding the indices of its items.
    Leaf {
        /// The indices of the items reachable in this leaf.
        shapes: Vec<usize>,
    },
    /// An internal binary split.
    Node {
        /// Arena index of the left child.
        l_child: usize,
        /// Region of the left child.
        l_space: AABB,
        /// Arena index of the right child.
        r_child: usize,
        /// Region of the right child.
        r_space: AABB,
    },
}

/// Both child indices of a node stay below the arena's length.
pub open spec fn node_bounded(n: KDTreeNode, len: int) -> bool {
    match n {
        KDTreeNode::Leaf { .. } => true,
        KDTreeNode::Node { l_child, r_child, .. } => l_child < len && r_child < len,
    }
}

/// Structural well-formedness of the subtree rooted at `i`: children always
/// stand strictly to the right of their parent, in bounds, with well-formed
/// regions, so every walk down the arena terminates.
pub open spec fn arena_wf(tree: Seq<KDTreeNode>, i: int) -> bool
    decreases tree.len() - i,
{
    0 <= i < tree.len() && match tree[i] {
        KDTreeNode::Leaf { .. } => true,
        KDTreeNode::Node { l_child, r_child, l_space, r_space } => i < l_child && l_child < r_child
            && r_child < tree.len() && l_space.wf() && r_space.wf() && arena_wf(tree, l_child as int)
            && arena_wf(tree, r_child as int),
    }
}

/// The items a pruned depth-first walk from node `i` gathers for the given
/// ray: a child is entered exactly when the slab test accepts its stored
/// region.
pub open spec fn collected(tree: Seq<KDTreeNode>, i: int, o: Vector3, d: Vector3) -> Set<usize>
    decreases tree.len() - i,
{
    if !(0 <= i < tree.len()) {
        Set::empty()
    } else {
        match tree[i] {
            KDTreeNode::Leaf { shapes } => shapes@.to_set(),
            KDTreeNode::Node { l_child, r_child, l_space, r_space } => {
                let left: Set<usize> = if i < l_child && l_child < tree.len() && hits(
                    o,
                    d,
                    l_space,
                ) {
                    collected(tree, l_child as int, o, d)
                } else {
                    Set::empty()
                };
                let right: Set<usize> = if i < r_child && r_child < tree.len() && hits(
                    o,
                    d,
                    r_space,
                ) {
                    collected(tree, r_child as int, o, d)
                } else {
                    Set::empty()
                };
                right.union(left)
            },
        }
    }
}

/// The height of the subtree rooted at `i`: a leaf counts one, an inner
/// node one more than its taller child.
pub open spec fn arena_height(tree: Seq<KDTreeNode>, i: int) -> nat
    decreases tree.len() - i,
{
    if !(0 <= i < tree.len()) {
        0
    } else {
        match tree[i] {
            KDTreeNode::Leaf { .. } => 1,
            KDTreeNode::Node { l_child, r_child, .. } => {
                let hl: nat = if i < l_child && l_child < tree.len() {
                    arena_height(tree, l_child as int)
                } else {
                    0
                };
                let hr: nat = if i < r_child && r_child < tree.len() {
                    arena_height(tree, r_child as int)
                } else {
                    0
                };
                1 + if hl > hr {
                    hl
                } else {
                    hr
                }
            },
        }
    }
}

/// The subtree rooted at `i` occupies exactly the entries `[i, end)` of the
/// arena: the node itself, then the whole left subtree, then the whole
/// right subtree.  In particular every entry belongs to exactly one parent.
pub open spec fn arena_spans(tree: Seq<KDTreeNode>, i: int, end: int) -> bool
    decreases end - i,
{
    0 <= i && i < end && end <= tree.len() && match tree[i] {
        KDTreeNode::Leaf { .. } => end == i + 1,
        KDTreeNode::Node { l_child, r_child, .. } => l_child == i + 1 && i + 1 < r_child && r_child
            < end && arena_spans(tree, i + 1, r_child as int) && arena_spans(
            tree,
            r_child as int,
            end,
        ),
    }
}

/// Every inner node of the subtree rooted at `i` stores exactly the two
/// subregions its own region is split into by some plane cutting it: the
/// children tile the parent region, overlapping only in the cut plane, and
/// never leave it.
pub open spec fn arena_regions(tree: Seq<KDTreeNode>, i: int, region: AABB) -> bool
    decreases tree.len() - i,
{
    0 <= i < tree.len() && match tree[i] {
        KDTreeNode::Leaf { .. } => true,
        KDTreeNode::Node { l_child, l_space, r_child, r_space } => i < l_child && l_child
            < tree.len() && i < r_child && r_child < tree.len() && (exists|p: Plane|
            #[trigger] spec_is_cutting(p, region) && (l_space, r_space) == spec_split(region, p))
            && arena_regions(tree, l_child as int, l_space) && arena_regions(
            tree,
            r_child as int,
            r_space,
        ),
    }
}

/// A node as it reads after its subtree moved `off` places to the right in
/// a larger arena.
pub open spec fn spec_shift_node(n: KDTreeNode, off: int) -> KDTreeNode {
    match n {
        KDTreeNode::Leaf { shapes } => KDTreeNode::Leaf { shapes },
        KDTreeNode::Node { l_child, l_space, r_child, r_space } => KDTreeNode::Node {
            l_child: (l_child + off) as usize,
            l_space,
            r_child: (r_child + off) as usize,
            r_space,
        },
    }
}

impl KDTreeNode {
    /// Move the child indices of this node by `offset`.
    fn move_indices(self, offset: usize) -> (r: KDTreeNode)
        requires
            match self {
                KDTreeNode::Leaf { .. } => true,
                KDTreeNode::Node { l_child, r_child, .. } => l_child + offset <= usize::MAX
                    && r_child + offset <= usize::MAX,
            },
        ensures
            r == spec_shift_node(self, offset as int),
    {
        match self {
            KDTreeNode::Leaf { shapes } => KDTreeNode::Leaf { shapes },
            KDTreeNode::Node { l_child, l_space, r_child, r_space } => KDTreeNode::Node {
                l_child: l_child + offset,
                l_space,
                r_child: r_child + offset,
                r_space,
            },
        }
    }
}

/// Sum of the region's three extents; the builder's termination measure,
/// strictly shrinking at every split.
pub open spec fn extent_sum(space: AABB) -> int {
    (space.max.x - space.min.x) + (space.max.y - space.min.y) + (space.max.z - space.min.z)
}

/// `pos` clamped into `[lo, hi]`.
pub open spec fn spec_clamp(pos: i64, lo: i64, hi: i64) -> i64 {
    if pos < lo {
        lo
    } else if pos > hi {
        hi
    } else {
        pos
    }
}

/// The two subregions of `space` on either side of the plane, the plane's
/// position clamped into the region so a child never leaves its parent.
pub open spec fn spec_split(space: AABB, plane: Plane) -> (AABB, AABB) {
    match plane.dimension {
        Dimension::X => {
            let p = spec_clamp(plane.pos, space.min.x, space.max.x);
            (
                AABB { min: space.min, max: Vector3 { x: p, ..space.max } },
                AABB { min: Vector3 { x: p, ..space.min }, max: space.max },
            )
        },
        Dimension::Y => {
            let p = spec_clamp(plane.pos, space.min.y, space.max.y);
            (
                AABB { min: space.min, max: Vector3 { y: p, ..space.max } },
                AABB { min: Vector3 { y: p, ..space.min }, max: space.max },
            )
        },
        Dimension::Z => {
            let p = spec_clamp(plane.pos, space.min.z, space.max.z);
            (
                AABB { min: space.min, max: Vector3 { z: p, ..space.max } },
                AABB { min: Vector3 { z: p, ..space.min }, max: space.max },
            )
        },
    }
}

/// Split a region into two subregions along a splitting plane.
fn split_space(space: &AABB, splitting_plane: &Plane) -> (r: (AABB, AABB))
    requires
        space.wf(),
    ensures
        (r.0, r.1) == spec_split(*space, *splitting_plane),
        r.0.wf(),
        r.1.wf(),
{
    let mut left = *space;
    let mut right = *space;
    let pos = splitting_plane.pos;
    match splitting_plane.dimension {
        Dimension::X => {
            let p = if pos < space.min.x {
                space.min.x
            } else if pos > space.max.x {
                space.max.x
            } else {
                pos
            };
            right.min.x = p;
            left.max.x = p;
        },
        Dimension::Y => {
            let p = if pos < space.min.y {
                space.min.y
            } else if pos > space.max.y {
                space.max.y
            } else {
                pos
            };
            right.min.y = p;
            left.max.y = p;
        },
        Dimension::Z => {
            let p = if pos < space.min.z {
                space.min.z
            } else if pos > space.max.z {
                space.max.z
            } else {
                pos
            };
            right.min.z = p;
            left.max.z = p;
        },
    }
    (left, right)
}

/// The Surface Area Heuristic cost of one candidate split, exact and scaled:
/// the value is `100 * volume(space)` times the conventional cost
/// `cost_traversal + cost_intersection * (n_l * S_l + n_r * S_r) / S`, with
/// the whole product further multiplied by `(100 - bonus) / 100` when one
/// side is empty.  `None` stands for infinite cost: a plane that does not
/// cut the region, or a region of zero volume.
pub open spec fn spec_cost(
    config: BuilderConfig,
    plane: Plane,
    space: AABB,
    n_left: int,
    n_right: int,
) -> Option<int> {
    if !spec_is_cutting(plane, space) || spec_volume(space) == 0 {
        None
    } else {
        let (l, r) = spec_split(space, plane);
        let factor: int = if n_left == 0 || n_right == 0 {
            100 - config.spec_empty_cut_bonus()
        } else {
            100
        };
        Some(
            factor * (config.spec_cost_traversal() * spec_volume(space)
                + config.spec_cost_intersection() * (n_left * spec_volume(l) + n_right
                    * spec_volume(r))),
        )
    }
}

/// An executable cost agrees with its specification value.
pub open spec fn cost_matches(r: Option<i128>, s: Option<int>) -> bool {
    match r {
        None => s is None,
        Some(v) => s == Some(v as int),
    }
}

/// The product of two nonnegative bounded values is nonnegative and bounded.
proof fn lemma_mul_nonneg_bound(a: int, b: int, ba: int, bb: int)
    by (nonlinear_arith)
    requires
        0 <= a <= ba,
        0 <= b <= bb,
    ensures
        0 <= a * b <= ba * bb,
{
}

/// Evaluate the Surface Area Heuristic for one candidate plane.
fn cost(
    config: &BuilderConfig,
    plane: &Plane,
    space: &AABB,
    n_left: usize,
    n_right: usize,
) -> (r: Option<i128>)
    requires
        config.wf(),
        space.wf(),
        n_left <= MAX_ITEMS,
        n_right <= MAX_ITEMS,
    ensures
        cost_matches(r, spec_cost(*config, *plane, *space, n_left as int, n_right as int)),
        r matches Some(v) ==> 0 <= v <= 0x1000_0000_0000_0000_0000_0000_0000_0000,
{
    // If the plane does not cut the space, return infinite cost.
    if !plane.is_cutting(space) {
        return None;
    }
    // Compute the volume of the whole space; a degenerate region also has
    // infinite cost, so it degrades into a leaf.
    let surface_space = space.volume();
    if surface_space == 0 {
        return None;
    }
    // Split the space and compute the volume of both subspaces.
    let (space_left, space_right) = split_space(space, plane);
    let surface_left = space_left.volume();
    let surface_right = space_right.volume();

    let nl = n_left as i128;
    let nr = n_right as i128;
    let sl = surface_left as i128;
    let sr = surface_right as i128;
    let s = surface_space as i128;
    let ct = config.cost_traversal() as i128;
    let ci = config.cost_intersection() as i128;
    proof {
        lemma_mul_nonneg_bound(nl as int, sl as int, 1_000_000_000, 0x7000_0000_0000_0000);
        lemma_mul_nonneg_bound(nr as int, sr as int, 1_000_000_000, 0x7000_0000_0000_0000);
        lemma_mul_nonneg_bound(ct as int, s as int, 1_000_000, 0x7000_0000_0000_0000);
        lemma_mul_nonneg_bound(
            ci as int,
            (nl * sl + nr * sr) as int,
            1_000_000,
            0x1_0000_0000_0000_0000_0000_0000,
        );
    }
    let weighted: i128 = nl * sl + nr * sr;
    let raw: i128 = ct * s + ci * weighted;
    // Decrease the cost when the split cuts off an empty subspace.
    let factor: i128 = if n_left == 0 || n_right == 0 {
        (100 - config.empty_cut_bonus()) as i128
    } else {
        100
    };
    proof {
        lemma_mul_nonneg_bound(
            factor as int,
            raw as int,
            100,
            0x20_0000_0000_0000_0000_0000_0000_0000,
        );
    }
    Some(factor * raw)
}

/// Number of events among `cs[0 .. k]` on axis `dim` that are begin events
/// (`begin == true`) or end events (`begin == false`).
pub open spec fn count_events(cs: Seq<Candidate>, dim: Dimension, begin: bool, k: int) -> nat
    decreases k,
{
    if k <= 0 {
        0nat
    } else {
        count_events(cs, dim, begin, k - 1) + if 0 <= k - 1 < cs.len() && cs[k - 1].plane.dimension
            == dim && cs[k - 1].is_left == begin {
            1nat
        } else {
            0nat
        }
    }
}

/// The sweep's left-side count at candidate `i`: begin events on the
/// candidate's axis strictly before it, clamped at the declared item count.
pub open spec fn n_l_at(cs: Seq<Candidate>, n: int, i: int) -> int {
    let e = count_events(cs, cs[i].plane.dimension, true, i) as int;
    if e > n {
        n
    } else {
        e
    }
}

/// The sweep's right-side count at candidate `i`: the declared item count
/// less the end events on the candidate's axis at or before it, clamped at
/// zero.
pub open spec fn n_r_at(cs: Seq<Candidate>, n: int, i: int) -> int {
    let e = count_events(cs, cs[i].plane.dimension, false, i + 1) as int;
    if e > n {
        0
    } else {
        n - e
    }
}

/// The cost the sweep evaluates at candidate `i`.
pub open spec fn cost_at(
    config: BuilderConfig,
    space: AABB,
    cs: Seq<Candidate>,
    n: int,
    i: int,
) -> Option<int> {
    spec_cost(config, cs[i].plane, space, n_l_at(cs, n, i), n_r_at(cs, n, i))
}

/// Is `c` at most the other cost, where `None` stands for infinity?
pub open spec fn opt_cost_le(c: int, o: Option<int>) -> bool {
    match o {
        None => true,
        Some(v) => c <= v,
    }
}

/// The items of one leaf, read off the candidate list: the shape of every
/// begin event on the first axis, in list order.  Every item contributes
/// exactly one such event, so this enumerates each item of the list once.
pub open spec fn leaf_items_of(cs: Seq<Candidate>) -> Seq<usize>
    decreases cs.len(),
{
    if cs.len() == 0 {
        Seq::empty()
    } else {
        let rest = leaf_items_of(cs.drop_last());
        if cs.last().is_left && cs.last().plane.dimension == Dimension::X {
            rest.push(cs.last().shape)
        } else {
            rest
        }
    }
}

/// The leaf policy: splitting is pointless when every candidate's cost
/// exceeds the cost of intersecting all the node's items, both sides
/// scaled by `100 * volume(space)`.
pub open spec fn splitting_too_costly(
    config: BuilderConfig,
    space: AABB,
    cs: Seq<Candidate>,
    n: int,
) -> bool {
    forall|j: int|
        0 <= j < cs.len() ==> match #[trigger] cost_at(config, space, cs, n, j) {
            None => true,
            Some(c) => c > config.spec_cost_intersection() * n * 100 * spec_volume(space),
        }
}

/// Compute the best splitting candidate in one sweep over the sorted list.
///
/// Returns the minimal cost (`None` when every candidate has infinite
/// cost), the index of a candidate attaining it, and the item counts of the
/// two sides at that candidate.
fn partition(config: &BuilderConfig, n: usize, space: &AABB, candidates: &Candidates) -> (r: (
    Option<i128>,
    usize,
    usize,
    usize,
))
    requires
        config.wf(),
        space.wf(),
        n <= MAX_ITEMS,
    ensures
        r.1 <= candidates@.len(),
        candidates@.len() > 0 ==> r.1 < candidates@.len(),
        r.2 <= n,
        r.3 <= n,
        r.0 is None ==> forall|j: int|
            0 <= j < candidates@.len() ==> cost_at(
                *config,
                *space,
                candidates@,
                n as int,
                j,
            ) is None,
        r.0 matches Some(c) ==> {
            &&& r.1 < candidates@.len()
            &&& cost_at(*config, *space, candidates@, n as int, r.1 as int) == Some(c as int)
            &&& r.2 == n_l_at(candidates@, n as int, r.1 as int)
            &&& r.3 == n_r_at(candidates@, n as int, r.1 as int)
            &&& forall|j: int|
                0 <= j < candidates@.len() ==> opt_cost_le(
                    c as int,
                    cost_at(*config, *space, candidates@, n as int, j),
                )
        },
{
    let ghost cs = candidates@;
    let mut best_cost: Option<i128> = None;
    let mut best_index: usize = 0;
    let mut best_n_l: usize = 0;
    let mut best_n_r: usize = n;

    // Running per-axis counts of items to the left of, and remaining to the
    // right of, the sweep position.
    let mut n_l = Dimension::get_map(0usize);
    let mut n_r = Dimension::get_map(n);

    let mut i: usize = 0;
    while i < candidates.len()
        invariant
            config.wf(),
            space.wf(),
            n <= MAX_ITEMS,
            cs == candidates@,
            i <= cs.len(),
            forall|dm: Dimension|
                (#[trigger] n_l.spec_get(dm)) as int == {
                    let e = count_events(cs, dm, true, i as int) as int;
                    if e > n as int {
                        n as int
                    } else {
                        e
                    }
                },
            forall|dm: Dimension|
                (#[trigger] n_r.spec_get(dm)) as int == {
                    let e = count_events(cs, dm, false, i as int) as int;
                    if e > n as int {
                        0
                    } else {
                        n as int - e
                    }
                },
            best_index <= i,
            best_n_l <= n,
            best_n_r <= n,
            i > 0 ==> best_index < i,
            best_cost is None ==> best_index == 0 && best_n_l == 0 && best_n_r == n,
            best_cost is None ==> forall|j: int|
                0 <= j < i ==> cost_at(*config, *space, cs, n as int, j) is None,
            best_cost matches Some(c) ==> {
                &&& best_index < i
                &&& cost_at(*config, *space, cs, n as int, best_index as int) == Some(c as int)
                &&& best_n_l == n_l_at(cs, n as int, best_index as int)
                &&& best_n_r == n_r_at(cs, n as int, best_index as int)
                &&& forall|j: int|
                    0 <= j < i ==> opt_cost_le(c as int, cost_at(*config, *space, cs, n as int, j))
            },
        decreases candidates.len() - i,
    {
        let c = candidates[i];
        let dim = c.dimension();

        // A right (end) event first removes its item from the right side.
        if c.is_right() {
            let v = n_r.get(dim);
            n_r.set(dim, if v > 0 { v - 1 } else { 0 });
            proof {
                assert(count_events(cs, dim, false, i as int + 1) == count_events(
                    cs,
                    dim,
                    false,
                    i as int,
                ) + 1);
            }
        } else {
            proof {
                assert(count_events(cs, dim, false, i as int + 1) == count_events(
                    cs,
                    dim,
                    false,
                    i as int,
                ));
            }
        }

        // Evaluate the split at this candidate with the counts that are
        // correct exactly at its position.
        let cost_i = cost(config, &c.plane, space, n_l.get(dim), n_r.get(dim));
        proof {
            assert(count_events(cs, dim, true, i as int) == count_events(cs, dim, true, i as int));
            assert(n_l.spec_get(dim) as int == n_l_at(cs, n as int, i as int));
            assert(n_r.spec_get(dim) as int == n_r_at(cs, n as int, i as int));
        }
        let better = match (cost_i, best_cost) {
            (Some(a), Some(b)) => a < b,
            (Some(_), None) => true,
            (None, _) => false,
        };
        if better {
            best_cost = cost_i;
            best_index = i;
            best_n_l = n_l.get(dim);
            best_n_r = n_r.get(dim);
        }

        // A left (begin) event then adds its item to the left side.
        if c.is_left() {
            let v = n_l.get(dim);
            n_l.set(dim, if v < n { v + 1 } else { v });
            proof {
                assert(count_events(cs, dim, true, i as int + 1) == count_events(
                    cs,
                    dim,
                    true,
                    i as int,
                ) + 1);
            }
        } else {
            proof {
                assert(count_events(cs, dim, true, i as int + 1) == count_events(
                    cs,
                    dim,
                    true,
                    i as int,
                ));
            }
        }
        proof {
            assert forall|dm: Dimension| dm != dim implies count_events(cs, dm, true, i as int + 1)
                == count_events(cs, dm, true, i as int) && count_events(cs, dm, false, i as int + 1)
                == count_events(cs, dm, false, i as int) by {}
        }
        i = i + 1;
    }
    (best_cost, best_index, best_n_l, best_n_r)
}

/// The largest index at most `k` holding an event of item `s` on axis
/// `dim`, or `-1` when there is none.
pub open spec fn last_event_before(cs: Seq<Candidate>, s: usize, dim: Dimension, k: int) -> int
    decreases k + 1,
{
    if k < 0 {
        -1
    } else if 0 <= k < cs.len() && cs[k].shape == s && cs[k].plane.dimension == dim {
        k
    } else {
        last_event_before(cs, s, dim, k - 1)
    }
}

/// Does item `s` have a begin event on axis `dim` at an index in
/// `[lo, hi)`?
pub open spec fn has_begin_between(
    cs: Seq<Candidate>,
    s: usize,
    dim: Dimension,
    lo: int,
    hi: int,
) -> bool {
    exists|k: int|
        lo <= k < hi && (#[trigger] cs[k]).shape == s && cs[k].is_left && cs[k].plane.dimension
            == dim
}

/// The verdict of item `s`'s last event on axis `dim` at an index at most
/// `k`: an end event there means the item ends before the split (`Left`),
/// a begin event means it straddles (`Both`), no event means `Both`.
pub open spec fn side_before_split(cs: Seq<Candidate>, dim: Dimension, k: int, s: usize) -> Side {
    let j = last_event_before(cs, s, dim, k);
    if j >= 0 {
        if !cs[j].is_left {
            Side::Left
        } else {
            Side::Both
        }
    } else {
        Side::Both
    }
}

/// The tag classification assigns to item `s` for the split chosen at
/// `best_index`: a begin event on the split axis at or after the split
/// makes it `Right`; otherwise the last split-axis event at or before the
/// split decides (an end event makes it `Left`, a begin event `Both`); an
/// item without such events counts as straddling (`Both`).
pub open spec fn spec_item_side(cs: Seq<Candidate>, best_index: int, s: usize) -> Side {
    let dim = cs[best_index].plane.dimension;
    if has_begin_between(cs, s, dim, best_index, cs.len() as int) {
        Side::Right
    } else {
        side_before_split(cs, dim, best_index, s)
    }
}

/// What [`last_event_before`] returns is an event of the item on the axis,
/// and no later qualifying index exists.
proof fn lemma_last_event_props(cs: Seq<Candidate>, s: usize, dim: Dimension, k: int)
    ensures
        ({
            let j = last_event_before(cs, s, dim, k);
            &&& j >= 0 ==> 0 <= j <= k && j < cs.len() && cs[j].shape == s && cs[j].plane.dimension
                == dim
            &&& forall|i: int|
                0 <= i <= k && i < cs.len() && (#[trigger] cs[i]).shape == s
                    && cs[i].plane.dimension == dim ==> i <= j
        }),
    decreases k + 1,
{
    if k >= 0 {
        lemma_last_event_props(cs, s, dim, k - 1);
    }
}

/// The side an item was classified to; an item whose identifier lies
/// outside the scratch array counts as straddling, which is always safe.
pub open spec fn side_of(sides: Seq<Side>, shape: usize) -> Side {
    if shape < sides.len() {
        sides[shape as int]
    } else {
        Side::Both
    }
}

/// What the side tags guarantee about the items, relative to the chosen
/// splitting plane: an item tagged `Left` ends at or before the plane, an
/// item tagged `Right` begins at or after it.
pub open spec fn side_geometry(sides: Seq<Side>, items: Seq<AABB>, best: Plane) -> bool {
    forall|s: int|
        0 <= s < sides.len() ==> {
            &&& ((#[trigger] sides[s]) == Side::Left ==> s < items.len() && spec_axis(
                items[s].max,
                best.dimension,
            ) <= best.pos)
            &&& (sides[s] == Side::Right ==> s < items.len() && spec_axis(
                items[s].min,
                best.dimension,
            ) >= best.pos)
        }
}

/// Every member of `list` occurs among the first `i` entries of `cs`.
pub open spec fn from_prefix(list: Seq<Candidate>, cs: Seq<Candidate>, i: int) -> bool {
    forall|k: int| #![trigger list[k]]
        0 <= k < list.len() ==> exists|j: int| 0 <= j < i && list[k] == cs[j]
}

/// The first classification pass: scan the events up to and including the
/// chosen split; on the split axis, an end event tags its item `Left` and
/// a begin event tags it `Both`, the item's last such event winning.
fn classify_ends_pass(
    candidates: &Candidates,
    best_index: usize,
    sides: &mut Vec<Side>,
    Ghost(items): Ghost<Seq<AABB>>,
)
    requires
        sorted_cands(candidates@),
        forall|i: int|
            0 <= i < candidates@.len() ==> cand_event_wf(#[trigger] candidates@[i], items),
        best_index < candidates@.len(),
        forall|i: int|
            0 <= i < candidates@.len() ==> (#[trigger] candidates@[i]).shape < old(sides)@.len(),
        forall|s: int| 0 <= s < old(sides)@.len() ==> old(sides)@[s] == Side::Both,
    ensures
        final(sides)@.len() == old(sides)@.len(),
        side_geometry(final(sides)@, items, candidates@[best_index as int].plane),
        forall|s: int|
            0 <= s < old(sides)@.len() ==> #[trigger] final(sides)@[s] == side_before_split(
                candidates@,
                candidates@[best_index as int].plane.dimension,
                best_index as int,
                s as usize,
            ),
{
    let ghost cs = candidates@;
    let ghost best = cs[best_index as int].plane;
    let n0 = sides.len();
    let n_cands = candidates.len();
    let best_dimension = candidates[best_index].dimension();

    let mut i: usize = 0;
    while i <= best_index
        invariant
            sorted_cands(cs),
            forall|k: int| 0 <= k < cs.len() ==> cand_event_wf(#[trigger] cs[k], items),
            best_index < cs.len(),
            best_index < n_cands,
            forall|k: int| 0 <= k < cs.len() ==> (#[trigger] cs[k]).shape < n0,
            cs == candidates@,
            best == cs[best_index as int].plane,
            best_dimension == best.dimension,
            i <= best_index + 1,
            sides@.len() == n0,
            side_geometry(sides@, items, best),
            forall|s: int|
                0 <= s < n0 ==> #[trigger] sides@[s] == side_before_split(
                    cs,
                    best_dimension,
                    i as int - 1,
                    s as usize,
                ),
        decreases best_index + 1 - i,
    {
        let ghost pre_sides = sides@;
        let c = candidates[i];
        if c.dimension() == best_dimension {
            proof {
                if i < best_index {
                    assert(cand_le(cs[i as int], cs[best_index as int]));
                }
                assert(cs[i as int].plane.pos <= best.pos);
            }
            if c.is_right() {
                sides[c.shape] = Side::Left;
                proof {
                    assert(spec_axis(items[c.shape as int].max, best.dimension) <= best.pos);
                }
            } else {
                sides[c.shape] = Side::Both;
            }
        }
        proof {
            assert forall|s: int| 0 <= s < n0 implies #[trigger] sides@[s] == side_before_split(
                cs,
                best_dimension,
                i as int,
                s as usize,
            ) by {
                assert(pre_sides[s] == side_before_split(
                    cs,
                    best_dimension,
                    i as int - 1,
                    s as usize,
                ));
                if cs[i as int].shape == s as usize && cs[i as int].plane.dimension
                    == best_dimension {
                    assert(last_event_before(cs, s as usize, best_dimension, i as int)
                        == i as int);
                    assert(side_before_split(cs, best_dimension, i as int, s as usize) == (
                    if !cs[i as int].is_left {
                        Side::Left
                    } else {
                        Side::Both
                    }));
                    assert(sides@[s] == (if !cs[i as int].is_left {
                        Side::Left
                    } else {
                        Side::Both
                    }));
                } else {
                    assert(last_event_before(cs, s as usize, best_dimension, i as int)
                        == last_event_before(cs, s as usize, best_dimension, i as int - 1));
                    assert(sides@[s] == pre_sides[s]);
                }
            }
        }
        i = i + 1;
    }
}

/// The second classification pass: scan the events from the chosen split
/// on; a begin event on the split axis tags its item `Right`, overriding
/// the first pass.
fn classify_begins_pass(
    candidates: &Candidates,
    best_index: usize,
    sides: &mut Vec<Side>,
    Ghost(items): Ghost<Seq<AABB>>,
)
    requires
        sorted_cands(candidates@),
        forall|i: int|
            0 <= i < candidates@.len() ==> cand_event_wf(#[trigger] candidates@[i], items),
        best_index < candidates@.len(),
        forall|i: int|
            0 <= i < candidates@.len() ==> (#[trigger] candidates@[i]).shape < old(sides)@.len(),
        side_geometry(old(sides)@, items, candidates@[best_index as int].plane),
    ensures
        final(sides)@.len() == old(sides)@.len(),
        side_geometry(final(sides)@, items, candidates@[best_index as int].plane),
        forall|s: int|
            0 <= s < old(sides)@.len() ==> #[trigger] final(sides)@[s] == (if has_begin_between(
                candidates@,
                s as usize,
                candidates@[best_index as int].plane.dimension,
                best_index as int,
                candidates@.len() as int,
            ) {
                Side::Right
            } else {
                old(sides)@[s]
            }),
{
    let ghost cs = candidates@;
    let ghost best = cs[best_index as int].plane;
    let n0 = sides.len();
    let ghost p1 = old(sides)@;
    let best_dimension = candidates[best_index].dimension();

    let mut i: usize = best_index;
    while i < candidates.len()
        invariant
            sorted_cands(cs),
            forall|k: int| 0 <= k < cs.len() ==> cand_event_wf(#[trigger] cs[k], items),
            best_index < cs.len(),
            forall|k: int| 0 <= k < cs.len() ==> (#[trigger] cs[k]).shape < n0,
            cs == candidates@,
            best == cs[best_index as int].plane,
            best_dimension == best.dimension,
            best_index <= i,
            i <= cs.len(),
            sides@.len() == n0,
            p1.len() == n0,
            side_geometry(sides@, items, best),
            forall|s: int|
                0 <= s < n0 ==> #[trigger] sides@[s] == (if has_begin_between(
                    cs,
                    s as usize,
                    best_dimension,
                    best_index as int,
                    i as int,
                ) {
                    Side::Right
                } else {
                    p1[s]
                }),
        decreases candidates.len() - i,
    {
        let ghost pre_sides = sides@;
        let c = candidates[i];
        if c.dimension() == best_dimension && c.is_left() {
            proof {
                if best_index < i {
                    assert(cand_le(cs[best_index as int], cs[i as int]));
                }
                assert(cs[i as int].plane.pos >= best.pos);
            }
            sides[c.shape] = Side::Right;
            proof {
                assert(spec_axis(items[c.shape as int].min, best.dimension) >= best.pos);
            }
        }
        proof {
            assert forall|s: int| 0 <= s < n0 implies #[trigger] sides@[s] == (
            if has_begin_between(cs, s as usize, best_dimension, best_index as int, i as int + 1) {
                Side::Right
            } else {
                p1[s]
            }) by {
                assert(pre_sides[s] == (if has_begin_between(
                    cs,
                    s as usize,
                    best_dimension,
                    best_index as int,
                    i as int,
                ) {
                    Side::Right
                } else {
                    p1[s]
                }));
                if has_begin_between(cs, s as usize, best_dimension, best_index as int, i as int + 1) {
                    let k = choose|k: int|
                        best_index as int <= k < i as int + 1 && (#[trigger] cs[k]).shape
                            == s as usize && cs[k].is_left && cs[k].plane.dimension
                            == best_dimension;
                    if k < i as int {
                        assert(has_begin_between(
                            cs,
                            s as usize,
                            best_dimension,
                            best_index as int,
                            i as int,
                        ));
                    }
                } else {
                    if has_begin_between(cs, s as usize, best_dimension, best_index as int, i as int) {
                        let k = choose|k: int|
                            best_index as int <= k < i as int && (#[trigger] cs[k]).shape
                                == s as usize && cs[k].is_left && cs[k].plane.dimension
                                == best_dimension;
                        assert(has_begin_between(
                            cs,
                            s as usize,
                            best_dimension,
                            best_index as int,
                            i as int + 1,
                        ));
                    }
                    assert(sides@[s] == pre_sides[s]);
                }
            }
        }
        i = i + 1;
    }
    proof {
        assert forall|s: int| 0 <= s < n0 implies #[trigger] sides@[s] == (if has_begin_between(
            cs,
            s as usize,
            best.dimension,
            best_index as int,
            cs.len() as int,
        ) {
            Side::Right
        } else {
            p1[s]
        }) by {
            assert(sides@[s] == (if has_begin_between(
                cs,
                s as usize,
                best_dimension,
                best_index as int,
                i as int,
            ) {
                Side::Right
            } else {
                p1[s]
            }));
        }
    }
}

/// Classify the items against the chosen splitting candidate, in two
/// passes over the sorted event list.  Every scratch slot ends up holding
/// exactly [`spec_item_side`].
fn classify_items(
    candidates: &Candidates,
    best_index: usize,
    sides: &mut Vec<Side>,
    Ghost(items): Ghost<Seq<AABB>>,
)
    requires
        sorted_cands(candidates@),
        forall|i: int|
            0 <= i < candidates@.len() ==> cand_event_wf(#[trigger] candidates@[i], items),
        best_index < candidates@.len(),
        forall|i: int|
            0 <= i < candidates@.len() ==> (#[trigger] candidates@[i]).shape < old(sides)@.len(),
        forall|s: int| 0 <= s < old(sides)@.len() ==> old(sides)@[s] == Side::Both,
    ensures
        final(sides)@.len() == old(sides)@.len(),
        side_geometry(final(sides)@, items, candidates@[best_index as int].plane),
        forall|s: int|
            0 <= s < old(sides)@.len() ==> #[trigger] final(sides)@[s] == spec_item_side(
                candidates@,
                best_index as int,
                s as usize,
            ),
{
    classify_ends_pass(candidates, best_index, sides, Ghost(items));
    let ghost p1 = sides@;
    classify_begins_pass(candidates, best_index, sides, Ghost(items));
    proof {
        let cs = candidates@;
        let bd = cs[best_index as int].plane.dimension;
        assert forall|s: int| 0 <= s < sides@.len() implies #[trigger] sides@[s] == spec_item_side(
            cs,
            best_index as int,
            s as usize,
        ) by {
            assert(p1[s] == side_before_split(cs, bd, best_index as int, s as usize));
            assert(sides@[s] == (if has_begin_between(
                cs,
                s as usize,
                bd,
                best_index as int,
                cs.len() as int,
            ) {
                Side::Right
            } else {
                p1[s]
            }));
        }
    }
}

/// Second step of classification: route every event to the child list (or
/// lists) of the side its item was tagged with.  Order is preserved, so
/// both child lists stay sorted.
fn splicing_candidates(candidates: &Candidates, sides: &Vec<Side>) -> (r: (Candidates, Candidates))
    requires
        sorted_cands(candidates@),
    ensures
        sorted_cands(r.0@),
        sorted_cands(r.1@),
        forall|c: Candidate| #[trigger]
            r.0@.contains(c) <==> (candidates@.contains(c) && side_of(sides@, c.shape)
                != Side::Right),
        forall|c: Candidate| #[trigger]
            r.1@.contains(c) <==> (candidates@.contains(c) && side_of(sides@, c.shape)
                != Side::Left),
{
    let ghost cs = candidates@;
    let mut left_candidates: Candidates = Vec::new();
    let mut right_candidates: Candidates = Vec::new();
    let mut i: usize = 0;
    while i < candidates.len()
        invariant
            sorted_cands(cs),
            cs == candidates@,
            i <= cs.len(),
            sorted_cands(left_candidates@),
            sorted_cands(right_candidates@),
            from_prefix(left_candidates@, cs, i as int),
            from_prefix(right_candidates@, cs, i as int),
            forall|c: Candidate| #[trigger]
                left_candidates@.contains(c) <==> (cs.subrange(0, i as int).contains(c) && side_of(
                    sides@,
                    c.shape,
                ) != Side::Right),
            forall|c: Candidate| #[trigger]
                right_candidates@.contains(c) <==> (cs.subrange(0, i as int).contains(c) && side_of(
                    sides@,
                    c.shape,
                ) != Side::Left),
        decreases candidates.len() - i,
    {
        let c = candidates[i];
        let side = if c.shape < sides.len() {
            sides[c.shape]
        } else {
            Side::Both
        };
        proof {
            assert(side == side_of(sides@, c.shape));
        }
        let ghost old_left = left_candidates@;
        let ghost old_right = right_candidates@;
        match side {
            Side::Left => {
                push_in_order(&mut left_candidates, c, Ghost(cs), Ghost(i as int));
            },
            Side::Right => {
                push_in_order(&mut right_candidates, c, Ghost(cs), Ghost(i as int));
            },
            Side::Both => {
                push_in_order(&mut right_candidates, c, Ghost(cs), Ghost(i as int));
                push_in_order(&mut left_candidates, c, Ghost(cs), Ghost(i as int));
            },
        }
        proof {
            assert(cs.subrange(0, i as int + 1) =~= cs.subrange(0, i as int).push(c));
            assert forall|x: Candidate| #[trigger]
                cs.subrange(0, i as int + 1).contains(x) <==> (cs.subrange(0, i as int).contains(x)
                    || x == c) by {
                if cs.subrange(0, i as int).contains(x) {
                    let j = choose|j: int|
                        0 <= j < cs.subrange(0, i as int).len() && cs.subrange(0, i as int)[j] == x;
                    assert(cs.subrange(0, i as int + 1)[j] == x);
                }
                if x == c {
                    assert(cs.subrange(0, i as int + 1)[i as int] == x);
                }
            }
        }
        i = i + 1;
    }
    proof {
        assert(cs.subrange(0, cs.len() as int) =~= cs);
    }
    (left_candidates, right_candidates)
}

/// Append a candidate that comes from position `i` of the sorted source
/// list to a child list whose members all come from earlier positions; the
/// child list stays sorted and gains exactly that member.
fn push_in_order(
    list: &mut Candidates,
    c: Candidate,
    Ghost(cs): Ghost<Seq<Candidate>>,
    Ghost(i): Ghost<int>,
)
    requires
        sorted_cands(cs),
        0 <= i < cs.len(),
        c == cs[i],
        sorted_cands(old(list)@),
        from_prefix(old(list)@, cs, i),
    ensures
        final(list)@ == old(list)@.push(c),
        sorted_cands(final(list)@),
        from_prefix(final(list)@, cs, i + 1),
        forall|x: Candidate| #[trigger]
            final(list)@.contains(x) <==> (old(list)@.contains(x) || x == c),
{
    list.push(c);
    proof {
        assert forall|k1: int, k2: int| 0 <= k1 < k2 < list@.len() implies cand_le(
            list@[k1],
            list@[k2],
        ) by {
            if k2 == list@.len() - 1 {
                assert(old(list)@[k1] == list@[k1]);
                let j = choose|j: int| 0 <= j < i && old(list)@[k1] == cs[j];
                assert(cand_le(cs[j], cs[i]));
            }
        }
        assert forall|k: int| #![trigger list@[k]] 0 <= k < list@.len() implies exists|j: int|
            0 <= j < i + 1 && list@[k] == cs[j] by {
            if k == list@.len() - 1 {
                assert(list@[k] == cs[i]);
            } else {
                assert(old(list)@[k] == list@[k]);
                let j = choose|j: int| 0 <= j < i && old(list)@[k] == cs[j];
                assert(list@[k] == cs[j]);
            }
        }
        assert forall|x: Candidate| #[trigger]
            list@.contains(x) <==> (old(list)@.contains(x) || x == c) by {
            if list@.contains(x) {
                let k = choose|k: int| 0 <= k < list@.len() && list@[k] == x;
                if k < old(list)@.len() {
                    assert(old(list)@[k] == x);
                }
            }
            if old(list)@.contains(x) {
                let k = choose|k: int| 0 <= k < old(list)@.len() && old(list)@[k] == x;
                assert(list@[k] == x);
            }
            if x == c {
                assert(list@[list@.len() - 1] == x);
            }
        }
    }
}

/// Classify the items of a node against its chosen splitting candidate and
/// partition the candidate list into the two children's lists.  An item
/// ending at or before the plane goes left, one beginning at or after it
/// goes right, and one straddling it is duplicated into both.
fn classify(candidates: Candidates, best_index: usize, Ghost(items): Ghost<Seq<AABB>>) -> (r: (
    Candidates,
    Candidates,
))
    requires
        cands_wf(candidates@, items),
        best_index < candidates@.len(),
    ensures
        cands_wf(r.0@, items),
        cands_wf(r.1@, items),
        forall|c: Candidate| #[trigger]
            r.0@.contains(c) <==> (candidates@.contains(c) && spec_item_side(
                candidates@,
                best_index as int,
                c.shape,
            ) != Side::Right),
        forall|c: Candidate| #[trigger]
            r.1@.contains(c) <==> (candidates@.contains(c) && spec_item_side(
                candidates@,
                best_index as int,
                c.shape,
            ) != Side::Left),
        forall|s: usize| #[trigger] has_item(r.0@, s) ==> has_item(candidates@, s),
        forall|s: usize| #[trigger] has_item(r.1@, s) ==> has_item(candidates@, s),
        forall|s: usize| #[trigger]
            has_item(candidates@, s) ==> {
                let bd = candidates@[best_index as int].plane.dimension;
                let bp = candidates@[best_index as int].plane.pos;
                ||| (has_item(r.0@, s) && s < items.len() && spec_axis(items[s as int].max, bd)
                    <= bp)
                ||| (has_item(r.1@, s) && s < items.len() && spec_axis(items[s as int].min, bd)
                    >= bp)
                ||| (has_item(r.0@, s) && has_item(r.1@, s))
            },
{
    let ghost cs = candidates@;

    // One scratch slot past the largest item identifier in the list.
    let mut m: usize = 0;
    let mut i: usize = 0;
    while i < candidates.len()
        invariant
            cs == candidates@,
            i <= cs.len(),
            m <= MAX_ITEMS,
            forall|k: int| 0 <= k < cs.len() ==> cand_event_wf(#[trigger] cs[k], items),
            forall|k: int| 0 <= k < i ==> (#[trigger] cs[k]).shape < m,
        decreases candidates.len() - i,
    {
        let shape = candidates[i].shape;
        if shape >= m {
            m = shape + 1;
        }
        i = i + 1;
    }

    let mut sides: Vec<Side> = vec![Side::Both; m];
    classify_items(&candidates, best_index, &mut sides, Ghost(items));
    let (left_candidates, right_candidates) = splicing_candidates(&candidates, &sides);
    proof {
        // The scratch array covers every event's item, so the routing
        // criterion of the splice is exactly the specified side.
        assert forall|c: Candidate| cs.contains(c) implies side_of(sides@, c.shape)
            == spec_item_side(cs, best_index as int, c.shape) by {
            let j = choose|j: int| 0 <= j < cs.len() && cs[j] == c;
            assert(cs[j].shape < m);
            assert(sides@[c.shape as int] == spec_item_side(cs, best_index as int, c.shape));
        }
    }
    proof {
        let bd = cs[best_index as int].plane.dimension;
        let bp = cs[best_index as int].plane.pos;
        let best = cs[best_index as int].plane;

        // Each child's events all come from the parent's list, so they are
        // still consistent with the items, and membership carries over.
        assert forall|k: int| 0 <= k < left_candidates@.len() implies cand_event_wf(
            #[trigger] left_candidates@[k],
            items,
        ) by {
            assert(left_candidates@.contains(left_candidates@[k]));
            let j = choose|j: int| 0 <= j < cs.len() && cs[j] == left_candidates@[k];
            assert(cand_event_wf(cs[j], items));
        }
        assert forall|k: int| 0 <= k < right_candidates@.len() implies cand_event_wf(
            #[trigger] right_candidates@[k],
            items,
        ) by {
            assert(right_candidates@.contains(right_candidates@[k]));
            let j = choose|j: int| 0 <= j < cs.len() && cs[j] == right_candidates@[k];
            assert(cand_event_wf(cs[j], items));
        }
        assert forall|s: usize| #[trigger] has_item(left_candidates@, s) implies has_item(cs, s) by {
            let k = choose|k: int|
                0 <= k < left_candidates@.len() && (#[trigger] left_candidates@[k]).shape == s;
            assert(left_candidates@.contains(left_candidates@[k]));
            let j = choose|j: int| 0 <= j < cs.len() && cs[j] == left_candidates@[k];
        }
        assert forall|s: usize| #[trigger] has_item(right_candidates@, s) implies has_item(cs, s) by {
            let k = choose|k: int|
                0 <= k < right_candidates@.len() && (#[trigger] right_candidates@[k]).shape == s;
            assert(right_candidates@.contains(right_candidates@[k]));
            let j = choose|j: int| 0 <= j < cs.len() && cs[j] == right_candidates@[k];
        }

        // Every item keeps its begin event on the first axis in any child
        // list that holds any of its events: all the events of one item are
        // routed to the same side or sides.
        assert forall|k: int| 0 <= k < left_candidates@.len() implies has_begin(
            left_candidates@,
            (#[trigger] left_candidates@[k]).shape,
            Dimension::X,
        ) by {
            let c = left_candidates@[k];
            assert(left_candidates@.contains(c));
            let j = choose|j: int| 0 <= j < cs.len() && cs[j] == c;
            assert(has_begin(cs, cs[j].shape, Dimension::X));
            let jb = choose|jb: int|
                0 <= jb < cs.len() && (#[trigger] cs[jb]).shape == c.shape && cs[jb].is_left
                    && cs[jb].plane.dimension == Dimension::X;
            assert(cs.contains(cs[jb]));
            assert(left_candidates@.contains(cs[jb]));
            let kb = choose|kb: int|
                0 <= kb < left_candidates@.len() && left_candidates@[kb] == cs[jb];
        }
        assert forall|k: int| 0 <= k < right_candidates@.len() implies has_begin(
            right_candidates@,
            (#[trigger] right_candidates@[k]).shape,
            Dimension::X,
        ) by {
            let c = right_candidates@[k];
            assert(right_candidates@.contains(c));
            let j = choose|j: int| 0 <= j < cs.len() && cs[j] == c;
            assert(has_begin(cs, cs[j].shape, Dimension::X));
            let jb = choose|jb: int|
                0 <= jb < cs.len() && (#[trigger] cs[jb]).shape == c.shape && cs[jb].is_left
                    && cs[jb].plane.dimension == Dimension::X;
            assert(cs.contains(cs[jb]));
            assert(right_candidates@.contains(cs[jb]));
            let kb = choose|kb: int|
                0 <= kb < right_candidates@.len() && right_candidates@[kb] == cs[jb];
        }

        // The partition covers every item, and a single-sided item is
        // bounded by the plane on its side.
        assert forall|s: usize| #[trigger] has_item(cs, s) implies {
            ||| (has_item(left_candidates@, s) && s < items.len() && spec_axis(
                items[s as int].max,
                bd,
            ) <= bp)
            ||| (has_item(right_candidates@, s) && s < items.len() && spec_axis(
                items[s as int].min,
                bd,
            ) >= bp)
            ||| (has_item(left_candidates@, s) && has_item(right_candidates@, s))
        } by {
            let j = choose|j: int| 0 <= j < cs.len() && (#[trigger] cs[j]).shape == s;
            let c = cs[j];
            assert(cs.contains(c));
            let sd = side_of(sides@, s);
            if sd == Side::Left {
                assert(left_candidates@.contains(c));
                let k = choose|k: int|
                    0 <= k < left_candidates@.len() && left_candidates@[k] == c;
                assert(has_item(left_candidates@, s));
                assert(s < sides@.len() && sides@[s as int] == Side::Left);
            } else if sd == Side::Right {
                assert(right_candidates@.contains(c));
                let k = choose|k: int|
                    0 <= k < right_candidates@.len() && right_candidates@[k] == c;
                assert(has_item(right_candidates@, s));
                assert(s < sides@.len() && sides@[s as int] == Side::Right);
            } else {
                assert(left_candidates@.contains(c));
                assert(right_candidates@.contains(c));
                let k1 = choose|k: int|
                    0 <= k < left_candidates@.len() && left_candidates@[k] == c;
                let k2 = choose|k: int|
                    0 <= k < right_candidates@.len() && right_candidates@[k] == c;
                assert(has_item(left_candidates@, s));
                assert(has_item(right_candidates@, s));
            }
        }
    }
    (left_candidates, right_candidates)
}

/// The items of a leaf: each item in the list, enumerated exactly through
/// its begin event on the first axis, in list order.
fn leaf_shapes(candidates: &Candidates) -> (r: Vec<usize>)
    requires
        forall|i: int|
            0 <= i < candidates@.len() ==> has_begin(
                candidates@,
                (#[trigger] candidates@[i]).shape,
                Dimension::X,
            ),
    ensures
        r@ == leaf_items_of(candidates@),
        forall|s: usize| #[trigger] r@.contains(s) <==> has_item(candidates@, s),
{
    let ghost cs = candidates@;
    let mut r: Vec<usize> = Vec::new();
    let mut i: usize = 0;
    while i < candidates.len()
        invariant
            cs == candidates@,
            i <= cs.len(),
            r@ == leaf_items_of(cs.subrange(0, i as int)),
            forall|s: usize| #[trigger]
                r@.contains(s) <==> exists|j: int|
                    0 <= j < i && (#[trigger] cs[j]).shape == s && cs[j].is_left
                        && cs[j].plane.dimension == Dimension::X,
        decreases candidates.len() - i,
    {
        let c = candidates[i];
        proof {
            let pre = cs.subrange(0, i as int + 1);
            assert(pre.drop_last() =~= cs.subrange(0, i as int));
            assert(pre.last() == cs[i as int]);
        }
        if c.is_left() && matches!(c.dimension(), Dimension::X) {
            let ghost old_r = r@;
            r.push(c.shape);
            proof {
                assert forall|s: usize| #[trigger] r@.contains(s) implies exists|j: int|
                    0 <= j < i + 1 && (#[trigger] cs[j]).shape == s && cs[j].is_left
                        && cs[j].plane.dimension == Dimension::X by {
                    let k = choose|k: int| 0 <= k < r@.len() && r@[k] == s;
                    if k < old_r.len() {
                        assert(old_r.contains(s));
                    } else {
                        assert(cs[i as int].shape == s);
                    }
                }
                assert forall|s: usize|
                    (exists|j: int|
                        0 <= j < i + 1 && (#[trigger] cs[j]).shape == s && cs[j].is_left
                            && cs[j].plane.dimension == Dimension::X) implies #[trigger]
                    r@.contains(s) by {
                    let j = choose|j: int|
                        0 <= j < i + 1 && (#[trigger] cs[j]).shape == s && cs[j].is_left
                            && cs[j].plane.dimension == Dimension::X;
                    if j < i as int {
                        assert(old_r.contains(s));
                        let k = choose|k: int| 0 <= k < old_r.len() && old_r[k] == s;
                        assert(r@[k] == s);
                    } else {
                        assert(r@[r@.len() - 1] == s);
                    }
                }
            }
        }
        i = i + 1;
    }
    proof {
        assert(cs.subrange(0, cs.len() as int) =~= cs);
        assert forall|s: usize| #[trigger] r@.contains(s) <==> has_item(cs, s) by {
            if r@.contains(s) {
                let j = choose|j: int|
                    0 <= j < cs.len() && (#[trigger] cs[j]).shape == s && cs[j].is_left
                        && cs[j].plane.dimension == Dimension::X;
                assert(has_item(cs, s));
            }
            if has_item(cs, s) {
                let j = choose|j: int| 0 <= j < cs.len() && (#[trigger] cs[j]).shape == s;
                assert(has_begin(cs, s, Dimension::X));
                let k = choose|k: int|
                    0 <= k < cs.len() && (#[trigger] cs[k]).shape == s && cs[k].is_left
                        && cs[k].plane.dimension == Dimension::X;
                assert(r@.contains(s));
            }
        }
    }
    r
}

/// The built arena misses no item: whenever a ray reaches the clipped box
/// of an item of the list at a positive parameter, the pruned walk from the
/// root gathers that item.
pub open spec fn covers(
    tree: Seq<KDTreeNode>,
    cs: Seq<Candidate>,
    items: Seq<AABB>,
    space: AABB,
) -> bool {
    forall|s: usize, o: Vector3, dv: Vector3|
        has_item(cs, s) && s < items.len() && hits(o, dv, spec_clip(items[s as int], space))
            ==> #[trigger] collected(tree, 0, o, dv).contains(s)
}

/// The built arena invents no item: the pruned walk only ever gathers items
/// of the list it was built from.
pub open spec fn no_extra(tree: Seq<KDTreeNode>, cs: Seq<Candidate>) -> bool {
    forall|s: usize, o: Vector3, dv: Vector3| #[trigger]
        collected(tree, 0, o, dv).contains(s) ==> has_item(cs, s)
}

/// A subtree embedded whole at offset `off` of a larger arena, each child
/// index moved by `off`, keeps its structure and gathers the same items.
proof fn lemma_embed(
    sub: Seq<KDTreeNode>,
    tree: Seq<KDTreeNode>,
    off: int,
    j: int,
    o: Vector3,
    d: Vector3,
)
    requires
        0 <= off,
        off + sub.len() <= tree.len(),
        tree.len() <= usize::MAX,
        forall|k: int| 0 <= k < sub.len() ==> tree[off + k] == spec_shift_node(#[trigger] sub[k], off),
        arena_wf(sub, j),
    ensures
        arena_wf(tree, off + j),
        collected(tree, off + j, o, d) == collected(sub, j, o, d),
        arena_height(tree, off + j) == arena_height(sub, j),
    decreases sub.len() - j,
{
    assert(tree[off + j] == spec_shift_node(sub[j], off));
    match sub[j] {
        KDTreeNode::Leaf { shapes } => {
            assert(collected(tree, off + j, o, d) =~= collected(sub, j, o, d));
        },
        KDTreeNode::Node { l_child, l_space, r_child, r_space } => {
            lemma_embed(sub, tree, off, l_child as int, o, d);
            lemma_embed(sub, tree, off, r_child as int, o, d);
            assert(collected(tree, off + j, o, d) =~= collected(sub, j, o, d));
        },
    }
}

/// A subtree embedded whole at offset `off` keeps its span layout.
proof fn lemma_embed_spans(sub: Seq<KDTreeNode>, tree: Seq<KDTreeNode>, off: int, j: int, e: int)
    requires
        0 <= off,
        off + sub.len() <= tree.len(),
        tree.len() <= usize::MAX,
        forall|k: int| 0 <= k < sub.len() ==> tree[off + k] == spec_shift_node(#[trigger] sub[k], off),
        e <= sub.len(),
        arena_spans(sub, j, e),
    ensures
        arena_spans(tree, off + j, off + e),
    decreases e - j,
{
    assert(tree[off + j] == spec_shift_node(sub[j], off));
    match sub[j] {
        KDTreeNode::Leaf { .. } => {},
        KDTreeNode::Node { l_child, r_child, .. } => {
            lemma_embed_spans(sub, tree, off, j + 1, r_child as int);
            lemma_embed_spans(sub, tree, off, r_child as int, e);
        },
    }
}

/// A subtree embedded whole at offset `off` keeps the relation between the
/// regions its nodes store and the regions they partition.
proof fn lemma_embed_regions(
    sub: Seq<KDTreeNode>,
    tree: Seq<KDTreeNode>,
    off: int,
    j: int,
    region: AABB,
)
    requires
        0 <= off,
        off + sub.len() <= tree.len(),
        tree.len() <= usize::MAX,
        forall|k: int| 0 <= k < sub.len() ==> tree[off + k] == spec_shift_node(#[trigger] sub[k], off),
        arena_regions(sub, j, region),
    ensures
        arena_regions(tree, off + j, region),
    decreases sub.len() - j,
{
    assert(tree[off + j] == spec_shift_node(sub[j], off));
    match sub[j] {
        KDTreeNode::Leaf { .. } => {},
        KDTreeNode::Node { l_child, l_space, r_child, r_space } => {
            lemma_embed_regions(sub, tree, off, l_child as int, l_space);
            lemma_embed_regions(sub, tree, off, r_child as int, r_space);
            let p = choose|p: Plane|
                #[trigger] spec_is_cutting(p, region) && (l_space, r_space) == spec_split(
                    region,
                    p,
                );
            assert(spec_is_cutting(p, region));
        },
    }
}

/// Push a witness parameter from the clipped box of an item inside a region
/// down into the left part of the region's split, provided the item ends
/// before the plane or the witness point lies on the near side.
proof fn lemma_clip_left(
    b: AABB,
    space: AABB,
    plane: Plane,
    lsp: AABB,
    o: Vector3,
    d: Vector3,
    tn: int,
    td: int,
)
    requires
        td > 0,
        spec_is_cutting(plane, space),
        lsp == spec_split(space, plane).0,
        ray_box_sat(o, d, spec_clip(b, space), tn, td),
        spec_axis(b.max, plane.dimension) <= plane.pos || spec_axis(o, plane.dimension) * td + tn
            * spec_axis(d, plane.dimension) <= plane.pos * td,
    ensures
        ray_box_sat(o, d, spec_clip(b, lsp), tn, td),
        ray_box_sat(o, d, lsp, tn, td),
{
    match plane.dimension {
        Dimension::X => {
            lemma_mul_le_mono(spec_clip(b, space).max.x as int, b.max.x as int, td);
        },
        Dimension::Y => {
            lemma_mul_le_mono(spec_clip(b, space).max.y as int, b.max.y as int, td);
        },
        Dimension::Z => {
            lemma_mul_le_mono(spec_clip(b, space).max.z as int, b.max.z as int, td);
        },
    }
    crate::ray::lemma_sat_inside(o, d, spec_clip(b, lsp), lsp, tn, td);
}

/// The mirror image of [`lemma_clip_left`], for the right part.
proof fn lemma_clip_right(
    b: AABB,
    space: AABB,
    plane: Plane,
    rsp: AABB,
    o: Vector3,
    d: Vector3,
    tn: int,
    td: int,
)
    requires
        td > 0,
        spec_is_cutting(plane, space),
        rsp == spec_split(space, plane).1,
        ray_box_sat(o, d, spec_clip(b, space), tn, td),
        spec_axis(b.min, plane.dimension) >= plane.pos || spec_axis(o, plane.dimension) * td + tn
            * spec_axis(d, plane.dimension) >= plane.pos * td,
    ensures
        ray_box_sat(o, d, spec_clip(b, rsp), tn, td),
        ray_box_sat(o, d, rsp, tn, td),
{
    match plane.dimension {
        Dimension::X => {
            lemma_mul_le_mono(b.min.x as int, spec_clip(b, space).min.x as int, td);
        },
        Dimension::Y => {
            lemma_mul_le_mono(b.min.y as int, spec_clip(b, space).min.y as int, td);
        },
        Dimension::Z => {
            lemma_mul_le_mono(b.min.z as int, spec_clip(b, space).min.z as int, td);
        },
    }
    crate::ray::lemma_sat_inside(o, d, spec_clip(b, rsp), rsp, tn, td);
}

/// Build the subtree of one region from its sorted candidate list and
/// return the tree's depth together with its flat node arena.
///
/// The arena is structurally well formed, and its pruned traversal gathers
/// exactly items of the candidate list — among them every item whose
/// clipped box the ray meets at a positive parameter.
pub fn build_tree(
    config: &BuilderConfig,
    space: &AABB,
    candidates: Candidates,
    nb_shapes: usize,
    Ghost(items): Ghost<Seq<AABB>>,
) -> (r: (usize, Vec<KDTreeNode>))
    requires
        config.wf(),
        space.wf(),
        nb_shapes <= MAX_ITEMS,
        cands_wf(candidates@, items),
    ensures
        r.1@.len() >= 1,
        arena_wf(r.1@, 0),
        forall|k: int| 0 <= k < r.1@.len() ==> node_bounded(#[trigger] r.1@[k], r.1@.len() as int),
        1 <= r.0,
        r.0 as int <= extent_sum(*space) + 1,
        r.0 == arena_height(r.1@, 0),
        arena_spans(r.1@, 0, r.1@.len() as int),
        arena_regions(r.1@, 0, *space),
        covers(r.1@, candidates@, items, *space),
        no_extra(r.1@, candidates@),
        splitting_too_costly(*config, *space, candidates@, nb_shapes as int) ==> (r.1@.len() == 1
            && (r.1@[0] matches KDTreeNode::Leaf { shapes } && shapes@ == leaf_items_of(
            candidates@,
        ))),
        !splitting_too_costly(*config, *space, candidates@, nb_shapes as int) ==> r.1@[0] is Node,
    decreases extent_sum(*space),
{
    let ghost cs = candidates@;
    let (best_cost, best_index, n_l, n_r) = partition(config, nb_shapes, space, &candidates);

    // Stop recursing when splitting is costlier than testing every item of
    // the node: `cost > cost_intersection * nb_shapes`, both sides scaled
    // by `100 * volume(space)`.
    let s_vol = space.volume();
    let ci = config.cost_intersection() as i128;
    let nn = nb_shapes as i128;
    proof {
        lemma_mul_nonneg_bound(ci as int, nn as int, 1_000_000, 1_000_000_000);
        lemma_mul_nonneg_bound((ci * nn) as int, 100, 1_000_000_000_000_000, 100);
        lemma_mul_nonneg_bound(
            (ci * nn * 100) as int,
            s_vol as int,
            100_000_000_000_000_000,
            0x7000_0000_0000_0000,
        );
    }
    let threshold: i128 = ci * nn * 100 * (s_vol as i128);
    let ghost thr = config.spec_cost_intersection() * (nb_shapes as int) * 100 * spec_volume(
        *space,
    );
    let make_leaf: bool = match best_cost {
        None => true,
        Some(c) => c > threshold,
    };

    if make_leaf {
        let shapes = leaf_shapes(&candidates);
        let mut tree: Vec<KDTreeNode> = Vec::new();
        tree.push(KDTreeNode::Leaf { shapes });
        proof {
            assert(arena_wf(tree@, 0));
            assert forall|s: usize, o: Vector3, dv: Vector3|
                collected(tree@, 0, o, dv).contains(s) == has_item(cs, s) by {
                assert(collected(tree@, 0, o, dv) == shapes@.to_set());
            }
            assert(threshold as int == thr);
            // Every candidate is at least as costly as the best one, which
            // already exceeds the leaf threshold.
            assert forall|j: int| 0 <= j < cs.len() implies match #[trigger] cost_at(
                *config,
                *space,
                cs,
                nb_shapes as int,
                j,
            ) {
                None => true,
                Some(cj) => cj > thr,
            } by {
                if best_cost is Some {
                    let c = best_cost->Some_0;
                    assert(opt_cost_le(c as int, cost_at(*config, *space, cs, nb_shapes as int, j)));
                }
            }
            assert(splitting_too_costly(*config, *space, cs, nb_shapes as int));
            assert(arena_spans(tree@, 0, 1));
            assert(arena_regions(tree@, 0, *space));
            assert(arena_height(tree@, 0) == 1);
        }
        return (1, tree);
    }

    // A finite best cost means the winning plane strictly cuts the region.
    let best = candidates[best_index];
    let ghost plane = best.plane;
    proof {
        assert(cost_at(*config, *space, cs, nb_shapes as int, best_index as int) is Some);
        assert(spec_is_cutting(plane, *space));
        // The best candidate itself refutes the leaf policy.
        assert(threshold as int == thr);
        assert(cost_at(*config, *space, cs, nb_shapes as int, best_index as int) == Some(
            best_cost->Some_0 as int,
        ));
        assert(!splitting_too_costly(*config, *space, cs, nb_shapes as int));
    }
    let (l_space, r_space) = split_space(space, &best.plane);
    proof {
        assert(extent_sum(l_space) < extent_sum(*space));
        assert(extent_sum(r_space) < extent_sum(*space));
    }

    // Partition the candidates into the two children's lists.
    let (left_candidates, right_candidates) = classify(candidates, best_index, Ghost(items));
    let ghost lcs = left_candidates@;
    let ghost rcs = right_candidates@;

    let (depth_left, tree_l) = build_tree(config, &l_space, left_candidates, n_l, Ghost(items));
    let (depth_right, tree_r) = build_tree(config, &r_space, right_candidates, n_r, Ghost(items));
    let ghost gl = tree_l@;
    let ghost gr = tree_r@;
    let mut tree_l = tree_l;
    let mut tree_r = tree_r;

    // Concatenate: the node, then the left subtree, then the right subtree.
    let mut tree: Vec<KDTreeNode> = Vec::new();
    tree.push(KDTreeNode::Node { l_child: 1, l_space, r_child: 0, r_space });
    tree.append(&mut tree_l);
    let r_idx = tree.len();
    tree.append(&mut tree_r);
    let total = tree.len();
    let root = KDTreeNode::Node { l_child: 1, l_space, r_child: r_idx, r_space };
    let _ = tree.remove(0);
    tree.insert(0, root);
    proof {
        assert(r_idx == 1 + gl.len());
        assert(total == 1 + gl.len() + gr.len());
        assert(tree@ =~= seq![root] + gl + gr);
    }

    // Update the indices of the left subtree.
    let mut i: usize = 1;
    while i < r_idx
        invariant
            1 <= i <= r_idx,
            r_idx == 1 + gl.len(),
            total == tree@.len(),
            total == 1 + gl.len() + gr.len(),
            r_idx <= total,
            forall|k: int| 0 <= k < gl.len() ==> node_bounded(#[trigger] gl[k], gl.len() as int),
            tree@[0] == root,
            forall|k: int| 0 <= k < i - 1 ==> tree@[k + 1] == spec_shift_node(#[trigger] gl[k], 1),
            forall|k: int| i - 1 <= k < gl.len() ==> tree@[k + 1] == #[trigger] gl[k],
            forall|k: int| 0 <= k < gr.len() ==> tree@[k + r_idx] == #[trigger] gr[k],
        decreases r_idx - i,
    {
        let ghost pre = tree@;
        let node = tree.remove(i);
        proof {
            assert(node == gl[i - 1]);
            assert(node_bounded(gl[i - 1], gl.len() as int));
        }
        let shifted = node.move_indices(1);
        tree.insert(i, shifted);
        proof {
            assert(tree@ =~= pre.update(i as int, shifted));
            assert(tree@[(i - 1) + 1] == spec_shift_node(gl[i as int - 1], 1));
        }
        i = i + 1;
    }

    // Update the indices of the right subtree.
    let mut i: usize = r_idx;
    while i < total
        invariant
            r_idx <= i <= total,
            r_idx == 1 + gl.len(),
            total == tree@.len(),
            total == 1 + gl.len() + gr.len(),
            forall|k: int| 0 <= k < gr.len() ==> node_bounded(#[trigger] gr[k], gr.len() as int),
            tree@[0] == root,
            forall|k: int| 0 <= k < gl.len() ==> tree@[k + 1] == spec_shift_node(#[trigger] gl[k], 1),
            forall|k: int|
                0 <= k < i - r_idx ==> tree@[k + r_idx] == spec_shift_node(
                    #[trigger] gr[k],
                    r_idx as int,
                ),
            forall|k: int| i - r_idx <= k < gr.len() ==> tree@[k + r_idx] == #[trigger] gr[k],
        decreases total - i,
    {
        let ghost pre = tree@;
        let node = tree.remove(i);
        proof {
            assert(node == gr[i - r_idx]);
            assert(node_bounded(gr[i - r_idx], gr.len() as int));
        }
        let shifted = node.move_indices(r_idx);
        tree.insert(i, shifted);
        proof {
            assert(tree@ =~= pre.update(i as int, shifted));
            assert(tree@[(i - r_idx) + r_idx] == spec_shift_node(
                gr[i as int - r_idx],
                r_idx as int,
            ));
        }
        i = i + 1;
    }

    let depth = 1 + if depth_left > depth_right {
        depth_left
    } else {
        depth_right
    };

    proof {
        let t = tree@;
        let ghost zero = Vector3 { x: 0, y: 0, z: 0 };

        // The two subtrees keep their structure inside the new arena.
        assert forall|k: int| 0 <= k < gl.len() implies t[1 + k] == spec_shift_node(
            #[trigger] gl[k],
            1,
        ) by {
            assert(t[k + 1] == spec_shift_node(gl[k], 1));
        }
        assert forall|k: int| 0 <= k < gr.len() implies t[r_idx + k] == spec_shift_node(
            #[trigger] gr[k],
            r_idx as int,
        ) by {
            assert(t[k + r_idx as int] == spec_shift_node(gr[k], r_idx as int));
        }
        lemma_embed(gl, t, 1, 0, zero, zero);
        lemma_embed(gr, t, r_idx as int, 0, zero, zero);
        assert(arena_wf(t, 0));

        // The layout is the node, then the left subtree, then the right.
        lemma_embed_spans(gl, t, 1, 0, gl.len() as int);
        lemma_embed_spans(gr, t, r_idx as int, 0, gr.len() as int);
        assert(arena_spans(t, 0, total as int));

        // The children's stored regions split this node's region at the
        // winning plane, recursively.
        lemma_embed_regions(gl, t, 1, 0, l_space);
        lemma_embed_regions(gr, t, r_idx as int, 0, r_space);
        assert(spec_is_cutting(plane, *space) && (l_space, r_space) == spec_split(*space, plane));
        assert(arena_regions(t, 0, *space));

        // The depth is one more than the taller child's.
        assert(arena_height(t, 1) == arena_height(gl, 0));
        assert(arena_height(t, r_idx as int) == arena_height(gr, 0));
        assert(arena_height(t, 0) == 1 + (if arena_height(t, 1) > arena_height(t, r_idx as int) {
            arena_height(t, 1)
        } else {
            arena_height(t, r_idx as int)
        }));

        assert forall|k: int| 0 <= k < t.len() implies node_bounded(#[trigger] t[k], t.len() as int) by {
            if 1 <= k < r_idx {
                assert(t[k] == spec_shift_node(gl[k - 1], 1));
            } else if r_idx <= k < total {
                assert(t[k] == spec_shift_node(gr[k - r_idx], r_idx as int));
            }
        }

        // What the root gathers is what its children gather, guarded by
        // the slab test on their regions.
        assert forall|o: Vector3, dv: Vector3|
            #[trigger] collected(t, 0, o, dv) =~= (if hits(o, dv, r_space) {
                collected(gr, 0, o, dv)
            } else {
                Set::<usize>::empty()
            }).union(
                if hits(o, dv, l_space) {
                    collected(gl, 0, o, dv)
                } else {
                    Set::<usize>::empty()
                },
            ) by {
            lemma_embed(gl, t, 1, 0, o, dv);
            lemma_embed(gr, t, r_idx as int, 0, o, dv);
        }

        // Coverage: follow a witness parameter down the side (or sides)
        // the item was classified to.
        assert forall|s: usize, o: Vector3, dv: Vector3|
            has_item(cs, s) && s < items.len() && hits(o, dv, spec_clip(items[s as int], *space))
                implies #[trigger] collected(t, 0, o, dv).contains(s) by {
            let b = items[s as int];
            let (tn, td) = choose|tn: int, td: int|
                tn > 0 && td > 0 && #[trigger] ray_box_sat(o, dv, spec_clip(b, *space), tn, td);
            let bd = plane.dimension;
            let bp = plane.pos;
            let p = spec_axis(o, bd) * td + tn * spec_axis(dv, bd);
            let go_left = {
                ||| (has_item(lcs, s) && spec_axis(b.max, bd) <= bp)
                ||| (has_item(lcs, s) && has_item(rcs, s) && p <= bp * td)
            };
            if go_left {
                lemma_clip_left(b, *space, plane, l_space, o, dv, tn, td);
                assert(hits(o, dv, l_space));
                assert(hits(o, dv, spec_clip(b, l_space)));
                assert(collected(gl, 0, o, dv).contains(s));
                assert(collected(t, 0, o, dv).contains(s));
            } else {
                assert(has_item(rcs, s) && (spec_axis(b.min, bd) >= bp || p >= bp * td));
                lemma_clip_right(b, *space, plane, r_space, o, dv, tn, td);
                assert(hits(o, dv, r_space));
                assert(hits(o, dv, spec_clip(b, r_space)));
                assert(collected(gr, 0, o, dv).contains(s));
                assert(collected(t, 0, o, dv).contains(s));
            }
        }

        // No invented items: everything gathered comes from one child's
        // list, hence from this node's list.
        assert forall|s: usize, o: Vector3, dv: Vector3|
            #[trigger] collected(t, 0, o, dv).contains(s) implies has_item(cs, s) by {
            if hits(o, dv, l_space) && collected(gl, 0, o, dv).contains(s) {
                assert(has_item(lcs, s));
            } else {
                assert(hits(o, dv, r_space) && collected(gr, 0, o, dv).contains(s));
                assert(has_item(rcs, s));
            }
        }
    }
    (depth, tree)
}

} // verus!
