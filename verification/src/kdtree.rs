//! The index itself: building the tree and answering ray queries.

use vstd::prelude::*;
use vstd::arithmetic::power2::{lemma_pow2_pos, lemma_pow2_strictly_increases, lemma_pow2_unfold, pow2};
use vstd::seq_lib::group_to_multiset_ensures;
use vstd::seq_lib::lemma_multiset_commutative;

use crate::aabb::{spec_clip, spec_empty_aabb, spec_inside, spec_merge, Bounded, Vector3, AABB};
use crate::candidate::{
    cand_event_wf, cands_wf, has_begin, has_item, sort_candidates, Candidate, Candidates,
};
use crate::config::{BuilderConfig, MAX_ITEMS};
use crate::kdnode::{
    arena_height, arena_regions, arena_spans, arena_wf, build_tree, collected, node_bounded,
    KDTreeNode,
};
use crate::plane::Dimension;
use crate::ray::{hits, lemma_sat_inside, ray_box_sat, Ray};

verus! {

/// The merge of the first `k` of the given boxes, starting from the empty
/// box.
pub open spec fn merge_all(items: Seq<AABB>, k: int) -> AABB
    decreases k,
{
    if k <= 0 {
        spec_empty_aabb()
    } else {
        spec_merge(merge_all(items, k - 1), items[k - 1])
    }
}

/// A sequence of item indices in strictly ascending order.
pub open spec fn strictly_sorted(s: Seq<usize>) -> bool {
    forall|i: int, j: int| 0 <= i < j < s.len() ==> s[i] < s[j]
}

/// The KD-tree data structure: a flat node arena, the overall bounding
/// region of the indexed items, and the tree's depth (used only to presize
/// the traversal stack).
pub struct KDTree {
    tree: Vec<KDTreeNode>,
    space: AABB,
    depth: usize,
    items: Ghost<Seq<AABB>>,
}

impl KDTree {
    /// The bounding boxes of the items the tree was built from.
    pub closed spec fn spec_items(self) -> Seq<AABB> {
        self.items@
    }

    /// The tree's overall bounding region.
    pub closed spec fn spec_space(self) -> AABB {
        self.space
    }

    /// The tree's node arena.
    pub closed spec fn spec_tree(self) -> Seq<KDTreeNode> {
        self.tree@
    }

    /// The tree's stored depth.
    pub closed spec fn spec_depth(self) -> usize {
        self.depth
    }

    /// A usable tree: a structurally sound arena over well-formed items
    /// inside the overall region, whose pruned traversal finds every item
    /// the ray could hit and invents none.
    pub open spec fn wf(self) -> bool {
        &&& self.spec_tree().len() >= 1
        &&& arena_wf(self.spec_tree(), 0)
        &&& arena_spans(self.spec_tree(), 0, self.spec_tree().len() as int)
        &&& arena_regions(self.spec_tree(), 0, self.spec_space())
        &&& self.spec_depth() == arena_height(self.spec_tree(), 0)
        &&& forall|k: int|
            0 <= k < self.spec_tree().len() ==> node_bounded(
                #[trigger] self.spec_tree()[k],
                self.spec_tree().len() as int,
            )
        &&& self.spec_space().wf()
        &&& forall|s: int|
            0 <= s < self.spec_items().len() ==> (#[trigger] self.spec_items()[s]).wf()
                && spec_inside(self.spec_items()[s], self.spec_space())
        &&& forall|s: usize, o: Vector3, d: Vector3|
            s < self.spec_items().len() && hits(o, d, self.spec_items()[s as int])
                ==> #[trigger] collected(self.spec_tree(), 0, o, d).contains(s)
        &&& forall|s: usize, o: Vector3, d: Vector3| #[trigger]
            collected(self.spec_tree(), 0, o, d).contains(s) ==> s < self.spec_items().len()
    }

    /// The set of item indices one query returns: what the pruned walk
    /// gathers, or nothing at all when the ray misses the overall region.
    pub open spec fn query_set(self, o: Vector3, d: Vector3) -> Set<usize> {
        if hits(o, d, self.spec_space()) {
            collected(self.spec_tree(), 0, o, d)
        } else {
            Set::empty()
        }
    }

    /// Build a new KD-tree from a collection of items and a configuration.
    /// The collection must not be empty; [`KDTree::try_build_config`]
    /// checks that at run time instead.
    pub fn build_config<S: Bounded>(shapes: &Vec<S>, config: &BuilderConfig) -> (r: KDTree)
        requires
            1 <= shapes@.len() <= MAX_ITEMS,
            config.wf(),
            forall|i: int| 0 <= i < shapes@.len() ==> (#[trigger] shapes@[i]).inv(),
        ensures
            r.wf(),
            r.spec_items() == shapes@.map_values(|sh: S| sh.spec_bound()),
            r.spec_space() == merge_all(r.spec_items(), r.spec_items().len() as int),
    {
        let ghost boxes = shapes@.map_values(|sh: S| sh.spec_bound());
        let n = shapes.len();
        let mut space = AABB::empty();
        let mut candidates: Candidates = Vec::new();
        let mut index: usize = 0;
        while index < n
            invariant
                n == shapes@.len(),
                1 <= n <= MAX_ITEMS,
                index <= n,
                boxes == shapes@.map_values(|sh: S| sh.spec_bound()),
                boxes.len() == n,
                forall|i: int| 0 <= i < shapes@.len() ==> (#[trigger] shapes@[i]).inv(),
                forall|i: int|
                    0 <= i < index ==> (#[trigger] boxes[i]).wf() && spec_inside(boxes[i], space),
                space == merge_all(boxes, index as int),
                index >= 1 ==> space.wf(),
                forall|i: int|
                    0 <= i < candidates@.len() ==> cand_event_wf(#[trigger] candidates@[i], boxes)
                        && candidates@[i].shape < index,
                forall|s: usize| s < index ==> #[trigger] has_begin(candidates@, s, Dimension::X),
            decreases n - index,
        {
            let ghost pre = candidates@;
            let bb = shapes[index].bound();
            proof {
                assert(bb == boxes[index as int]);
            }
            let mut cands6 = Candidate::gen_candidates(index, &bb);
            candidates.append(&mut cands6);
            space.merge(&bb);
            proof {
                assert forall|s: usize| s < index + 1 implies #[trigger] has_begin(
                    candidates@,
                    s,
                    Dimension::X,
                ) by {
                    if s < index {
                        assert(has_begin(pre, s, Dimension::X));
                        let j = choose|j: int|
                            0 <= j < pre.len() && (#[trigger] pre[j]).shape == s && pre[j].is_left
                                && pre[j].plane.dimension == Dimension::X;
                        assert(candidates@[j] == pre[j]);
                    } else {
                        assert(candidates@[pre.len() as int].shape == s
                            && candidates@[pre.len() as int].is_left
                            && candidates@[pre.len() as int].plane.dimension == Dimension::X);
                    }
                }
            }
            index = index + 1;
        }

        // Sort the candidates once; every recursive partition preserves
        // their relative order.
        let ghost unsorted = candidates@;
        let candidates = sort_candidates(candidates);
        proof {
            assert forall|i: int| 0 <= i < candidates@.len() implies cand_event_wf(
                #[trigger] candidates@[i],
                boxes,
            ) by {
                assert(candidates@.contains(candidates@[i]));
                let j = choose|j: int| 0 <= j < unsorted.len() && unsorted[j] == candidates@[i];
            }
            assert forall|i: int| 0 <= i < candidates@.len() implies has_begin(
                candidates@,
                (#[trigger] candidates@[i]).shape,
                Dimension::X,
            ) by {
                assert(candidates@.contains(candidates@[i]));
                let j = choose|j: int| 0 <= j < unsorted.len() && unsorted[j] == candidates@[i];
                let s = unsorted[j].shape;
                assert(has_begin(unsorted, s, Dimension::X));
                let jb = choose|jb: int|
                    0 <= jb < unsorted.len() && (#[trigger] unsorted[jb]).shape == s
                        && unsorted[jb].is_left && unsorted[jb].plane.dimension == Dimension::X;
                assert(unsorted.contains(unsorted[jb]));
                assert(candidates@.contains(unsorted[jb]));
                let kb = choose|kb: int|
                    0 <= kb < candidates@.len() && candidates@[kb] == unsorted[jb];
            }
            assert forall|s: usize| s < n implies #[trigger] has_item(candidates@, s) by {
                assert(has_begin(unsorted, s, Dimension::X));
                let jb = choose|jb: int|
                    0 <= jb < unsorted.len() && (#[trigger] unsorted[jb]).shape == s
                        && unsorted[jb].is_left && unsorted[jb].plane.dimension == Dimension::X;
                assert(unsorted.contains(unsorted[jb]));
                assert(candidates@.contains(unsorted[jb]));
                let kb = choose|kb: int|
                    0 <= kb < candidates@.len() && candidates@[kb] == unsorted[jb];
            }
            assert(cands_wf(candidates@, boxes));
        }
        let ghost cs = candidates@;

        // Build the tree.
        let (depth, tree) = build_tree(config, &space, candidates, n, Ghost(boxes));

        let r = KDTree { space, tree, depth, items: Ghost(boxes) };
        proof {
            assert forall|s: usize, o: Vector3, d: Vector3|
                s < boxes.len() && hits(o, d, boxes[s as int]) implies #[trigger] collected(
                r.spec_tree(),
                0,
                o,
                d,
            ).contains(s) by {
                assert(spec_inside(boxes[s as int], space));
                assert(spec_clip(boxes[s as int], space) == boxes[s as int]);
                assert(has_item(cs, s));
            }
            assert forall|s: usize, o: Vector3, d: Vector3| #[trigger]
                collected(r.spec_tree(), 0, o, d).contains(s) implies s < boxes.len() by {
                assert(has_item(cs, s));
                let j = choose|j: int| 0 <= j < cs.len() && (#[trigger] cs[j]).shape == s;
                assert(cand_event_wf(cs[j], boxes));
            }
        }
        r
    }

    /// Build a new KD-tree from a collection of items, with the default
    /// configuration.  The collection must not be empty.
    pub fn build<S: Bounded>(shapes: &Vec<S>) -> (r: KDTree)
        requires
            1 <= shapes@.len() <= MAX_ITEMS,
            forall|i: int| 0 <= i < shapes@.len() ==> (#[trigger] shapes@[i]).inv(),
        ensures
            r.wf(),
            r.spec_items() == shapes@.map_values(|sh: S| sh.spec_bound()),
            r.spec_space() == merge_all(r.spec_items(), r.spec_items().len() as int),
    {
        let config = BuilderConfig::default();
        KDTree::build_config(shapes, &config)
    }

    /// Build a new KD-tree, rejecting a collection that is empty or too
    /// large: an index is returned if and only if the collection holds
    /// between one and [`MAX_ITEMS`] items.
    pub fn try_build_config<S: Bounded>(shapes: &Vec<S>, config: &BuilderConfig) -> (r: Option<
        KDTree,
    >)
        requires
            config.wf(),
            forall|i: int| 0 <= i < shapes@.len() ==> (#[trigger] shapes@[i]).inv(),
        ensures
            r is Some <==> 1 <= shapes@.len() <= MAX_ITEMS,
            r matches Some(t) ==> {
                &&& t.wf()
                &&& t.spec_items() == shapes@.map_values(|sh: S| sh.spec_bound())
                &&& t.spec_space() == merge_all(t.spec_items(), t.spec_items().len() as int)
            },
    {
        if shapes.len() >= 1 && shapes.len() <= MAX_ITEMS {
            Some(KDTree::build_config(shapes, config))
        } else {
            None
        }
    }

    /// Build a new KD-tree with the default configuration, rejecting a
    /// collection that is empty or too large.
    pub fn try_build<S: Bounded>(shapes: &Vec<S>) -> (r: Option<KDTree>)
        requires
            forall|i: int| 0 <= i < shapes@.len() ==> (#[trigger] shapes@[i]).inv(),
        ensures
            r is Some <==> 1 <= shapes@.len() <= MAX_ITEMS,
            r matches Some(t) ==> {
                &&& t.wf()
                &&& t.spec_items() == shapes@.map_values(|sh: S| sh.spec_bound())
                &&& t.spec_space() == merge_all(t.spec_items(), t.spec_items().len() as int)
            },
    {
        let config = BuilderConfig::default();
        KDTree::try_build_config(shapes, &config)
    }
}

/// The items the walk will still gather from the nodes waiting on the
/// stack.
spec fn stack_sets(tree: Seq<KDTreeNode>, s: Seq<usize>, o: Vector3, d: Vector3) -> Set<usize>
    decreases s.len(),
{
    if s.len() == 0 {
        Set::empty()
    } else {
        stack_sets(tree, s.drop_last(), o, d).union(collected(tree, s.last() as int, o, d))
    }
}

/// Termination measure of the walk: replacing a node by its two children,
/// both strictly deeper in the arena, shrinks the sum.
spec fn stack_measure(s: Seq<usize>, n: nat) -> nat
    decreases s.len(),
{
    if s.len() == 0 {
        0
    } else {
        stack_measure(s.drop_last(), n) + pow2((n - s.last()) as nat)
    }
}

/// Pushing a node on the stack adds exactly its share to the pending set
/// and to the measure.
proof fn lemma_stack_push(
    tree: Seq<KDTreeNode>,
    s: Seq<usize>,
    x: usize,
    o: Vector3,
    d: Vector3,
    n: nat,
)
    ensures
        stack_sets(tree, s.push(x), o, d) == stack_sets(tree, s, o, d).union(
            collected(tree, x as int, o, d),
        ),
        stack_measure(s.push(x), n) == stack_measure(s, n) + pow2((n - x) as nat),
{
    assert(s.push(x).drop_last() =~= s);
    assert(s.push(x).last() == x);
}

/// A sequence of item indices in ascending (not necessarily strict) order.
pub open spec fn sorted_indices(s: Seq<usize>) -> bool {
    forall|i: int, j: int| 0 <= i < j < s.len() ==> s[i] <= s[j]
}

/// Merge two ascending index lists into one ascending list holding exactly
/// the entries of both.
fn merge_indices(a: Vec<usize>, b: Vec<usize>) -> (r: Vec<usize>)
    requires
        sorted_indices(a@),
        sorted_indices(b@),
    ensures
        sorted_indices(r@),
        r@.to_multiset() == a@.to_multiset().add(b@.to_multiset()),
{
    broadcast use group_to_multiset_ensures;

    let mut r: Vec<usize> = Vec::new();
    let mut i: usize = 0;
    let mut j: usize = 0;
    while i < a.len() || j < b.len()
        invariant
            i <= a@.len(),
            j <= b@.len(),
            sorted_indices(a@),
            sorted_indices(b@),
            sorted_indices(r@),
            r@.to_multiset() == a@.subrange(0, i as int).to_multiset().add(
                b@.subrange(0, j as int).to_multiset(),
            ),
            forall|k: int, m: int|
                0 <= k < r@.len() && i <= m < a@.len() ==> #[trigger] r@[k] <= #[trigger] a@[m],
            forall|k: int, m: int|
                0 <= k < r@.len() && j <= m < b@.len() ==> #[trigger] r@[k] <= #[trigger] b@[m],
        decreases a.len() + b.len() - i - j,
    {
        let take_a = if i < a.len() {
            if j < b.len() {
                a[i] <= b[j]
            } else {
                true
            }
        } else {
            false
        };
        let ghost pre = r@;
        if take_a {
            let c = a[i];
            r.push(c);
            proof {
                pre.to_multiset_ensures();
                a@.subrange(0, i as int).to_multiset_ensures();
                assert(a@.subrange(0, i as int + 1) =~= a@.subrange(0, i as int).push(c));
                assert(pre.push(c).to_multiset() =~= pre.to_multiset().insert(c));
                assert(a@.subrange(0, i as int).push(c).to_multiset() =~= a@.subrange(
                    0,
                    i as int,
                ).to_multiset().insert(c));
                assert(r@.to_multiset() =~= a@.subrange(0, i as int + 1).to_multiset().add(
                    b@.subrange(0, j as int).to_multiset(),
                ));
            }
            i = i + 1;
        } else {
            let c = b[j];
            r.push(c);
            proof {
                pre.to_multiset_ensures();
                b@.subrange(0, j as int).to_multiset_ensures();
                assert(b@.subrange(0, j as int + 1) =~= b@.subrange(0, j as int).push(c));
                assert(pre.push(c).to_multiset() =~= pre.to_multiset().insert(c));
                assert(b@.subrange(0, j as int).push(c).to_multiset() =~= b@.subrange(
                    0,
                    j as int,
                ).to_multiset().insert(c));
                assert(r@.to_multiset() =~= b@.subrange(0, j as int + 1).to_multiset().add(
                    a@.subrange(0, i as int).to_multiset(),
                ));
                assert(a@.subrange(0, i as int).to_multiset().add(b@.subrange(
                    0,
                    j as int + 1,
                ).to_multiset()) =~= b@.subrange(0, j as int + 1).to_multiset().add(a@.subrange(
                    0,
                    i as int,
                ).to_multiset()));
            }
            j = j + 1;
        }
    }
    proof {
        assert(a@.subrange(0, a@.len() as int) =~= a@);
        assert(b@.subrange(0, b@.len() as int) =~= b@);
    }
    r
}

/// Sort a list of item indices ascending: merge sort, as the query-side
/// counterpart of the builder's candidate sort.
fn sort_indices(v: Vec<usize>) -> (r: Vec<usize>)
    ensures
        sorted_indices(r@),
        r@.to_multiset() == v@.to_multiset(),
        forall|x: usize| r@.contains(x) <==> v@.contains(x),
    decreases v@.len(),
{
    broadcast use group_to_multiset_ensures;

    if v.len() <= 1 {
        return v;
    }
    let ghost whole = v@;
    let mid = v.len() / 2;
    let mut left = v;
    let right = left.split_off(mid);
    let ghost gl = left@;
    let ghost gr = right@;
    let sorted_left = sort_indices(left);
    let sorted_right = sort_indices(right);
    let r = merge_indices(sorted_left, sorted_right);
    proof {
        assert(whole =~= gl + gr);
        lemma_multiset_commutative(gl, gr);
        assert(r@.to_multiset() =~= whole.to_multiset());
        assert forall|x: usize| r@.contains(x) <==> whole.contains(x) by {
            assert(r@.contains(x) <==> r@.to_multiset().count(x) > 0);
            assert(whole.contains(x) <==> whole.to_multiset().count(x) > 0);
        }
    }
    r
}

/// Drop the duplicates of an ascending index list; the result is strictly
/// ascending with the same members.
fn dedup_indices(v: Vec<usize>) -> (r: Vec<usize>)
    requires
        sorted_indices(v@),
    ensures
        strictly_sorted(r@),
        forall|x: usize| #[trigger] r@.contains(x) <==> v@.contains(x),
{
    let ghost vs = v@;
    let mut out: Vec<usize> = Vec::new();
    let mut i: usize = 0;
    while i < v.len()
        invariant
            vs == v@,
            i <= vs.len(),
            sorted_indices(vs),
            strictly_sorted(out@),
            forall|k: int| #![trigger out@[k]]
                0 <= k < out@.len() ==> exists|j: int| 0 <= j < i && out@[k] == vs[j],
            forall|x: usize| #[trigger] out@.contains(x) <==> vs.subrange(0, i as int).contains(x),
        decreases v.len() - i,
    {
        let c = v[i];
        let ghost pre = out@;
        let push_new = out.len() == 0 || out[out.len() - 1] < c;
        if push_new {
            out.push(c);
        }
        proof {
            assert(vs.subrange(0, i as int + 1) =~= vs.subrange(0, i as int).push(c));
            assert forall|x: usize| #[trigger]
                vs.subrange(0, i as int + 1).contains(x) <==> (vs.subrange(0, i as int).contains(x)
                    || x == c) by {
                if vs.subrange(0, i as int).contains(x) {
                    let k = choose|k: int|
                        0 <= k < vs.subrange(0, i as int).len() && vs.subrange(0, i as int)[k] == x;
                    assert(vs.subrange(0, i as int + 1)[k] == x);
                }
                if x == c {
                    assert(vs.subrange(0, i as int + 1)[i as int] == x);
                }
            }
            if push_new {
                assert forall|k1: int, k2: int| 0 <= k1 < k2 < out@.len() implies out@[k1]
                    < out@[k2] by {
                    if k2 == out@.len() - 1 && k1 < pre.len() - 1 {
                        assert(pre[k1] < pre[pre.len() - 1]);
                    }
                }
                assert forall|x: usize| #[trigger]
                    out@.contains(x) <==> (pre.contains(x) || x == c) by {
                    if out@.contains(x) {
                        let k = choose|k: int| 0 <= k < out@.len() && out@[k] == x;
                        if k < pre.len() {
                            assert(pre[k] == x);
                        }
                    }
                    if pre.contains(x) {
                        let k = choose|k: int| 0 <= k < pre.len() && pre[k] == x;
                        assert(out@[k] == x);
                    }
                    if x == c {
                        assert(out@[out@.len() - 1] == x);
                    }
                }
                assert forall|k: int| #![trigger out@[k]] 0 <= k < out@.len() implies exists|j: int|
                    0 <= j < i + 1 && out@[k] == vs[j] by {
                    if k < pre.len() {
                        assert(pre[k] == out@[k]);
                        let j = choose|j: int| 0 <= j < i && pre[k] == vs[j];
                        assert(out@[k] == vs[j]);
                    } else {
                        assert(out@[k] == vs[i as int]);
                    }
                }
            } else {
                // The list already ends with this value: an ascending input
                // cannot bring anything smaller.
                let last = pre[pre.len() - 1];
                let j = choose|j: int| 0 <= j < i && pre[pre.len() - 1] == vs[j];
                assert(vs[j] <= vs[i as int]);
                assert(last == c);
                assert(out@.contains(c)) by {
                    assert(out@[out@.len() - 1] == c);
                }
            }
        }
        i = i + 1;
    }
    proof {
        assert(vs.subrange(0, vs.len() as int) =~= vs);
    }
    out
}

/// Sort a list of item indices ascending and drop duplicates.
fn sort_dedup(v: Vec<usize>) -> (r: Vec<usize>)
    ensures
        strictly_sorted(r@),
        forall|x: usize| #[trigger] r@.contains(x) <==> v@.contains(x),
{
    let sorted = sort_indices(v);
    dedup_indices(sorted)
}

/// Two strictly ascending index sequences with the same members are the
/// same sequence: together with the membership clause of
/// [`KDTree::intersect`], two queries with identical ray parameters against
/// the same index return identical sequences.
pub proof fn lemma_intersect_deterministic(r1: Seq<usize>, r2: Seq<usize>)
    requires
        strictly_sorted(r1),
        strictly_sorted(r2),
        forall|x: usize| #![trigger r1.contains(x)] #![trigger r2.contains(x)]
            r1.contains(x) <==> r2.contains(x),
    ensures
        r1 == r2,
    decreases r1.len(),
{
    if r1.len() == 0 {
        if r2.len() > 0 {
            assert(r2.contains(r2[0]));
        }
        assert(r1 =~= r2);
    } else {
        assert(r1.contains(r1[0]));
        assert(r2.contains(r2[0]));
        let k1 = choose|k: int| 0 <= k < r2.len() && r2[k] == r1[0];
        let k2 = choose|k: int| 0 <= k < r1.len() && r1[k] == r2[0];
        assert(r2[0] <= r1[0]) by {
            if k1 > 0 {
                assert(r2[0] < r2[k1]);
            }
        }
        assert(r1[0] <= r2[0]) by {
            if k2 > 0 {
                assert(r1[0] < r1[k2]);
            }
        }
        let t1 = r1.drop_first();
        let t2 = r2.drop_first();
        assert forall|x: usize| #![trigger t1.contains(x)] #![trigger t2.contains(x)]
            t1.contains(x) <==> t2.contains(x) by {
            if t1.contains(x) {
                let k = choose|k: int| 0 <= k < t1.len() && t1[k] == x;
                assert(r1[k + 1] == x);
                assert(r1.contains(x));
                assert(r1[0] < x);
                let m = choose|m: int| 0 <= m < r2.len() && r2[m] == x;
                assert(m > 0);
                assert(t2[m - 1] == x);
            }
            if t2.contains(x) {
                let k = choose|k: int| 0 <= k < t2.len() && t2[k] == x;
                assert(r2[k + 1] == x);
                assert(r2.contains(x));
                assert(r2[0] < x);
                let m = choose|m: int| 0 <= m < r1.len() && r1[m] == x;
                assert(m > 0);
                assert(t1[m - 1] == x);
            }
        }
        lemma_intersect_deterministic(t1, t2);
        assert forall|i: int| 0 < i < r1.len() implies r1[i] == r2[i] by {
            assert(t1[i - 1] == t2[i - 1]);
        }
        assert(r1 =~= r2);
    }
}

impl KDTree {
    /// Return the indices of every item the ray could hit: a strictly
    /// ascending, duplicate-free list holding exactly the query set.  A ray
    /// that misses the overall bounding region returns an empty list
    /// without touching a single node, and no item whose own box the ray
    /// hits is ever missing.
    pub fn intersect(&self, ray_origin: &Vector3, ray_direction: &Vector3) -> (r: Vec<usize>)
        requires
            self.wf(),
            ray_origin.wf(),
            ray_direction.wf(),
        ensures
            strictly_sorted(r@),
            forall|s: usize| #[trigger]
                r@.contains(s) <==> self.query_set(*ray_origin, *ray_direction).contains(s),
            forall|s: usize|
                s < self.spec_items().len() && hits(
                    *ray_origin,
                    *ray_direction,
                    self.spec_items()[s as int],
                ) ==> #[trigger] r@.contains(s),
            !hits(*ray_origin, *ray_direction, self.spec_space()) ==> r@.len() == 0,
            forall|s: usize| #[trigger] r@.contains(s) ==> s < self.spec_items().len(),
    {
        let ghost o = *ray_origin;
        let ghost d = *ray_direction;
        let ray = Ray::new(ray_origin, ray_direction);

        // A ray that misses the overall region cannot hit any item inside
        // it: return at once, before any node is visited.
        if !ray.intersect(&self.space) {
            proof {
                assert forall|s: usize|
                    s < self.spec_items().len() && hits(o, d, self.spec_items()[s as int])
                        implies false by {
                    let (tn, td) = choose|tn: int, td: int|
                        tn > 0 && td > 0 && #[trigger] ray_box_sat(
                            o,
                            d,
                            self.spec_items()[s as int],
                            tn,
                            td,
                        );
                    lemma_sat_inside(o, d, self.spec_items()[s as int], self.spec_space(), tn, td);
                }
            }
            return Vec::new();
        }

        let ghost tree = self.spec_tree();
        let ghost n = tree.len() as nat;
        let mut result: Vec<usize> = Vec::new();
        let mut stack: Vec<usize> = Vec::with_capacity(self.depth);
        stack.push(0);
        proof {
            assert(stack_sets(tree, Seq::<usize>::empty(), o, d) =~= Set::<usize>::empty());
            lemma_stack_push(tree, Seq::<usize>::empty(), 0, o, d, n);
            assert(result@.to_set().union(stack_sets(tree, stack@, o, d)) =~= collected(
                tree,
                0,
                o,
                d,
            ));
        }
        while stack.len() > 0
            invariant
                tree == self.spec_tree(),
                n == tree.len(),
                ray.wf(),
                ray.origin == o,
                ray.direction == d,
                forall|k: int| 0 <= k < stack@.len() ==> arena_wf(tree, (#[trigger] stack@[k]) as int),
                result@.to_set().union(stack_sets(tree, stack@, o, d)) == collected(tree, 0, o, d),
            decreases stack_measure(stack@, n),
        {
            let ghost st0 = stack@;
            let node_index = stack.pop().unwrap();
            proof {
                assert(st0[st0.len() - 1] == node_index);
                assert(arena_wf(tree, node_index as int));
                assert(st0.drop_last() =~= stack@);
                assert(stack_sets(tree, st0, o, d) == stack_sets(tree, stack@, o, d).union(
                    collected(tree, node_index as int, o, d),
                ));
                assert(stack_measure(st0, n) == stack_measure(stack@, n) + pow2(
                    (n - node_index) as nat,
                ));
                lemma_pow2_pos((n - node_index) as nat);
            }
            let node = &self.tree[node_index];
            match node {
                KDTreeNode::Leaf { shapes } => {
                    let ghost pre_res = result@;
                    let mut k: usize = 0;
                    while k < shapes.len()
                        invariant
                            k <= shapes@.len(),
                            result@ == pre_res + shapes@.subrange(0, k as int),
                        decreases shapes.len() - k,
                    {
                        result.push(shapes[k]);
                        proof {
                            assert(result@ =~= pre_res + shapes@.subrange(0, k as int + 1));
                        }
                        k = k + 1;
                    }
                    proof {
                        assert(shapes@.subrange(0, shapes@.len() as int) =~= shapes@);
                        assert(result@ == pre_res + shapes@);
                        assert forall|x: usize| #[trigger]
                            result@.contains(x) <==> (pre_res.contains(x) || shapes@.contains(x)) by {
                            if result@.contains(x) {
                                let kk = choose|kk: int| 0 <= kk < result@.len() && result@[kk] == x;
                                if kk < pre_res.len() {
                                    assert(pre_res[kk] == x);
                                } else {
                                    assert(shapes@[kk - pre_res.len()] == x);
                                }
                            }
                            if pre_res.contains(x) {
                                let kk = choose|kk: int| 0 <= kk < pre_res.len() && pre_res[kk] == x;
                                assert(result@[kk] == x);
                            }
                            if shapes@.contains(x) {
                                let kk = choose|kk: int| 0 <= kk < shapes@.len() && shapes@[kk] == x;
                                assert(result@[kk + pre_res.len()] == x);
                            }
                        }
                        assert(collected(tree, node_index as int, o, d) == shapes@.to_set());
                        assert(result@.to_set().union(stack_sets(tree, stack@, o, d)) =~= collected(
                            tree,
                            0,
                            o,
                            d,
                        ));
                    }
                },
                KDTreeNode::Node { l_child, l_space, r_child, r_space } => {
                    let lc = *l_child;
                    let ls = *l_space;
                    let rc = *r_child;
                    let rs = *r_space;
                    let ghost st1 = stack@;
                    if ray.intersect(&rs) {
                        stack.push(rc);
                        proof {
                            lemma_stack_push(tree, st1, rc, o, d, n);
                        }
                    }
                    let ghost st2 = stack@;
                    if ray.intersect(&ls) {
                        stack.push(lc);
                        proof {
                            lemma_stack_push(tree, st2, lc, o, d, n);
                        }
                    }
                    proof {
                        assert(collected(tree, node_index as int, o, d) == (if hits(o, d, rs) {
                            collected(tree, rc as int, o, d)
                        } else {
                            Set::<usize>::empty()
                        }).union(
                            if hits(o, d, ls) {
                                collected(tree, lc as int, o, d)
                            } else {
                                Set::<usize>::empty()
                            },
                        ));
                        assert(result@.to_set().union(stack_sets(tree, stack@, o, d)) =~= collected(
                            tree,
                            0,
                            o,
                            d,
                        ));
                        // The two children lie strictly deeper in the arena,
                        // so their shares sum to less than the node's.
                        lemma_pow2_unfold((n - node_index) as nat);
                        lemma_pow2_strictly_increases(
                            (n - rc) as nat,
                            (n - node_index - 1) as nat,
                        );
                        if n - lc < n - node_index - 1 {
                            lemma_pow2_strictly_increases(
                                (n - lc) as nat,
                                (n - node_index - 1) as nat,
                            );
                        }
                        assert(pow2((n - rc) as nat) + pow2((n - lc) as nat) < pow2(
                            (n - node_index) as nat,
                        ));
                    }
                },
            }
        }
        proof {
            assert(result@.to_set().union(stack_sets(tree, stack@, o, d)) =~= result@.to_set());
        }
        let r = sort_dedup(result);
        proof {
            assert forall|s: usize|
                s < self.spec_items().len() && hits(o, d, self.spec_items()[s as int])
                    implies #[trigger] r@.contains(s) by {
                assert(collected(tree, 0, o, d).contains(s));
                assert(result@.to_set().contains(s));
            }
            assert forall|s: usize| #[trigger] r@.contains(s) implies s
                < self.spec_items().len() by {
                assert(result@.to_set().contains(s));
                assert(collected(tree, 0, o, d).contains(s));
            }
        }
        r
    }
}

impl Bounded for KDTree {
    open spec fn inv(&self) -> bool {
        self.wf()
    }

    open spec fn spec_bound(&self) -> AABB {
        self.spec_space()
    }

    /// The overall bounding region, so an index can itself be indexed.
    fn bound(&self) -> (r: AABB) {
        self.space
    }
}

} // verus!
