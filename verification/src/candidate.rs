//! Split candidates: the sweep events of the cost search.

use vstd::prelude::*;
use vstd::seq_lib::group_to_multiset_ensures;
use vstd::seq_lib::lemma_multiset_commutative;

use crate::aabb::AABB;
use crate::config::MAX_ITEMS;
use crate::plane::{spec_axis, Dimension, Plane};

verus! {

/// A list of split candidates.
pub type Candidates = Vec<Candidate>;

/// One sweep event: a hypothetical splitting plane taken from one face of
/// one item's bounding box.
#[derive(Clone, Copy, Debug, PartialEq, Eq, Structural)]
pub struct Candidate {
    /// The candidate splitting plane.
    pub plane: Plane,
    /// True when the plane is the minimum (begin) face of the item's box.
    pub is_left: bool,
    /// The index of the item the event belongs to.
    pub shape: usize,
}

/// Candidate order: ascending plane position; at equal positions a begin
/// event comes before an end event.
pub open spec fn cand_le(a: Candidate, b: Candidate) -> bool {
    ||| a.plane.pos < b.plane.pos
    ||| (a.plane.pos == b.plane.pos && (a.is_left || !b.is_left))
}

/// Is the candidate list sorted by [`cand_le`]?
pub open spec fn sorted_cands(s: Seq<Candidate>) -> bool {
    forall|i: int, j: int| 0 <= i < j < s.len() ==> cand_le(#[trigger] s[i], #[trigger] s[j])
}

/// Does the event describe the face it claims, for the given item boxes?
pub open spec fn cand_event_wf(c: Candidate, items: Seq<AABB>) -> bool {
    &&& c.shape < items.len()
    &&& c.shape < MAX_ITEMS
    &&& c.plane.pos == if c.is_left {
        spec_axis(items[c.shape as int].min, c.plane.dimension)
    } else {
        spec_axis(items[c.shape as int].max, c.plane.dimension)
    }
}

/// Does some event of item `s` occur in the list?
pub open spec fn has_item(cs: Seq<Candidate>, s: usize) -> bool {
    exists|i: int| 0 <= i < cs.len() && (#[trigger] cs[i]).shape == s
}

/// Does a begin event of item `s` on axis `dim` occur in the list?
pub open spec fn has_begin(cs: Seq<Candidate>, s: usize, dim: Dimension) -> bool {
    exists|i: int|
        0 <= i < cs.len() && (#[trigger] cs[i]).shape == s && cs[i].is_left && cs[i].plane.dimension
            == dim
}

/// A well-formed candidate list: sorted, every event consistent with the
/// item boxes, and every item present through at least its begin event on
/// the first axis (so a leaf can enumerate each of its items exactly there).
pub open spec fn cands_wf(cs: Seq<Candidate>, items: Seq<AABB>) -> bool {
    &&& sorted_cands(cs)
    &&& forall|i: int| 0 <= i < cs.len() ==> cand_event_wf(#[trigger] cs[i], items)
    &&& forall|i: int|
        0 <= i < cs.len() ==> has_begin(cs, (#[trigger] cs[i]).shape, Dimension::X)
}

impl Candidate {
    /// Create a new candidate event.
    pub fn new(plane: Plane, is_left: bool, index: usize) -> (r: Candidate)
        ensures
            r == (Candidate { plane, is_left, shape: index }),
    {
        Candidate { plane, is_left, shape: index }
    }

    /// Return the six candidates of one item: the begin and end face on
    /// each of the three axes.
    pub fn gen_candidates(shape: usize, bb: &AABB) -> (r: Candidates)
        ensures
            r@.len() == 6,
            r@[0] == (Candidate { plane: Plane { dimension: Dimension::X, pos: bb.min.x }, is_left: true, shape }),
            r@[1] == (Candidate { plane: Plane { dimension: Dimension::X, pos: bb.max.x }, is_left: false, shape }),
            r@[2] == (Candidate { plane: Plane { dimension: Dimension::Y, pos: bb.min.y }, is_left: true, shape }),
            r@[3] == (Candidate { plane: Plane { dimension: Dimension::Y, pos: bb.max.y }, is_left: false, shape }),
            r@[4] == (Candidate { plane: Plane { dimension: Dimension::Z, pos: bb.min.z }, is_left: true, shape }),
            r@[5] == (Candidate { plane: Plane { dimension: Dimension::Z, pos: bb.max.z }, is_left: false, shape }),
    {
        let mut r: Candidates = Vec::new();
        r.push(Candidate { plane: Plane { dimension: Dimension::X, pos: bb.min.x }, is_left: true, shape });
        r.push(Candidate { plane: Plane { dimension: Dimension::X, pos: bb.max.x }, is_left: false, shape });
        r.push(Candidate { plane: Plane { dimension: Dimension::Y, pos: bb.min.y }, is_left: true, shape });
        r.push(Candidate { plane: Plane { dimension: Dimension::Y, pos: bb.max.y }, is_left: false, shape });
        r.push(Candidate { plane: Plane { dimension: Dimension::Z, pos: bb.min.z }, is_left: true, shape });
        r.push(Candidate { plane: Plane { dimension: Dimension::Z, pos: bb.max.z }, is_left: false, shape });
        r
    }

    /// The axis of the candidate's plane.
    pub fn dimension(&self) -> (r: Dimension)
        ensures
            r == self.plane.dimension,
    {
        self.plane.dimension
    }

    /// The position of the candidate's plane.
    pub fn position(&self) -> (r: i64)
        ensures
            r == self.plane.pos,
    {
        self.plane.pos
    }

    /// Is this a begin (minimum face) event?
    pub fn is_left(&self) -> (r: bool)
        ensures
            r == self.is_left,
    {
        self.is_left
    }

    /// Is this an end (maximum face) event?
    pub fn is_right(&self) -> (r: bool)
        ensures
            r == !self.is_left,
    {
        !self.is_left
    }
}

/// Decide [`cand_le`] on two candidates.
fn cand_le_exec(a: &Candidate, b: &Candidate) -> (r: bool)
    ensures
        r == cand_le(*a, *b),
{
    a.plane.pos < b.plane.pos || (a.plane.pos == b.plane.pos && (a.is_left || !b.is_left))
}

/// Merge two sorted candidate lists into one sorted list holding exactly
/// the events of both.
fn merge_sorted(a: Candidates, b: Candidates) -> (r: Candidates)
    requires
        sorted_cands(a@),
        sorted_cands(b@),
    ensures
        sorted_cands(r@),
        r@.to_multiset() == a@.to_multiset().add(b@.to_multiset()),
{
    broadcast use group_to_multiset_ensures;

    let mut r: Candidates = Vec::new();
    let mut i: usize = 0;
    let mut j: usize = 0;
    while i < a.len() || j < b.len()
        invariant
            i <= a@.len(),
            j <= b@.len(),
            sorted_cands(a@),
            sorted_cands(b@),
            sorted_cands(r@),
            r@.to_multiset() == a@.subrange(0, i as int).to_multiset().add(
                b@.subrange(0, j as int).to_multiset(),
            ),
            forall|k: int, m: int|
                0 <= k < r@.len() && i <= m < a@.len() ==> cand_le(
                    #[trigger] r@[k],
                    #[trigger] a@[m],
                ),
            forall|k: int, m: int|
                0 <= k < r@.len() && j <= m < b@.len() ==> cand_le(
                    #[trigger] r@[k],
                    #[trigger] b@[m],
                ),
        decreases a.len() + b.len() - i - j,
    {
        let take_a = if i < a.len() {
            if j < b.len() {
                cand_le_exec(&a[i], &b[j])
            } else {
                true
            }
        } else {
            false
        };
        let ghost pre = r@;
        if take_a {
            let c = a[i];
            r.push(c);
            proof {
                pre.to_multiset_ensures();
                a@.subrange(0, i as int).to_multiset_ensures();
                assert(a@.subrange(0, i as int + 1) =~= a@.subrange(0, i as int).push(c));
                assert(pre.push(c).to_multiset() =~= pre.to_multiset().insert(c));
                assert(a@.subrange(0, i as int).push(c).to_multiset() =~= a@.subrange(
                    0,
                    i as int,
                ).to_multiset().insert(c));
                assert(r@.to_multiset() =~= a@.subrange(0, i as int + 1).to_multiset().add(
                    b@.subrange(0, j as int).to_multiset(),
                ));
            }
            i = i + 1;
        } else {
            let c = b[j];
            r.push(c);
            proof {
                pre.to_multiset_ensures();
                b@.subrange(0, j as int).to_multiset_ensures();
                assert(b@.subrange(0, j as int + 1) =~= b@.subrange(0, j as int).push(c));
                assert(pre.push(c).to_multiset() =~= pre.to_multiset().insert(c));
                assert(b@.subrange(0, j as int).push(c).to_multiset() =~= b@.subrange(
                    0,
                    j as int,
                ).to_multiset().insert(c));
                assert(r@.to_multiset() =~= b@.subrange(0, j as int + 1).to_multiset().add(
                    a@.subrange(0, i as int).to_multiset(),
                ));
                assert(a@.subrange(0, i as int).to_multiset().add(b@.subrange(
                    0,
                    j as int + 1,
                ).to_multiset()) =~= b@.subrange(0, j as int + 1).to_multiset().add(a@.subrange(
                    0,
                    i as int,
                ).to_multiset()));
            }
            j = j + 1;
        }
    }
    proof {
        assert(a@.subrange(0, a@.len() as int) =~= a@);
        assert(b@.subrange(0, b@.len() as int) =~= b@);
    }
    r
}

/// Sort a candidate list by plane position, begin events before end events
/// at equal positions: merge sort, so the one global sort of the builder
/// costs `O(n log n)`.  The result holds exactly the events of the input.
pub fn sort_candidates(v: Candidates) -> (r: Candidates)
    ensures
        sorted_cands(r@),
        r@.to_multiset() == v@.to_multiset(),
        forall|c: Candidate| r@.contains(c) <==> v@.contains(c),
        r@.len() == v@.len(),
    decreases v@.len(),
{
    broadcast use group_to_multiset_ensures;

    if v.len() <= 1 {
        proof {
            assert(forall|c: Candidate| v@.contains(c) <==> v@.contains(c));
        }
        return v;
    }
    let ghost whole = v@;
    let mid = v.len() / 2;
    let mut left = v;
    let right = left.split_off(mid);
    let ghost gl = left@;
    let ghost gr = right@;
    let sorted_left = sort_candidates(left);
    let sorted_right = sort_candidates(right);
    let r = merge_sorted(sorted_left, sorted_right);
    proof {
        assert(whole =~= gl + gr);
        lemma_multiset_commutative(gl, gr);
        assert(r@.to_multiset() =~= whole.to_multiset());
        assert forall|c: Candidate| r@.contains(c) <==> whole.contains(c) by {
            assert(r@.contains(c) <==> r@.to_multiset().count(c) > 0);
            assert(whole.contains(c) <==> whole.to_multiset().count(c) > 0);
        }
        assert(r@.len() == r@.to_multiset().len());
        assert(whole.len() == whole.to_multiset().len());
    }
    r
}

/// Transient per-item tag produced while classifying the items of one node
/// against its chosen splitting plane.
#[derive(Debug, Clone, Copy, PartialEq, Eq, Structural)]
pub enum Side {
    /// The item lies entirely on the near side of the plane.
    Left,
    /// The item lies entirely on the far side of the plane.
    Right,
    /// The item straddles the plane and belongs to both children.
    Both,
}

} // verus!
