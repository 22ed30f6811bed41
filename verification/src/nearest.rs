//! The vantage-point tree over a palette and its branch-and-bound
//! nearest-neighbor search.
//!
//! The tree is built once per palette; each node carries a vantage color
//! and either two children split by a radius around the vantage, or a
//! bounded inline list of the remaining entries. Search walks the tree,
//! keeps the best candidate seen, and skips a child only when the
//! triangle inequality proves that nothing in it can beat the best.

use vstd::prelude::*;
use crate::bounds::{
    lemma_diff_triangle, lemma_fast_path_sound, lemma_skip_far_sound, lemma_skip_near_sound,
    sqrt_sum_lt,
};
use crate::color::{diff_scalar, lemma_diff_bounds, lemma_diff_symmetric, spec_diff, Color, MAX_DIFF};
use crate::pal::{PalIndex, Palette, MAX_COLORS};
use crate::Error;

verus! {

/// One slot of the working array of palette indices that construction
/// partitions in place.
#[derive(Clone, Copy, Debug)]
pub struct MapIndex {
    pub idx: PalIndex,
}

/// The mutable record of the best candidate found so far during one
/// search: its squared distance, its palette index, and an optional
/// excluded index that may never become the best match.
pub struct Visitor {
    pub distance_squared: u64,
    pub idx: PalIndex,
    pub exclude: Option<PalIndex>,
}

/// A visitor either still holds its initial sentinel state, or holds an
/// actual candidate: a valid, non-excluded palette index together with its
/// exact squared distance to the query.
spec fn vis_wf(v: Visitor, q: Color, pal: Seq<Color>) -> bool {
    ||| (v.distance_squared == u64::MAX && v.idx == 0)
    ||| (v.idx < pal.len() && v.exclude != Some(v.idx) && v.distance_squared == spec_diff(
        pal[v.idx as int],
        q,
    ) && v.distance_squared <= MAX_DIFF)
}

impl Visitor {
    /// Offer a candidate: it becomes the best match only if it is strictly
    /// closer than the current best and is not the excluded index, so ties
    /// keep the first-found candidate.
    fn visit(&mut self, distance_squared: u64, idx: PalIndex)
        ensures
            final(self).exclude == old(self).exclude,
            final(self).distance_squared <= old(self).distance_squared,
            if distance_squared < old(self).distance_squared && old(self).exclude != Some(idx) {
                final(self).distance_squared == distance_squared && final(self).idx == idx
            } else {
                *final(self) == *old(self)
            },
    {
        let excluded = match self.exclude {
            Some(e) => e == idx,
            None => false,
        };
        if distance_squared < self.distance_squared && !excluded {
            self.distance_squared = distance_squared;
            self.idx = idx;
        }
    }
}

/// The number of entries a leaf's inline list can hold.
pub const LEAF_MAX_SIZE: usize = 6;

/// One tree node: its vantage color and index, and its shape.
pub(crate) struct Node {
    pub(crate) vantage_point: Color,
    pub(crate) inner: NodeInner,
    pub(crate) idx: PalIndex,
}

/// The two node shapes: an internal split around a radius, or a leaf with
/// a bounded inline list of the remaining entries.
pub(crate) enum NodeInner {
    Nodes { radius_squared: u64, near: Box<Node>, far: Box<Node> },
    Leaf { idxs: Vec<PalIndex>, colors: Vec<Color> },
}

/// Every palette index held by a subtree: the node's own vantage index,
/// then its children's members or its leaf list.
spec fn node_members(n: Node) -> Seq<PalIndex>
    decreases n,
{
    match n.inner {
        NodeInner::Leaf { idxs, .. } => seq![n.idx] + idxs@,
        NodeInner::Nodes { near, far, .. } => seq![n.idx] + node_members(*near) + node_members(
            *far,
        ),
    }
}

/// Well-formedness of a subtree against the palette: the vantage is the
/// palette entry of its index; a leaf's parallel lists agree with the
/// palette and respect the capacity; an internal node's children are
/// well-formed and split by the radius — every "near" member lies within
/// the squared radius of the vantage, every "far" member does not, and
/// the radius is itself the distance from the vantage to a "far" member,
/// so it is the least distance to that half.
spec fn node_wf(n: Node, pal: Seq<Color>) -> bool
    decreases n,
{
    &&& n.idx < pal.len()
    &&& n.vantage_point == pal[n.idx as int]
    &&& match n.inner {
        NodeInner::Leaf { idxs, colors } => {
            &&& idxs@.len() == colors@.len()
            &&& idxs@.len() <= LEAF_MAX_SIZE
            &&& forall|k: int|
                0 <= k < idxs@.len() ==> (#[trigger] idxs@[k]) < pal.len() && colors@[k] == pal[idxs@[k] as int]
        },
        NodeInner::Nodes { radius_squared, near, far } => {
            &&& radius_squared <= MAX_DIFF
            &&& node_wf(*near, pal)
            &&& node_wf(*far, pal)
            &&& forall|j: PalIndex|
                #[trigger] node_members(*near).contains(j) ==> spec_diff(
                    pal[n.idx as int],
                    pal[j as int],
                ) <= radius_squared
            &&& forall|j: PalIndex|
                #[trigger] node_members(*far).contains(j) ==> spec_diff(
                    pal[n.idx as int],
                    pal[j as int],
                ) >= radius_squared
            &&& exists|j: PalIndex|
                #[trigger] node_members(*far).contains(j) && spec_diff(
                    pal[n.idx as int],
                    pal[j as int],
                ) == radius_squared
        },
    }
}

/// The vantage of every subtree is an entry of maximal popularity weight
/// among that subtree's members: construction promotes the most popular
/// entry of each working slice, so popular colors separate the space.
spec fn vantage_most_popular(n: Node, weights: Seq<u32>) -> bool
    decreases n,
{
    &&& n.idx < weights.len()
    &&& forall|j: PalIndex|
        #[trigger] node_members(n).contains(j) && j < weights.len() ==> weights[j as int]
            <= weights[n.idx as int]
    &&& match n.inner {
        NodeInner::Nodes { near, far, .. } => vantage_most_popular(*near, weights)
            && vantage_most_popular(*far, weights),
        NodeInner::Leaf { .. } => true,
    }
}

/// Every member of a well-formed subtree is a valid palette index.
proof fn lemma_members_bounded(n: Node, pal: Seq<Color>)
    requires
        node_wf(n, pal),
    ensures
        forall|j: PalIndex| #[trigger] node_members(n).contains(j) ==> j < pal.len(),
    decreases n,
{
    match n.inner {
        NodeInner::Leaf { idxs, colors } => {
            assert forall|j: PalIndex| #[trigger] node_members(n).contains(j) implies j
                < pal.len() by {
                let s = node_members(n);
                let t = choose|t: int| 0 <= t < s.len() && s[t] == j;
                if t == 0 {
                } else {
                    assert(idxs@[t - 1] == j);
                }
            }
        },
        NodeInner::Nodes { radius_squared, near, far } => {
            lemma_members_bounded(*near, pal);
            lemma_members_bounded(*far, pal);
            assert forall|j: PalIndex| #[trigger] node_members(n).contains(j) implies j
                < pal.len() by {
                let s = node_members(n);
                let nm = node_members(*near);
                let fm = node_members(*far);
                let t = choose|t: int| 0 <= t < s.len() && s[t] == j;
                if t == 0 {
                } else if t <= nm.len() {
                    assert(nm[t - 1] == j);
                    assert(nm.contains(j));
                } else {
                    assert(fm[t - 1 - nm.len()] == j);
                    assert(fm.contains(j));
                }
            }
        },
    }
}

/// Membership in a subtree, unfolded over the concatenation that
/// `node_members` builds.
proof fn lemma_members_split(n: Node)
    requires
        n.inner is Nodes,
    ensures
        forall|j: PalIndex|
            #[trigger] node_members(n).contains(j) <==> (j == n.idx || node_members(
                *n.inner->Nodes_near,
            ).contains(j) || node_members(*n.inner->Nodes_far).contains(j)),
{
    let near = n.inner->Nodes_near;
    let far = n.inner->Nodes_far;
    let s = node_members(n);
    let nm = node_members(*near);
    let fm = node_members(*far);
    assert forall|j: PalIndex| #[trigger] s.contains(j) implies (j == n.idx || nm.contains(j)
        || fm.contains(j)) by {
        let t = choose|t: int| 0 <= t < s.len() && s[t] == j;
        if t == 0 {
        } else if t <= nm.len() {
            assert(nm[t - 1] == j);
        } else {
            assert(fm[t - 1 - nm.len()] == j);
        }
    }
    assert forall|j: PalIndex| (j == n.idx || nm.contains(j) || fm.contains(j)) implies #[trigger] s
        .contains(j) by {
        if j == n.idx {
            assert(s[0] == j);
        } else if nm.contains(j) {
            let t = choose|t: int| 0 <= t < nm.len() && nm[t] == j;
            assert(s[t + 1] == j);
        } else {
            let t = choose|t: int| 0 <= t < fm.len() && fm[t] == j;
            assert(s[t + 1 + nm.len()] == j);
        }
    }
}

/// Membership in a leaf node, unfolded the same way.
proof fn lemma_members_leaf(n: Node)
    requires
        n.inner is Leaf,
    ensures
        forall|j: PalIndex|
            #[trigger] node_members(n).contains(j) <==> (j == n.idx
                || n.inner->Leaf_idxs@.contains(j)),
{
    let idxs = n.inner->Leaf_idxs;
    let s = node_members(n);
    assert forall|j: PalIndex| #[trigger] s.contains(j) implies (j == n.idx || idxs@.contains(
        j,
    )) by {
        let t = choose|t: int| 0 <= t < s.len() && s[t] == j;
        if t == 0 {
        } else {
            assert(idxs@[t - 1] == j);
        }
    }
    assert forall|j: PalIndex| (j == n.idx || idxs@.contains(j)) implies #[trigger] s.contains(
        j,
    ) by {
        if j == n.idx {
            assert(s[0] == j);
        } else {
            let t = choose|t: int| 0 <= t < idxs@.len() && idxs@[t] == j;
            assert(s[t + 1] == j);
        }
    }
}

/// Decides whether the "far" child is provably out of reach: whether the
/// distance to the vantage plus the best distance falls short of the
/// radius, `sqrt(d) + sqrt(best) < sqrt(r)`, decided exactly over the
/// squared values.
fn far_out_of_reach(d: u64, best: u64, r: u64) -> (skip: bool)
    requires
        d <= MAX_DIFF,
        r <= MAX_DIFF,
    ensures
        skip == sqrt_sum_lt(d as int, best as int, r as int),
{
    if best >= r || d >= r {
        return false;
    }
    if d + best >= r {
        return false;
    }
    let s: u64 = r - d - best;
    proof {
        crate::bounds::lemma_mul_le_both(s as int, s as int, MAX_DIFF as int, MAX_DIFF as int);
        crate::bounds::lemma_mul_le_both(
            4 * (d as int),
            best as int,
            4 * (MAX_DIFF as int),
            MAX_DIFF as int,
        );
    }
    (s as u128) * (s as u128) > 4 * (d as u128) * (best as u128)
}

/// Decides whether the "near" child is provably out of reach: whether the
/// distance to the vantage exceeds the radius plus the best distance,
/// `sqrt(r) + sqrt(best) < sqrt(d)`, decided exactly over the squared
/// values.
fn near_out_of_reach(d: u64, best: u64, r: u64) -> (skip: bool)
    requires
        d <= MAX_DIFF,
        r <= MAX_DIFF,
    ensures
        skip == sqrt_sum_lt(r as int, best as int, d as int),
{
    if best >= d || r >= d {
        return false;
    }
    if r + best >= d {
        return false;
    }
    let s: u64 = d - r - best;
    proof {
        crate::bounds::lemma_mul_le_both(s as int, s as int, MAX_DIFF as int, MAX_DIFF as int);
        crate::bounds::lemma_mul_le_both(
            4 * (r as int),
            best as int,
            4 * (MAX_DIFF as int),
            MAX_DIFF as int,
        );
    }
    (s as u128) * (s as u128) > 4 * (r as u128) * (best as u128)
}

/// One search step over a subtree: visit the vantage, then the children in
/// the order the radius test picks, skipping a child only when the
/// triangle inequality shows it cannot hold a better candidate. On return
/// the best candidate is at or below its old distance, is still a faithful
/// candidate, and is at or below the distance of every non-excluded member
/// of this subtree; it is either the old candidate, unchanged, or a
/// strictly closer member of this subtree — a tie never displaces the
/// candidate that was found first.
fn vp_search_node(
    node: &Node,
    needle: &Color,
    best_candidate: &mut Visitor,
    Ghost(pal): Ghost<Seq<Color>>,
)
    requires
        node_wf(*node, pal),
        needle.wf(),
        forall|i: int| 0 <= i < pal.len() ==> (#[trigger] pal[i]).wf(),
        vis_wf(*old(best_candidate), *needle, pal),
    ensures
        final(best_candidate).exclude == old(best_candidate).exclude,
        final(best_candidate).distance_squared <= old(best_candidate).distance_squared,
        vis_wf(*final(best_candidate), *needle, pal),
        forall|j: PalIndex|
            #[trigger] node_members(*node).contains(j) && old(best_candidate).exclude != Some(j)
                ==> final(best_candidate).distance_squared <= spec_diff(pal[j as int], *needle),
        *final(best_candidate) == *old(best_candidate) || node_members(*node).contains(
            final(best_candidate).idx,
        ),
        *final(best_candidate) == *old(best_candidate) || final(best_candidate).distance_squared
            < old(best_candidate).distance_squared,
    decreases *node,
{
    proof {
        lemma_members_bounded(*node, pal);
    }
    let d = diff_scalar(&node.vantage_point, needle);
    best_candidate.visit(d, node.idx);
    let ghost after_vantage = *best_candidate;
    proof {
        assert(node_members(*node)[0] == node.idx);
        assert(node_members(*node).contains(node.idx));
    }
    match &node.inner {
        NodeInner::Nodes { radius_squared, near, far } => {
            proof {
                lemma_members_split(*node);
            }
            if d < *radius_squared {
                vp_search_node(near, needle, best_candidate, Ghost(pal));
                let ghost mid = *best_candidate;
                if !far_out_of_reach(d, best_candidate.distance_squared, *radius_squared) {
                    vp_search_node(far, needle, best_candidate, Ghost(pal));
                } else {
                    proof {
                        let b = best_candidate.distance_squared;
                        lemma_members_bounded(**far, pal);
                        assert forall|j: PalIndex|
                            #[trigger] node_members(**far).contains(j) && old(
                                best_candidate,
                            ).exclude != Some(j) implies b <= spec_diff(pal[j as int], *needle) by {
                            let vc = pal[node.idx as int];
                            let pc = pal[j as int];
                            lemma_diff_bounds(vc, pc);
                            lemma_diff_bounds(pc, *needle);
                            lemma_diff_bounds(vc, *needle);
                            lemma_diff_triangle(vc, *needle, pc);
                            lemma_diff_symmetric(*needle, pc);
                            lemma_skip_far_sound(
                                d as int,
                                b as int,
                                *radius_squared as int,
                                spec_diff(vc, pc),
                                spec_diff(pc, *needle),
                            );
                        }
                    }
                }
                proof {
                    let sf = *best_candidate;
                    if sf != after_vantage {
                        if sf == mid {
                            assert(node_members(**near).contains(sf.idx));
                        } else {
                            assert(node_members(**far).contains(sf.idx));
                        }
                        assert(node_members(*node).contains(sf.idx));
                    }
                }
            } else {
                vp_search_node(far, needle, best_candidate, Ghost(pal));
                let ghost mid = *best_candidate;
                if !near_out_of_reach(d, best_candidate.distance_squared, *radius_squared) {
                    vp_search_node(near, needle, best_candidate, Ghost(pal));
                } else {
                    proof {
                        let b = best_candidate.distance_squared;
                        lemma_members_bounded(**near, pal);
                        assert forall|j: PalIndex|
                            #[trigger] node_members(**near).contains(j) && old(
                                best_candidate,
                            ).exclude != Some(j) implies b <= spec_diff(pal[j as int], *needle) by {
                            let vc = pal[node.idx as int];
                            let pc = pal[j as int];
                            lemma_diff_bounds(vc, pc);
                            lemma_diff_bounds(pc, *needle);
                            lemma_diff_bounds(vc, *needle);
                            lemma_diff_triangle(vc, pc, *needle);
                            lemma_skip_near_sound(
                                d as int,
                                b as int,
                                *radius_squared as int,
                                spec_diff(vc, pc),
                                spec_diff(pc, *needle),
                            );
                        }
                    }
                }
                proof {
                    let sf = *best_candidate;
                    if sf != after_vantage {
                        if sf == mid {
                            assert(node_members(**far).contains(sf.idx));
                        } else {
                            assert(node_members(**near).contains(sf.idx));
                        }
                        assert(node_members(*node).contains(sf.idx));
                    }
                }
            }
        },
        NodeInner::Leaf { idxs, colors } => {
            proof {
                lemma_members_leaf(*node);
            }
            let ghost entry = after_vantage;
            let mut k: usize = 0;
            while k < idxs.len()
                invariant
                    0 <= k <= idxs@.len(),
                    idxs@.len() == colors@.len(),
                    forall|t: int|
                        0 <= t < idxs@.len() ==> (#[trigger] idxs@[t]) < pal.len() && colors@[t]
                            == pal[idxs@[t] as int],
                    forall|i: int| 0 <= i < pal.len() ==> (#[trigger] pal[i]).wf(),
                    needle.wf(),
                    vis_wf(*best_candidate, *needle, pal),
                    best_candidate.exclude == entry.exclude,
                    best_candidate.distance_squared <= entry.distance_squared,
                    forall|t: int|
                        0 <= t < k && entry.exclude != Some(idxs@[t])
                            ==> best_candidate.distance_squared <= spec_diff(
                            pal[#[trigger] idxs@[t] as int],
                            *needle,
                        ),
                    *best_candidate == entry || node_members(*node).contains(best_candidate.idx),
                    *best_candidate == entry || best_candidate.distance_squared
                        < entry.distance_squared,
                    node.inner is Leaf,
                    node.inner->Leaf_idxs@ == idxs@,
                decreases idxs@.len() - k,
            {
                proof {
                    lemma_members_leaf(*node);
                    assert(colors@[k as int] == pal[idxs@[k as int] as int]);
                    assert(pal[idxs@[k as int] as int].wf());
                    assert(idxs@.contains(idxs@[k as int]));
                    assert(node_members(*node).contains(idxs@[k as int]));
                }
                let d2 = diff_scalar(&colors[k], needle);
                best_candidate.visit(d2, idxs[k]);
                k += 1;
            }
            proof {
                assert forall|j: PalIndex|
                    #[trigger] node_members(*node).contains(j) && entry.exclude != Some(j)
                        implies best_candidate.distance_squared <= spec_diff(
                        pal[j as int],
                        *needle,
                    ) by {
                    if j != node.idx {
                        let t = choose|t: int| 0 <= t < idxs@.len() && idxs@[t] == j;
                        assert(entry.exclude != Some(idxs@[t]));
                    }
                }
            }
        },
    }
}

/// Whether some slot of a working array holds the palette index `j`.
spec fn has_idx(s: Seq<MapIndex>, j: PalIndex) -> bool {
    exists|t: int| 0 <= t < s.len() && (#[trigger] s[t]).idx == j
}

/// Whether some keyed pair of a working array holds the palette index `j`.
spec fn pairs_has_idx(s: Seq<(u64, MapIndex)>, j: PalIndex) -> bool {
    exists|t: int| 0 <= t < s.len() && (#[trigger] s[t]).1.idx == j
}

/// Pairwise-distinct palette indices in a working array.
spec fn distinct_idxs(s: Seq<MapIndex>) -> bool {
    forall|t1: int, t2: int|
        0 <= t1 < t2 < s.len() ==> (#[trigger] s[t1]).idx != (#[trigger] s[t2]).idx
}

/// Pairwise-distinct palette indices in a keyed working array.
spec fn distinct_pair_idxs(s: Seq<(u64, MapIndex)>) -> bool {
    forall|t1: int, t2: int|
        0 <= t1 < t2 < s.len() ==> (#[trigger] s[t1]).1.idx != (#[trigger] s[t2]).1.idx
}

/// Swapping two slots of a sequence keeps exactly the same multiset of
/// elements.
proof fn lemma_swap_multiset<T>(s1: Seq<T>, s2: Seq<T>, a: int, b: int)
    requires
        0 <= a <= b < s1.len(),
        s2 == s1.update(a, s1[b]).update(b, s1[a]),
    ensures
        s1.to_multiset() == s2.to_multiset(),
{
    broadcast use vstd::seq_lib::group_to_multiset_ensures;
    broadcast use vstd::multiset::group_multiset_axioms;

    if a == b {
        assert(s2 =~= s1);
    } else {
        let p = s1.subrange(0, a);
        let x = seq![s1[a]];
        let m = s1.subrange(a + 1, b);
        let y = seq![s1[b]];
        let sfx = s1.subrange(b + 1, s1.len() as int);
        assert(s1 =~= p + x + m + y + sfx);
        assert(s2 =~= p + y + m + x + sfx);
        vstd::seq_lib::lemma_multiset_commutative(p + x + m + y, sfx);
        vstd::seq_lib::lemma_multiset_commutative(p + x + m, y);
        vstd::seq_lib::lemma_multiset_commutative(p + x, m);
        vstd::seq_lib::lemma_multiset_commutative(p, x);
        vstd::seq_lib::lemma_multiset_commutative(p + y + m + x, sfx);
        vstd::seq_lib::lemma_multiset_commutative(p + y + m, x);
        vstd::seq_lib::lemma_multiset_commutative(p + y, m);
        vstd::seq_lib::lemma_multiset_commutative(p, y);
        assert(s1.to_multiset() =~= s2.to_multiset());
    }
}

/// Reordering a keyed working array (same multiset of pairs) keeps its
/// palette indices pairwise distinct.
proof fn lemma_perm_preserves_distinct(s1: Seq<(u64, MapIndex)>, s2: Seq<(u64, MapIndex)>)
    requires
        s1.to_multiset() == s2.to_multiset(),
        distinct_pair_idxs(s1),
    ensures
        distinct_pair_idxs(s2),
{
    broadcast use vstd::seq_lib::group_to_multiset_ensures;
    broadcast use vstd::multiset::group_multiset_axioms;

    assert(s1.no_duplicates()) by {
        assert forall|i: int, j: int|
            0 <= i < s1.len() && 0 <= j < s1.len() && i != j implies s1[i] != s1[j] by {
            if s1[i] == s1[j] {
                if i < j {
                    assert((#[trigger] s1[i]).1.idx != (#[trigger] s1[j]).1.idx);
                } else {
                    assert((#[trigger] s1[j]).1.idx != (#[trigger] s1[i]).1.idx);
                }
            }
        }
    }
    s1.lemma_multiset_has_no_duplicates();
    assert forall|t1: int, t2: int|
        0 <= t1 < t2 < s2.len() implies (#[trigger] s2[t1]).1.idx != (#[trigger] s2[t2]).1.idx by {
        if s2[t1].1.idx == s2[t2].1.idx {
            if s2[t1] == s2[t2] {
                let e = s2[t1];
                let sa = s2.subrange(0, t2);
                let sb = s2.subrange(t2, s2.len() as int);
                assert(s2 =~= sa + sb);
                vstd::seq_lib::lemma_multiset_commutative(sa, sb);
                assert(sa[t1] == e);
                assert(sa.contains(e));
                assert(sb[0] == e);
                assert(sb.contains(e));
                assert(s2.to_multiset().count(e) >= 2);
                assert(s1.to_multiset().contains(e));
                assert(false);
            } else {
                assert(s2.contains(s2[t1]));
                assert(s2.contains(s2[t2]));
                assert(s1.to_multiset().count(s2[t1]) > 0);
                assert(s1.to_multiset().count(s2[t2]) > 0);
                assert(s1.contains(s2[t1]));
                assert(s1.contains(s2[t2]));
                let u1 = choose|u: int| 0 <= u < s1.len() && s1[u] == s2[t1];
                let u2 = choose|u: int| 0 <= u < s1.len() && s1[u] == s2[t2];
                assert(u1 != u2);
                if u1 < u2 {
                    assert((#[trigger] s1[u1]).1.idx != (#[trigger] s1[u2]).1.idx);
                } else {
                    assert((#[trigger] s1[u2]).1.idx != (#[trigger] s1[u1]).1.idx);
                }
                assert(false);
            }
        }
    }
}

/// Swapping two slots of a sequence keeps exactly the same elements.
proof fn lemma_swap_contains<T>(s1: Seq<T>, s2: Seq<T>, a: int, b: int)
    requires
        0 <= a < s1.len(),
        0 <= b < s1.len(),
        s2 == s1.update(a, s1[b]).update(b, s1[a]),
    ensures
        forall|x: T| s1.contains(x) <==> s2.contains(x),
{
    assert forall|x: T| s1.contains(x) implies s2.contains(x) by {
        let t = choose|t: int| 0 <= t < s1.len() && s1[t] == x;
        if t == a {
            assert(s2[b] == x);
        } else if t == b {
            assert(s2[a] == x);
        } else {
            assert(s2[t] == x);
        }
    }
    assert forall|x: T| s2.contains(x) implies s1.contains(x) by {
        let t = choose|t: int| 0 <= t < s2.len() && s2[t] == x;
        if t == a {
            assert(s1[b] == x);
        } else if t == b {
            assert(s1[a] == x);
        } else {
            assert(s1[t] == x);
        }
    }
}

/// Two keyed working arrays with the same elements hold the same palette
/// indices.
proof fn lemma_pairs_idx_set(s1: Seq<(u64, MapIndex)>, s2: Seq<(u64, MapIndex)>)
    requires
        forall|x: (u64, MapIndex)| s1.contains(x) <==> s2.contains(x),
    ensures
        forall|j: PalIndex| pairs_has_idx(s1, j) <==> pairs_has_idx(s2, j),
{
    assert forall|j: PalIndex| pairs_has_idx(s1, j) implies pairs_has_idx(s2, j) by {
        let t = choose|t: int| 0 <= t < s1.len() && (#[trigger] s1[t]).1.idx == j;
        assert(s1.contains(s1[t]));
        let u = choose|u: int| 0 <= u < s2.len() && s2[u] == s1[t];
        assert((#[trigger] s2[u]).1.idx == j);
    }
    assert forall|j: PalIndex| pairs_has_idx(s2, j) implies pairs_has_idx(s1, j) by {
        let t = choose|t: int| 0 <= t < s2.len() && (#[trigger] s2[t]).1.idx == j;
        assert(s2.contains(s2[t]));
        let u = choose|u: int| 0 <= u < s1.len() && s1[u] == s2[t];
        assert((#[trigger] s1[u]).1.idx == j);
    }
}

/// Position of an entry with the highest popularity weight among the
/// working array; on equal weights the later entry wins.
fn pick_vantage(indexes: &Vec<MapIndex>, items: &Palette) -> (pos: usize)
    requires
        items.wf(),
        indexes@.len() >= 1,
        forall|k: int|
            0 <= k < indexes@.len() ==> (#[trigger] indexes@[k]).idx < items.colors@.len(),
    ensures
        pos < indexes@.len(),
        forall|k: int|
            0 <= k < indexes@.len() ==> items.weights@[(#[trigger] indexes@[k]).idx as int]
                <= items.weights@[indexes@[pos as int].idx as int],
        forall|k: int|
            pos < k < indexes@.len() ==> items.weights@[(#[trigger] indexes@[k]).idx as int]
                < items.weights@[indexes@[pos as int].idx as int],
{
    let mut pos: usize = 0;
    let mut best_w: u32 = items.weights[indexes[0].idx as usize];
    let mut k: usize = 1;
    while k < indexes.len()
        invariant
            items.wf(),
            1 <= k <= indexes@.len(),
            pos < k,
            forall|t: int|
                0 <= t < indexes@.len() ==> (#[trigger] indexes@[t]).idx < items.colors@.len(),
            best_w == items.weights@[indexes@[pos as int].idx as int],
            forall|t: int|
                0 <= t < k ==> items.weights@[(#[trigger] indexes@[t]).idx as int] <= best_w,
            forall|t: int|
                pos < t < k ==> items.weights@[(#[trigger] indexes@[t]).idx as int] < best_w,
        decreases indexes@.len() - k,
    {
        let w = items.weights[indexes[k].idx as usize];
        if w >= best_w {
            pos = k;
            best_w = w;
        }
        k += 1;
    }
    pos
}

/// Insertion sort of the keyed working array, ascending by key. The
/// result holds exactly the elements of the input.
fn sort_pairs(v: &mut Vec<(u64, MapIndex)>)
    ensures
        final(v)@.len() == old(v)@.len(),
        forall|i: int, j: int|
            0 <= i <= j < final(v)@.len() ==> (#[trigger] final(v)@[i]).0
                <= (#[trigger] final(v)@[j]).0,
        forall|x: (u64, MapIndex)| old(v)@.contains(x) <==> final(v)@.contains(x),
        final(v)@.to_multiset() == old(v)@.to_multiset(),
{
    let ghost orig = v@;
    let mut i: usize = 1;
    while i < v.len()
        invariant
            1 <= i,
            v@.len() == orig.len(),
            forall|a: int, b: int|
                0 <= a <= b < i && b < v@.len() ==> (#[trigger] v@[a]).0 <= (#[trigger] v@[b]).0,
            forall|x: (u64, MapIndex)| orig.contains(x) <==> v@.contains(x),
            v@.to_multiset() == orig.to_multiset(),
        decreases v@.len() - i,
    {
        let mut j: usize = i;
        while j > 0 && v[j - 1].0 > v[j].0
            invariant
                0 <= j <= i < v@.len(),
                v@.len() == orig.len(),
                forall|a: int, b: int|
                    0 <= a <= b <= i as int && a != j && b != j ==> (#[trigger] v@[a]).0 <= (
                    #[trigger] v@[b]).0,
                forall|b: int| j < b <= i as int ==> (#[trigger] v@[b]).0 >= v@[j as int].0,
                forall|x: (u64, MapIndex)| orig.contains(x) <==> v@.contains(x),
                v@.to_multiset() == orig.to_multiset(),
            decreases j,
        {
            let ghost before = v@;
            let x = v[j - 1];
            let y = v[j];
            v[j - 1] = y;
            v[j] = x;
            proof {
                assert(v@ == before.update(j - 1, before[j as int]).update(j as int, before[j - 1]));
                lemma_swap_contains(before, v@, j - 1, j as int);
                lemma_swap_multiset(before, v@, j - 1, j as int);
            }
            j -= 1;
        }
        i += 1;
    }
}

/// Recursive construction of one subtree over the given working array of
/// palette indices: pick the most popular entry as the vantage, order the
/// rest by distance to it, and either store them inline in a leaf or split
/// them at the midpoint into a "near" and a "far" child. The resulting
/// subtree is well-formed and holds exactly the given palette indices.
fn vp_create_node(indexes: Vec<MapIndex>, items: &Palette) -> (n: Node)
    requires
        items.wf(),
        1 <= indexes@.len(),
        forall|k: int|
            0 <= k < indexes@.len() ==> (#[trigger] indexes@[k]).idx < items.colors@.len(),
        distinct_idxs(indexes@),
    ensures
        node_wf(n, items.colors@),
        vantage_most_popular(n, items.weights@),
        forall|j: PalIndex| #[trigger] node_members(n).contains(j) <==> has_idx(indexes@, j),
        node_members(n).len() == indexes@.len(),
        node_members(n).no_duplicates(),
    decreases indexes@.len(),
{
    let ghost pal = items.colors@;
    let ghost orig = indexes@;
    if indexes.len() <= 1 {
        let idx0 = indexes[0].idx;
        let vantage_point = items.colors[idx0 as usize];
        let n = Node {
            vantage_point,
            idx: idx0,
            inner: NodeInner::Leaf { idxs: Vec::new(), colors: Vec::new() },
        };
        proof {
            lemma_members_leaf(n);
            assert forall|j: PalIndex| #[trigger] node_members(n).contains(j) <==> has_idx(
                orig,
                j,
            ) by {
                if node_members(n).contains(j) {
                    assert(j == idx0);
                    assert((#[trigger] orig[0]).idx == j);
                }
                if has_idx(orig, j) {
                    let t = choose|t: int| 0 <= t < orig.len() && (#[trigger] orig[t]).idx == j;
                    assert(t == 0);
                }
            }
            assert forall|j: PalIndex|
                #[trigger] node_members(n).contains(j) && j < items.weights@.len()
                    implies items.weights@[j as int] <= items.weights@[n.idx as int] by {
                assert(j == idx0);
            }
            assert(vantage_most_popular(n, items.weights@));
            assert(node_members(n) =~= seq![idx0]);
            assert(node_members(n).no_duplicates());
        }
        return n;
    }
    let pos = pick_vantage(&indexes, items);
    let mut indexes = indexes;
    let first = indexes[0];
    let chosen = indexes[pos];
    indexes[0] = chosen;
    indexes[pos] = first;
    let ghost swapped = indexes@;
    proof {
        assert(swapped == orig.update(0, orig[pos as int]).update(pos as int, orig[0]));
        lemma_swap_contains(orig, swapped, 0, pos as int);
        assert forall|t1: int, t2: int|
            0 <= t1 < t2 < swapped.len() implies (#[trigger] swapped[t1]).idx != (
        #[trigger] swapped[t2]).idx by {
            let o1: int = if t1 == 0 { pos as int } else if t1 == pos as int { 0 } else { t1 };
            let o2: int = if t2 == 0 { pos as int } else if t2 == pos as int { 0 } else { t2 };
            assert(swapped[t1] == orig[o1]);
            assert(swapped[t2] == orig[o2]);
            assert(o1 != o2);
            if o1 < o2 {
                assert((#[trigger] orig[o1]).idx != (#[trigger] orig[o2]).idx);
            } else {
                assert((#[trigger] orig[o2]).idx != (#[trigger] orig[o1]).idx);
            }
        }
        assert(distinct_idxs(swapped));
    }
    let vantage_idx = chosen.idx;
    let vantage_point = items.colors[vantage_idx as usize];
    let mut pairs: Vec<(u64, MapIndex)> = Vec::new();
    let mut k: usize = 1;
    while k < indexes.len()
        invariant
            items.wf(),
            1 <= k <= swapped.len(),
            indexes@ == swapped,
            pairs@.len() == k - 1,
            vantage_idx < pal.len(),
            pal == items.colors@,
            vantage_point == pal[vantage_idx as int],
            forall|t: int|
                0 <= t < swapped.len() ==> (#[trigger] swapped[t]).idx < pal.len(),
            forall|t: int| 0 <= t < pairs@.len() ==> (#[trigger] pairs@[t]).1 == swapped[t + 1],
            forall|t: int|
                0 <= t < pairs@.len() ==> (#[trigger] pairs@[t]).0 == spec_diff(
                    pal[vantage_idx as int],
                    pal[pairs@[t].1.idx as int],
                ) && pairs@[t].1.idx < pal.len() && pairs@[t].0 <= MAX_DIFF,
        decreases swapped.len() - k,
    {
        let mi = indexes[k];
        let d = diff_scalar(&vantage_point, &items.colors[mi.idx as usize]);
        pairs.push((d, mi));
        k += 1;
    }
    let ghost unsorted = pairs@;
    sort_pairs(&mut pairs);
    proof {
        lemma_pairs_idx_set(unsorted, pairs@);
        assert forall|t1: int, t2: int|
            0 <= t1 < t2 < unsorted.len() implies (#[trigger] unsorted[t1]).1.idx != (
        #[trigger] unsorted[t2]).1.idx by {
            assert(unsorted[t1].1 == swapped[t1 + 1]);
            assert(unsorted[t2].1 == swapped[t2 + 1]);
            assert((#[trigger] swapped[t1 + 1]).idx != (#[trigger] swapped[t2 + 1]).idx);
        }
        assert(distinct_pair_idxs(unsorted));
        lemma_perm_preserves_distinct(unsorted, pairs@);
        assert forall|t: int| 0 <= t < pairs@.len() implies (#[trigger] pairs@[t]).0 == spec_diff(
            pal[vantage_idx as int],
            pal[pairs@[t].1.idx as int],
        ) && pairs@[t].1.idx < pal.len() && pairs@[t].0 <= MAX_DIFF by {
            assert(pairs@.contains(pairs@[t]));
            let u = choose|u: int| 0 <= u < unsorted.len() && unsorted[u] == pairs@[t];
            assert((#[trigger] unsorted[u]).0 == spec_diff(
                pal[vantage_idx as int],
                pal[unsorted[u].1.idx as int],
            ));
        }
        assert forall|j: PalIndex| pairs_has_idx(pairs@, j) <==> has_idx(swapped.subrange(1, swapped.len() as int), j) by {
            let tail = swapped.subrange(1, swapped.len() as int);
            if pairs_has_idx(pairs@, j) {
                assert(pairs_has_idx(unsorted, j));
                let t = choose|t: int| 0 <= t < unsorted.len() && (#[trigger] unsorted[t]).1.idx == j;
                assert((#[trigger] tail[t]).idx == j);
            }
            if has_idx(swapped.subrange(1, swapped.len() as int), j) {
                let t = choose|t: int| 0 <= t < tail.len() && (#[trigger] tail[t]).idx == j;
                assert((#[trigger] unsorted[t]).1.idx == j);
                assert(pairs_has_idx(unsorted, j));
            }
        }
    }
    let num = pairs.len();
    if num <= LEAF_MAX_SIZE {
        let mut lidxs: Vec<PalIndex> = Vec::new();
        let mut lcolors: Vec<Color> = Vec::new();
        let mut t: usize = 0;
        while t < num
            invariant
                t <= num,
                num == pairs@.len(),
                pal == items.colors@,
                lidxs@.len() == t,
                lcolors@.len() == t,
                forall|u: int|
                    0 <= u < pairs@.len() ==> (#[trigger] pairs@[u]).1.idx < pal.len(),
                forall|u: int| 0 <= u < t ==> (#[trigger] lidxs@[u]) == pairs@[u].1.idx,
                forall|u: int|
                    0 <= u < t ==> (#[trigger] lcolors@[u]) == pal[lidxs@[u] as int],
            decreases num - t,
        {
            let mi = pairs[t].1;
            lidxs.push(mi.idx);
            lcolors.push(items.colors[mi.idx as usize]);
            t += 1;
        }
        let n = Node {
            vantage_point,
            idx: vantage_idx,
            inner: NodeInner::Leaf { idxs: lidxs, colors: lcolors },
        };
        proof {
            lemma_members_leaf(n);
            let lv = n.inner->Leaf_idxs@;
            assert forall|j: PalIndex| #[trigger] node_members(n).contains(j) <==> has_idx(
                orig,
                j,
            ) by {
                assert(node_members(n).contains(j) <==> (j == vantage_idx || lv.contains(j)));
                assert(lv.contains(j) <==> pairs_has_idx(pairs@, j)) by {
                    if lv.contains(j) {
                        let u = choose|u: int| 0 <= u < lv.len() && lv[u] == j;
                        assert((#[trigger] pairs@[u]).1.idx == j);
                    }
                    if pairs_has_idx(pairs@, j) {
                        let u = choose|u: int|
                            0 <= u < pairs@.len() && (#[trigger] pairs@[u]).1.idx == j;
                        assert(lv[u] == j);
                    }
                }
                let tail = swapped.subrange(1, swapped.len() as int);
                assert((j == vantage_idx || has_idx(tail, j)) <==> has_idx(swapped, j)) by {
                    if j == vantage_idx {
                        assert((#[trigger] swapped[0]).idx == j);
                    }
                    if has_idx(tail, j) {
                        let u = choose|u: int| 0 <= u < tail.len() && (#[trigger] tail[u]).idx == j;
                        assert((#[trigger] swapped[u + 1]).idx == j);
                    }
                    if has_idx(swapped, j) {
                        let u = choose|u: int|
                            0 <= u < swapped.len() && (#[trigger] swapped[u]).idx == j;
                        if u == 0 {
                        } else {
                            assert((#[trigger] tail[u - 1]).idx == j);
                        }
                    }
                }
                assert(has_idx(swapped, j) <==> has_idx(orig, j)) by {
                    if has_idx(swapped, j) {
                        let u = choose|u: int|
                            0 <= u < swapped.len() && (#[trigger] swapped[u]).idx == j;
                        assert(swapped.contains(swapped[u]));
                        let w = choose|w: int| 0 <= w < orig.len() && orig[w] == swapped[u];
                        assert((#[trigger] orig[w]).idx == j);
                    }
                    if has_idx(orig, j) {
                        let u = choose|u: int|
                            0 <= u < orig.len() && (#[trigger] orig[u]).idx == j;
                        assert(orig.contains(orig[u]));
                        let w = choose|w: int| 0 <= w < swapped.len() && swapped[w] == orig[u];
                        assert((#[trigger] swapped[w]).idx == j);
                    }
                }
            }
            assert forall|j: PalIndex|
                #[trigger] node_members(n).contains(j) && j < items.weights@.len()
                    implies items.weights@[j as int] <= items.weights@[vantage_idx as int] by {
                let t = choose|t: int| 0 <= t < orig.len() && (#[trigger] orig[t]).idx == j;
            }
            assert(vantage_most_popular(n, items.weights@));
            let mem = node_members(n);
            assert(mem.len() == 1 + lv.len());
            assert(mem.len() == orig.len());
            assert forall|u: int| 0 <= u < lv.len() implies lv[u] != vantage_idx by {
                assert((#[trigger] pairs@[u]).1.idx == lv[u]);
                assert(pairs_has_idx(pairs@, lv[u]));
                let tail = swapped.subrange(1, swapped.len() as int);
                let t = choose|t: int| 0 <= t < tail.len() && (#[trigger] tail[t]).idx == lv[u];
                if lv[u] == vantage_idx {
                    assert((#[trigger] swapped[0]).idx != (#[trigger] swapped[t + 1]).idx);
                    assert(swapped[t + 1] == tail[t]);
                    assert(false);
                }
            }
            assert forall|i: int, j: int|
                0 <= i < mem.len() && 0 <= j < mem.len() && i != j implies mem[i] != mem[j] by {
                let a = if i < j { i } else { j };
                let b = if i < j { j } else { i };
                if mem[a] == mem[b] {
                    if a == 0 {
                        assert(mem[b] == lv[b - 1]);
                        assert(false);
                    } else {
                        assert(mem[a] == lv[a - 1]);
                        assert(mem[b] == lv[b - 1]);
                        assert(lv[a - 1] == pairs@[a - 1].1.idx);
                        assert(lv[b - 1] == pairs@[b - 1].1.idx);
                        assert((#[trigger] pairs@[a - 1]).1.idx != (#[trigger] pairs@[b
                            - 1]).1.idx);
                        assert(false);
                    }
                }
            }
            assert(mem.no_duplicates());
        }
        return n;
    }
    let half = num / 2;
    let radius_squared = pairs[half].0;
    let mut near_part: Vec<MapIndex> = Vec::new();
    let mut far_part: Vec<MapIndex> = Vec::new();
    let mut t: usize = 0;
    while t < num
        invariant
            t <= num,
            num == pairs@.len(),
            half < num,
            forall|u: int| 0 <= u < pairs@.len() ==> (#[trigger] pairs@[u]).1.idx < pal.len(),
            near_part@.len() == if t <= half { t as int } else { half as int },
            far_part@.len() == if t <= half { 0int } else { t - half },
            forall|u: int| 0 <= u < near_part@.len() ==> (#[trigger] near_part@[u]) == pairs@[u].1,
            forall|u: int|
                0 <= u < far_part@.len() ==> (#[trigger] far_part@[u]) == pairs@[u + half].1,
        decreases num - t,
    {
        let mi = pairs[t].1;
        if t < half {
            near_part.push(mi);
        } else {
            far_part.push(mi);
        }
        t += 1;
    }
    proof {
        assert forall|t1: int, t2: int|
            0 <= t1 < t2 < near_part@.len() implies (#[trigger] near_part@[t1]).idx != (
        #[trigger] near_part@[t2]).idx by {
            assert(near_part@[t1] == pairs@[t1].1);
            assert(near_part@[t2] == pairs@[t2].1);
            assert((#[trigger] pairs@[t1]).1.idx != (#[trigger] pairs@[t2]).1.idx);
        }
        assert(distinct_idxs(near_part@));
        assert forall|t1: int, t2: int|
            0 <= t1 < t2 < far_part@.len() implies (#[trigger] far_part@[t1]).idx != (
        #[trigger] far_part@[t2]).idx by {
            assert(far_part@[t1] == pairs@[t1 + half].1);
            assert(far_part@[t2] == pairs@[t2 + half].1);
            assert((#[trigger] pairs@[t1 + half]).1.idx != (#[trigger] pairs@[t2 + half]).1.idx);
        }
        assert(distinct_idxs(far_part@));
    }
    let near_node = vp_create_node(near_part, items);
    let far_node = vp_create_node(far_part, items);
    let n = Node {
        vantage_point,
        idx: vantage_idx,
        inner: NodeInner::Nodes {
            radius_squared,
            near: Box::new(near_node),
            far: Box::new(far_node),
        },
    };
    proof {
        lemma_members_split(n);
        assert(node_wf(n, pal)) by {
            assert forall|j: PalIndex| #[trigger] node_members(near_node).contains(j) implies
                spec_diff(pal[vantage_idx as int], pal[j as int]) <= radius_squared by {
                let u = choose|u: int|
                    0 <= u < near_part@.len() && (#[trigger] near_part@[u]).idx == j;
                assert((#[trigger] pairs@[u]).1.idx == j);
                assert(pairs@[u].0 <= pairs@[half as int].0);
            }
            assert forall|j: PalIndex| #[trigger] node_members(far_node).contains(j) implies
                spec_diff(pal[vantage_idx as int], pal[j as int]) >= radius_squared by {
                let u = choose|u: int|
                    0 <= u < far_part@.len() && (#[trigger] far_part@[u]).idx == j;
                assert((#[trigger] pairs@[u + half]).1.idx == j);
                assert(pairs@[half as int].0 <= pairs@[u + half].0);
            }
            let j0 = far_part@[0].idx;
            assert((#[trigger] far_part@[0]).idx == j0);
            assert(has_idx(far_part@, j0));
            assert(node_members(far_node).contains(j0));
            assert((#[trigger] pairs@[half as int]).1.idx == j0);
            assert(spec_diff(pal[vantage_idx as int], pal[j0 as int]) == radius_squared);
        }
        assert forall|j: PalIndex| #[trigger] node_members(n).contains(j) <==> has_idx(
            orig,
            j,
        ) by {
            let tail = swapped.subrange(1, swapped.len() as int);
            assert((node_members(near_node).contains(j) || node_members(far_node).contains(j))
                <==> pairs_has_idx(pairs@, j)) by {
                if node_members(near_node).contains(j) {
                    let u = choose|u: int|
                        0 <= u < near_part@.len() && (#[trigger] near_part@[u]).idx == j;
                    assert((#[trigger] pairs@[u]).1.idx == j);
                }
                if node_members(far_node).contains(j) {
                    let u = choose|u: int|
                        0 <= u < far_part@.len() && (#[trigger] far_part@[u]).idx == j;
                    assert((#[trigger] pairs@[u + half]).1.idx == j);
                }
                if pairs_has_idx(pairs@, j) {
                    let u = choose|u: int|
                        0 <= u < pairs@.len() && (#[trigger] pairs@[u]).1.idx == j;
                    if u < half {
                        assert((#[trigger] near_part@[u]).idx == j);
                        assert(has_idx(near_part@, j));
                    } else {
                        assert((#[trigger] far_part@[u - half]).idx == j);
                        assert(has_idx(far_part@, j));
                    }
                }
            }
            assert((j == vantage_idx || has_idx(tail, j)) <==> has_idx(swapped, j)) by {
                if j == vantage_idx {
                    assert((#[trigger] swapped[0]).idx == j);
                }
                if has_idx(tail, j) {
                    let u = choose|u: int| 0 <= u < tail.len() && (#[trigger] tail[u]).idx == j;
                    assert((#[trigger] swapped[u + 1]).idx == j);
                }
                if has_idx(swapped, j) {
                    let u = choose|u: int|
                        0 <= u < swapped.len() && (#[trigger] swapped[u]).idx == j;
                    if u == 0 {
                    } else {
                        assert((#[trigger] tail[u - 1]).idx == j);
                    }
                }
            }
            assert forall|jj: PalIndex| pairs_has_idx(pairs@, jj) <==> has_idx(tail, jj) by {}
            assert(has_idx(swapped, j) <==> has_idx(orig, j)) by {
                if has_idx(swapped, j) {
                    let u = choose|u: int|
                        0 <= u < swapped.len() && (#[trigger] swapped[u]).idx == j;
                    assert(swapped.contains(swapped[u]));
                    let w = choose|w: int| 0 <= w < orig.len() && orig[w] == swapped[u];
                    assert((#[trigger] orig[w]).idx == j);
                }
                if has_idx(orig, j) {
                    let u = choose|u: int| 0 <= u < orig.len() && (#[trigger] orig[u]).idx == j;
                    assert(orig.contains(orig[u]));
                    let w = choose|w: int| 0 <= w < swapped.len() && swapped[w] == orig[u];
                    assert((#[trigger] swapped[w]).idx == j);
                }
            }
        }
        assert forall|j: PalIndex|
            #[trigger] node_members(n).contains(j) && j < items.weights@.len()
                implies items.weights@[j as int] <= items.weights@[vantage_idx as int] by {
            let t = choose|t: int| 0 <= t < orig.len() && (#[trigger] orig[t]).idx == j;
        }
        assert(vantage_most_popular(n, items.weights@));
        let nm = node_members(near_node);
        let fm = node_members(far_node);
        let mem = node_members(n);
        assert(mem =~= seq![vantage_idx] + nm + fm);
        assert(mem.len() == 1 + nm.len() + fm.len());
        assert(mem.len() == orig.len());
        assert forall|j: PalIndex| #[trigger] nm.contains(j) implies !fm.contains(j) by {
            if fm.contains(j) {
                let u1 = choose|u: int|
                    0 <= u < near_part@.len() && (#[trigger] near_part@[u]).idx == j;
                let u2 = choose|u: int|
                    0 <= u < far_part@.len() && (#[trigger] far_part@[u]).idx == j;
                assert((#[trigger] pairs@[u1]).1.idx == j);
                assert((#[trigger] pairs@[u2 + half]).1.idx == j);
                assert(u1 < u2 + half);
                assert(false);
            }
        }
        assert forall|j: PalIndex| #[trigger] nm.contains(j) implies j != vantage_idx by {
            let u = choose|u: int|
                0 <= u < near_part@.len() && (#[trigger] near_part@[u]).idx == j;
            assert((#[trigger] pairs@[u]).1.idx == j);
            assert(pairs_has_idx(pairs@, j));
            let tail = swapped.subrange(1, swapped.len() as int);
            let t = choose|t: int| 0 <= t < tail.len() && (#[trigger] tail[t]).idx == j;
            if j == vantage_idx {
                assert((#[trigger] swapped[0]).idx != (#[trigger] swapped[t + 1]).idx);
                assert(swapped[t + 1] == tail[t]);
                assert(false);
            }
        }
        assert forall|j: PalIndex| #[trigger] fm.contains(j) implies j != vantage_idx by {
            let u = choose|u: int|
                0 <= u < far_part@.len() && (#[trigger] far_part@[u]).idx == j;
            assert((#[trigger] pairs@[u + half]).1.idx == j);
            assert(pairs_has_idx(pairs@, j));
            let tail = swapped.subrange(1, swapped.len() as int);
            let t = choose|t: int| 0 <= t < tail.len() && (#[trigger] tail[t]).idx == j;
            if j == vantage_idx {
                assert((#[trigger] swapped[0]).idx != (#[trigger] swapped[t + 1]).idx);
                assert(swapped[t + 1] == tail[t]);
                assert(false);
            }
        }
        assert forall|i: int, j: int|
            0 <= i < mem.len() && 0 <= j < mem.len() && i != j implies mem[i] != mem[j] by {
            let a = if i < j { i } else { j };
            let b = if i < j { j } else { i };
            if mem[a] == mem[b] {
                if a == 0 {
                    if b <= nm.len() {
                        assert(mem[b] == nm[b - 1]);
                        assert(nm.contains(nm[b - 1]));
                    } else {
                        assert(mem[b] == fm[b - 1 - nm.len()]);
                        assert(fm.contains(fm[b - 1 - nm.len()]));
                    }
                    assert(false);
                } else if b <= nm.len() {
                    assert(mem[a] == nm[a - 1]);
                    assert(mem[b] == nm[b - 1]);
                    assert(false);
                } else if a > nm.len() {
                    assert(mem[a] == fm[a - 1 - nm.len()]);
                    assert(mem[b] == fm[b - 1 - nm.len()]);
                    assert(false);
                } else {
                    assert(mem[a] == nm[a - 1]);
                    assert(mem[b] == fm[b - 1 - nm.len()]);
                    assert(nm.contains(nm[a - 1]));
                    assert(fm.contains(fm[b - 1 - nm.len()]));
                    assert(false);
                }
            }
        }
        assert(mem.no_duplicates());
    }
    n
}


/// `d` is at or below the squared distance from the query to every
/// palette entry.
pub open spec fn is_lower_bound(pal: Seq<Color>, q: Color, d: int) -> bool {
    forall|j: int| 0 <= j < pal.len() ==> d <= spec_diff(#[trigger] pal[j], q)
}

/// `d` is at or below the squared distance from entry `i` to every
/// *other* palette entry.
pub open spec fn is_other_lower_bound(pal: Seq<Color>, i: int, d: int) -> bool {
    forall|j: int| 0 <= j < pal.len() && j != i ==> d <= spec_diff(#[trigger] pal[j], pal[i])
}

/// One cache slot is correct for entry `t`: a quarter of the squared
/// distance to some other entry that is nearest among them (the quarter
/// of the largest `u64` when no other entry exists).
pub open spec fn cache_slot_ok(pal: Seq<Color>, c: u64, t: int) -> bool {
    if pal.len() == 1 {
        c == u64::MAX / 4
    } else {
        exists|j: int|
            0 <= j < pal.len() && j != t && c == (#[trigger] spec_diff(pal[j], pal[t])) / 4
    }
}

/// The built index: the tree's root, the borrowed palette, and, per
/// palette entry, a quarter of the squared distance to its nearest
/// *other* entry, which lets a query short-circuit when a caller's guess
/// is already unbeatable.
pub struct Nearest<'pal> {
    root: Node,
    palette: &'pal Palette,
    nearest_other_color_dist: Vec<u64>,
}

impl<'pal> Nearest<'pal> {
    /// The palette the index was built over.
    pub closed spec fn pal_seq(self) -> Seq<Color> {
        self.palette.colors@
    }

    /// The cached quartered nearest-other-color distances.
    pub closed spec fn cache_seq(self) -> Seq<u64> {
        self.nearest_other_color_dist@
    }

    /// The index is well-formed: the palette is well-formed and of legal
    /// size; the tree is well-formed and holds every palette entry in
    /// exactly one vantage slot (it covers each entry, has no duplicate,
    /// and has exactly as many slots as the palette has entries); every
    /// subtree's vantage is a most popular member of that subtree; and
    /// each cache slot holds exactly a quarter of the squared distance
    /// from its entry to the nearest other entry (a quarter of the
    /// largest `u64` when the palette has a single entry).
    pub closed spec fn wf(self) -> bool {
        &&& self.palette.wf()
        &&& 1 <= self.palette.colors@.len() <= MAX_COLORS
        &&& node_wf(self.root, self.pal_seq())
        &&& forall|j: PalIndex|
            j < self.pal_seq().len() ==> #[trigger] node_members(self.root).contains(j)
        &&& node_members(self.root).len() == self.pal_seq().len()
        &&& node_members(self.root).no_duplicates()
        &&& vantage_most_popular(self.root, self.palette.weights@)
        &&& self.nearest_other_color_dist@.len() == self.pal_seq().len()
        &&& forall|i: int|
            0 <= i < self.pal_seq().len() ==> is_other_lower_bound(
                self.pal_seq(),
                i,
                4 * (#[trigger] self.nearest_other_color_dist@[i] as int),
            )
        &&& forall|i: int|
            0 <= i < self.pal_seq().len() ==> cache_slot_ok(
                self.pal_seq(),
                #[trigger] self.nearest_other_color_dist@[i],
                i,
            )
    }

    /// Build the index over a palette: construct the tree, then run one
    /// self-excluded query per entry to fill the nearest-other-color
    /// cache. Fails exactly when the palette is empty or holds more
    /// entries than a palette index can address.
    #[verifier::rlimit(30)]
    pub fn new(palette: &'pal Palette) -> (r: Result<Nearest<'pal>, Error>)
        requires
            palette.wf(),
        ensures
            r is Ok <==> 1 <= palette.colors@.len() <= MAX_COLORS,
            r is Err ==> r == Result::<Nearest<'pal>, Error>::Err(Error::Unsupported),
            r is Ok ==> r->Ok_0.wf() && r->Ok_0.pal_seq() == palette.colors@,
    {
        let ghost pal = palette.colors@;
        let n = palette.len();
        if n > MAX_COLORS {
            return Err(Error::Unsupported);
        }
        if n == 0 {
            return Err(Error::Unsupported);
        }
        let mut indexes: Vec<MapIndex> = Vec::new();
        let mut i: usize = 0;
        while i < n
            invariant
                i <= n,
                n == pal.len(),
                n <= MAX_COLORS,
                indexes@.len() == i,
                forall|t: int| 0 <= t < i ==> (#[trigger] indexes@[t]).idx == t,
            decreases n - i,
        {
            indexes.push(MapIndex { idx: i as PalIndex });
            i += 1;
        }
        let root = vp_create_node(indexes, palette);
        proof {
            assert forall|j: PalIndex| j < pal.len() implies #[trigger] node_members(
                root,
            ).contains(j) by {
                assert((#[trigger] indexes@[j as int]).idx == j);
                assert(has_idx(indexes@, j));
            }
        }
        let mut cache: Vec<u64> = Vec::new();
        let mut i: usize = 0;
        while i < n
            invariant
                i <= n,
                n == pal.len(),
                1 <= n <= MAX_COLORS,
                palette.wf(),
                pal == palette.colors@,
                node_wf(root, pal),
                forall|j: PalIndex| j < pal.len() ==> #[trigger] node_members(root).contains(j),
                node_members(root).len() == pal.len(),
                node_members(root).no_duplicates(),
                vantage_most_popular(root, palette.weights@),
                cache@.len() == i,
                forall|t: int|
                    0 <= t < i ==> is_other_lower_bound(pal, t, 4 * (#[trigger] cache@[t] as int)),
                forall|t: int| 0 <= t < i ==> cache_slot_ok(pal, #[trigger] cache@[t], t),
            decreases n - i,
        {
            let color = palette.colors[i];
            let mut best = Visitor {
                idx: 0,
                distance_squared: u64::MAX,
                exclude: Some(i as PalIndex),
            };
            vp_search_node(&root, &color, &mut best, Ghost(pal));
            proof {
                lemma_members_bounded(root, pal);
                assert forall|j: int| 0 <= j < pal.len() && j != i as int implies 4 * ((
                best.distance_squared / 4) as int) <= spec_diff(pal[j], pal[i as int]) by {
                    assert(node_members(root).contains(j as PalIndex));
                    assert(best.distance_squared <= spec_diff(pal[j], color));
                }
                if pal.len() == 1 {
                    if best.distance_squared != u64::MAX {
                        assert(best.idx < pal.len() && best.exclude != Some(best.idx));
                        assert(false);
                    }
                } else {
                    let ghost w: int = if i as int == 0 { 1 } else { 0 };
                    assert(node_members(root).contains(w as PalIndex));
                    lemma_diff_bounds(pal[w], color);
                    assert(best.distance_squared <= spec_diff(pal[w], color));
                    assert(best.idx < pal.len() && best.exclude != Some(best.idx)
                        && best.distance_squared == spec_diff(pal[best.idx as int], color));
                    assert(0 <= (best.idx as int) && (best.idx as int) < pal.len() && (
                    best.idx as int) != i as int && best.distance_squared / 4 == (spec_diff(
                        pal[best.idx as int],
                        pal[i as int],
                    )) / 4);
                }
            }
            cache.push(best.distance_squared / 4);
            proof {
                assert(cache@[i as int] == best.distance_squared / 4);
                if pal.len() != 1 {
                    assert(0 <= (best.idx as int) && (best.idx as int) < pal.len() && (
                    best.idx as int) != i as int && cache@[i as int] == (spec_diff(
                        pal[best.idx as int],
                        pal[i as int],
                    )) / 4);
                    assert(exists|j: int|
                        0 <= j < pal.len() && j != i as int && cache@[i as int] == (
                        #[trigger] spec_diff(pal[j], pal[i as int])) / 4);
                }
                assert(cache_slot_ok(pal, cache@[i as int], i as int));
            }
            i += 1;
        }
        Ok(Nearest { root, palette, nearest_other_color_dist: cache })
    }

    /// Nearest palette entry to `px`: its index and the exact squared
    /// distance. `likely_colormap_index` is a hint; when its direct
    /// distance is under the cached quartered nearest-other-color
    /// distance, no other entry can be closer and the tree is never
    /// touched. The result is always a true minimum over the whole
    /// palette, and a hint that itself achieves the minimum is the index
    /// returned: a later candidate never displaces the best on a tie.
    pub fn search(&self, px: &Color, likely_colormap_index: PalIndex) -> (r: (PalIndex, u64))
        requires
            self.wf(),
            px.wf(),
        ensures
            r.0 < self.pal_seq().len(),
            r.1 == spec_diff(self.pal_seq()[r.0 as int], *px),
            is_lower_bound(self.pal_seq(), *px, r.1 as int),
            (likely_colormap_index as int) < self.pal_seq().len() && spec_diff(
                self.pal_seq()[likely_colormap_index as int],
                *px,
            ) == r.1 ==> r.0 == likely_colormap_index,
    {
        self.search_scalar(px, likely_colormap_index)
    }

    /// The tree walk behind `search`.
    fn search_scalar(&self, px: &Color, likely_colormap_index: PalIndex) -> (r: (PalIndex, u64))
        requires
            self.wf(),
            px.wf(),
        ensures
            r.0 < self.pal_seq().len(),
            r.1 == spec_diff(self.pal_seq()[r.0 as int], *px),
            is_lower_bound(self.pal_seq(), *px, r.1 as int),
            (likely_colormap_index as int) < self.pal_seq().len() && spec_diff(
                self.pal_seq()[likely_colormap_index as int],
                *px,
            ) == r.1 ==> r.0 == likely_colormap_index,
    {
        let ghost pal = self.palette.colors@;
        let likely = likely_colormap_index;
        let mut best: Visitor;
        if (likely as usize) < self.palette.colors.len() {
            let pal_px = self.palette.colors[likely as usize];
            let guess_diff = diff_scalar(px, &pal_px);
            proof {
                lemma_diff_symmetric(*px, pal[likely as int]);
            }
            if guess_diff < self.nearest_other_color_dist[likely as usize] {
                proof {
                    let cached = self.nearest_other_color_dist@[likely as int] as int;
                    assert forall|j: int| 0 <= j < pal.len() implies guess_diff as int
                        <= spec_diff(pal[j], *px) by {
                        if j != likely as int {
                            lemma_diff_bounds(pal[j], pal[likely as int]);
                            lemma_diff_bounds(pal[j], *px);
                            lemma_diff_bounds(*px, pal[likely as int]);
                            lemma_diff_triangle(pal[j], *px, pal[likely as int]);
                            assert(4 * cached <= spec_diff(pal[j], pal[likely as int]));
                            lemma_fast_path_sound(
                                spec_diff(pal[j], pal[likely as int]),
                                guess_diff as int,
                                spec_diff(pal[j], *px),
                            );
                        }
                    }
                }
                return (likely, guess_diff);
            }
            best = Visitor { distance_squared: guess_diff, idx: likely, exclude: None };
        } else {
            best = Visitor { distance_squared: u64::MAX, idx: 0, exclude: None };
        }
        vp_search_node(&self.root, px, &mut best, Ghost(pal));
        proof {
            assert(node_members(self.root).contains(self.root.idx)) by {
                assert(node_members(self.root)[0] == self.root.idx);
            }
            lemma_diff_bounds(pal[self.root.idx as int], *px);
            assert(best.distance_squared <= spec_diff(pal[self.root.idx as int], *px));
            assert forall|j: int| 0 <= j < pal.len() implies best.distance_squared as int
                <= spec_diff(pal[j], *px) by {
                assert(node_members(self.root).contains(j as PalIndex));
            }
        }
        (best.idx, best.distance_squared)
    }

    /// The cached quartered squared distance from entry `idx` to its
    /// nearest other entry, or nothing when `idx` is out of range. The
    /// cache never measures an entry against itself: for a single-entry
    /// palette it holds a quarter of the largest `u64`.
    pub fn nearest_other_dist(&self, idx: PalIndex) -> (r: Option<u64>)
        requires
            self.wf(),
        ensures
            (idx as int) < self.pal_seq().len() ==> r == Some(self.cache_seq()[idx as int])
                && is_other_lower_bound(self.pal_seq(), idx as int, 4 * (r->0 as int)),
            (idx as int) >= self.pal_seq().len() ==> r is None,
    {
        if (idx as usize) < self.nearest_other_color_dist.len() {
            Some(self.nearest_other_color_dist[idx as usize])
        } else {
            None
        }
    }
}

/// The returned distance of a search is a function of the palette and the
/// query alone: any two results that are both true minima agree, whatever
/// tree or path produced them.
pub proof fn lemma_search_distance_deterministic(
    pal: Seq<Color>,
    q: Color,
    r1: (PalIndex, u64),
    r2: (PalIndex, u64),
)
    requires
        r1.0 < pal.len(),
        r1.1 == spec_diff(pal[r1.0 as int], q),
        is_lower_bound(pal, q, r1.1 as int),
        r2.0 < pal.len(),
        r2.1 == spec_diff(pal[r2.0 as int], q),
        is_lower_bound(pal, q, r2.1 as int),
    ensures
        r1.1 == r2.1,
{
    assert(r1.1 as int <= spec_diff(pal[r2.0 as int], q));
    assert(r2.1 as int <= spec_diff(pal[r1.0 as int], q));
}

/// The nearest-other-color cache never reports an entry as its own
/// nearest neighbor: each slot bounds the distance to every *other*
/// entry, and for a single-entry palette it holds the sentinel quarter of
/// the largest `u64` rather than the zero distance of the entry to
/// itself.
pub proof fn lemma_cache_excludes_self(n: Nearest, i: int)
    requires
        n.wf(),
        0 <= i < n.pal_seq().len(),
    ensures
        is_other_lower_bound(n.pal_seq(), i, 4 * (n.cache_seq()[i] as int)),
        cache_slot_ok(n.pal_seq(), n.cache_seq()[i], i),
        n.pal_seq().len() == 1 ==> n.cache_seq()[i] == u64::MAX / 4,
{
}


} // verus!
