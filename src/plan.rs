use vstd::prelude::*;

use crate::lattice::{lemma_coord_has, lemma_coord_index, voxel_lt, Voxel, VoxelGrid};
use crate::partition::{disjoint_containers, is_partition, lemma_push_fresh};

verus! {

/// Voxels `k` and `j` of the grid may hold interacting agents: they are the same
/// voxel or adjacent ones.
pub open spec fn voxels_interact(grid: VoxelGrid, k: int, j: int) -> bool {
    &&& 0 <= k < grid.count()
    &&& 0 <= j < grid.count()
    &&& (k == j || grid.adjacent(grid.coord(k), grid.coord(j)))
}

/// Agent `b` lies in voxel `k` or in one of its adjacent voxels.
pub open spec fn in_reach(grid: VoxelGrid, containers: Seq<Vec<usize>>, k: int, b: usize) -> bool {
    exists|j: int| voxels_interact(grid, k, j) && #[trigger] containers[j]@.contains(b)
}

/// The agents that the residents of voxel `k` interact with: those of voxel `k`
/// itself and of its adjacent voxels. A resident skips itself. Where no agent
/// is listed twice in the containers, none is listed twice here.
pub fn sources_of_voxel(grid: &VoxelGrid, containers: &Vec<Vec<usize>>, k: usize) -> (r: Vec<usize>)
    requires
        grid.wf(),
        containers.len() == grid.count(),
        k < grid.count(),
    ensures
        forall|b: usize| r@.contains(b) <==> in_reach(*grid, containers@, k as int, b),
        disjoint_containers(containers@) ==> r@.no_duplicates(),
{
    let v = grid.voxel_at(k);
    let ns = grid.neighbors_of(v);
    let ghost order: Seq<Voxel> = seq![v] + ns@;
    assert forall|s1: int, s2: int| 0 <= s1 < order.len() && 0 <= s2 < order.len() && s1 != s2 implies grid.index_of(
        #[trigger] order[s1],
    ) != grid.index_of(#[trigger] order[s2]) by {
        lemma_order_distinct(*grid, v, ns@, order, s1, s2);
    }
    let mut r: Vec<usize> = Vec::new();
    let mut t: usize = 0;
    while t <= ns.len()
        invariant
            grid.wf(),
            containers.len() == grid.count(),
            k < grid.count(),
            v == grid.coord(k as int),
            grid.has(v),
            order == seq![v] + ns@,
            forall|w: Voxel| ns@.contains(w) <==> grid.adjacent(v, w),
            t <= ns.len() + 1,
            ns.len() <= 9,
            forall|b: usize| r@.contains(b) <==> exists|s: int|
                0 <= s < t && #[trigger] containers[grid.index_of(order[s])]@.contains(b),
            forall|s1: int, s2: int| 0 <= s1 < order.len() && 0 <= s2 < order.len() && s1 != s2 ==> grid.index_of(
                #[trigger] order[s1],
            ) != grid.index_of(#[trigger] order[s2]),
            disjoint_containers(containers@) ==> r@.no_duplicates(),
        decreases ns.len() + 1 - t,
    {
        let w = if t == 0 { v } else { ns[t - 1] };
        assert(w == order[t as int]);
        assert(grid.has(w)) by {
            if t > 0 {
                assert(ns@.contains(ns[t - 1]));
            }
        }
        let j = grid.index(w);
        let members = &containers[j];
        let mut m: usize = 0;
        while m < members.len()
            invariant
                t <= ns.len(),
                j == grid.index_of(order[t as int]),
                j < containers.len(),
                members == containers[j as int],
                m <= members.len(),
                forall|b: usize| r@.contains(b) <==> ((exists|s: int|
                    0 <= s < t && #[trigger] containers[grid.index_of(order[s])]@.contains(b))
                    || members@.subrange(0, m as int).contains(b)),
                order.len() == ns.len() + 1,
                containers.len() == grid.count(),
                grid.wf(),
                grid.has(v),
                order == seq![v] + ns@,
                forall|w: Voxel| ns@.contains(w) <==> grid.adjacent(v, w),
                forall|s1: int, s2: int| 0 <= s1 < order.len() && 0 <= s2 < order.len() && s1 != s2 ==> grid.index_of(
                    #[trigger] order[s1],
                ) != grid.index_of(#[trigger] order[s2]),
                disjoint_containers(containers@) ==> r@.no_duplicates(),
            decreases members.len() - m,
        {
            let ghost prev = r@;
            let b = members[m];
            proof {
                if disjoint_containers(containers@) {
                    assert(!prev.contains(b)) by {
                        assert(containers@[j as int]@.no_duplicates());
                        if members@.subrange(0, m as int).contains(b) {
                            let i = choose|i: int| 0 <= i < m && #[trigger] members@.subrange(0, m as int)[i] == b;
                            assert(members@[i] == members@[m as int]);
                        }
                        if exists|s: int| 0 <= s < t && #[trigger] containers[grid.index_of(order[s])]@.contains(b) {
                            let s = choose|s: int| 0 <= s < t && #[trigger] containers[grid.index_of(order[s])]@.contains(b);
                            assert(members@.contains(b));
                            let w = order[s];
                            if s > 0 {
                                assert(w == ns[s - 1]);
                                assert(ns@.contains(w));
                            }
                            lemma_coord_index(*grid, w);
                            let k1 = grid.index_of(w);
                            assert(containers@[k1]@.contains(b));
                            assert(containers@[j as int]@.contains(b));
                            assert(k1 == j);
                        }
                    }
                    lemma_push_fresh(prev, b);
                }
            }
            r.push(b);
            assert forall|c: usize| r@.contains(c) <==> ((exists|s: int|
                0 <= s < t && #[trigger] containers[grid.index_of(order[s])]@.contains(c))
                || members@.subrange(0, m + 1).contains(c)) by {
                if c != b && r@.contains(c) {
                    let i = choose|i: int| 0 <= i < r.len() && r[i] == c;
                    assert(prev[i] == c);
                }
                if c != b && prev.contains(c) {
                    let i = choose|i: int| 0 <= i < prev.len() && prev[i] == c;
                    assert(r[i] == c);
                }
                if c == b {
                    assert(r[r.len() - 1] == c);
                    assert(members@.subrange(0, m + 1)[m as int] == c);
                }
                if members@.subrange(0, m + 1).contains(c) && c != b {
                    let i = choose|i: int| 0 <= i < m + 1 && #[trigger] members@.subrange(0, m + 1)[i] == c;
                    assert(members@.subrange(0, m as int)[i] == c);
                }
                if members@.subrange(0, m as int).contains(c) {
                    let i = choose|i: int| 0 <= i < m && #[trigger] members@.subrange(0, m as int)[i] == c;
                    assert(members@.subrange(0, m + 1)[i] == c);
                }
            }
            m = m + 1;
        }
        assert(members@.subrange(0, m as int) == members@);
        assert forall|b: usize| r@.contains(b) <==> exists|s: int|
            0 <= s < t + 1 && #[trigger] containers[grid.index_of(order[s])]@.contains(b) by {
            if members@.contains(b) {
                assert(containers[grid.index_of(order[t as int])]@.contains(b));
            }
            if exists|s: int| 0 <= s < t + 1 && #[trigger] containers[grid.index_of(order[s])]@.contains(b) {
                let s = choose|s: int| 0 <= s < t + 1 && #[trigger] containers[grid.index_of(order[s])]@.contains(b);
                if s < t {
                    assert(exists|s2: int| 0 <= s2 < t && #[trigger] containers[grid.index_of(order[s2])]@.contains(b));
                }
            }
        }
        t = t + 1;
    }
    assert forall|b: usize| r@.contains(b) <==> in_reach(*grid, containers@, k as int, b) by {
        if r@.contains(b) {
            let s = choose|s: int| 0 <= s < ns.len() + 1 && #[trigger] containers[grid.index_of(order[s])]@.contains(b);
            let w = order[s];
            if s > 0 {
                assert(w == ns[s - 1]);
                assert(ns@.contains(w));
            }
            lemma_coord_index(*grid, w);
            assert(voxels_interact(*grid, k as int, grid.index_of(w)));
        }
        if in_reach(*grid, containers@, k as int, b) {
            let j = choose|j: int| voxels_interact(*grid, k as int, j) && #[trigger] containers@[j]@.contains(b);
            lemma_coord_has(*grid, j);
            let w = grid.coord(j);
            if j == k {
                assert(order[0] == v);
                assert(containers[grid.index_of(order[0])]@.contains(b));
            } else {
                assert(ns@.contains(w));
                let i = choose|i: int| 0 <= i < ns.len() && ns[i] == w;
                assert(order[i + 1] == w);
                assert(containers[grid.index_of(order[i + 1])]@.contains(b));
            }
        }
    }
    r
}

/// The voxel `v` and its neighbours, listed one after the other, have distinct
/// dense indices.
proof fn lemma_order_distinct(grid: VoxelGrid, v: Voxel, ns: Seq<Voxel>, order: Seq<Voxel>, s1: int, s2: int)
    requires
        grid.wf(),
        grid.has(v),
        order == seq![v] + ns,
        forall|w: Voxel| ns.contains(w) <==> grid.adjacent(v, w),
        forall|i: int, j: int| 0 <= i < j < ns.len() ==> voxel_lt(#[trigger] ns[i], #[trigger] ns[j]),
        0 <= s1 < order.len(),
        0 <= s2 < order.len(),
        s1 != s2,
    ensures
        grid.index_of(order[s1]) != grid.index_of(order[s2]),
{
    let w1 = order[s1];
    let w2 = order[s2];
    if s1 > 0 {
        assert(w1 == ns[s1 - 1]);
        assert(ns.contains(w1));
    }
    if s2 > 0 {
        assert(w2 == ns[s2 - 1]);
        assert(ns.contains(w2));
    }
    assert(w1 != w2) by {
        if s1 > 0 && s2 > 0 {
            if s1 < s2 {
                assert(voxel_lt(ns[s1 - 1], ns[s2 - 1]));
            } else {
                assert(voxel_lt(ns[s2 - 1], ns[s1 - 1]));
            }
        }
    }
    lemma_coord_index(grid, w1);
    lemma_coord_index(grid, w2);
}

/// Interaction reach is symmetric: `b` is in reach of `a`'s voxel exactly when `a`
/// is in reach of `b`'s voxel, so the force between them is seen from both sides
/// or from neither.
pub proof fn lemma_reach_symmetric(
    grid: VoxelGrid,
    containers: Seq<Vec<usize>>,
    voxel_of: Seq<usize>,
    a: usize,
    b: usize,
)
    requires
        grid.wf(),
        containers.len() == grid.count(),
        is_partition(containers, voxel_of),
        forall|i: int| 0 <= i < voxel_of.len() ==> #[trigger] voxel_of[i] < grid.count(),
        a < voxel_of.len(),
        b < voxel_of.len(),
    ensures
        in_reach(grid, containers, voxel_of[a as int] as int, b) <==> in_reach(
            grid,
            containers,
            voxel_of[b as int] as int,
            a,
        ),
{
    let ka = voxel_of[a as int] as int;
    let kb = voxel_of[b as int] as int;
    assert(containers[kb]@.contains(b));
    assert(containers[ka]@.contains(a));
    lemma_coord_has(grid, ka);
    lemma_coord_has(grid, kb);
    if in_reach(grid, containers, ka, b) {
        let j = choose|j: int| voxels_interact(grid, ka, j) && #[trigger] containers[j]@.contains(b);
        assert(j == kb);
        if ka != kb {
            assert(grid.coord(ka) != grid.coord(kb));
        }
        assert(voxels_interact(grid, kb, ka));
    }
    if in_reach(grid, containers, kb, a) {
        let j = choose|j: int| voxels_interact(grid, kb, j) && #[trigger] containers[j]@.contains(a);
        assert(j == ka);
        assert(voxels_interact(grid, ka, kb));
    }
}

} // verus!
