use vstd::prelude::*;

use crate::error::SimulationError;
use crate::lattice::{Voxel, VoxelGrid};

verus! {

/// The dense voxel index of integer cell `c` of `grid`.
pub open spec fn cell_index(grid: VoxelGrid, c: (i64, i64)) -> int {
    c.0 * grid.ny + c.1
}

pub open spec fn cell_inside(grid: VoxelGrid, c: (i64, i64)) -> bool {
    grid.contains(c.0 as int, c.1 as int)
}

/// The members of a container are listed in strictly increasing order.
pub open spec fn strictly_increasing(s: Seq<usize>) -> bool {
    forall|i: int, j: int| 0 <= i < j < s.len() ==> s[i] < s[j]
}

/// `containers[k]` holds exactly the agents whose voxel is `k`, each once.
pub open spec fn is_partition(containers: Seq<Vec<usize>>, voxel_of: Seq<usize>) -> bool {
    &&& forall|k: int| 0 <= k < containers.len() ==> (#[trigger] containers[k]@).no_duplicates()
    &&& forall|k: int, a: usize|
        0 <= k < containers.len() ==> (#[trigger] containers[k]@.contains(a) <==> (a < voxel_of.len()
            && voxel_of[a as int] == k))
}

/// The voxel of each agent, from the integer cell that holds its position; the
/// first agent whose cell lies outside the grid is reported.
pub fn assign_voxels(grid: &VoxelGrid, cells: &Vec<(i64, i64)>) -> (r: Result<Vec<usize>, SimulationError>)
    requires
        grid.wf(),
    ensures
        r is Ok <==> forall|a: int| 0 <= a < cells.len() ==> cell_inside(*grid, #[trigger] cells[a]),
        r matches Ok(vs) ==> vs.len() == cells.len() && forall|a: int|
            0 <= a < cells.len() ==> vs[a] == cell_index(*grid, #[trigger] cells[a]),
        r matches Err(e) ==> exists|a: usize|
            #![trigger cells[a as int]]
            a < cells.len() && e == (SimulationError::OutOfBounds { agent: a }) && !cell_inside(*grid, cells[a as int])
                && forall|b: int| 0 <= b < a ==> cell_inside(*grid, #[trigger] cells[b]),
{
    let mut vs: Vec<usize> = Vec::new();
    let mut a: usize = 0;
    while a < cells.len()
        invariant
            grid.wf(),
            a <= cells.len(),
            vs.len() == a,
            forall|b: int| 0 <= b < a ==> cell_inside(*grid, #[trigger] cells[b]),
            forall|b: int| 0 <= b < a ==> vs[b] == cell_index(*grid, #[trigger] cells[b]),
        decreases cells.len() - a,
    {
        let c = cells[a];
        match grid.voxel_of_cell(c.0, c.1) {
            Some(v) => {
                let k = grid.index(v);
                vs.push(k);
            },
            None => {
                return Err(SimulationError::OutOfBounds { agent: a });
            },
        }
        a = a + 1;
    }
    Ok(vs)
}

/// The agents of each voxel: container `k` lists, in increasing order, the agents
/// whose voxel is `k`.
pub fn partition(n_voxels: usize, voxel_of: &Vec<usize>) -> (r: Vec<Vec<usize>>)
    requires
        forall|a: int| 0 <= a < voxel_of.len() ==> #[trigger] voxel_of[a] < n_voxels,
    ensures
        r.len() == n_voxels,
        is_partition(r@, voxel_of@),
        forall|k: int| 0 <= k < r.len() ==> strictly_increasing(#[trigger] r[k]@),
{
    let mut r: Vec<Vec<usize>> = Vec::new();
    let mut k: usize = 0;
    while k < n_voxels
        invariant
            k <= n_voxels,
            r.len() == k,
            is_partition(r@, voxel_of@),
            forall|j: int| 0 <= j < r.len() ==> strictly_increasing(#[trigger] r[j]@),
        decreases n_voxels - k,
    {
        let mut members: Vec<usize> = Vec::new();
        let mut a: usize = 0;
        while a < voxel_of.len()
            invariant
                a <= voxel_of.len(),
                strictly_increasing(members@),
                forall|i: int| 0 <= i < members.len() ==> #[trigger] members[i] < a,
                forall|b: usize| members@.contains(b) <==> (b < a && voxel_of[b as int] == k),
            decreases voxel_of.len() - a,
        {
            if voxel_of[a] == k {
                let ghost prev = members@;
                members.push(a);
                assert forall|b: usize| members@.contains(b) <==> (b <= a && voxel_of[b as int] == k) by {
                    if b != a && members@.contains(b) {
                        let i = choose|i: int| 0 <= i < members.len() && members[i] == b;
                        assert(prev[i] == b);
                    }
                    if b != a && prev.contains(b) {
                        let i = choose|i: int| 0 <= i < prev.len() && prev[i] == b;
                        assert(members[i] == b);
                    }
                    if b == a {
                        assert(members[members.len() - 1] == b);
                    }
                }
            }
            a = a + 1;
        }
        let ghost prev = r@;
        assert(members@.no_duplicates()) by {
            assert forall|i: int, j: int| 0 <= i < members.len() && 0 <= j < members.len() && i != j implies members@[i]
                != members@[j] by {
                if i < j {
                    assert(members@[i] < members@[j]);
                } else {
                    assert(members@[j] < members@[i]);
                }
            }
        }
        r.push(members);
        assert forall|j: int, b: usize| 0 <= j < r.len() implies (#[trigger] r[j]@.contains(b) <==> (b < voxel_of.len()
            && voxel_of[b as int] == j)) by {
            if j < k {
                assert(r[j] == prev[j]);
            }
        }
        assert forall|j: int| 0 <= j < r.len() implies strictly_increasing(#[trigger] r[j]@) by {
            if j < k {
                assert(r[j] == prev[j]);
            }
        }
        assert forall|j: int| 0 <= j < r.len() implies (#[trigger] r[j]@).no_duplicates() by {
            if j < k {
                assert(r[j] == prev[j]);
            }
        }
        k = k + 1;
    }
    r
}

/// Some container holds agent `a`.
pub open spec fn is_held(containers: Seq<Vec<usize>>, a: usize) -> bool {
    exists|k: int| 0 <= k < containers.len() && #[trigger] containers[k]@.contains(a)
}

/// No agent is listed twice, neither within a container nor across two.
pub open spec fn disjoint_containers(containers: Seq<Vec<usize>>) -> bool {
    &&& forall|k: int| 0 <= k < containers.len() ==> (#[trigger] containers[k]@).no_duplicates()
    &&& forall|a: usize, k1: int, k2: int|
        0 <= k1 < containers.len() && 0 <= k2 < containers.len() && #[trigger] containers[k1]@.contains(a)
            && #[trigger] containers[k2]@.contains(a) ==> k1 == k2
}

/// Each agent below `n` is held by exactly one container, once, and the
/// containers hold nothing else.
pub open spec fn holds_each_once(containers: Seq<Vec<usize>>, n: nat) -> bool {
    &&& disjoint_containers(containers)
    &&& forall|k: int, a: usize| 0 <= k < containers.len() && #[trigger] containers[k]@.contains(a) ==> a < n
    &&& forall|a: usize| a < n ==> #[trigger] is_held(containers, a)
}

/// Partition totality: every agent is held by exactly one container, the one of
/// its voxel, once, and the containers together hold nothing but the population.
pub proof fn lemma_partition_total(containers: Seq<Vec<usize>>, voxel_of: Seq<usize>)
    requires
        is_partition(containers, voxel_of),
        forall|a: int| 0 <= a < voxel_of.len() ==> #[trigger] voxel_of[a] < containers.len(),
    ensures
        holds_each_once(containers, voxel_of.len()),
        forall|a: usize|
            a < voxel_of.len() ==> #[trigger] containers[voxel_of[a as int] as int]@.contains(a),
{
    assert forall|a: usize| a < voxel_of.len() implies #[trigger] is_held(containers, a) by {
        assert(containers[voxel_of[a as int] as int]@.contains(a));
    }
}

/// Splits the members of container `k` into those that stay (their new voxel is
/// `k`) and those that migrate, keeping their order.
pub fn split_migrants(k: usize, members: &Vec<usize>, new_voxel_of: &Vec<usize>) -> (r: (Vec<usize>, Vec<usize>))
    requires
        forall|i: int| 0 <= i < members.len() ==> #[trigger] members[i] < new_voxel_of.len(),
        members@.no_duplicates(),
    ensures
        forall|a: usize| #[trigger] r.0@.contains(a) <==> (members@.contains(a) && new_voxel_of[a as int] == k),
        forall|a: usize| #[trigger] r.1@.contains(a) <==> (members@.contains(a) && new_voxel_of[a as int] != k),
        r.0@.no_duplicates(),
        r.1@.no_duplicates(),
{
    let mut stays: Vec<usize> = Vec::new();
    let mut moves: Vec<usize> = Vec::new();
    let mut i: usize = 0;
    while i < members.len()
        invariant
            i <= members.len(),
            forall|j: int| 0 <= j < members.len() ==> #[trigger] members[j] < new_voxel_of.len(),
            members@.no_duplicates(),
            forall|a: usize| #[trigger] stays@.contains(a) <==> (members@.subrange(0, i as int).contains(a)
                && new_voxel_of[a as int] == k),
            forall|a: usize| #[trigger] moves@.contains(a) <==> (members@.subrange(0, i as int).contains(a)
                && new_voxel_of[a as int] != k),
            stays@.no_duplicates(),
            moves@.no_duplicates(),
        decreases members.len() - i,
    {
        let a = members[i];
        let ghost done = members@.subrange(0, i as int);
        let ghost next = members@.subrange(0, i + 1);
        assert(!done.contains(a)) by {
            if done.contains(a) {
                let j = choose|j: int| 0 <= j < i && #[trigger] done[j] == a;
                assert(members@[j] == members@[i as int]);
            }
        }
        assert forall|b: usize| #[trigger] next.contains(b) <==> (done.contains(b) || b == a) by {
            if next.contains(b) {
                let j = choose|j: int| 0 <= j <= i && #[trigger] next[j] == b;
                if j < i {
                    assert(done[j] == b);
                }
            }
            if done.contains(b) {
                let j = choose|j: int| 0 <= j < i && #[trigger] done[j] == b;
                assert(next[j] == b);
            }
            if b == a {
                assert(next[i as int] == b);
            }
        }
        if new_voxel_of[a] == k {
            proof {
                lemma_push_fresh(stays@, a);
            }
            stays.push(a);
        } else {
            proof {
                lemma_push_fresh(moves@, a);
            }
            moves.push(a);
        }
        i = i + 1;
    }
    assert(members@.subrange(0, i as int) == members@);
    (stays, moves)
}

/// Pushing an element that is not yet in a sequence keeps it free of duplicates,
/// and adds exactly that element.
pub(crate) proof fn lemma_push_fresh(s: Seq<usize>, x: usize)
    requires
        s.no_duplicates(),
        !s.contains(x),
    ensures
        s.push(x).no_duplicates(),
        forall|b: usize| #[trigger] s.push(x).contains(b) <==> (s.contains(b) || b == x),
{
    let t = s.push(x);
    assert forall|b: usize| #[trigger] t.contains(b) <==> (s.contains(b) || b == x) by {
        if t.contains(b) && b != x {
            let j = choose|j: int| 0 <= j < t.len() && t[j] == b;
            assert(s[j] == b);
        }
        if s.contains(b) {
            let j = choose|j: int| 0 <= j < s.len() && s[j] == b;
            assert(t[j] == b);
        }
        if b == x {
            assert(t[s.len() as int] == b);
        }
    }
    assert forall|i: int, j: int| 0 <= i < t.len() && 0 <= j < t.len() && i != j implies t[i] != t[j] by {
        if i < s.len() && j < s.len() {
            assert(t[i] == s[i] && t[j] == s[j]);
        } else if i < s.len() {
            assert(s.contains(t[i]));
        } else if j < s.len() {
            assert(s.contains(t[j]));
        }
    }
}

/// Agent `a` sits in a container other than the one of its new voxel.
pub open spec fn is_migrant(containers: Seq<Vec<usize>>, new_voxel_of: Seq<usize>, a: usize, upto: int) -> bool {
    exists|j: int| 0 <= j < upto && #[trigger] containers[j]@.contains(a) && new_voxel_of[a as int] != j
}

/// Moves every agent to the container of its new voxel: each container keeps the
/// agents that stay and receives those that migrate into it. Given containers
/// that hold each agent once, the result is the partition by the new voxels.
pub fn migrate(containers: &Vec<Vec<usize>>, new_voxel_of: &Vec<usize>) -> (r: Vec<Vec<usize>>)
    requires
        holds_each_once(containers@, new_voxel_of.len() as nat),
        forall|a: int| 0 <= a < new_voxel_of.len() ==> #[trigger] new_voxel_of[a] < containers.len(),
    ensures
        r.len() == containers.len(),
        is_partition(r@, new_voxel_of@),
{
    let ghost cs = containers@;
    let ghost nv = new_voxel_of@;
    let mut movers: Vec<usize> = Vec::new();
    let mut j: usize = 0;
    while j < containers.len()
        invariant
            cs == containers@,
            nv == new_voxel_of@,
            j <= containers.len(),
            holds_each_once(cs, nv.len() as nat),
            movers@.no_duplicates(),
            forall|a: usize| #[trigger] movers@.contains(a) <==> is_migrant(cs, nv, a, j as int),
        decreases containers.len() - j,
    {
        assert forall|i: int| 0 <= i < cs[j as int]@.len() implies #[trigger] cs[j as int]@[i] < nv.len() by {
            assert(cs[j as int]@.contains(cs[j as int]@[i]));
        }
        let (_, leaving) = split_migrants(j, &containers[j], new_voxel_of);
        let mut i: usize = 0;
        while i < leaving.len()
            invariant
                cs == containers@,
                nv == new_voxel_of@,
                j < containers.len(),
                i <= leaving.len(),
                holds_each_once(cs, nv.len() as nat),
                leaving@.no_duplicates(),
                forall|a: usize| #[trigger] leaving@.contains(a) <==> (cs[j as int]@.contains(a) && nv[a as int] != j),
                movers@.no_duplicates(),
                forall|a: usize| #[trigger] movers@.contains(a) <==> (is_migrant(cs, nv, a, j as int)
                    || leaving@.subrange(0, i as int).contains(a)),
            decreases leaving.len() - i,
        {
            let a = leaving[i];
            let ghost done = leaving@.subrange(0, i as int);
            let ghost next = leaving@.subrange(0, i + 1);
            assert(leaving@.contains(a));
            assert(!movers@.contains(a)) by {
                if is_migrant(cs, nv, a, j as int) {
                    let j2 = choose|j2: int| 0 <= j2 < j && #[trigger] cs[j2]@.contains(a) && nv[a as int] != j2;
                }
                if done.contains(a) {
                    let t = choose|t: int| 0 <= t < i && #[trigger] done[t] == a;
                    assert(leaving@[t] == leaving@[i as int]);
                }
            }
            assert forall|b: usize| #[trigger] next.contains(b) <==> (done.contains(b) || b == a) by {
                if next.contains(b) {
                    let t = choose|t: int| 0 <= t <= i && #[trigger] next[t] == b;
                    if t < i {
                        assert(done[t] == b);
                    }
                }
                if done.contains(b) {
                    let t = choose|t: int| 0 <= t < i && #[trigger] done[t] == b;
                    assert(next[t] == b);
                }
                if b == a {
                    assert(next[i as int] == b);
                }
            }
            proof {
                lemma_push_fresh(movers@, a);
            }
            movers.push(a);
            i = i + 1;
        }
        assert(leaving@.subrange(0, i as int) == leaving@);
        assert forall|a: usize| #[trigger] movers@.contains(a) <==> is_migrant(cs, nv, a, j + 1) by {
            if is_migrant(cs, nv, a, j + 1) && !is_migrant(cs, nv, a, j as int) {
                let j2 = choose|j2: int| 0 <= j2 < j + 1 && #[trigger] cs[j2]@.contains(a) && nv[a as int] != j2;
                assert(j2 == j);
                assert(leaving@.contains(a));
            }
            if is_migrant(cs, nv, a, j as int) {
                let j2 = choose|j2: int| 0 <= j2 < j && #[trigger] cs[j2]@.contains(a) && nv[a as int] != j2;
                assert(is_migrant(cs, nv, a, j + 1));
            }
            if leaving@.contains(a) {
                assert(cs[j as int]@.contains(a));
                assert(is_migrant(cs, nv, a, j + 1));
            }
        }
        j = j + 1;
    }
    let mut r: Vec<Vec<usize>> = Vec::new();
    let mut k: usize = 0;
    while k < containers.len()
        invariant
            cs == containers@,
            nv == new_voxel_of@,
            k <= containers.len(),
            r.len() == k,
            holds_each_once(cs, nv.len() as nat),
            forall|a: int| 0 <= a < nv.len() ==> #[trigger] nv[a] < cs.len(),
            movers@.no_duplicates(),
            forall|a: usize| #[trigger] movers@.contains(a) <==> is_migrant(cs, nv, a, cs.len() as int),
            forall|q: int| 0 <= q < k ==> (#[trigger] r[q]@).no_duplicates(),
            forall|q: int, a: usize| 0 <= q < k ==> (#[trigger] r[q]@.contains(a) <==> (a < nv.len() && nv[a as int] == q)),
        decreases containers.len() - k,
    {
        assert forall|i: int| 0 <= i < cs[k as int]@.len() implies #[trigger] cs[k as int]@[i] < nv.len() by {
            assert(cs[k as int]@.contains(cs[k as int]@[i]));
        }
        let (stays, _) = split_migrants(k, &containers[k], new_voxel_of);
        let mut c = stays;
        let mut i: usize = 0;
        while i < movers.len()
            invariant
                cs == containers@,
                nv == new_voxel_of@,
                k < containers.len(),
                i <= movers.len(),
                holds_each_once(cs, nv.len() as nat),
                forall|a: int| 0 <= a < nv.len() ==> #[trigger] nv[a] < cs.len(),
                movers@.no_duplicates(),
                forall|a: usize| #[trigger] movers@.contains(a) <==> is_migrant(cs, nv, a, cs.len() as int),
                c@.no_duplicates(),
                forall|a: usize| #[trigger] c@.contains(a) <==> ((cs[k as int]@.contains(a) && nv[a as int] == k) || (
                    movers@.subrange(0, i as int).contains(a) && nv[a as int] == k)),
            decreases movers.len() - i,
        {
            let m = movers[i];
            let ghost done = movers@.subrange(0, i as int);
            let ghost next = movers@.subrange(0, i + 1);
            assert(movers@.contains(m));
            assert forall|b: usize| #[trigger] next.contains(b) <==> (done.contains(b) || b == m) by {
                if next.contains(b) {
                    let t = choose|t: int| 0 <= t <= i && #[trigger] next[t] == b;
                    if t < i {
                        assert(done[t] == b);
                    }
                }
                if done.contains(b) {
                    let t = choose|t: int| 0 <= t < i && #[trigger] done[t] == b;
                    assert(next[t] == b);
                }
                if b == m {
                    assert(next[i as int] == b);
                }
            }
            if new_voxel_of[m] == k {
                assert(!c@.contains(m)) by {
                    let j2 = choose|j2: int| 0 <= j2 < cs.len() && #[trigger] cs[j2]@.contains(m) && nv[m as int] != j2;
                    if cs[k as int]@.contains(m) {
                        assert(j2 == k);
                    }
                    if done.contains(m) {
                        let t = choose|t: int| 0 <= t < i && #[trigger] done[t] == m;
                        assert(movers@[t] == movers@[i as int]);
                    }
                }
                proof {
                    lemma_push_fresh(c@, m);
                }
                c.push(m);
            }
            i = i + 1;
        }
        assert(movers@.subrange(0, i as int) == movers@);
        assert forall|a: usize| #[trigger] c@.contains(a) <==> (a < nv.len() && nv[a as int] == k) by {
            if a < nv.len() && nv[a as int] == k {
                assert(is_held(cs, a));
                let j2 = choose|j2: int| 0 <= j2 < cs.len() && #[trigger] cs[j2]@.contains(a);
                if j2 != k {
                    assert(is_migrant(cs, nv, a, cs.len() as int));
                }
            }
            if c@.contains(a) && !cs[k as int]@.contains(a) {
                assert(movers@.contains(a));
                let j2 = choose|j2: int| 0 <= j2 < cs.len() && #[trigger] cs[j2]@.contains(a) && nv[a as int] != j2;
            }
        }
        let ghost prev = r@;
        r.push(c);
        assert forall|q: int, a: usize| 0 <= q < k + 1 implies (#[trigger] r[q]@.contains(a) <==> (a < nv.len()
            && nv[a as int] == q)) by {
            if q < k {
                assert(r[q] == prev[q]);
            }
        }
        assert forall|q: int| 0 <= q < k + 1 implies (#[trigger] r[q]@).no_duplicates() by {
            if q < k {
                assert(r[q] == prev[q]);
            }
        }
        k = k + 1;
    }
    r
}

} // verus!
