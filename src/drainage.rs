use vstd::prelude::*;
use crate::flow::descending;
use crate::mesh::{Mesh, MAX_CELL_AREA, MAX_SITES};

verus! {

/// The flow path from `v` passes through `x`: following receivers from `v`
/// (each strictly lower than the last) reaches `x`.
pub open spec fn passes(r: Seq<usize>, z: Seq<i64>, v: int, x: int) -> bool
    decreases z[v] - i64::MIN,
{
    if v == x {
        true
    } else if 0 <= v < r.len() && r[v] != v && z[r[v] as int] < z[v] {
        passes(r, z, r[v] as int, x)
    } else {
        false
    }
}

/// The summed cell areas of the first `k` vertices whose flow passes `x`.
pub open spec fn drained(r: Seq<usize>, z: Seq<i64>, areas: Seq<u64>, x: int, k: int) -> int
    decreases k,
{
    if k <= 0 {
        0
    } else {
        drained(r, z, areas, x, k - 1) + if passes(r, z, k - 1, x) { areas[k - 1] as int } else { 0 }
    }
}

/// The drainage area of `x`: its own cell area plus that of every vertex
/// whose flow passes through it.
pub open spec fn drainage_area(r: Seq<usize>, z: Seq<i64>, areas: Seq<u64>, x: int) -> int {
    drained(r, z, areas, x, r.len() as int)
}

pub open spec fn areas_ok(areas: Seq<u64>) -> bool {
    forall|v: int| 0 <= v < areas.len() ==> #[trigger] areas[v] <= MAX_CELL_AREA
}

proof fn lemma_passes_lower(r: Seq<usize>, z: Seq<i64>, v: int, x: int)
    requires
        passes(r, z, v, x),
    ensures
        z[x] <= z[v],
    decreases z[v] - i64::MIN,
{
    if v != x {
        lemma_passes_lower(r, z, r[v] as int, x);
    }
}

proof fn lemma_passes_step(r: Seq<usize>, z: Seq<i64>, w: int, v: int)
    requires
        descending(z, r),
        0 <= v < r.len(),
        r[v] != v,
        passes(r, z, w, v),
    ensures
        passes(r, z, w, r[v] as int),
    decreases z[w] - i64::MIN,
{
    if w == v {
        assert(passes(r, z, r[v] as int, r[v] as int));
    } else if w != r[v] as int {
        lemma_passes_step(r, z, r[w] as int, v);
    }
}

proof fn lemma_drained_bound(r: Seq<usize>, z: Seq<i64>, areas: Seq<u64>, x: int, k: int)
    requires
        areas_ok(areas),
        0 <= k <= areas.len(),
    ensures
        0 <= drained(r, z, areas, x, k) <= k * MAX_CELL_AREA,
    decreases k,
{
    if k > 0 {
        lemma_drained_bound(r, z, areas, x, k - 1);
        assert(areas[k - 1] <= MAX_CELL_AREA);
    }
}

proof fn lemma_drained_own(r: Seq<usize>, z: Seq<i64>, areas: Seq<u64>, x: int, k: int)
    requires
        0 <= x < k,
    ensures
        drained(r, z, areas, x, k) >= areas[x],
    decreases k,
{
    if k - 1 > x {
        lemma_drained_own(r, z, areas, x, k - 1);
    } else {
        lemma_drained_nonneg(r, z, areas, x, k - 1);
    }
}

proof fn lemma_drained_nonneg(r: Seq<usize>, z: Seq<i64>, areas: Seq<u64>, x: int, k: int)
    ensures
        drained(r, z, areas, x, k) >= 0,
    decreases k,
{
    if k > 0 {
        lemma_drained_nonneg(r, z, areas, x, k - 1);
    }
}

proof fn lemma_drained_downstream(r: Seq<usize>, z: Seq<i64>, areas: Seq<u64>, v: int, k: int)
    requires
        descending(z, r),
        0 <= v < r.len(),
        r[v] != v,
        0 <= k <= r.len(),
    ensures
        drained(r, z, areas, v, k) + (if r[v] < k { areas[r[v] as int] as int } else { 0 })
            <= drained(r, z, areas, r[v] as int, k),
    decreases k,
{
    if k > 0 {
        lemma_drained_downstream(r, z, areas, v, k - 1);
        let w = k - 1;
        let d = r[v] as int;
        if passes(r, z, w, v) {
            lemma_passes_step(r, z, w, v);
        }
        if w == d {
            if passes(r, z, w, v) {
                lemma_passes_lower(r, z, w, v);
            }
        }
    }
}

/// Drainage areas only grow downstream: every vertex drains at least its own
/// cell, and a vertex with a distinct receiver drains no more than that
/// receiver minus the receiver's own cell.
pub proof fn lemma_drainage_grows_downstream(r: Seq<usize>, z: Seq<i64>, areas: Seq<u64>, v: int)
    requires
        descending(z, r),
        areas.len() == r.len(),
        0 <= v < r.len(),
    ensures
        drainage_area(r, z, areas, v) >= areas[v],
        r[v] != v ==> drainage_area(r, z, areas, v) + areas[r[v] as int]
            <= drainage_area(r, z, areas, r[v] as int),
{
    lemma_drained_own(r, z, areas, v, r.len() as int);
    if r[v] != v {
        lemma_drained_downstream(r, z, areas, v, r.len() as int);
    }
}

/// Accumulates drainage areas over a receiver graph: each vertex's cell
/// area is added to every vertex on its flow path.
pub fn accumulate_drainage(m: &Mesh, z: &Vec<i64>, receivers: &Vec<usize>) -> (acc: Vec<u64>)
    requires
        m.wf(),
        z@.len() == m.len(),
        descending(z@, receivers@),
    ensures
        acc@.len() == m.len(),
        forall|x: int| 0 <= x < m.len()
            ==> #[trigger] acc@[x] == drainage_area(receivers@, z@, m.areas@, x),
        forall|x: int| 0 <= x < m.len() ==> #[trigger] acc@[x] >= m.areas@[x],
        forall|x: int| 0 <= x < m.len() && receivers@[x] != x
            ==> #[trigger] acc@[x] + m.areas@[receivers@[x] as int] <= acc@[receivers@[x] as int],
{
    let n = receivers.len();
    let ghost r = receivers@;
    let ghost zz = z@;
    let ghost areas = m.areas@;
    let mut acc: Vec<u64> = Vec::with_capacity(n);
    let mut i: usize = 0;
    while i < n
        invariant
            i <= n,
            acc@.len() == i,
            forall|x: int| 0 <= x < i ==> #[trigger] acc@[x] == 0,
        decreases n - i,
    {
        acc.push(0u64);
        i = i + 1;
    }
    let mut u: usize = 0;
    while u < n
        invariant
            m.wf(),
            n == m.len(),
            r == receivers@,
            zz == z@,
            areas == m.areas@,
            descending(zz, r),
            n == r.len(),
            u <= n,
            acc@.len() == n,
            forall|x: int| 0 <= x < n ==> #[trigger] acc@[x] == drained(r, zz, areas, x, u as int),
        decreases n - u,
    {
        let a = m.areas[u];
        let mut cur: usize = u;
        loop
            invariant_except_break
                passes(r, zz, u as int, cur as int),
                forall|x: int| 0 <= x < n ==> #[trigger] acc@[x] == drained(r, zz, areas, x, u as int)
                    + if passes(r, zz, u as int, x) && !passes(r, zz, cur as int, x) { a as int } else { 0 },
            invariant
                m.wf(),
                n == m.len(),
                r == receivers@,
                zz == z@,
                areas == m.areas@,
                descending(zz, r),
                u < n,
                cur < n,
                a == areas[u as int],
                n == r.len(),
                acc@.len() == n,
            ensures
                forall|x: int| 0 <= x < n ==> #[trigger] acc@[x] == drained(r, zz, areas, x, u + 1),
            decreases zz[cur as int] - i64::MIN,
        {
            proof {
                lemma_drained_bound(r, zz, areas, cur as int, u as int);
                assert(areas[u as int] <= MAX_CELL_AREA);
                assert(!passes(r, zz, u as int, cur as int) || passes(r, zz, cur as int, cur as int));
                assert(u * MAX_CELL_AREA + MAX_CELL_AREA <= MAX_SITES * MAX_CELL_AREA) by (nonlinear_arith)
                    requires u < MAX_SITES;
            }
            acc.set(cur, acc[cur] + a);
            let next = receivers[cur];
            if next == cur {
                proof {
                    assert forall|x: int| 0 <= x < n implies #[trigger] acc@[x] == drained(r, zz, areas, x, u + 1) by {
                        if passes(r, zz, cur as int, x) {
                            assert(x == cur);
                        }
                    }
                }
                break;
            }
            proof {
                assert forall|x: int| 0 <= x < n implies #[trigger] acc@[x] == drained(r, zz, areas, x, u as int)
                    + if passes(r, zz, u as int, x) && !passes(r, zz, next as int, x) { a as int } else { 0 } by {
                    if x == cur {
                        if passes(r, zz, next as int, x) {
                            lemma_passes_lower(r, zz, next as int, x);
                        }
                    } else {
                        assert(passes(r, zz, cur as int, x) == passes(r, zz, next as int, x));
                    }
                }
                lemma_passes_step(r, zz, u as int, cur as int);
            }
            cur = next;
        }
        u = u + 1;
    }
    proof {
        assert forall|x: int| 0 <= x < n implies #[trigger] acc@[x] >= m.areas@[x] by {
            lemma_drainage_grows_downstream(r, zz, areas, x);
        }
        assert forall|x: int| 0 <= x < n && r[x] != x
            implies #[trigger] acc@[x] + m.areas@[r[x] as int] <= acc@[r[x] as int] by {
            lemma_drainage_grows_downstream(r, zz, areas, x);
        }
    }
    acc
}

} // verus!
