use vstd::prelude::*;
use crate::mesh::{dist_sq, Mesh, COORD_LIMIT};

verus! {

/// Largest absolute altitude a vertex may have.
pub const ALT_LIMIT: i64 = 0x8000_0000;

/// `z` gives one altitude per mesh vertex, each within the altitude limit.
pub open spec fn altitudes_ok(m: &Mesh, z: Seq<i64>) -> bool {
    &&& z.len() == m.len()
    &&& forall|v: int| 0 <= v < z.len() ==> -ALT_LIMIT <= #[trigger] z[v] <= ALT_LIMIT
}

pub open spec fn drop_sq(z: Seq<i64>, v: int, w: int) -> int {
    (z[v] - z[w]) * (z[v] - z[w])
}

/// Positive when the descent from `v` to `a` is steeper than to `b`, zero when
/// both slopes are equal (for vertices below `v`): the squared slopes compared
/// with their denominators multiplied out.
pub open spec fn gradient_cmp(m: &Mesh, z: Seq<i64>, v: int, a: int, b: int) -> int {
    drop_sq(z, v, a) * dist_sq(m.sites@[v], m.sites@[b])
        - drop_sq(z, v, b) * dist_sq(m.sites@[v], m.sites@[a])
}

/// From `v`, neighbour `a` is the better receiver than `b`: a steeper descent,
/// or an equal one and a lower index.
pub open spec fn preferred(m: &Mesh, z: Seq<i64>, v: int, a: int, b: int) -> bool {
    gradient_cmp(m, z, v, a, b) > 0 || (gradient_cmp(m, z, v, a, b) == 0 && a < b)
}

/// The `j`-th neighbour of `v` lies strictly below it.
pub open spec fn lower_neighbor(m: &Mesh, z: Seq<i64>, v: int, j: int) -> bool {
    0 <= j < m.neighbors@[v]@.len() && z[m.neighbors@[v]@[j] as int] < z[v]
}

pub open spec fn has_lower_neighbor(m: &Mesh, z: Seq<i64>, v: int) -> bool {
    exists|j: int| lower_neighbor(m, z, v, j)
}

/// `r` is the receiver of `v` under steepest-descent routing: `v` itself for a
/// boundary vertex or a local sink, else the lower neighbour that no other
/// lower neighbour is preferred to.
pub open spec fn steepest_receiver(m: &Mesh, z: Seq<i64>, v: int, r: int) -> bool {
    if m.boundary@[v] || !has_lower_neighbor(m, z, v) {
        r == v
    } else {
        &&& exists|j: int| lower_neighbor(m, z, v, j) && m.neighbors@[v]@[j] == r
        &&& forall|j: int| #[trigger] lower_neighbor(m, z, v, j)
            ==> !preferred(m, z, v, m.neighbors@[v]@[j] as int, r)
    }
}

/// A receiver lies strictly below its donor, or is the vertex itself.
pub open spec fn descending(z: Seq<i64>, r: Seq<usize>) -> bool {
    &&& r.len() == z.len()
    &&& forall|v: int| 0 <= v < r.len() ==> (#[trigger] r[v] as int) < r.len()
    &&& forall|v: int| 0 <= v < r.len() && r[v] != v ==> z[#[trigger] r[v] as int] < z[v]
}

proof fn lemma_preferred_transitive(m: &Mesh, z: Seq<i64>, v: int, a: int, b: int, c: int)
    requires
        0 <= v < m.sites@.len(),
        0 <= a < m.sites@.len(),
        0 <= b < m.sites@.len(),
        0 <= c < m.sites@.len(),
        dist_sq(m.sites@[v], m.sites@[a]) > 0,
        dist_sq(m.sites@[v], m.sites@[b]) > 0,
        dist_sq(m.sites@[v], m.sites@[c]) > 0,
        preferred(m, z, v, a, b),
        preferred(m, z, v, b, c),
    ensures
        preferred(m, z, v, a, c),
{
    let da = drop_sq(z, v, a);
    let db = drop_sq(z, v, b);
    let dc = drop_sq(z, v, c);
    let ea = dist_sq(m.sites@[v], m.sites@[a]);
    let eb = dist_sq(m.sites@[v], m.sites@[b]);
    let ec = dist_sq(m.sites@[v], m.sites@[c]);
    let gab = da * eb - db * ea;
    let gbc = db * ec - dc * eb;
    let gac = da * ec - dc * ea;
    assert(eb * gac == gab * ec + gbc * ea) by (nonlinear_arith)
        requires gab == da * eb - db * ea, gbc == db * ec - dc * eb, gac == da * ec - dc * ea;
    assert(gab >= 0 && gbc >= 0);
    assert(gac >= 0) by (nonlinear_arith)
        requires eb * gac == gab * ec + gbc * ea, gab >= 0, gbc >= 0, ea > 0, eb > 0, ec > 0;
    if gab > 0 || gbc > 0 {
        assert(gac > 0) by (nonlinear_arith)
            requires eb * gac == gab * ec + gbc * ea, gab >= 0, gbc >= 0, gab > 0 || gbc > 0,
                ea > 0, eb > 0, ec > 0;
    } else {
        assert(gac == 0) by (nonlinear_arith)
            requires eb * gac == gab * ec + gbc * ea, gab == 0, gbc == 0, eb > 0;
    }
}

/// Steepest-descent routing picks one receiver: two receivers of `v` that
/// both satisfy `steepest_receiver` are the same vertex.
pub proof fn lemma_receiver_unique(m: &Mesh, z: Seq<i64>, v: int, r1: int, r2: int)
    requires
        m.wf(),
        0 <= v < m.len(),
        steepest_receiver(m, z, v, r1),
        steepest_receiver(m, z, v, r2),
    ensures
        r1 == r2,
{
    if !(m.boundary@[v] || !has_lower_neighbor(m, z, v)) {
        let j1 = choose|j: int| lower_neighbor(m, z, v, j) && m.neighbors@[v]@[j] == r1;
        let j2 = choose|j: int| lower_neighbor(m, z, v, j) && m.neighbors@[v]@[j] == r2;
        assert(!preferred(m, z, v, m.neighbors@[v]@[j1] as int, r2));
        assert(!preferred(m, z, v, m.neighbors@[v]@[j2] as int, r1));
        let da = drop_sq(z, v, r1);
        let db = drop_sq(z, v, r2);
        let ea = dist_sq(m.sites@[v], m.sites@[r1]);
        let eb = dist_sq(m.sites@[v], m.sites@[r2]);
        assert(gradient_cmp(m, z, v, r1, r2) == -gradient_cmp(m, z, v, r2, r1)) by (nonlinear_arith)
            requires gradient_cmp(m, z, v, r1, r2) == da * eb - db * ea,
                gradient_cmp(m, z, v, r2, r1) == db * ea - da * eb;
    }
}

/// The squared drop from `v` to `w` and the squared distance between them.
pub(crate) fn drop_and_dist(m: &Mesh, z: &Vec<i64>, v: usize, w: usize) -> (r: (u128, u128))
    requires
        m.wf(),
        altitudes_ok(m, z@),
        v < m.len(),
        w < m.len(),
    ensures
        r.0 == drop_sq(z@, v as int, w as int),
        r.1 == dist_sq(m.sites@[v as int], m.sites@[w as int]),
        r.0 <= 0x1_0000_0000_0000_0000,
        r.1 <= 0x8000_0000_0000_0000,
{
    let dz = (z[v] as i128) - (z[w] as i128);
    let p = m.sites[v];
    let q = m.sites[w];
    assert(-COORD_LIMIT <= m.sites@[v as int].x <= COORD_LIMIT);
    assert(-COORD_LIMIT <= m.sites@[v as int].y <= COORD_LIMIT);
    assert(-COORD_LIMIT <= m.sites@[w as int].x <= COORD_LIMIT);
    assert(-COORD_LIMIT <= m.sites@[w as int].y <= COORD_LIMIT);
    assert(-ALT_LIMIT <= z@[v as int] <= ALT_LIMIT && -ALT_LIMIT <= z@[w as int] <= ALT_LIMIT);
    let dx = (p.x as i128) - (q.x as i128);
    let dy = (p.y as i128) - (q.y as i128);
    proof {
        assert(0 <= dz * dz <= 0x1_0000_0000_0000_0000) by (nonlinear_arith)
            requires -0x1_0000_0000 <= dz <= 0x1_0000_0000;
        assert(0 <= dx * dx <= 0x4000_0000_0000_0000) by (nonlinear_arith)
            requires -0x8000_0000 <= dx <= 0x8000_0000;
        assert(0 <= dy * dy <= 0x4000_0000_0000_0000) by (nonlinear_arith)
            requires -0x8000_0000 <= dy <= 0x8000_0000;
    }
    ((dz * dz) as u128, (dx * dx + dy * dy) as u128)
}

/// Decides `preferred(m, z, v, a, b)`.
fn prefers(m: &Mesh, z: &Vec<i64>, v: usize, a: usize, b: usize) -> (r: bool)
    requires
        m.wf(),
        altitudes_ok(m, z@),
        v < m.len(),
        a < m.len(),
        b < m.len(),
    ensures
        r == preferred(m, z@, v as int, a as int, b as int),
{
    let (da, ea) = drop_and_dist(m, z, v, a);
    let (db, eb) = drop_and_dist(m, z, v, b);
    proof {
        assert(da * eb <= 0x8000_0000_0000_0000_0000_0000_0000_0000) by (nonlinear_arith)
            requires 0 <= da <= 0x1_0000_0000_0000_0000, 0 <= eb <= 0x8000_0000_0000_0000;
        assert(db * ea <= 0x8000_0000_0000_0000_0000_0000_0000_0000) by (nonlinear_arith)
            requires 0 <= db <= 0x1_0000_0000_0000_0000, 0 <= ea <= 0x8000_0000_0000_0000;
    }
    let lhs = da * eb;
    let rhs = db * ea;
    lhs > rhs || (lhs == rhs && a < b)
}

/// The steepest-descent receiver of vertex `v`.
fn receiver_of(m: &Mesh, z: &Vec<i64>, v: usize) -> (r: usize)
    requires
        m.wf(),
        altitudes_ok(m, z@),
        v < m.len(),
    ensures
        r < m.len(),
        steepest_receiver(m, z@, v as int, r as int),
{
    if m.boundary[v] {
        return v;
    }
    let list = &m.neighbors[v];
    let mut best: usize = v;
    let mut found = false;
    let ghost mut best_j: int = 0;
    let mut j: usize = 0;
    while j < list.len()
        invariant
            m.wf(),
            altitudes_ok(m, z@),
            v < m.len(),
            !m.boundary@[v as int],
            list == &m.neighbors@[v as int],
            j <= list@.len(),
            best < m.len(),
            !found ==> best == v,
            !found ==> forall|k: int| 0 <= k < j ==> !lower_neighbor(m, z@, v as int, k),
            found ==> 0 <= best_j < j && lower_neighbor(m, z@, v as int, best_j) && list@[best_j] == best,
            found ==> forall|k: int| 0 <= k < j && #[trigger] lower_neighbor(m, z@, v as int, k)
                ==> !preferred(m, z@, v as int, list@[k] as int, best as int),
        decreases list@.len() - j,
    {
        let w = list[j];
        assert(m.neighbors@[v as int]@[j as int] == w);
        if z[w] < z[v] {
            if !found || prefers(m, z, v, w, best) {
                proof {
                    if found {
                        assert forall|k: int| 0 <= k < j && #[trigger] lower_neighbor(m, z@, v as int, k)
                            implies !preferred(m, z@, v as int, list@[k] as int, w as int) by {
                            assert(m.neighbors@[v as int]@[k] == list@[k]);
                            assert(m.neighbors@[v as int]@[best_j] == list@[best_j]);
                            if preferred(m, z@, v as int, list@[k] as int, w as int) {
                                lemma_preferred_transitive(m, z@, v as int, list@[k] as int, w as int, best as int);
                            }
                        }
                    }
                    assert(!preferred(m, z@, v as int, w as int, w as int));
                    best_j = j as int;
                }
                best = w;
                found = true;
            }
        }
        j = j + 1;
    }
    proof {
        if found {
            assert(lower_neighbor(m, z@, v as int, best_j));
        } else {
            assert forall|k: int| !lower_neighbor(m, z@, v as int, k) by {
                if 0 <= k < list@.len() {
                } 
            }
        }
    }
    best
}

/// Steepest-descent flow routing: the receiver of every vertex.
pub fn route_flow(m: &Mesh, z: &Vec<i64>) -> (r: Vec<usize>)
    requires
        m.wf(),
        altitudes_ok(m, z@),
    ensures
        r@.len() == m.len(),
        forall|v: int| 0 <= v < m.len() ==> steepest_receiver(m, z@, v, #[trigger] r@[v] as int),
        descending(z@, r@),
{
    let n = m.sites.len();
    let mut r: Vec<usize> = Vec::with_capacity(n);
    let mut v: usize = 0;
    while v < n
        invariant
            m.wf(),
            altitudes_ok(m, z@),
            n == m.len(),
            v <= n,
            r@.len() == v,
            forall|u: int| 0 <= u < v ==> (#[trigger] r@[u] as int) < n,
            forall|u: int| 0 <= u < v ==> steepest_receiver(m, z@, u, #[trigger] r@[u] as int),
        decreases n - v,
    {
        let w = receiver_of(m, z, v);
        r.push(w);
        v = v + 1;
    }
    proof {
        assert forall|u: int| 0 <= u < r@.len() && r@[u] != u implies z@[#[trigger] r@[u] as int] < z@[u] by {
            assert(steepest_receiver(m, z@, u, r@[u] as int));
        }
    }
    r
}

} // verus!
