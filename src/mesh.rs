use vstd::prelude::*;

verus! {

/// Largest absolute coordinate a site may have (in domain units).
pub const COORD_LIMIT: i64 = 0x4000_0000;

/// Largest number of sites a mesh may hold.
pub const MAX_SITES: usize = 0x100_0000;

/// Largest area a single cell may have.
pub const MAX_CELL_AREA: u64 = 0x10_0000_0000;

/// A location in domain space, on an integer grid.
#[derive(Clone, Copy, Debug)]
pub struct Site {
    pub x: i64,
    pub y: i64,
}

/// The rectangular domain: `min_x < max_x` and `min_y < max_y`.
#[derive(Clone, Copy, Debug)]
pub struct BoundingBox {
    pub min_x: i64,
    pub min_y: i64,
    pub max_x: i64,
    pub max_y: i64,
}

#[derive(Clone, Copy, Debug, PartialEq, Eq, Structural)]
pub enum MeshError {
    /// Too few sites, no three of them span a triangle, or the adjacency does
    /// not describe a connected graph of mutual neighbours over distinct sites
    /// with interior degree at least three.
    InvalidGeometry,
    /// A site lies outside the bounding box.
    OutOfBounds,
}

pub open spec fn bbox_valid(b: BoundingBox) -> bool {
    &&& -COORD_LIMIT <= b.min_x < b.max_x <= COORD_LIMIT
    &&& -COORD_LIMIT <= b.min_y < b.max_y <= COORD_LIMIT
}

pub open spec fn inside(s: Site, b: BoundingBox) -> bool {
    b.min_x <= s.x <= b.max_x && b.min_y <= s.y <= b.max_y
}

/// Twice the signed area of the triangle `a`, `b`, `c`.
pub open spec fn cross(a: Site, b: Site, c: Site) -> int {
    (b.x - a.x) * (c.y - a.y) - (b.y - a.y) * (c.x - a.x)
}

/// Some two sites span a proper triangle with the first site.
pub open spec fn spans_plane(sites: Seq<Site>) -> bool {
    exists|j: int, k: int|
        0 <= j < sites.len() && 0 <= k < sites.len() && #[trigger] cross(sites[0], sites[j], sites[k]) != 0
}

pub open spec fn dist_sq(a: Site, b: Site) -> int {
    (a.x - b.x) * (a.x - b.x) + (a.y - b.y) * (a.y - b.y)
}

/// The adjacency lists name other, distinct sites of the set.
pub open spec fn adjacency_ok(sites: Seq<Site>, neighbors: Seq<Vec<usize>>) -> bool {
    &&& neighbors.len() == sites.len()
    &&& forall|v: int, j: int|
        0 <= v < sites.len() && 0 <= j < neighbors[v]@.len() ==> {
            let w = #[trigger] neighbors[v]@[j] as int;
            &&& w < sites.len()
            &&& w != v
            &&& dist_sq(sites[v], sites[w]) > 0
        }
}

/// No two sites coincide.
pub open spec fn distinct_sites(sites: Seq<Site>) -> bool {
    forall|i: int, j: int| #![trigger sites[i], sites[j]]
        0 <= i < j < sites.len() ==> sites[i].x != sites[j].x || sites[i].y != sites[j].y
}

/// The adjacency list of `w` names `v`.
pub open spec fn lists(neighbors: Seq<Vec<usize>>, w: int, v: int) -> bool {
    exists|k: int| 0 <= k < neighbors[w]@.len() && neighbors[w]@[k] == v
}

/// Adjacency is mutual: each neighbour of `v` lists `v` in turn.
pub open spec fn symmetric(neighbors: Seq<Vec<usize>>) -> bool {
    forall|v: int, j: int| 0 <= v < neighbors.len() && 0 <= j < neighbors[v]@.len()
        ==> lists(neighbors, #[trigger] neighbors[v]@[j] as int, v)
}

/// Every interior vertex has at least three neighbours.
pub open spec fn degrees_ok(neighbors: Seq<Vec<usize>>, boundary: Seq<bool>) -> bool {
    forall|v: int| 0 <= v < neighbors.len() && !#[trigger] boundary[v] ==> neighbors[v]@.len() >= 3
}

/// The adjacency describes a mesh graph over the sites: valid, mutual,
/// connected, with interior vertices of degree at least three.
pub open spec fn graph_ok(sites: Seq<Site>, neighbors: Seq<Vec<usize>>, boundary: Seq<bool>) -> bool {
    &&& adjacency_ok(sites, neighbors)
    &&& symmetric(neighbors)
    &&& connected(neighbors)
    &&& degrees_ok(neighbors, boundary)
}

/// A mesh over a site set: per-vertex position, neighbours, boundary flag and
/// cell area, all indexed by site.
pub struct Mesh {
    pub sites: Vec<Site>,
    pub neighbors: Vec<Vec<usize>>,
    pub boundary: Vec<bool>,
    pub areas: Vec<u64>,
}

impl Mesh {
    pub open spec fn len(&self) -> nat {
        self.sites@.len()
    }

    pub open spec fn wf(&self) -> bool {
        &&& self.sites@.len() <= MAX_SITES
        &&& self.boundary@.len() == self.sites@.len()
        &&& self.areas@.len() == self.sites@.len()
        &&& graph_ok(self.sites@, self.neighbors@, self.boundary@)
        &&& distinct_sites(self.sites@)
        &&& forall|v: int| 0 <= v < self.sites@.len() ==> -COORD_LIMIT <= #[trigger] self.sites@[v].x <= COORD_LIMIT
        &&& forall|v: int| 0 <= v < self.sites@.len() ==> -COORD_LIMIT <= #[trigger] self.sites@[v].y <= COORD_LIMIT
        &&& forall|v: int| 0 <= v < self.sites@.len() ==> #[trigger] self.areas@[v] <= MAX_CELL_AREA
    }

    /// Assembles a mesh from its parts, checking the geometry: the sites must
    /// lie in `bounds`, at least three of them must span a triangle, and the
    /// sites must be distinct, and the adjacency must join them into one
    /// connected graph of mutual neighbours in which every interior vertex
    /// has at least three neighbours.
    /// The mesh keeps the sites, in their order, as its vertices.
    pub fn new(
        sites: Vec<Site>,
        bounds: BoundingBox,
        neighbors: Vec<Vec<usize>>,
        boundary: Vec<bool>,
        areas: Vec<u64>,
    ) -> (r: Result<Mesh, MeshError>)
        requires
            bbox_valid(bounds),
        ensures
            (exists|v: int| 0 <= v < sites@.len() && !inside(#[trigger] sites@[v], bounds))
                ==> r == Err::<Mesh, MeshError>(MeshError::OutOfBounds),
            (forall|v: int| 0 <= v < sites@.len() ==> inside(#[trigger] sites@[v], bounds)) ==> (
                r is Ok <==> (
                    3 <= sites@.len() <= MAX_SITES
                    && spans_plane(sites@)
                    && boundary@.len() == sites@.len()
                    && areas@.len() == sites@.len()
                    && distinct_sites(sites@)
                    && graph_ok(sites@, neighbors@, boundary@)
                    && forall|v: int| 0 <= v < areas@.len() ==> #[trigger] areas@[v] <= MAX_CELL_AREA
                )),
            r matches Ok(m) ==> m.wf() && m.sites@ == sites@
                && m.neighbors@ == neighbors@ && m.boundary@ == boundary@ && m.areas@ == areas@,
    {
        let n = sites.len();
        let mut i: usize = 0;
        while i < n
            invariant
                n == sites@.len(),
                i <= n,
                forall|v: int| 0 <= v < i ==> inside(#[trigger] sites@[v], bounds),
            decreases n - i,
        {
            let s = sites[i];
            if !(bounds.min_x <= s.x && s.x <= bounds.max_x && bounds.min_y <= s.y && s.y <= bounds.max_y) {
                return Err(MeshError::OutOfBounds);
            }
            i = i + 1;
        }
        if n < 3 || n > MAX_SITES || boundary.len() != n || areas.len() != n || neighbors.len() != n {
            return Err(MeshError::InvalidGeometry);
        }
        if !spans(&sites, bounds) {
            return Err(MeshError::InvalidGeometry);
        }
        let mut a: usize = 0;
        while a < n
            invariant
                n == sites@.len(),
                n == areas@.len(),
                a <= n,
                forall|v: int| 0 <= v < n ==> inside(#[trigger] sites@[v], bounds),
                forall|v: int| 0 <= v < a ==> #[trigger] areas@[v] <= MAX_CELL_AREA,
            decreases n - a,
        {
            if areas[a] > MAX_CELL_AREA {
                return Err(MeshError::InvalidGeometry);
            }
            a = a + 1;
        }
        let mut v: usize = 0;
        while v < n
            invariant
                n == sites@.len(),
                n == neighbors@.len(),
                v <= n,
                forall|u: int| 0 <= u < n ==> inside(#[trigger] sites@[u], bounds),
                bbox_valid(bounds),
                forall|u: int, j: int|
                    0 <= u < v && 0 <= j < neighbors[u]@.len() ==> {
                        let w = #[trigger] neighbors[u]@[j] as int;
                        &&& w < n
                        &&& w != u
                        &&& dist_sq(sites@[u], sites@[w]) > 0
                    },
            decreases n - v,
        {
            let list = &neighbors[v];
            let mut j: usize = 0;
            while j < list.len()
                invariant
                    n == sites@.len(),
                    n == neighbors@.len(),
                    v < n,
                    list == &neighbors@[v as int],
                    j <= list@.len(),
                    forall|u: int| 0 <= u < n ==> inside(#[trigger] sites@[u], bounds),
                    bbox_valid(bounds),
                    forall|u: int, k: int|
                        0 <= u < v && 0 <= k < neighbors[u]@.len() ==> {
                            let w = #[trigger] neighbors[u]@[k] as int;
                            &&& w < n
                            &&& w != u
                            &&& dist_sq(sites@[u], sites@[w]) > 0
                        },
                    forall|k: int|
                        0 <= k < j ==> {
                            let w = #[trigger] list@[k] as int;
                            &&& w < n
                            &&& w != v
                            &&& dist_sq(sites@[v as int], sites@[w]) > 0
                        },
                decreases list@.len() - j,
            {
                let w = list[j];
                if w >= n || w == v {
                    return Err(MeshError::InvalidGeometry);
                }
                let p = sites[v];
                let q = sites[w];
                assert(inside(sites@[v as int], bounds) && inside(sites@[w as int], bounds));
                if p.x == q.x && p.y == q.y {
                    assert(neighbors@[v as int]@[j as int] == w);
                    assert(dist_sq(p, q) == 0) by (nonlinear_arith)
                        requires p.x == q.x, p.y == q.y;
                    return Err(MeshError::InvalidGeometry);
                }
                proof {
                    let dx = p.x - q.x;
                    let dy = p.y - q.y;
                    assert(dx != 0 || dy != 0);
                    assert(dx * dx + dy * dy > 0) by (nonlinear_arith)
                        requires dx != 0 || dy != 0;
                }
                j = j + 1;
            }
            v = v + 1;
        }
        if !all_reachable(&neighbors) || !is_symmetric(&neighbors) || !degrees_exec(&neighbors, &boundary)
            || !all_distinct(&sites) {
            return Err(MeshError::InvalidGeometry);
        }
        Ok(Mesh { sites, neighbors, boundary, areas })
    }
}

/// `s` is closed under adjacency: it holds every neighbour of its members.
pub open spec fn closed(neighbors: Seq<Vec<usize>>, s: Set<int>) -> bool {
    forall|v: int, j: int|
        s.contains(v) && 0 <= v < neighbors.len() && 0 <= j < neighbors[v]@.len()
            ==> s.contains(#[trigger] neighbors[v]@[j] as int)
}

/// Every vertex can be reached from vertex 0: each adjacency-closed set that
/// holds vertex 0 holds all vertices.
pub open spec fn connected(neighbors: Seq<Vec<usize>>) -> bool {
    forall|s: Set<int>| #[trigger] closed(neighbors, s) && s.contains(0)
        ==> forall|v: int| 0 <= v < neighbors.len() ==> s.contains(v)
}

/// Each queued vertex after the first was found as a neighbour of an earlier one.
spec fn discovered(neighbors: Seq<Vec<usize>>, queue: Seq<usize>, par: Seq<int>, pidx: Seq<int>) -> bool {
    &&& par.len() == queue.len()
    &&& pidx.len() == queue.len()
    &&& forall|k: int| 1 <= k < queue.len() ==> {
        &&& 0 <= #[trigger] par[k] < k
        &&& 0 <= pidx[k] < neighbors[queue[par[k]] as int]@.len()
        &&& neighbors[queue[par[k]] as int]@[pidx[k]] == queue[k]
    }
}

proof fn lemma_queue_in_closed(neighbors: Seq<Vec<usize>>, queue: Seq<usize>, par: Seq<int>, pidx: Seq<int>, s: Set<int>, k: int)
    requires
        discovered(neighbors, queue, par, pidx),
        forall|i: int| 0 <= i < queue.len() ==> (#[trigger] queue[i] as int) < neighbors.len(),
        queue.len() > 0,
        queue[0] == 0,
        closed(neighbors, s),
        s.contains(0),
        0 <= k < queue.len(),
    ensures
        s.contains(queue[k] as int),
    decreases k,
{
    if k > 0 {
        let p = par[k];
        lemma_queue_in_closed(neighbors, queue, par, pidx, s, p);
        let v = queue[p] as int;
        assert(neighbors[v]@[pidx[k]] == queue[k]);
    }
}

/// Decides `connected` by a breadth-first search from vertex 0.
fn all_reachable(neighbors: &Vec<Vec<usize>>) -> (r: bool)
    requires
        neighbors@.len() >= 1,
        forall|v: int, j: int|
            0 <= v < neighbors@.len() && 0 <= j < neighbors@[v]@.len() ==> (#[trigger] neighbors@[v]@[j] as int) < neighbors@.len(),
    ensures
        r == connected(neighbors@),
{
    let n = neighbors.len();
    let ghost nb = neighbors@;
    let mut seen: Vec<bool> = Vec::with_capacity(n);
    let mut i: usize = 0;
    while i < n
        invariant
            i <= n,
            seen@.len() == i,
            forall|x: int| 0 <= x < i ==> !(#[trigger] seen@[x]),
        decreases n - i,
    {
        seen.push(false);
        i = i + 1;
    }
    seen.set(0, true);
    let mut queue: Vec<usize> = Vec::new();
    queue.push(0);
    let ghost mut par: Seq<int> = seq![0int];
    let ghost mut pidx: Seq<int> = seq![0int];
    let mut head: usize = 0;
    proof {
        assert forall|x: int| 0 <= x < n && #[trigger] seen@[x] implies exists|k: int| 0 <= k < queue@.len() && queue@[k] == x by {
            assert(x == 0);
            assert(queue@[0] == 0);
        }
    }
    while head < queue.len()
        invariant
            n == nb.len(),
            nb == neighbors@,
            forall|v: int, j: int|
                0 <= v < n && 0 <= j < nb[v]@.len() ==> (#[trigger] nb[v]@[j] as int) < n,
            seen@.len() == n,
            queue@.len() > 0,
            queue@[0] == 0,
            queue@.len() <= n,
            head <= queue@.len(),
            forall|k: int| 0 <= k < queue@.len() ==> (#[trigger] queue@[k] as int) < n,
            forall|k: int| 0 <= k < queue@.len() ==> seen@[#[trigger] queue@[k] as int],
            forall|x: int| 0 <= x < n && #[trigger] seen@[x] ==> exists|k: int| 0 <= k < queue@.len() && queue@[k] == x,
            forall|a: int, b: int| 0 <= a < b < queue@.len() ==> #[trigger] queue@[a] != #[trigger] queue@[b],
            forall|k: int, j: int| 0 <= k < head && 0 <= j < nb[queue@[k] as int]@.len()
                ==> seen@[#[trigger] nb[queue@[k] as int]@[j] as int],
            discovered(nb, queue@, par, pidx),
        decreases n - head, n - queue@.len(),
    {
        let v = queue[head];
        let list = &neighbors[v];
        let mut j: usize = 0;
        while j < list.len()
            invariant
                n == nb.len(),
                nb == neighbors@,
                forall|v: int, j: int|
                    0 <= v < n && 0 <= j < nb[v]@.len() ==> (#[trigger] nb[v]@[j] as int) < n,
                seen@.len() == n,
                queue@.len() > 0,
                queue@[0] == 0,
                queue@.len() <= n,
                head < queue@.len(),
                v == queue@[head as int],
                list == &nb[v as int],
                j <= list@.len(),
                forall|k: int| 0 <= k < queue@.len() ==> (#[trigger] queue@[k] as int) < n,
                forall|k: int| 0 <= k < queue@.len() ==> seen@[#[trigger] queue@[k] as int],
                forall|x: int| 0 <= x < n && #[trigger] seen@[x] ==> exists|k: int| 0 <= k < queue@.len() && queue@[k] == x,
                forall|a: int, b: int| 0 <= a < b < queue@.len() ==> #[trigger] queue@[a] != #[trigger] queue@[b],
                forall|k: int, i: int| 0 <= k < head && 0 <= i < nb[queue@[k] as int]@.len()
                    ==> seen@[#[trigger] nb[queue@[k] as int]@[i] as int],
                forall|i: int| 0 <= i < j ==> seen@[#[trigger] list@[i] as int],
                discovered(nb, queue@, par, pidx),
            decreases list@.len() - j,
        {
            let w = list[j];
            assert(nb[v as int]@[j as int] == w);
            if !seen[w] {
                proof {
                    lemma_unique_queue_fits(queue@, n as int, w as int, seen@);
                }
                let ghost old_q = queue@;
                seen.set(w, true);
                queue.push(w);
                proof {
                    par = par.push(head as int);
                    pidx = pidx.push(j as int);
                    assert forall|k: int| 1 <= k < queue@.len() implies {
                        &&& 0 <= #[trigger] par[k] < k
                        &&& 0 <= pidx[k] < nb[queue@[par[k]] as int]@.len()
                        &&& nb[queue@[par[k]] as int]@[pidx[k]] == queue@[k]
                    } by {
                        if k < old_q.len() {
                            assert(queue@[k] == old_q[k]);
                            assert(queue@[par[k]] == old_q[par[k]]);
                        }
                    }
                    assert forall|x: int| 0 <= x < n && #[trigger] seen@[x] implies exists|k: int| 0 <= k < queue@.len() && queue@[k] == x by {
                        if x == w {
                            assert(queue@[old_q.len() as int] == w);
                        } else {
                            let k = choose|k: int| 0 <= k < old_q.len() && old_q[k] == x;
                            assert(queue@[k] == x);
                        }
                    }
                    assert forall|a: int, b: int| 0 <= a < b < queue@.len() implies #[trigger] queue@[a] != #[trigger] queue@[b] by {
                        if b == old_q.len() {
                            assert(seen@[queue@[a] as int] || queue@[a] == w);
                            assert(queue@[a] == old_q[a]);
                        } else {
                            assert(queue@[a] == old_q[a] && queue@[b] == old_q[b]);
                        }
                    }
                }
            }
            j = j + 1;
        }
        head = head + 1;
    }
    let ghost visited = Set::new(|x: int| 0 <= x < n && seen@[x]);
    proof {
        assert(closed(nb, visited)) by {
            assert forall|v: int, j: int|
                visited.contains(v) && 0 <= v < nb.len() && 0 <= j < nb[v]@.len()
                    implies visited.contains(#[trigger] nb[v]@[j] as int) by {
                assert(seen@[v]);
                let q = choose|q: int| 0 <= q < queue@.len() && queue@[q] == v;
                assert(seen@[nb[queue@[q] as int]@[j] as int]);
            }
        }
        assert(seen@[queue@[0] as int]);
        assert(visited.contains(0));
        assert((forall|v: int| 0 <= v < n ==> seen@[v]) ==> connected(nb)) by {
            if forall|v: int| 0 <= v < n ==> seen@[v] {
                assert forall|s: Set<int>| #[trigger] closed(nb, s) && s.contains(0)
                    implies forall|v: int| 0 <= v < nb.len() ==> s.contains(v) by {
                    assert forall|v: int| 0 <= v < nb.len() implies s.contains(v) by {
                        assert(seen@[v]);
                        let q = choose|q: int| 0 <= q < queue@.len() && queue@[q] == v;
                        lemma_queue_in_closed(nb, queue@, par, pidx, s, q);
                    }
                }
            }
        }
    }
    let mut k: usize = 0;
    while k < n
        invariant
            n == nb.len(),
            nb == neighbors@,
            seen@.len() == n,
            k <= n,
            forall|x: int| 0 <= x < k ==> #[trigger] seen@[x],
            visited == Set::new(|x: int| 0 <= x < n && seen@[x]),
            closed(nb, visited),
            visited.contains(0),
            (forall|v: int| 0 <= v < n ==> seen@[v]) ==> connected(nb),
        decreases n - k,
    {
        if !seen[k] {
            proof {
                assert(!visited.contains(k as int));
            }
            return false;
        }
        k = k + 1;
    }
    true
}

/// A queue of distinct vertices below `n` that misses the unseen `w` has
/// room for one more.
proof fn lemma_unique_queue_fits(queue: Seq<usize>, n: int, w: int, seen: Seq<bool>)
    requires
        0 <= w < n,
        seen.len() == n,
        !seen[w],
        forall|k: int| 0 <= k < queue.len() ==> (#[trigger] queue[k] as int) < n,
        forall|k: int| 0 <= k < queue.len() ==> seen[#[trigger] queue[k] as int],
        forall|a: int, b: int| 0 <= a < b < queue.len() ==> #[trigger] queue[a] != #[trigger] queue[b],
    ensures
        queue.len() < n,
{
    let qs = Set::new(|x: int| exists|k: int| 0 <= k < queue.len() && queue[k] as int == x);
    let full = Set::new(|x: int| 0 <= x < n && x != w);
    assert(qs.subset_of(full)) by {
        assert forall|x: int| qs.contains(x) implies full.contains(x) by {
            let k = choose|k: int| 0 <= k < queue.len() && queue[k] as int == x;
            assert(seen[queue[k] as int]);
        }
    }
    lemma_set_of_range_len(n, w);
    lemma_distinct_seq_set_len(queue, qs);
    vstd::set_lib::lemma_len_subset(qs, full);
}

proof fn lemma_set_of_range_len(n: int, w: int)
    requires
        0 <= w < n,
    ensures
        Set::new(|x: int| 0 <= x < n && x != w).finite(),
        Set::new(|x: int| 0 <= x < n && x != w).len() == n - 1,
{
    let s = Set::new(|x: int| 0 <= x < n && x != w);
    let r = Set::new(|x: int| 0 <= x < n);
    assert(r =~= vstd::set_lib::set_int_range(0, n));
    vstd::set_lib::lemma_int_range(0, n);
    assert(s =~= r.remove(w));
}

proof fn lemma_distinct_seq_set_len(queue: Seq<usize>, qs: Set<int>)
    requires
        forall|a: int, b: int| 0 <= a < b < queue.len() ==> #[trigger] queue[a] != #[trigger] queue[b],
        qs == Set::new(|x: int| exists|k: int| 0 <= k < queue.len() && queue[k] as int == x),
    ensures
        qs.finite(),
        qs.len() == queue.len(),
    decreases queue.len(),
{
    if queue.len() == 0 {
        assert(qs =~= Set::empty());
    } else {
        let init = queue.drop_last();
        let qi = Set::new(|x: int| exists|k: int| 0 <= k < init.len() && init[k] as int == x);
        lemma_distinct_seq_set_len(init, qi);
        let last = queue.last() as int;
        assert(qs =~= qi.insert(last)) by {
            assert forall|x: int| qs.contains(x) implies qi.insert(last).contains(x) by {
                let k = choose|k: int| 0 <= k < queue.len() && queue[k] as int == x;
                if k < init.len() {
                    assert(init[k] == queue[k]);
                }
            }
            assert forall|x: int| qi.insert(last).contains(x) implies qs.contains(x) by {
                if x != last {
                    let k = choose|k: int| 0 <= k < init.len() && init[k] as int == x;
                    assert(queue[k] == init[k]);
                } else {
                    assert(queue[queue.len() - 1] as int == x);
                }
            }
        }
        assert(!qi.contains(last)) by {
            if qi.contains(last) {
                let k = choose|k: int| 0 <= k < init.len() && init[k] as int == last;
                assert(queue[k] == init[k]);
                assert(queue[k] != queue[queue.len() - 1]);
            }
        }
    }
}

/// Decides `distinct_sites`.
fn all_distinct(sites: &Vec<Site>) -> (r: bool)
    ensures
        r == distinct_sites(sites@),
{
    let n = sites.len();
    let mut i: usize = 0;
    while i < n
        invariant
            n == sites@.len(),
            i <= n,
            forall|a: int, b: int| #![trigger sites@[a], sites@[b]]
                0 <= a < i && a < b < n ==> sites@[a].x != sites@[b].x || sites@[a].y != sites@[b].y,
        decreases n - i,
    {
        let mut j: usize = i + 1;
        while j < n
            invariant
                n == sites@.len(),
                i < n,
                i + 1 <= j <= n,
                forall|a: int, b: int| #![trigger sites@[a], sites@[b]]
                    0 <= a < i && a < b < n ==> sites@[a].x != sites@[b].x || sites@[a].y != sites@[b].y,
                forall|b: int| i < b < j ==> sites@[i as int].x != (#[trigger] sites@[b]).x || sites@[i as int].y != sites@[b].y,
            decreases n - j,
        {
            if sites[i].x == sites[j].x && sites[i].y == sites[j].y {
                return false;
            }
            j = j + 1;
        }
        i = i + 1;
    }
    true
}

/// Decides `symmetric` for an adjacency whose entries are in range.
fn is_symmetric(neighbors: &Vec<Vec<usize>>) -> (r: bool)
    requires
        forall|v: int, j: int|
            0 <= v < neighbors@.len() && 0 <= j < neighbors@[v]@.len() ==> (#[trigger] neighbors@[v]@[j] as int) < neighbors@.len(),
    ensures
        r == symmetric(neighbors@),
{
    let n = neighbors.len();
    let mut v: usize = 0;
    while v < n
        invariant
            n == neighbors@.len(),
            v <= n,
            forall|u: int, j: int|
                0 <= u < n && 0 <= j < neighbors@[u]@.len() ==> (#[trigger] neighbors@[u]@[j] as int) < n,
            forall|u: int, j: int| 0 <= u < v && 0 <= j < neighbors@[u]@.len()
                ==> lists(neighbors@, #[trigger] neighbors@[u]@[j] as int, u),
        decreases n - v,
    {
        let list = &neighbors[v];
        let mut j: usize = 0;
        while j < list.len()
            invariant
                n == neighbors@.len(),
                v < n,
                list == &neighbors@[v as int],
                j <= list@.len(),
                forall|u: int, i: int|
                    0 <= u < n && 0 <= i < neighbors@[u]@.len() ==> (#[trigger] neighbors@[u]@[i] as int) < n,
                forall|u: int, i: int| 0 <= u < v && 0 <= i < neighbors@[u]@.len()
                    ==> lists(neighbors@, #[trigger] neighbors@[u]@[i] as int, u),
                forall|i: int| 0 <= i < j ==> lists(neighbors@, #[trigger] list@[i] as int, v as int),
            decreases list@.len() - j,
        {
            let w = list[j];
            assert(neighbors@[v as int]@[j as int] == w);
            let back = &neighbors[w];
            let mut k: usize = 0;
            let mut found = false;
            while k < back.len()
                invariant
                    back == &neighbors@[w as int],
                    k <= back@.len(),
                    found ==> lists(neighbors@, w as int, v as int),
                    !found ==> forall|i: int| 0 <= i < k ==> back@[i] != v,
                decreases back@.len() - k,
            {
                if back[k] == v {
                    found = true;
                }
                k = k + 1;
            }
            if !found {
                assert(!lists(neighbors@, w as int, v as int));
                return false;
            }
            j = j + 1;
        }
        proof {
            assert forall|u: int, i: int| 0 <= u < v + 1 && 0 <= i < neighbors@[u]@.len()
                implies lists(neighbors@, #[trigger] neighbors@[u]@[i] as int, u) by {
                if u == v {
                    assert(list@[i] == neighbors@[u]@[i]);
                }
            }
        }
        v = v + 1;
    }
    true
}

/// Decides `degrees_ok`.
fn degrees_exec(neighbors: &Vec<Vec<usize>>, boundary: &Vec<bool>) -> (r: bool)
    requires
        boundary@.len() == neighbors@.len(),
    ensures
        r == degrees_ok(neighbors@, boundary@),
{
    let n = neighbors.len();
    let mut v: usize = 0;
    while v < n
        invariant
            n == neighbors@.len(),
            boundary@.len() == n,
            v <= n,
            forall|u: int| 0 <= u < v && !#[trigger] boundary@[u] ==> neighbors@[u]@.len() >= 3,
        decreases n - v,
    {
        if !boundary[v] && neighbors[v].len() < 3 {
            return false;
        }
        v = v + 1;
    }
    true
}

/// Twice the signed area of `a`, `b`, `c`, for sites inside a valid box.
fn cross_exec(a: Site, b: Site, c: Site, bounds: BoundingBox) -> (r: i128)
    requires
        bbox_valid(bounds),
        inside(a, bounds),
        inside(b, bounds),
        inside(c, bounds),
    ensures
        r == cross(a, b, c),
{
    let bx = (b.x as i128) - (a.x as i128);
    let by = (b.y as i128) - (a.y as i128);
    let cx = (c.x as i128) - (a.x as i128);
    let cy = (c.y as i128) - (a.y as i128);
    assert(-0x8000_0000 <= bx <= 0x8000_0000 && -0x8000_0000 <= cy <= 0x8000_0000);
    assert(-0x8000_0000 <= by <= 0x8000_0000 && -0x8000_0000 <= cx <= 0x8000_0000);
    proof {
        assert(-0x40_0000_0000_0000_0000 <= bx * cy <= 0x40_0000_0000_0000_0000) by (nonlinear_arith)
            requires -0x8000_0000 <= bx <= 0x8000_0000, -0x8000_0000 <= cy <= 0x8000_0000;
        assert(-0x40_0000_0000_0000_0000 <= by * cx <= 0x40_0000_0000_0000_0000) by (nonlinear_arith)
            requires -0x8000_0000 <= by <= 0x8000_0000, -0x8000_0000 <= cx <= 0x8000_0000;
    }
    bx * cy - by * cx
}

/// Searches for two sites that span a triangle with the first one.
fn spans(sites: &Vec<Site>, bounds: BoundingBox) -> (r: bool)
    requires
        sites@.len() >= 1,
        bbox_valid(bounds),
        forall|v: int| 0 <= v < sites@.len() ==> inside(#[trigger] sites@[v], bounds),
    ensures
        r == spans_plane(sites@),
{
    let n = sites.len();
    let mut j: usize = 0;
    while j < n
        invariant
            n == sites@.len(),
            n >= 1,
            j <= n,
            bbox_valid(bounds),
            forall|v: int| 0 <= v < n ==> inside(#[trigger] sites@[v], bounds),
            forall|a: int, b: int| 0 <= a < j && 0 <= b < n ==> #[trigger] cross(sites@[0], sites@[a], sites@[b]) == 0,
        decreases n - j,
    {
        let mut k: usize = 0;
        while k < n
            invariant
                n == sites@.len(),
                n >= 1,
                j < n,
                k <= n,
                bbox_valid(bounds),
                forall|v: int| 0 <= v < n ==> inside(#[trigger] sites@[v], bounds),
                forall|a: int, b: int| 0 <= a < j && 0 <= b < n ==> #[trigger] cross(sites@[0], sites@[a], sites@[b]) == 0,
                forall|b: int| 0 <= b < k ==> #[trigger] cross(sites@[0], sites@[j as int], sites@[b]) == 0,
            decreases n - k,
        {
            if cross_exec(sites[0], sites[j], sites[k], bounds) != 0 {
                return true;
            }
            k = k + 1;
        }
        j = j + 1;
    }
    false
}

} // verus!
