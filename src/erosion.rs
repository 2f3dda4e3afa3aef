use vstd::prelude::*;
use vstd::arithmetic::div_mod::{lemma_fundamental_div_mod, lemma_fundamental_div_mod_converse, lemma_mod_bound};
use crate::drainage::{accumulate_drainage, drainage_area};
use crate::flow::{altitudes_ok, descending, drop_and_dist, lemma_receiver_unique, route_flow, steepest_receiver, ALT_LIMIT};
use crate::mesh::{dist_sq, Mesh};

verus! {

/// The fixed-point unit of an erosion factor: a factor `f` stands for the
/// real number `f / FACTOR_ONE`.
pub const FACTOR_ONE: u64 = 0x10_0000;

/// Largest erosion factor accepted (in `FACTOR_ONE` units).
pub const MAX_FACTOR: u64 = 0x100_0000_0000;

/// One backward-Euler step of the stream-power law, with the slope taken
/// against the receiver's new altitude: given `zv`, the vertex altitude after
/// uplift, and `zr`, its receiver's new altitude, the new altitude
/// `(zv + F * zr) / (1 + F)`, rounded down, where `F = f / FACTOR_ONE` stands
/// for `K * A^m * dt / distance`.
pub open spec fn implicit_altitude(zv: int, zr: int, f: int) -> int {
    (zv * FACTOR_ONE + f * zr) / (FACTOR_ONE + f)
}

/// The vertex sheds no flow: it is a boundary outlet or its own receiver.
pub open spec fn terminal(m: &Mesh, r: Seq<usize>, v: int) -> bool {
    m.boundary@[v] || r[v] == v
}

/// The altitude of `v` after one erosion step: boundary outlets stay put, a
/// sink only rises by `uplift`, and every other vertex is solved implicitly
/// against its receiver's new altitude.
pub open spec fn settled(m: &Mesh, z: Seq<i64>, r: Seq<usize>, uplift: int, f: Seq<u64>, v: int) -> int
    decreases z[v] - i64::MIN,
{
    if !(0 <= v < r.len()) {
        0
    } else if m.boundary@[v] {
        z[v] as int
    } else if r[v] == v || !(z[r[v] as int] < z[v]) {
        z[v] + uplift
    } else {
        implicit_altitude(z[v] + uplift, settled(m, z, r, uplift, f, r[v] as int), f[v] as int)
    }
}

/// The altitude field after one erosion step.
pub open spec fn step_of(m: &Mesh, z: Seq<i64>, r: Seq<usize>, uplift: int, f: Seq<u64>) -> Seq<i64> {
    Seq::new(z.len(), |v: int| settled(m, z, r, uplift, f, v) as i64)
}

/// The inputs of one erosion step are consistent: altitudes in range with room
/// for the uplift, receivers that descend, and one bounded factor per vertex.
pub open spec fn step_inputs_ok(m: &Mesh, z: Seq<i64>, r: Seq<usize>, uplift: int, f: Seq<u64>) -> bool {
    &&& m.wf()
    &&& altitudes_ok(m, z)
    &&& descending(z, r)
    &&& f.len() == z.len()
    &&& forall|v: int| 0 <= v < f.len() ==> #[trigger] f[v] <= MAX_FACTOR
    &&& 0 <= uplift
    &&& forall|v: int| 0 <= v < z.len() ==> #[trigger] z[v] + uplift <= ALT_LIMIT
}

proof fn lemma_implicit_between(a: int, b: int, f: int)
    requires
        0 <= f,
        b <= a,
    ensures
        b <= implicit_altitude(a, b, f) <= a,
{
    let d = FACTOR_ONE + f;
    let x = a * FACTOR_ONE + f * b;
    let q = x / d;
    lemma_fundamental_div_mod(x, d);
    lemma_mod_bound(x, d);
    let rem = x % d;
    assert(b * d <= x <= a * d) by (nonlinear_arith)
        requires d == FACTOR_ONE + f, x == a * FACTOR_ONE + f * b, 0 <= f, b <= a;
    assert(b <= q <= a) by (nonlinear_arith)
        requires b * d <= x, x <= a * d, x == d * q + rem, 0 <= rem < d, d > 0;
}

proof fn lemma_settled_bounds(m: &Mesh, z: Seq<i64>, r: Seq<usize>, uplift: int, f: Seq<u64>, v: int)
    requires
        step_inputs_ok(m, z, r, uplift, f),
        0 <= v < z.len(),
    ensures
        -ALT_LIMIT <= settled(m, z, r, uplift, f, v) <= z[v] + uplift,
        m.boundary@[v] ==> settled(m, z, r, uplift, f, v) == z[v],
        !terminal(m, r, v) ==> settled(m, z, r, uplift, f, r[v] as int) <= settled(m, z, r, uplift, f, v),
    decreases z[v] - i64::MIN,
{
    assert(-ALT_LIMIT <= z[v] <= ALT_LIMIT);
    assert(z[v] + uplift <= ALT_LIMIT);
    if !terminal(m, r, v) {
        let w = r[v] as int;
        assert(z[w] < z[v]);
        lemma_settled_bounds(m, z, r, uplift, f, w);
        let b = settled(m, z, r, uplift, f, w);
        assert(b <= z[v] + uplift);
        lemma_implicit_between(z[v] + uplift, b, f[v] as int);
    }
}

/// Computes `implicit_altitude(zv, zr, f)` for values in range.
fn implicit_exec(zv: i64, zr: i64, f: u64) -> (r: i64)
    requires
        -ALT_LIMIT <= zr <= zv <= ALT_LIMIT,
        f <= MAX_FACTOR,
    ensures
        r == implicit_altitude(zv as int, zr as int, f as int),
{
    let a: u128 = (zv as i128 + ALT_LIMIT as i128) as u128;
    let b: u128 = (zr as i128 + ALT_LIMIT as i128) as u128;
    proof {
        assert(a * (FACTOR_ONE as int) <= 0x1_0000_0000 * 0x10_0000) by (nonlinear_arith)
            requires a <= 0x1_0000_0000;
        assert(f * b <= 0x100_0000_0000 * 0x1_0000_0000) by (nonlinear_arith)
            requires f <= 0x100_0000_0000, b <= 0x1_0000_0000;
    }
    let num: u128 = a * (FACTOR_ONE as u128) + (f as u128) * b;
    let den: u128 = FACTOR_ONE as u128 + f as u128;
    let q: u128 = num / den;
    proof {
        let x = zv * FACTOR_ONE + f * zr;
        let d = FACTOR_ONE + f;
        assert(num == x + ALT_LIMIT * d) by (nonlinear_arith)
            requires num == a * FACTOR_ONE + f * b, a == zv + ALT_LIMIT, b == zr + ALT_LIMIT,
                x == zv * FACTOR_ONE + f * zr, d == FACTOR_ONE + f;
        lemma_fundamental_div_mod(x, d);
        lemma_mod_bound(x, d);
        assert(num == (x / d + ALT_LIMIT) * d + x % d) by (nonlinear_arith)
            requires num == x + ALT_LIMIT * d, x == d * (x / d) + x % d;
        lemma_fundamental_div_mod_converse(num as int, d, x / d + ALT_LIMIT, x % d);
        lemma_implicit_between(zv as int, zr as int, f as int);
    }
    (q as i128 - ALT_LIMIT as i128) as i64
}

/// Step `k` of a path follows the receiver of step `k - 1`, which is not terminal.
pub open spec fn chain_link(m: &Mesh, r: Seq<usize>, path: Seq<usize>, k: int) -> bool {
    !terminal(m, r, path[k - 1] as int) && r[path[k - 1] as int] == path[k]
}

/// Each step of the path follows the receiver of the one before.
pub open spec fn chain(m: &Mesh, r: Seq<usize>, path: Seq<usize>) -> bool {
    forall|k: int| 1 <= k < path.len() ==> #[trigger] chain_link(m, r, path, k)
}

/// The flow path from `v` down to the first vertex that is terminal or whose
/// receiver is already `done` (empty when `v` itself is done).
fn downstream_path(m: &Mesh, z: &Vec<i64>, receivers: &Vec<usize>, done: &Vec<bool>, v: usize) -> (path: Vec<usize>)
    requires
        m.wf(),
        z@.len() == m.len(),
        descending(z@, receivers@),
        done@.len() == m.len(),
        v < m.len(),
    ensures
        path@.len() == 0 ==> done@[v as int],
        path@.len() > 0 ==> path@[0] == v,
        path@.len() > 0 ==> terminal(m, receivers@, path@.last() as int)
            || done@[receivers@[path@.last() as int] as int],
        forall|k: int| 0 <= k < path@.len() ==> (#[trigger] path@[k] as int) < m.len(),
        chain(m, receivers@, path@),
{
    let n = z.len();
    let ghost r = receivers@;
    let ghost zz = z@;
    let mut path: Vec<usize> = Vec::new();
    let mut cur: usize = v;
    loop
        invariant_except_break
            cur < n,
            path@.len() == 0 ==> cur == v,
            path@.len() > 0 ==> !terminal(m, r, path@.last() as int) && r[path@.last() as int] == cur,
        invariant
            m.wf(),
            r == receivers@,
            zz == z@,
            n == zz.len(),
            n == m.len(),
            descending(zz, r),
            done@.len() == n,
            v < n,
            path@.len() > 0 ==> path@[0] == v,
            forall|k: int| 0 <= k < path@.len() ==> (#[trigger] path@[k] as int) < n,
            chain(m, r, path@),
        ensures
            path@.len() == 0 ==> done@[v as int],
            path@.len() > 0 ==> terminal(m, r, path@.last() as int) || done@[r[path@.last() as int] as int],
        decreases zz[cur as int] - i64::MIN,
    {
        if done[cur] {
            break;
        }
        let ghost before = path@;
        path.push(cur);
        proof {
            assert forall|k: int| 1 <= k < path@.len()
                implies #[trigger] chain_link(m, r, path@, k) by {
                if k < before.len() {
                    assert(chain_link(m, r, before, k));
                    assert(path@[k - 1] == before[k - 1] && path@[k] == before[k]);
                } else {
                    assert(path@[k - 1] == before.last());
                    assert(path@[k] == cur);
                }
            }
        }
        if m.boundary[cur] || receivers[cur] == cur {
            break;
        }
        proof {
            assert(z@[receivers@[cur as int] as int] < z@[cur as int]);
        }
        cur = receivers[cur];
    }
    path
}

/// One implicit erosion/uplift step over the whole mesh, given each vertex's
/// receiver and its erosion factor `K * A^m * dt / distance` in fixed point.
/// Receivers are solved before their donors, so each vertex sees its
/// receiver's updated altitude.
pub fn erosion_step(m: &Mesh, z: &Vec<i64>, receivers: &Vec<usize>, uplift: i64, factors: &Vec<u64>) -> (out: Vec<i64>)
    requires
        step_inputs_ok(m, z@, receivers@, uplift as int, factors@),
    ensures
        out@.len() == z@.len(),
        forall|v: int| 0 <= v < z@.len()
            ==> #[trigger] out@[v] == settled(m, z@, receivers@, uplift as int, factors@, v),
        out@ == step_of(m, z@, receivers@, uplift as int, factors@),
        altitudes_ok(m, out@),
        forall|v: int| 0 <= v < z@.len() && m.boundary@[v] ==> #[trigger] out@[v] == z@[v],
        forall|v: int| 0 <= v < z@.len() ==> #[trigger] out@[v] <= z@[v] + uplift,
        forall|v: int| 0 <= v < z@.len() && !terminal(m, receivers@, v)
            ==> out@[receivers@[v] as int] <= #[trigger] out@[v],
{
    let n = z.len();
    let ghost r = receivers@;
    let ghost zz = z@;
    let ghost ff = factors@;
    let ghost u = uplift as int;
    let mut out: Vec<i64> = Vec::with_capacity(n);
    let mut done: Vec<bool> = Vec::with_capacity(n);
    let mut i: usize = 0;
    while i < n
        invariant
            i <= n,
            out@.len() == i,
            done@.len() == i,
            forall|x: int| 0 <= x < i ==> !(#[trigger] done@[x]),
        decreases n - i,
    {
        out.push(0i64);
        done.push(false);
        i = i + 1;
    }
    let mut v: usize = 0;
    while v < n
        invariant
            step_inputs_ok(m, zz, r, u, ff),
            r == receivers@,
            zz == z@,
            ff == factors@,
            u == uplift,
            n == zz.len(),
            v <= n,
            out@.len() == n,
            done@.len() == n,
            forall|x: int| 0 <= x < v ==> #[trigger] done@[x],
            forall|x: int| 0 <= x < n && #[trigger] done@[x] ==> out@[x] == settled(m, zz, r, u, ff, x),
        decreases n - v,
    {
        let path = downstream_path(m, z, receivers, &done, v);
        let mut k: usize = path.len();
        while k > 0
            invariant
                step_inputs_ok(m, zz, r, u, ff),
                r == receivers@,
                zz == z@,
                ff == factors@,
                u == uplift,
                n == zz.len(),
                k <= path@.len(),
                v < n,
                path@.len() > 0 ==> path@[0] == v,
                path@.len() == 0 ==> done@[v as int],
                out@.len() == n,
                done@.len() == n,
                forall|x: int| 0 <= x < v ==> #[trigger] done@[x],
                forall|x: int| 0 <= x < n && #[trigger] done@[x] ==> out@[x] == settled(m, zz, r, u, ff, x),
                forall|j: int| k <= j < path@.len() ==> #[trigger] done@[path@[j] as int],
                forall|j: int| 0 <= j < path@.len() ==> (#[trigger] path@[j] as int) < n,
                chain(m, r, path@),
                path@.len() > 0 ==> terminal(m, r, path@.last() as int) || done@[r[path@.last() as int] as int],
            decreases k,
        {
            k = k - 1;
            let x = path[k];
            proof {
                lemma_settled_bounds(m, zz, r, u, ff, x as int);
                assert(-ALT_LIMIT <= zz[x as int] <= ALT_LIMIT);
            }
            let val: i64 = if m.boundary[x] {
                z[x]
            } else if receivers[x] == x {
                z[x] + uplift
            } else {
                let w = receivers[x];
                proof {
                    if k + 1 < path@.len() {
                        assert(chain_link(m, r, path@, k + 1));
                        assert(done@[path@[k + 1] as int]);
                    }
                    assert(done@[w as int]);
                    assert(zz[w as int] < zz[x as int]);
                    lemma_settled_bounds(m, zz, r, u, ff, w as int);
                }
                implicit_exec(z[x] + uplift, out[w], factors[x])
            };
            out.set(x, val);
            done.set(x, true);
        }
        proof {
            if path@.len() > 0 {
                assert(done@[path@[0] as int]);
            }
        }
        v = v + 1;
    }
    proof {
        assert forall|x: int| 0 <= x < n implies #[trigger] out@[x] == settled(m, zz, r, u, ff, x) by {
            assert(done@[x]);
        }
        assert(out@ =~= step_of(m, zz, r, u, ff));
        assert forall|x: int| 0 <= x < n implies -ALT_LIMIT <= #[trigger] out@[x] <= ALT_LIMIT by {
            assert(done@[x]);
            lemma_settled_bounds(m, zz, r, u, ff, x);
        }
        assert forall|x: int| 0 <= x < n implies #[trigger] out@[x] <= zz[x] + u
            && (m.boundary@[x] ==> out@[x] == zz[x])
            && (!terminal(m, r, x) ==> out@[r[x] as int] <= out@[x]) by {
            assert(done@[x]);
            lemma_settled_bounds(m, zz, r, u, ff, x);
            if !terminal(m, r, x) {
                assert(done@[r[x] as int]);
            }
        }
    }
    out
}


/// A boundary outlet keeps its altitude through one step.
proof fn lemma_step_keeps_boundary(m: &Mesh, z: Seq<i64>, r: Seq<usize>, uplift: int, f: Seq<u64>, v: int)
    requires
        step_inputs_ok(m, z, r, uplift, f),
        0 <= v < z.len(),
        m.boundary@[v],
    ensures
        step_of(m, z, r, uplift, f)[v] == z[v],
{
    lemma_settled_bounds(m, z, r, uplift, f, v);
}

/// Boundary outlets are a fixed base level: along any run of erosion steps,
/// each boundary vertex keeps the altitude it started with.
pub proof fn lemma_boundary_fixed(
    m: &Mesh,
    zs: Seq<Seq<i64>>,
    rs: Seq<Seq<usize>>,
    us: Seq<int>,
    fs: Seq<Seq<u64>>,
    i: int,
    v: int,
)
    requires
        zs.len() >= 1,
        rs.len() + 1 == zs.len(),
        us.len() + 1 == zs.len(),
        fs.len() + 1 == zs.len(),
        forall|k: int| 0 <= k < rs.len() ==> step_inputs_ok(m, #[trigger] zs[k], rs[k], us[k], fs[k]),
        forall|k: int| 0 <= k < rs.len() ==> zs[k + 1] == step_of(m, #[trigger] zs[k], rs[k], us[k], fs[k]),
        0 <= i < zs.len(),
        0 <= v < zs[0].len(),
        m.boundary@[v],
    ensures
        zs[i].len() == zs[0].len(),
        zs[i][v] == zs[0][v],
    decreases i,
{
    if i > 0 {
        lemma_boundary_fixed(m, zs, rs, us, fs, i - 1, v);
        let k = i - 1;
        assert(step_inputs_ok(m, zs[k], rs[k], us[k], fs[k]));
        lemma_step_keeps_boundary(m, zs[k], rs[k], us[k], fs[k], v);
    }
}

/// The landscape volume: the sum of the positive altitudes.
pub open spec fn volume(z: Seq<i64>) -> int
    decreases z.len(),
{
    if z.len() == 0 {
        0
    } else {
        volume(z.drop_last()) + if z.last() > 0 { z.last() as int } else { 0 }
    }
}

proof fn lemma_volume_monotone(a: Seq<i64>, b: Seq<i64>)
    requires
        a.len() == b.len(),
        forall|v: int| 0 <= v < a.len() ==> #[trigger] a[v] <= b[v],
    ensures
        volume(a) <= volume(b),
    decreases a.len(),
{
    if a.len() > 0 {
        assert forall|v: int| 0 <= v < a.drop_last().len() implies #[trigger] a.drop_last()[v] <= b.drop_last()[v] by {
            assert(a[v] <= b[v]);
        }
        lemma_volume_monotone(a.drop_last(), b.drop_last());
        assert(a.last() <= b.last());
    }
}

/// Without uplift, erosion cannot raise the terrain: no altitude grows, and
/// so the landscape volume does not grow either.
pub proof fn lemma_erosion_never_raises(m: &Mesh, z: Seq<i64>, r: Seq<usize>, f: Seq<u64>)
    requires
        step_inputs_ok(m, z, r, 0, f),
    ensures
        forall|v: int| 0 <= v < z.len() ==> #[trigger] step_of(m, z, r, 0, f)[v] <= z[v],
        volume(step_of(m, z, r, 0, f)) <= volume(z),
{
    let next = step_of(m, z, r, 0, f);
    assert forall|v: int| 0 <= v < z.len() implies #[trigger] next[v] <= z[v] by {
        lemma_settled_bounds(m, z, r, 0, f, v);
    }
    lemma_volume_monotone(next, z);
}

#[derive(Clone, Copy, Debug, PartialEq, Eq, Structural)]
pub enum SimulationError {
    /// The receivers, factors or uplift do not fit the mesh and altitudes.
    InvalidParameter,
    /// An altitude would leave the representable range.
    NumericalInstability,
}

/// The receivers, factors and uplift are usable for a step over `z`.
pub open spec fn step_parameters_ok(m: &Mesh, z: Seq<i64>, r: Seq<usize>, uplift: int, f: Seq<u64>) -> bool {
    &&& descending(z, r)
    &&& f.len() == z.len()
    &&& forall|v: int| 0 <= v < f.len() ==> #[trigger] f[v] <= MAX_FACTOR
    &&& 0 <= uplift
}

/// One simulation step with its inputs checked: fails with `InvalidParameter`
/// on receivers that do not descend or factors that do not fit, and with
/// `NumericalInstability` when uplift would carry an altitude out of range.
pub fn simulate_step(m: &Mesh, z: &Vec<i64>, receivers: &Vec<usize>, uplift: i64, factors: &Vec<u64>) -> (res: Result<Vec<i64>, SimulationError>)
    requires
        m.wf(),
        altitudes_ok(m, z@),
    ensures
        !step_parameters_ok(m, z@, receivers@, uplift as int, factors@)
            <==> res == Err::<Vec<i64>, SimulationError>(SimulationError::InvalidParameter),
        step_parameters_ok(m, z@, receivers@, uplift as int, factors@)
            ==> ((exists|v: int| 0 <= v < z@.len() && #[trigger] z@[v] + uplift > ALT_LIMIT)
                <==> res == Err::<Vec<i64>, SimulationError>(SimulationError::NumericalInstability)),
        res matches Ok(out) ==> step_inputs_ok(m, z@, receivers@, uplift as int, factors@)
            && out@ == step_of(m, z@, receivers@, uplift as int, factors@)
            && altitudes_ok(m, out@),
{
    let n = z.len();
    if receivers.len() != n || factors.len() != n || uplift < 0 {
        return Err(SimulationError::InvalidParameter);
    }
    let mut v: usize = 0;
    while v < n
        invariant
            n == z@.len(),
            n == receivers@.len(),
            n == factors@.len(),
            v <= n,
            forall|u: int| 0 <= u < v ==> (#[trigger] receivers@[u] as int) < n,
            forall|u: int| 0 <= u < v && receivers@[u] != u ==> z@[#[trigger] receivers@[u] as int] < z@[u],
            forall|u: int| 0 <= u < v ==> #[trigger] factors@[u] <= MAX_FACTOR,
        decreases n - v,
    {
        let w = receivers[v];
        if w >= n || (w != v && z[w] >= z[v]) || factors[v] > MAX_FACTOR {
            return Err(SimulationError::InvalidParameter);
        }
        v = v + 1;
    }
    assert(step_parameters_ok(m, z@, receivers@, uplift as int, factors@));
    let mut k: usize = 0;
    while k < n
        invariant
            n == z@.len(),
            altitudes_ok(m, z@),
            step_parameters_ok(m, z@, receivers@, uplift as int, factors@),
            0 <= uplift,
            k <= n,
            forall|u: int| 0 <= u < k ==> #[trigger] z@[u] + uplift <= ALT_LIMIT,
        decreases n - k,
    {
        assert(-ALT_LIMIT <= z@[k as int] <= ALT_LIMIT);
        if z[k] > ALT_LIMIT - uplift {
            return Err(SimulationError::NumericalInstability);
        }
        k = k + 1;
    }
    Ok(erosion_step(m, z, receivers, uplift, factors))
}


/// What the erosion law is asked about vertex `v`: its drainage area and the
/// squared distance to its receiver.
pub open spec fn law_args(m: &Mesh, z: Seq<i64>, r: Seq<usize>, v: int) -> (u64, u64) {
    (drainage_area(r, z, m.areas@, v) as u64, dist_sq(m.sites@[v], m.sites@[r[v] as int]) as u64)
}

/// `r` is the steepest-descent routing of `z`.
pub open spec fn receivers_of(m: &Mesh, z: Seq<i64>, r: Seq<usize>) -> bool {
    &&& r.len() == z.len()
    &&& forall|v: int| 0 <= v < z.len()
        ==> (#[trigger] r[v] as int) < z.len() && steepest_receiver(m, z, v, r[v] as int)
}

/// `f` holds the factors the law gave for routing `r` of `z`: zero where a
/// vertex sheds no flow, else an answer of the law, each within `MAX_FACTOR`.
pub open spec fn factors_from<F: Fn(u64, u64) -> u64>(m: &Mesh, z: Seq<i64>, r: Seq<usize>, law: F, f: Seq<u64>) -> bool {
    &&& f.len() == z.len()
    &&& forall|v: int| 0 <= v < z.len() ==> {
        &&& #[trigger] f[v] <= MAX_FACTOR
        &&& if terminal(m, r, v) { f[v] == 0 } else { law.ensures(law_args(m, z, r, v), f[v]) }
    }
}

/// Every altitude has room for one more uplift.
pub open spec fn headroom(z: Seq<i64>, uplift: int) -> bool {
    forall|v: int| 0 <= v < z.len() ==> #[trigger] z[v] + uplift <= ALT_LIMIT
}

/// `zs` is a run of the simulation: each field is one erosion step of the one
/// before, under the steepest-descent routing `rs[k]` and the factors `fs[k]`
/// that the law gave.
pub open spec fn run_of<F: Fn(u64, u64) -> u64>(
    m: &Mesh,
    law: F,
    uplift: int,
    zs: Seq<Seq<i64>>,
    rs: Seq<Seq<usize>>,
    fs: Seq<Seq<u64>>,
) -> bool {
    &&& zs.len() == rs.len() + 1
    &&& fs.len() == rs.len()
    &&& forall|k: int| 0 <= k < rs.len() ==> #[trigger] run_link(m, law, uplift, zs, rs, fs, k)
}

/// Step `k` of a run: field `k + 1` is the erosion step of field `k`.
pub open spec fn run_link<F: Fn(u64, u64) -> u64>(
    m: &Mesh,
    law: F,
    uplift: int,
    zs: Seq<Seq<i64>>,
    rs: Seq<Seq<usize>>,
    fs: Seq<Seq<u64>>,
    k: int,
) -> bool {
    &&& headroom(zs[k], uplift)
    &&& receivers_of(m, zs[k], rs[k])
    &&& factors_from(m, zs[k], rs[k], law, fs[k])
    &&& zs[k + 1] == step_of(m, zs[k], rs[k], uplift, fs[k])
}

/// Under routing `r` of `z`, the law answered `f`, above `MAX_FACTOR`, for
/// vertex `v`.
pub open spec fn exceeds_at<F: Fn(u64, u64) -> u64>(m: &Mesh, z: Seq<i64>, law: F, r: Seq<usize>, v: int, f: u64) -> bool {
    &&& receivers_of(m, z, r)
    &&& 0 <= v < z.len()
    &&& !terminal(m, r, v)
    &&& law.ensures(law_args(m, z, r, v), f)
    &&& f > MAX_FACTOR
}

pub open spec fn law_exceeds<F: Fn(u64, u64) -> u64>(m: &Mesh, z: Seq<i64>, law: F) -> bool {
    exists|r: Seq<usize>, v: int, f: u64| #[trigger] exceeds_at(m, z, law, r, v, f)
}

/// Runs `iterations` steps of uplift against stream-power erosion from `z0`.
/// Each step checks that every altitude has room for the uplift, routes flow
/// by steepest descent, accumulates drainage areas, asks
/// `erosion_law(area, squared_distance)` for the fixed-point factor
/// `K * A^m * dt / distance` of every vertex that drains to a receiver, and
/// solves the implicit update. The result is the last field of that run.
/// Fails with `InvalidParameter` on a negative uplift or a factor above
/// `MAX_FACTOR`, and with `NumericalInstability` when an altitude has no room
/// for the uplift.
pub fn generate<F: Fn(u64, u64) -> u64>(m: &Mesh, z0: &Vec<i64>, uplift: i64, iterations: u32, erosion_law: F) -> (res: Result<Vec<i64>, SimulationError>)
    requires
        m.wf(),
        altitudes_ok(m, z0@),
        forall|a: u64, d: u64| erosion_law.requires((a, d)),
    ensures
        uplift < 0 ==> res == Err::<Vec<i64>, SimulationError>(SimulationError::InvalidParameter),
        res matches Ok(z) ==> exists|zs: Seq<Seq<i64>>, rs: Seq<Seq<usize>>, fs: Seq<Seq<u64>>|
            #[trigger] run_of(m, erosion_law, uplift as int, zs, rs, fs)
            && zs[0] == z0@ && zs.len() == iterations + 1 && zs.last() == z@,
        res == Err::<Vec<i64>, SimulationError>(SimulationError::NumericalInstability) ==> uplift >= 0
            && exists|zs: Seq<Seq<i64>>, rs: Seq<Seq<usize>>, fs: Seq<Seq<u64>>|
            #[trigger] run_of(m, erosion_law, uplift as int, zs, rs, fs)
            && zs[0] == z0@ && zs.len() <= iterations && !headroom(zs.last(), uplift as int),
        res == Err::<Vec<i64>, SimulationError>(SimulationError::InvalidParameter) ==> uplift < 0
            || exists|zs: Seq<Seq<i64>>, rs: Seq<Seq<usize>>, fs: Seq<Seq<u64>>|
            #[trigger] run_of(m, erosion_law, uplift as int, zs, rs, fs)
            && zs[0] == z0@ && zs.len() <= iterations && headroom(zs.last(), uplift as int)
            && law_exceeds(m, zs.last(), erosion_law),
        (uplift >= 0
            && (forall|a: u64, d: u64, f: u64| erosion_law.ensures((a, d), f) ==> f <= MAX_FACTOR)
            && forall|v: int| 0 <= v < z0@.len() ==> #[trigger] z0@[v] + iterations * uplift <= ALT_LIMIT)
            ==> res is Ok,
        res matches Ok(z) ==> {
            &&& altitudes_ok(m, z@)
            &&& forall|v: int| 0 <= v < z@.len() && m.boundary@[v] ==> #[trigger] z@[v] == z0@[v]
            &&& uplift == 0 ==> forall|v: int| 0 <= v < z@.len() ==> #[trigger] z@[v] <= z0@[v]
            &&& uplift == 0 ==> volume(z@) <= volume(z0@)
        },
{
    if uplift < 0 {
        return Err(SimulationError::InvalidParameter);
    }
    let ghost enough = (forall|a: u64, d: u64, f: u64| erosion_law.ensures((a, d), f) ==> f <= MAX_FACTOR)
        && forall|v: int| 0 <= v < z0@.len() ==> #[trigger] z0@[v] + iterations * uplift <= ALT_LIMIT;
    let n = z0.len();
    let mut z: Vec<i64> = z0.clone();
    let ghost mut zs: Seq<Seq<i64>> = seq![z0@];
    let ghost mut rs: Seq<Seq<usize>> = Seq::empty();
    let ghost mut fs: Seq<Seq<u64>> = Seq::empty();
    let mut it: u32 = 0;
    while it < iterations
        invariant
            m.wf(),
            n == m.len(),
            altitudes_ok(m, z0@),
            altitudes_ok(m, z@),
            0 <= uplift,
            it <= iterations,
            forall|a: u64, d: u64| erosion_law.requires((a, d)),
            forall|v: int| 0 <= v < n && m.boundary@[v] ==> #[trigger] z@[v] == z0@[v],
            uplift == 0 ==> forall|v: int| 0 <= v < n ==> #[trigger] z@[v] <= z0@[v],
            forall|v: int| 0 <= v < n ==> #[trigger] z@[v] <= z0@[v] + it * uplift,
            enough == ((forall|a: u64, d: u64, f: u64| erosion_law.ensures((a, d), f) ==> f <= MAX_FACTOR)
                && forall|v: int| 0 <= v < z0@.len() ==> #[trigger] z0@[v] + iterations * uplift <= ALT_LIMIT),
            run_of(m, erosion_law, uplift as int, zs, rs, fs),
            zs.len() == it + 1,
            zs[0] == z0@,
            zs.last() == z@,
        decreases iterations - it,
    {
        let mut k: usize = 0;
        while k < n
            invariant
                n == z@.len(),
                altitudes_ok(m, z@),
                0 <= uplift,
                k <= n,
                run_of(m, erosion_law, uplift as int, zs, rs, fs),
                zs.len() == it + 1,
                zs[0] == z0@,
                zs.last() == z@,
                it < iterations,
                enough == ((forall|a: u64, d: u64, f: u64| erosion_law.ensures((a, d), f) ==> f <= MAX_FACTOR)
                    && forall|v: int| 0 <= v < z0@.len() ==> #[trigger] z0@[v] + iterations * uplift <= ALT_LIMIT),
                forall|v: int| 0 <= v < n ==> #[trigger] z@[v] <= z0@[v] + it * uplift,
                z0@.len() == n,
                forall|u: int| 0 <= u < k ==> #[trigger] z@[u] + uplift <= ALT_LIMIT,
            decreases n - k,
        {
            assert(-ALT_LIMIT <= z@[k as int] <= ALT_LIMIT);
            if z[k] > ALT_LIMIT - uplift {
                proof {
                    assert(!headroom(zs.last(), uplift as int));
                    assert(run_of(m, erosion_law, uplift as int, zs, rs, fs));
                    if enough {
                        assert(z0@[k as int] + iterations * uplift <= ALT_LIMIT);
                        assert(it * uplift + uplift <= iterations * uplift) by (nonlinear_arith)
                            requires it < iterations, 0 <= uplift;
                    }
                }
                return Err(SimulationError::NumericalInstability);
            }
            k = k + 1;
        }
        let receivers = route_flow(m, &z);
        let areas = accumulate_drainage(m, &z, &receivers);
        proof {
            assert(headroom(z@, uplift as int));
            assert(receivers_of(m, z@, receivers@));
        }
        let mut factors: Vec<u64> = Vec::with_capacity(n);
        let mut v: usize = 0;
        while v < n
            invariant
                m.wf(),
                n == m.len(),
                altitudes_ok(m, z@),
                receivers@.len() == n,
                areas@.len() == n,
                v <= n,
                factors@.len() == v,
                0 <= uplift,
                headroom(z@, uplift as int),
                receivers_of(m, z@, receivers@),
                run_of(m, erosion_law, uplift as int, zs, rs, fs),
                zs.len() == it + 1,
                zs[0] == z0@,
                zs.last() == z@,
                it < iterations,
                enough == ((forall|a: u64, d: u64, f: u64| erosion_law.ensures((a, d), f) ==> f <= MAX_FACTOR)
                    && forall|v: int| 0 <= v < z0@.len() ==> #[trigger] z0@[v] + iterations * uplift <= ALT_LIMIT),
                forall|v: int| 0 <= v < n ==> #[trigger] z@[v] <= z0@[v] + it * uplift,
                z0@.len() == n,

                forall|a: u64, d: u64| erosion_law.requires((a, d)),
                forall|u: int| 0 <= u < n ==> (#[trigger] receivers@[u] as int) < n,
                forall|x: int| 0 <= x < m.len()
                    ==> #[trigger] areas@[x] == drainage_area(receivers@, z@, m.areas@, x),
                forall|u: int| 0 <= u < v ==> {
                    &&& #[trigger] factors@[u] <= MAX_FACTOR
                    &&& if terminal(m, receivers@, u) { factors@[u] == 0 }
                        else { erosion_law.ensures(law_args(m, z@, receivers@, u), factors@[u]) }
                },
            decreases n - v,
        {
            let w = receivers[v];
            let mut f: u64 = 0;
            if !(m.boundary[v] || w == v) {
                let (_, d) = drop_and_dist(m, &z, v, w);
                f = erosion_law(areas[v], d as u64);
                assert(law_args(m, z@, receivers@, v as int) == (areas[v as int], d as u64));
                if f > MAX_FACTOR {
                    proof {
                        assert(exceeds_at(m, z@, erosion_law, receivers@, v as int, f));
                        assert(law_exceeds(m, zs.last(), erosion_law));
                        if enough {
                            assert(erosion_law.ensures((areas[v as int], d as u64), f));
                        }
                    }
                    return Err(SimulationError::InvalidParameter);
                }
            }
            factors.push(f);
            v = v + 1;
        }
        proof {
            assert(factors_from(m, z@, receivers@, erosion_law, factors@));
        }
        let out = erosion_step(m, &z, &receivers, uplift, &factors);
        proof {
            if uplift == 0 {
                lemma_erosion_never_raises(m, z@, receivers@, factors@);
            }
            assert forall|u: int| 0 <= u < n && m.boundary@[u] implies #[trigger] out@[u] == z0@[u] by {
                lemma_step_keeps_boundary(m, z@, receivers@, uplift as int, factors@, u);
            }
            assert forall|u: int| 0 <= u < n implies #[trigger] out@[u] <= z0@[u] + (it + 1) * uplift by {
                assert(z@[u] <= z0@[u] + it * uplift);
                assert((it + 1) * uplift == it * uplift + uplift) by (nonlinear_arith);
            }
            let zs2 = zs.push(out@);
            let rs2 = rs.push(receivers@);
            let fs2 = fs.push(factors@);
            lemma_run_extend(m, erosion_law, uplift as int, zs, rs, fs, out@, receivers@, factors@);
            zs = zs2;
            rs = rs2;
            fs = fs2;
        }
        z = out;
        it = it + 1;
    }
    proof {
        if uplift == 0 {
            lemma_volume_monotone(z@, z0@);
        }
        assert(run_of(m, erosion_law, uplift as int, zs, rs, fs));
    }
    Ok(z)
}

/// A run extended by one more step is still a run.
proof fn lemma_run_extend<F: Fn(u64, u64) -> u64>(
    m: &Mesh,
    law: F,
    uplift: int,
    zs: Seq<Seq<i64>>,
    rs: Seq<Seq<usize>>,
    fs: Seq<Seq<u64>>,
    next: Seq<i64>,
    r: Seq<usize>,
    f: Seq<u64>,
)
    requires
        run_of(m, law, uplift, zs, rs, fs),
        headroom(zs.last(), uplift),
        receivers_of(m, zs.last(), r),
        factors_from(m, zs.last(), r, law, f),
        next == step_of(m, zs.last(), r, uplift, f),
    ensures
        run_of(m, law, uplift, zs.push(next), rs.push(r), fs.push(f)),
{
    let zs2 = zs.push(next);
    let rs2 = rs.push(r);
    let fs2 = fs.push(f);
    assert forall|j: int| 0 <= j < rs2.len() implies #[trigger] run_link(m, law, uplift, zs2, rs2, fs2, j) by {
        if j < rs.len() {
            assert(zs2[j] == zs[j] && rs2[j] == rs[j] && fs2[j] == fs[j] && zs2[j + 1] == zs[j + 1]);
            assert(run_link(m, law, uplift, zs, rs, fs, j));
        } else {
            assert(zs2[j] == zs.last() && rs2[j] == r && fs2[j] == f && zs2[j + 1] == next);
        }
    }
}

/// A law that gives one answer for each pair of arguments.
pub open spec fn law_functional<F: Fn(u64, u64) -> u64>(law: F) -> bool {
    forall|args: (u64, u64), f1: u64, f2: u64| law.ensures(args, f1) && law.ensures(args, f2) ==> f1 == f2
}

/// Under a law that answers one value per argument, two runs from the same
/// field agree step for step: a longer run continues a shorter one, so runs
/// of different lengths can be compared.
pub proof fn lemma_runs_agree<F: Fn(u64, u64) -> u64>(
    m: &Mesh,
    law: F,
    uplift: int,
    zs1: Seq<Seq<i64>>,
    rs1: Seq<Seq<usize>>,
    fs1: Seq<Seq<u64>>,
    zs2: Seq<Seq<i64>>,
    rs2: Seq<Seq<usize>>,
    fs2: Seq<Seq<u64>>,
    k: int,
)
    requires
        m.wf(),
        law_functional(law),
        0 <= uplift,
        altitudes_ok(m, zs1[0]),
        run_of(m, law, uplift, zs1, rs1, fs1),
        run_of(m, law, uplift, zs2, rs2, fs2),
        zs1[0] == zs2[0],
        0 <= k < zs1.len(),
        k < zs2.len(),
    ensures
        zs1[k] == zs2[k],
    decreases k,
{
    if k > 0 {
        let j = k - 1;
        lemma_runs_agree(m, law, uplift, zs1, rs1, fs1, zs2, rs2, fs2, j);
        lemma_run_altitudes_ok(m, law, uplift, zs1, rs1, fs1, j);
        assert(run_link(m, law, uplift, zs1, rs1, fs1, j));
        assert(run_link(m, law, uplift, zs2, rs2, fs2, j));
        let z = zs1[j];
        assert forall|v: int| 0 <= v < z.len() implies rs1[j][v] == rs2[j][v] by {
            assert(steepest_receiver(m, z, v, rs1[j][v] as int));
            assert(steepest_receiver(m, z, v, rs2[j][v] as int));
            lemma_receiver_unique(m, z, v, rs1[j][v] as int, rs2[j][v] as int);
        }
        assert(rs1[j] =~= rs2[j]);
        assert forall|v: int| 0 <= v < z.len() implies fs1[j][v] == fs2[j][v] by {
            assert(fs1[j][v] <= MAX_FACTOR && fs2[j][v] <= MAX_FACTOR);
            if !terminal(m, rs1[j], v) {
                assert(law.ensures(law_args(m, z, rs1[j], v), fs1[j][v]));
                assert(law.ensures(law_args(m, z, rs1[j], v), fs2[j][v]));
            }
        }
        assert(fs1[j] =~= fs2[j]);
    }
}

/// Without uplift, no altitude rises along a run, so the landscape volume
/// after more steps is at most the volume after fewer.
pub proof fn lemma_run_never_raises<F: Fn(u64, u64) -> u64>(
    m: &Mesh,
    law: F,
    zs: Seq<Seq<i64>>,
    rs: Seq<Seq<usize>>,
    fs: Seq<Seq<u64>>,
    i: int,
    j: int,
)
    requires
        m.wf(),
        run_of(m, law, 0, zs, rs, fs),
        altitudes_ok(m, zs[0]),
        0 <= i <= j < zs.len(),
    ensures
        zs[j].len() == zs[i].len(),
        forall|v: int| 0 <= v < zs[i].len() ==> #[trigger] zs[j][v] <= zs[i][v],
        volume(zs[j]) <= volume(zs[i]),
    decreases j - i,
{
    lemma_run_altitudes_ok(m, law, 0, zs, rs, fs, j);
    if i < j {
        lemma_run_never_raises(m, law, zs, rs, fs, i, j - 1);
        let k = j - 1;
        assert(run_link(m, law, 0, zs, rs, fs, k));
        lemma_run_altitudes_ok(m, law, 0, zs, rs, fs, k);
        lemma_step_inputs(m, zs[k], rs[k], 0, fs[k]);
        lemma_erosion_never_raises(m, zs[k], rs[k], fs[k]);
        assert forall|v: int| 0 <= v < zs[i].len() implies #[trigger] zs[j][v] <= zs[i][v] by {
            assert(zs[j][v] <= zs[k][v]);
        }
    }
    lemma_volume_monotone(zs[j], zs[i]);
}

/// Pure erosion: of two runs from the same field under the same law, the
/// longer ends no higher anywhere, and with no more volume, than the shorter.
pub proof fn lemma_longer_run_lower<F: Fn(u64, u64) -> u64>(
    m: &Mesh,
    law: F,
    zs1: Seq<Seq<i64>>,
    rs1: Seq<Seq<usize>>,
    fs1: Seq<Seq<u64>>,
    zs2: Seq<Seq<i64>>,
    rs2: Seq<Seq<usize>>,
    fs2: Seq<Seq<u64>>,
)
    requires
        m.wf(),
        law_functional(law),
        altitudes_ok(m, zs1[0]),
        run_of(m, law, 0, zs1, rs1, fs1),
        run_of(m, law, 0, zs2, rs2, fs2),
        zs1[0] == zs2[0],
        zs1.len() <= zs2.len(),
    ensures
        forall|v: int| 0 <= v < zs1.last().len() ==> #[trigger] zs2.last()[v] <= zs1.last()[v],
        volume(zs2.last()) <= volume(zs1.last()),
{
    let k = zs1.len() - 1;
    lemma_runs_agree(m, law, 0, zs1, rs1, fs1, zs2, rs2, fs2, k);
    lemma_run_never_raises(m, law, zs2, rs2, fs2, k, zs2.len() - 1);
}

proof fn lemma_step_inputs(m: &Mesh, z: Seq<i64>, r: Seq<usize>, uplift: int, f: Seq<u64>)
    requires
        m.wf(),
        altitudes_ok(m, z),
        receivers_of(m, z, r),
        f.len() == z.len(),
        forall|v: int| 0 <= v < z.len() ==> #[trigger] f[v] <= MAX_FACTOR,
        headroom(z, uplift),
        0 <= uplift,
    ensures
        step_inputs_ok(m, z, r, uplift, f),
{
    assert forall|v: int| 0 <= v < r.len() && r[v] != v implies z[#[trigger] r[v] as int] < z[v] by {
        assert(steepest_receiver(m, z, v, r[v] as int));
    }
}

/// Every field of a run stays within the altitude limits.
proof fn lemma_run_altitudes_ok<F: Fn(u64, u64) -> u64>(
    m: &Mesh,
    law: F,
    uplift: int,
    zs: Seq<Seq<i64>>,
    rs: Seq<Seq<usize>>,
    fs: Seq<Seq<u64>>,
    k: int,
)
    requires
        m.wf(),
        0 <= uplift,
        run_of(m, law, uplift, zs, rs, fs),
        altitudes_ok(m, zs[0]),
        0 <= k < zs.len(),
    ensures
        altitudes_ok(m, zs[k]),
    decreases k,
{
    if k > 0 {
        let j = k - 1;
        lemma_run_altitudes_ok(m, law, uplift, zs, rs, fs, j);
        assert(run_link(m, law, uplift, zs, rs, fs, j));
        lemma_step_inputs(m, zs[j], rs[j], uplift, fs[j]);
        assert forall|v: int| 0 <= v < zs[k].len() implies -ALT_LIMIT <= #[trigger] zs[k][v] <= ALT_LIMIT by {
            lemma_settled_bounds(m, zs[j], rs[j], uplift, fs[j], v);
        }
    }
}

} // verus!
