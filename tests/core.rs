use terrain_canvas::drainage::accumulate_drainage;
use terrain_canvas::erosion::{erosion_step, generate, simulate_step, SimulationError, FACTOR_ONE, MAX_FACTOR};
use terrain_canvas::flow::{route_flow, ALT_LIMIT};
use terrain_canvas::mesh::{BoundingBox, Mesh, MeshError, Site};
use terrain_canvas::pixels::rgba_from_rgb;
use terrain_canvas::raster::{sample_nearest, sample_values, value_bounds, RasterError, Span};

fn site(x: i64, y: i64) -> Site {
    Site { x, y }
}

fn square_box() -> BoundingBox {
    BoundingBox { min_x: 0, min_y: 0, max_x: 1000, max_y: 1000 }
}

/// Four boundary corners around one interior centre vertex.
fn square_mesh() -> Mesh {
    let sites = vec![site(0, 0), site(1000, 0), site(0, 1000), site(1000, 1000), site(500, 500)];
    let neighbors = vec![vec![1, 2, 4], vec![0, 3, 4], vec![0, 3, 4], vec![1, 2, 4], vec![0, 1, 2, 3]];
    let boundary = vec![true, true, true, true, false];
    let areas = vec![10, 10, 10, 10, 40];
    Mesh::new(sites, square_box(), neighbors, boundary, areas).unwrap()
}

/// A chain 2 -> 1 -> 0 draining to a boundary outlet, beside a second outlet,
/// with two raised outlets closing off vertex 2.
fn chain_mesh() -> Mesh {
    let sites = vec![site(0, 0), site(100, 0), site(200, 0), site(0, 100), site(200, 100), site(300, 0)];
    let neighbors = vec![vec![1, 3], vec![0, 2, 3], vec![1, 4, 5], vec![0, 1], vec![2], vec![2]];
    let boundary = vec![true, false, false, true, true, true];
    let areas = vec![1, 2, 3, 4, 5, 6];
    Mesh::new(sites, square_box(), neighbors, boundary, areas).unwrap()
}

#[test]
fn rgba_packing_appends_opaque_alpha() {
    let out = rgba_from_rgb(&vec![[1, 2, 3], [250, 30, 7]]);
    assert_eq!(out, vec![1, 2, 3, 255, 250, 30, 7, 255]);
    assert!(rgba_from_rgb(&vec![]).is_empty());
}

#[test]
fn mesh_keeps_vertex_count() {
    let m = square_mesh();
    assert_eq!(m.sites.len(), 5);
    assert_eq!(m.neighbors.len(), 5);
}

#[test]
fn mesh_rejects_site_outside_bounds() {
    let sites = vec![site(0, 0), site(1000, 0), site(0, 1001)];
    let r = Mesh::new(sites, square_box(), vec![vec![], vec![], vec![]], vec![true; 3], vec![1; 3]);
    assert_eq!(r.err(), Some(MeshError::OutOfBounds));
}

#[test]
fn mesh_rejects_collinear_sites() {
    let sites = vec![site(0, 0), site(10, 10), site(20, 20), site(30, 30)];
    let r = Mesh::new(sites, square_box(), vec![vec![]; 4], vec![true; 4], vec![1; 4]);
    assert_eq!(r.err(), Some(MeshError::InvalidGeometry));
}

#[test]
fn mesh_rejects_too_few_sites() {
    let sites = vec![site(0, 0), site(10, 0)];
    let r = Mesh::new(sites, square_box(), vec![vec![1], vec![0]], vec![true; 2], vec![1; 2]);
    assert_eq!(r.err(), Some(MeshError::InvalidGeometry));
}

#[test]
fn mesh_rejects_bad_adjacency() {
    let sites = vec![site(0, 0), site(10, 0), site(0, 10)];
    let self_loop = Mesh::new(sites.clone(), square_box(), vec![vec![0], vec![], vec![]], vec![true; 3], vec![1; 3]);
    assert_eq!(self_loop.err(), Some(MeshError::InvalidGeometry));
    let dangling = Mesh::new(sites, square_box(), vec![vec![3], vec![], vec![]], vec![true; 3], vec![1; 3]);
    assert_eq!(dangling.err(), Some(MeshError::InvalidGeometry));
}

#[test]
fn flow_ties_go_to_lowest_index() {
    let m = square_mesh();
    let r = route_flow(&m, &vec![0, 0, 0, 0, 100]);
    assert_eq!(r, vec![0, 1, 2, 3, 0]);
}

#[test]
fn flow_prefers_steepest_neighbour() {
    let m = chain_mesh();
    let r = route_flow(&m, &vec![0, 10, 20, 0, 50, 50]);
    assert_eq!(r, vec![0, 0, 1, 3, 4, 5]);
    // with the direct outlet raised, the diagonal one is the only way down
    let r3 = route_flow(&m, &vec![15, 10, 20, 0, 50, 50]);
    assert_eq!(r3, vec![0, 3, 1, 3, 4, 5]);
}

#[test]
fn flow_sink_is_its_own_receiver() {
    let m = chain_mesh();
    let r = route_flow(&m, &vec![50, 10, 20, 50, 50, 50]);
    assert_eq!(r[1], 1);
    assert_eq!(r[2], 1);
}

#[test]
fn drainage_sums_upstream_cells() {
    let m = chain_mesh();
    let z = vec![0, 10, 20, 0, 50, 50];
    let r = route_flow(&m, &z);
    let a = accumulate_drainage(&m, &z, &r);
    assert_eq!(a, vec![6, 5, 3, 4, 5, 6]);
    for v in 0..6 {
        assert!(a[v] >= m.areas[v]);
        if r[v] != v {
            assert!(a[v] < a[r[v]]);
        }
    }
}

#[test]
fn drainage_on_square() {
    let m = square_mesh();
    let z = vec![0, 0, 0, 0, 100];
    let r = route_flow(&m, &z);
    assert_eq!(accumulate_drainage(&m, &z, &r), vec![50, 10, 10, 10, 40]);
}

#[test]
fn erosion_solves_receivers_first() {
    let m = chain_mesh();
    let z = vec![0, 10, 20, 0, 50, 50];
    let r = route_flow(&m, &z);
    let f = vec![FACTOR_ONE; 6];
    // vertex 1: (10 + 0) / 2 = 5; vertex 2 against the new 5: (20 + 5) / 2 = 12
    assert_eq!(erosion_step(&m, &z, &r, 0, &f), vec![0, 5, 12, 0, 50, 50]);
}

#[test]
fn erosion_with_uplift() {
    let m = square_mesh();
    let z = vec![0, 0, 0, 0, 100];
    let r = route_flow(&m, &z);
    let f = vec![FACTOR_ONE; 5];
    // (100 + 5) / 2 rounded down
    assert_eq!(erosion_step(&m, &z, &r, 5, &f), vec![0, 0, 0, 0, 52]);
    let none = vec![0; 5];
    assert_eq!(erosion_step(&m, &z, &r, 5, &none), vec![0, 0, 0, 0, 105]);
}

#[test]
fn sink_only_rises_by_uplift() {
    let m = chain_mesh();
    let z = vec![50, 10, 20, 50, 50, 50];
    let r = route_flow(&m, &z);
    let f = vec![FACTOR_ONE; 6];
    // 1 is a sink: 10 + 3; 2 drains to it: (23 + 13) / 2
    assert_eq!(erosion_step(&m, &z, &r, 3, &f), vec![50, 13, 18, 50, 50, 50]);
}

#[test]
fn boundary_stays_fixed_over_many_steps() {
    let m = chain_mesh();
    let mut z = vec![-7, 10, 20, 3, 60, 60];
    for _ in 0..25 {
        let r = route_flow(&m, &z);
        let a = accumulate_drainage(&m, &z, &r);
        let f: Vec<u64> = a.iter().map(|x| x * FACTOR_ONE / 8).collect();
        z = simulate_step(&m, &z, &r, 4, &f).unwrap();
        assert_eq!(z[0], -7);
        assert_eq!(z[3], 3);
        assert_eq!(z[4], 60);
        assert_eq!(z[5], 60);
    }
}

#[test]
fn pure_erosion_never_raises_volume() {
    let m = square_mesh();
    let mut z = vec![0, 0, 0, 0, 1000];
    let volume = |z: &Vec<i64>| z.iter().filter(|x| **x > 0).sum::<i64>();
    for _ in 0..10 {
        let r = route_flow(&m, &z);
        let f = vec![FACTOR_ONE / 2; 5];
        let next = simulate_step(&m, &z, &r, 0, &f).unwrap();
        assert!(volume(&next) <= volume(&z));
        for v in 0..5 {
            assert!(next[v] <= z[v]);
        }
        z = next;
    }
    assert!(z[4] < 1000);
}

#[test]
fn simulate_step_reports_bad_parameters() {
    let m = chain_mesh();
    let z = vec![0, 10, 20, 0, 50, 50];
    let r = route_flow(&m, &z);
    let f = vec![FACTOR_ONE; 6];
    assert_eq!(simulate_step(&m, &z, &r, -1, &f), Err(SimulationError::InvalidParameter));
    assert_eq!(simulate_step(&m, &z, &r, 0, &vec![FACTOR_ONE; 3]), Err(SimulationError::InvalidParameter));
    assert_eq!(simulate_step(&m, &z, &vec![0, 2, 1, 3, 4, 5], 0, &f), Err(SimulationError::InvalidParameter));
    assert_eq!(simulate_step(&m, &z, &r, 0, &vec![u64::MAX; 6]), Err(SimulationError::InvalidParameter));
}

#[test]
fn simulate_step_reports_instability() {
    let m = chain_mesh();
    let z = vec![0, 10, ALT_LIMIT - 1, 0, 50, 50];
    let r = route_flow(&m, &z);
    let f = vec![FACTOR_ONE; 6];
    assert_eq!(simulate_step(&m, &z, &r, 2, &f), Err(SimulationError::NumericalInstability));
    assert!(simulate_step(&m, &z, &r, 1, &f).is_ok());
}

#[test]
fn raster_two_by_two_picks_nearest_sites() {
    let m = square_mesh();
    let xs = Span { lo: 0, hi: 1000 };
    let ys = Span { lo: 0, hi: 1000 };
    let grid = sample_nearest(&m, xs, ys, 2, 2).unwrap();
    assert_eq!(grid, vec![0, 1, 2, 3]);
    let grid3 = sample_nearest(&m, xs, ys, 3, 3).unwrap();
    assert_eq!(grid3.len(), 9);
    assert_eq!(grid3[4], 4);
}

#[test]
fn raster_rejects_degenerate_ranges() {
    let m = square_mesh();
    let xs = Span { lo: 0, hi: 1000 };
    let flat = Span { lo: 5, hi: 5 };
    assert_eq!(sample_nearest(&m, flat, xs, 2, 2).err(), Some(RasterError::DegenerateRange));
    assert_eq!(sample_nearest(&m, xs, xs, 0, 2).err(), Some(RasterError::DegenerateRange));
}

#[test]
fn raster_rejects_empty_field() {
    let empty = Mesh { sites: vec![], neighbors: vec![], boundary: vec![], areas: vec![] };
    let xs = Span { lo: 0, hi: 1000 };
    assert_eq!(sample_nearest(&empty, xs, xs, 2, 2).err(), Some(RasterError::EmptyField));
}

#[test]
fn value_bounds_of_field() {
    assert_eq!(value_bounds(&vec![3, -2, 9, 0]), Some((-2, 9)));
    assert_eq!(value_bounds(&vec![]), None);
}

fn gray(weight: f64) -> [u8; 3] {
    let c = (weight * 220.0 + 30.0) as u8;
    [c, c, c]
}

fn weight(v: i64, lo: i64, hi: i64) -> f64 {
    if hi == lo { 0.0 } else { (v - lo) as f64 / (hi - lo) as f64 }
}

#[test]
fn constant_field_renders_one_colour() {
    let m = square_mesh();
    let values = vec![42; 5];
    let xs = Span { lo: 0, hi: 1000 };
    let grid = sample_nearest(&m, xs, xs, 4, 3).unwrap();
    let shown = sample_values(&values, &grid);
    let (lo, hi) = value_bounds(&values).unwrap();
    let colours: Vec<[u8; 3]> = shown.iter().map(|v| gray(weight(*v, lo, hi))).collect();
    assert_eq!(colours.len(), 12);
    for c in &colours {
        assert_eq!(*c, gray(weight(42, lo, hi)));
    }
}

#[test]
fn two_by_two_terrain_colours_in_range() {
    let m = square_mesh();
    let mut z = vec![0, 0, 0, 0, 0];
    for _ in 0..5 {
        let r = route_flow(&m, &z);
        let a = accumulate_drainage(&m, &z, &r);
        let f: Vec<u64> = a.iter().map(|x| x * FACTOR_ONE / 100).collect();
        z = simulate_step(&m, &z, &r, 50, &f).unwrap();
    }
    assert_eq!(&z[..4], &[0, 0, 0, 0]);
    let xs = Span { lo: 0, hi: 1000 };
    let grid = sample_nearest(&m, xs, xs, 2, 2).unwrap();
    let shown = sample_values(&z, &grid);
    let (lo, hi) = value_bounds(&z).unwrap();
    let colours: Vec<[u8; 3]> = shown.iter().map(|v| gray(weight(*v, lo, hi))).collect();
    assert_eq!(colours.len(), 4);
    for c in &colours {
        assert!(c[0] >= 30 && c[0] <= 250);
    }
    assert_eq!(rgba_from_rgb(&colours).len(), 16);
}

#[test]
fn generate_rejects_negative_uplift() {
    let m = chain_mesh();
    let r = generate(&m, &vec![0, 10, 20, 0, 50, 50], -1, 3, |_a: u64, _d: u64| FACTOR_ONE);
    assert_eq!(r, Err(SimulationError::InvalidParameter));
}

#[test]
fn generate_without_iterations_keeps_field() {
    let m = chain_mesh();
    let z = vec![0, 10, 20, 0, 50, 50];
    assert_eq!(generate(&m, &z, 4, 0, |_a: u64, _d: u64| FACTOR_ONE), Ok(z));
}

#[test]
fn generate_one_iteration_matches_step() {
    let m = chain_mesh();
    let z = vec![0, 10, 20, 0, 50, 50];
    assert_eq!(generate(&m, &z, 0, 1, |_a: u64, _d: u64| FACTOR_ONE), Ok(vec![0, 5, 12, 0, 50, 50]));
}

#[test]
fn generate_passes_area_and_distance_to_law() {
    let m = chain_mesh();
    let z = vec![0, 10, 20, 0, 50, 50];
    // drainage areas 5 and 3, squared receiver distances 10000: factor 1/2 for vertex 1, 0 for 2
    let law = |a: u64, d: u64| if a == 5 && d == 10000 { FACTOR_ONE } else { 0 };
    assert_eq!(generate(&m, &z, 0, 1, law), Ok(vec![0, 5, 20, 0, 50, 50]));
}

#[test]
fn generate_rejects_oversized_factor() {
    let m = chain_mesh();
    let r = generate(&m, &vec![0, 10, 20, 0, 50, 50], 0, 2, |_a: u64, _d: u64| MAX_FACTOR + 1);
    assert_eq!(r, Err(SimulationError::InvalidParameter));
}

#[test]
fn generate_reports_instability() {
    let m = chain_mesh();
    let r = generate(&m, &vec![0, 10, ALT_LIMIT, 0, 50, 50], 1, 1, |_a: u64, _d: u64| 0);
    assert_eq!(r, Err(SimulationError::NumericalInstability));
}

#[test]
fn generate_stream_power_scenario() {
    let m = square_mesh();
    let z0 = vec![0, 0, 0, 0, 0];
    let law = |a: u64, d: u64| {
        let f = 5.61e-7 * (a as f64).powf(0.5) * 1000.0 / (d as f64).sqrt();
        (f * FACTOR_ONE as f64) as u64
    };
    let z = generate(&m, &z0, 500, 20, law).unwrap();
    assert_eq!(&z[..4], &z0[..4]);
    assert!(z[4] > 0 && z[4] <= 500 * 20);
}

#[test]
fn generate_pure_erosion_lowers_terrain() {
    let m = chain_mesh();
    let z0 = vec![0, 400, 900, 0, 1000, 1000];
    let z = generate(&m, &z0, 0, 6, |a: u64, _d: u64| a * FACTOR_ONE / 4).unwrap();
    assert_eq!(z[0], 0);
    assert_eq!(z[3], 0);
    assert!(z[1] < 400 && z[2] < 900);
    assert_eq!(z[4], 1000);
    assert!(z.iter().filter(|x| **x > 0).sum::<i64>() < 3300);
}

#[test]
fn mesh_rejects_disconnected_adjacency() {
    let sites = vec![site(0, 0), site(10, 0), site(0, 10), site(10, 10)];
    let r = Mesh::new(sites, square_box(), vec![vec![1], vec![0], vec![3], vec![2]], vec![true; 4], vec![1; 4]);
    assert_eq!(r.err(), Some(MeshError::InvalidGeometry));
}

#[test]
fn mesh_rejects_one_way_adjacency() {
    let sites = vec![site(0, 0), site(10, 0), site(0, 10), site(10, 10)];
    let r = Mesh::new(sites, square_box(), vec![vec![1], vec![2], vec![3], vec![]], vec![true; 4], vec![1; 4]);
    assert_eq!(r.err(), Some(MeshError::InvalidGeometry));
}

#[test]
fn mesh_accepts_mutual_spanning_adjacency() {
    let sites = vec![site(0, 0), site(10, 0), site(0, 10), site(10, 10)];
    let nbrs = vec![vec![1], vec![0, 2], vec![1, 3], vec![2]];
    let r = Mesh::new(sites, square_box(), nbrs, vec![true; 4], vec![1; 4]);
    assert_eq!(r.map(|m| m.sites.len()).ok(), Some(4));
}

#[test]
fn mesh_rejects_low_interior_degree() {
    let sites = vec![site(0, 0), site(10, 0), site(0, 10), site(10, 10)];
    let nbrs = vec![vec![1], vec![0, 2], vec![1, 3], vec![2]];
    let r = Mesh::new(sites, square_box(), nbrs, vec![true, false, true, true], vec![1; 4]);
    assert_eq!(r.err(), Some(MeshError::InvalidGeometry));
}

#[test]
fn mesh_rejects_duplicate_sites() {
    let sites = vec![site(0, 0), site(10, 0), site(0, 10), site(0, 0)];
    let nbrs = vec![vec![1], vec![0, 2], vec![1, 3], vec![2]];
    let r = Mesh::new(sites, square_box(), nbrs, vec![true; 4], vec![1; 4]);
    assert_eq!(r.err(), Some(MeshError::InvalidGeometry));
}

fn brute_nearest(sites: &[Site], xs: Span, ys: Span, w: i128, h: i128, px: i128, py: i128) -> usize {
    let cx = 2 * xs.lo as i128 * w + (2 * px + 1) * (xs.hi - xs.lo) as i128;
    let cy = 2 * ys.lo as i128 * h + (2 * py + 1) * (ys.hi - ys.lo) as i128;
    let mut best = 0;
    let mut best_d = i128::MAX;
    for (i, s) in sites.iter().enumerate() {
        let dx = cx - 2 * w * s.x as i128;
        let dy = cy - 2 * h * s.y as i128;
        let d = dx * dx * h * h + dy * dy * w * w;
        if d < best_d {
            best = i;
            best_d = d;
        }
    }
    best
}

#[test]
fn raster_search_matches_full_scan() {
    let n: i64 = 40;
    let sites: Vec<Site> = (0..n).map(|i| site((i * 37) % 1000, (i * 91 + 13) % 1000)).collect();
    let neighbors: Vec<Vec<usize>> = (0..n as usize)
        .map(|i| if i == 0 { vec![1] } else if i + 1 < n as usize { vec![i - 1, i + 1] } else { vec![i - 1] })
        .collect();
    let m = Mesh::new(sites.clone(), square_box(), neighbors, vec![true; 40], vec![1; 40]).unwrap();
    let xs = Span { lo: 0, hi: 1000 };
    let ys = Span { lo: -200, hi: 900 };
    let (w, h) = (17u32, 11u32);
    let grid = sample_nearest(&m, xs, ys, w, h).unwrap();
    assert_eq!(grid.len(), (w * h) as usize);
    for py in 0..h {
        for px in 0..w {
            let expected = brute_nearest(&sites, xs, ys, w as i128, h as i128, px as i128, py as i128);
            assert_eq!(grid[(py * w + px) as usize], expected);
        }
    }
}

#[test]
fn generate_succeeds_with_room_and_bounded_law() {
    let m = square_mesh();
    let z = generate(&m, &vec![0; 5], 1, 10, |_a: u64, _d: u64| 0).unwrap();
    assert_eq!(z, vec![0, 0, 0, 0, 10]);
}

#[test]
fn generate_longer_pure_erosion_run_is_lower() {
    let m = chain_mesh();
    let z0 = vec![0, 400, 900, 0, 1000, 1000];
    let law = |a: u64, _d: u64| a * FACTOR_ONE / 4;
    let short = generate(&m, &z0, 0, 3, law).unwrap();
    let long = generate(&m, &z0, 0, 7, law).unwrap();
    for v in 0..6 {
        assert!(long[v] <= short[v]);
    }
    let volume = |z: &Vec<i64>| z.iter().filter(|x| **x > 0).sum::<i64>();
    assert!(volume(&long) <= volume(&short));
}
