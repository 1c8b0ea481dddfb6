use hcad::mesh::{is_closed, triangles};
use hcad::nets::{cell_grid, compact, corner_offset, crossing_edges, edge_corners, surface_nets};
use hcad::raster::{rasterize, Bounds};
use hcad::voxel::{
    band, boundary_distances, clamp_resolution, depths, enclose, flood, grow, is_inside, padded_dim, seal, winding_inverted, Facing, Grid, Shell,
};

fn cube_grid(n: usize) -> Grid {
    Grid::new(n, n, n).expect("a grid")
}

/// The shell of a hollow box between `lo` and `hi`.
fn hollow(g: &Grid, lo: usize, hi: usize) -> Vec<bool> {
    (0..g.count())
        .map(|i| {
            let (x, y, z) = g.coords(i);
            let within = [x, y, z].iter().all(|v| (lo..=hi).contains(v));
            within && [x, y, z].iter().any(|v| *v == lo || *v == hi)
        })
        .collect()
}

#[test]
fn sizes_are_padded_and_clamped() {
    assert_eq!(padded_dim(10), 17);
    assert_eq!(clamp_resolution(1), 16);
    assert_eq!(clamp_resolution(100), 100);
    assert_eq!(clamp_resolution(9999), 400);
    assert!(Grid::new(0, 3, 3).is_none());
    assert!(Grid::new(400, 400, 400).is_some());
    assert!(Grid::new(401, 400, 400).is_none());
}

#[test]
fn numbers_and_coordinates_agree() {
    let g = Grid::new(3, 4, 5).expect("a grid");
    assert_eq!(g.at(2, 3, 4), 59);
    assert_eq!(g.coords(59), (2, 3, 4));
    assert_eq!((0..6).filter(|&k| g.step(0, k).is_some()).count(), 3);
}

#[test]
fn a_wall_encloses_what_is_inside_it() {
    let g = cube_grid(9);
    let wall = hollow(&g, 2, 6);
    let shell = enclose(&g, &wall).expect("something enclosed");
    for i in 0..g.count() {
        let (x, y, z) = g.coords(i);
        let within = [x, y, z].iter().all(|v| (2..=6).contains(v));
        assert_eq!(shell.solid[i], within, "voxel {:?}", (x, y, z));
    }
    // The corner floods, the inside does not.
    let out = flood(&g, &wall);
    assert!(out[0]);
    assert!(!out[g.at(4, 4, 4)]);
    assert_eq!(shell.dist[g.at(2, 4, 4)], 0);
    assert_eq!(shell.dist[g.at(4, 4, 4)], 2);
    assert!(enclose(&g, &vec![false; g.count()]).is_none());
}

#[test]
fn a_crack_is_sealed() {
    // A box with walls three voxels thick, and a crack of one voxel through one of them.
    let g = cube_grid(13);
    let mut wall: Vec<bool> = (0..g.count())
        .map(|i| {
            let (x, y, z) = g.coords(i);
            let within = [x, y, z].iter().all(|v| (2..=10).contains(v));
            within && !([x, y, z].iter().all(|v| (5..=7).contains(v)))
        })
        .collect();
    for x in 2..5 {
        wall[g.at(x, 6, 6)] = false;
    }
    assert!(flood(&g, &wall)[g.at(6, 6, 6)], "the crack lets the flood in");
    let sealed = seal(&g, &wall);
    assert!(sealed[g.at(3, 6, 6)]);
    assert!(!sealed[g.at(6, 6, 6)], "the hollow was bridged");
    let shell = enclose(&g, &wall).expect("something enclosed");
    assert!(shell.solid[g.at(6, 6, 6)], "the crack was not sealed");
}

#[test]
fn growing_adds_the_neighbours() {
    let g = cube_grid(3);
    let mut one = vec![false; 27];
    one[g.at(1, 1, 1)] = true;
    let more = grow(&g, &one, true);
    assert_eq!(more.iter().filter(|b| **b).count(), 7);
    let dist = boundary_distances(&g, &one);
    assert_eq!(dist[g.at(1, 1, 1)], 0);
    assert_eq!(band(&vec![0, 3, 2, 5]), vec![0, 2]);
}

#[test]
fn an_inverted_mesh_gives_the_same_solid() {
    let solid = vec![true, true, false, false, false];
    let votes = vec![(0, Facing::In), (1, Facing::In), (2, Facing::Out), (3, Facing::In), (4, Facing::Unknown)];
    let turned: Vec<(usize, Facing)> = votes
        .iter()
        .map(|v| {
            let f = match v.1 {
                Facing::In => Facing::Out,
                Facing::Out => Facing::In,
                Facing::Unknown => Facing::Unknown,
            };
            (v.0, f)
        })
        .collect();
    let (a, b) = (winding_inverted(&solid, &votes), winding_inverted(&solid, &turned));
    assert!(!a && b);
    for k in 0..votes.len() {
        let s = solid[votes[k].0];
        assert_eq!(is_inside(s, votes[k].1, a), is_inside(s, turned[k].1, b));
    }
}

#[test]
fn a_lump_gets_a_closed_surface() {
    let g = cube_grid(6);
    let below: Vec<bool> = (0..g.count())
        .map(|i| {
            let (x, y, z) = g.coords(i);
            [x, y, z].iter().all(|v| (2..=3).contains(v))
        })
        .collect();
    let mut indices = surface_nets(&g, &below);
    assert_eq!(indices.len() % 6, 0);
    let cells = cell_grid(&g);
    assert!(indices.iter().all(|&c| (c as usize) < cells.count()));
    // Every vertex used belongs to a cell that the surface crosses.
    for &c in &indices {
        let (i, j, k) = cells.coords(c as usize);
        assert!(!crossing_edges(&g, &below, i, j, k).is_empty());
    }
    let kept = compact(&mut indices, cells.count());
    assert_eq!(kept.len(), 26, "the cells around a 2x2x2 lump, all but the one in its middle");
    assert!(is_closed(&triangles(&indices)), "the surface has a hole");
}

#[test]
fn a_cell_has_eight_corners_and_twelve_edges() {
    let mut lengths = vec![0; 4];
    for e in 0..12 {
        let (a, b) = edge_corners(e);
        let (p, q) = (corner_offset(a), corner_offset(b));
        let d = p.0.abs_diff(q.0) + p.1.abs_diff(q.1) + p.2.abs_diff(q.2);
        lengths[d] += 1;
    }
    assert_eq!(lengths, vec![0, 12, 0, 0]);
}

#[test]
fn lumps_that_meet_at_an_edge_still_balance() {
    // Two voxels that share an edge only: four triangles meet there, and yet every step is undone.
    let g = cube_grid(6);
    let mut marks = vec![false; g.count()];
    marks[g.at(2, 2, 2)] = true;
    marks[g.at(3, 3, 2)] = true;
    let tris = triangles(&surface_nets(&g, &marks));
    assert_eq!(tris.len(), 24);
    assert!(!is_closed(&tris));
    let mut steps = std::collections::HashMap::new();
    for t in &tris {
        for (p, q) in [(t.a, t.b), (t.b, t.c), (t.c, t.a)] {
            *steps.entry((p, q)).or_insert(0) += 1;
            *steps.entry((q, p)).or_insert(0) -= 1;
        }
    }
    assert!(steps.values().all(|n| *n == 0));
}

#[test]
fn a_step_along_an_axis_stops_at_the_edge() {
    let g = Grid::new(4, 3, 2).expect("a grid");
    let v = g.at(1, 2, 0);
    assert_eq!(g.along(v, 0, 2), g.at(3, 2, 0));
    assert_eq!(g.along(v, 0, 9), g.at(3, 2, 0));
    assert_eq!(g.along(v, 0, i64::MIN), g.at(0, 2, 0));
    assert_eq!(g.along(v, 1, -1), g.at(1, 1, 0));
    assert_eq!(g.along(v, 2, i64::MAX), g.at(1, 2, 1));
    assert_eq!(g.along(v, 2, 0), v);
}

#[test]
fn triangles_are_listed_where_they_pass() {
    let g = cube_grid(8);
    let row = |x0, x1, y, z| Bounds { x0, x1, y0: y, y1: y, z0: z, z1: z };
    // The first reaches out of the grid, the second is only half as long as its bounds, the third
    // lies outside.
    let boxes = vec![row(-3, 2, 1, 1), row(1, 4, 1, 1), row(20, 30, 1, 1)];
    let hits = |t: usize, i: usize| t != 1 || g.coords(i).0 <= 2;
    let r = rasterize(&g, &boxes, &hits);
    let wall = r.wall();
    let marked: Vec<usize> = (0..g.count()).filter(|&i| wall[i]).collect();
    assert_eq!(marked, vec![g.at(0, 1, 1), g.at(1, 1, 1), g.at(2, 1, 1)]);
    assert_eq!(r.near(&g, g.at(0, 1, 1)), vec![0, 0, 1, 0, 1]);
    assert_eq!(r.near(&g, g.at(4, 3, 3)), vec![0, 1]);
    assert!(r.near(&g, g.at(5, 1, 1)).is_empty());
    assert!(rasterize(&g, &Vec::new(), &hits).wall().iter().all(|w| !w));
}

#[test]
fn depths_are_signed() {
    let shell = Shell { solid: vec![true, true, false, false], dist: vec![0, 3, 2, u32::MAX] };
    assert_eq!(depths(&shell, 50), vec![0, 3, -2, -50]);
}
