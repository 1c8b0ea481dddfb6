use hcad::blend::{
    accepts_blend, corners_to_round, edge_kind, edge_shape, gather_faces, plan_chamfer, plan_fillet, plan_round, rim_corner, split_straight_runs,
    trimming_walls, vertex_kind, BlendStep, Corner, EdgeFacts, EdgeShape, RimCorner, RoundPiece, StretchFacts,
};
use hcad::first_seen::Key;
use hcad::mesh::{edge_table, Tri};
use hcad::patches::{apex_face, arcs_at, feature_sides, is_domed, loop_dir, patch_rim, plan_surgery, Piece, RimArc, RimSpot};
use hcad::solids::box_tris;
use hcad::surgery::{
    any_selected, chain_arcs, count_selected, hands_over, has_splice, selected_at, spliced_loop, terminal_splice, wedge_faces, weld_pair, Spot,
};
use hcad::topo::{build_topo, Topo};

/// A box whose corner `i` lies at the bits of `i`, with its six flat faces.
fn cube() -> Topo {
    let at = |i: usize| [(i & 1) as i32, ((i >> 1) & 1) as i32, ((i >> 2) & 1) as i32];
    let tris = box_tris();
    let axis = |t: Tri| (0..3).find(|&k| at(t.a)[k] == at(t.b)[k] && at(t.b)[k] == at(t.c)[k]).map(|k| (k, at(t.a)[k]));
    let et = edge_table(&tris);
    let smooth: Vec<bool> = et.uses.iter().map(|u| axis(tris[u[0]]) == axis(tris[u[1]])).collect();
    build_topo(8, tris, &et, &smooth)
}

fn selecting(topo: &Topo, pairs: &[(usize, usize)]) -> Vec<bool> {
    let mut s = vec![false; topo.edges.len()];
    for (a, b) in pairs {
        s[topo.edge_between(*a, *b).expect("an edge")] = true;
    }
    s
}

#[test]
fn quadrants_tell_ridges_from_notches() {
    assert_eq!(edge_kind(&[true, false, false, false]), Some(Corner::Convex));
    assert_eq!(edge_kind(&[true, true, false, true]), Some(Corner::Concave));
    assert_eq!(edge_kind(&[true, true, false, false]), None);
    assert_eq!(vertex_kind(&[false, false, true, false, false, false, false, false]), Some(Corner::Convex));
    assert_eq!(vertex_kind(&[true, true, true, false, true, true, true, true]), Some(Corner::Concave));
    assert_eq!(vertex_kind(&[false; 8]), None);
}

#[test]
fn a_rim_is_set_up_by_its_quadrants() {
    for i in 0..4 {
        let mut one = [false; 4];
        one[i] = true;
        assert_eq!(rim_corner(&one).unwrap().kind, Corner::Convex);
        let three = [!one[0], !one[1], !one[2], !one[3]];
        assert_eq!(rim_corner(&three).unwrap().kind, Corner::Concave);
    }
    assert_eq!(rim_corner(&[true, false, false, true]), None);
    let all: Vec<RimCorner> = (0..4)
        .map(|i| {
            let mut q = [false; 4];
            q[i] = true;
            rim_corner(&q).unwrap()
        })
        .collect();
    for i in 0..4 {
        for j in 0..i {
            assert_ne!(all[i], all[j]);
        }
    }
}

#[test]
fn a_blend_that_loses_half_the_part_is_refused() {
    assert!(accepts_blend(100, 50));
    assert!(!accepts_blend(100, 49));
    assert!(accepts_blend(100, 400));
    assert!(!accepts_blend(100, 401));
}

#[test]
fn fillets_shave_and_fill_and_chamfers_only_shave() {
    let ridge = StretchFacts { usable: true, solid: [true, false, false, false] };
    let notch = StretchFacts { usable: true, solid: [true, true, true, false] };
    let flat = StretchFacts { usable: true, solid: [true, true, false, false] };
    let bad = StretchFacts { usable: false, solid: [true, false, false, false] };
    let facts = || {
        vec![
            EdgeFacts { circular: false, rim: None, stretches: vec![ridge, notch, flat, bad] },
            EdgeFacts { circular: true, rim: Some([true, false, false, false]), stretches: vec![ridge] },
            EdgeFacts { circular: true, rim: None, stretches: vec![ridge] },
        ]
    };
    let fillet = plan_fillet(&facts());
    assert_eq!(fillet[0], BlendStep::Straight { edge: 0, stretch: 0, kind: Corner::Convex });
    assert_eq!(fillet[1], BlendStep::Straight { edge: 0, stretch: 1, kind: Corner::Concave });
    assert!(matches!(fillet[2], BlendStep::Rim { edge: 1, .. }));
    let chamfer = plan_chamfer(&facts());
    assert!(chamfer.len() < fillet.len());
    assert!(chamfer.iter().all(|s| match s {
        BlendStep::Rim { corner, .. } => corner.kind == Corner::Convex,
        BlendStep::Straight { kind, .. } => *kind == Corner::Convex,
    }));
}

#[test]
fn an_edge_is_rounded_by_its_shape() {
    assert_eq!(edge_shape(true, false, true), EdgeShape::Whole);
    assert_eq!(edge_shape(false, true, true), EdgeShape::Whole);
    assert_eq!(edge_shape(false, false, true), EdgeShape::Sides);
    assert_eq!(edge_shape(false, false, false), EdgeShape::Curved);
}

#[test]
fn a_ring_splits_at_its_corners() {
    // A rectangle with every side cut in two.
    let sharp = vec![true, false, true, false, true, false, true, false];
    let runs = split_straight_runs(&sharp);
    assert_eq!(runs, vec![vec![0, 1, 2], vec![2, 3, 4], vec![4, 5, 6], vec![6, 7, 0]]);
}

#[test]
fn corners_gather_their_faces() {
    let k = |x: i128| Key { x, y: 0, z: 0 };
    let face = [1, 2, 1, 3, 2];
    let lists = gather_faces(&vec![k(0), k(0), k(0), k(9), k(0)], &|i: usize, j: usize| face[i] == face[j]);
    assert_eq!(lists, vec![vec![0, 1], vec![3]]);
}

#[test]
fn walls_trim_once_each() {
    let k = |x: i128| Key { x, y: 0, z: 0 };
    let keys = vec![k(0), k(1), k(0), k(2), k(3)];
    let walls = trimming_walls(&keys, &vec![true, true, true, false, true], &vec![true, false, true, true, true]);
    assert_eq!(walls, vec![0, 4]);
}

// ---- surgery ----

#[test]
fn a_fillet_ends_squarely_against_a_face() {
    let topo = cube();
    let s = selecting(&topo, &[(0, 1)]);
    assert_eq!(count_selected(&s), 1);
    assert!(any_selected(&s));
    assert!(!any_selected(&vec![false; 12]));
    assert_eq!(selected_at(&topo, &s, 0).len(), 1);
    let (e, f) = terminal_splice(&topo, &s, 0).expect("a square end");
    assert!(s[e]);
    assert!(!topo.edges[e].faces.contains(&f), "the end face is not one of the two being joined");
    assert_eq!(terminal_splice(&topo, &s, 7), None);
    assert_eq!(weld_pair(&topo, &s, 0), None);
    let two = selecting(&topo, &[(0, 1), (1, 3)]);
    assert!(weld_pair(&topo, &two, 1).is_some());
}

#[test]
fn folded_insets_are_handed_over_while_few() {
    assert!(hands_over(true, &vec![true; 4], true));
    assert!(!hands_over(true, &vec![true; 5], true));
    assert!(!hands_over(true, &vec![true; 4], false));
    assert!(!hands_over(false, &vec![true; 1], true));
}

#[test]
fn arcs_are_spliced_into_a_loop() {
    let splice = vec![None, Some(4), None, None];
    let out = spliced_loop(&vec![0, 1, 2], 4, &splice, &vec![true; 4], 2);
    assert_eq!(out, vec![Spot::Corner(0), Spot::Arc(1, 0), Spot::Arc(1, 1), Spot::Arc(1, 2), Spot::Corner(2)]);
    let back = spliced_loop(&vec![0, 1, 2], 4, &splice, &vec![false; 4], 1);
    assert_eq!(back, vec![Spot::Corner(0), Spot::Arc(1, 1), Spot::Arc(1, 0), Spot::Corner(2)]);
    assert!(has_splice(&vec![vec![0, 1]], 4, &splice));
    assert!(!has_splice(&vec![vec![0, 1]], 3, &splice));
    assert_eq!(wedge_faces(None, 1, 2), (1, 2));
}

#[test]
fn arcs_chain_into_a_ring() {
    let order = chain_arcs(&vec![(0, 1), (2, 0), (1, 2)]).expect("a ring");
    assert_eq!(order.len(), 3);
    assert_eq!(order[0], (0, true));
    assert_eq!(chain_arcs(&vec![(0, 1), (2, 3)]), None);
}

#[test]
fn a_cube_with_every_edge_rounded_has_all_its_pieces() {
    let topo = cube();
    let all = vec![true; 12];
    let pieces = plan_surgery(&topo, &all, &vec![None; 8], &vec![false; 8], &all, &vec![false; 12]);
    let count = |f: &dyn Fn(&Piece) -> bool| pieces.iter().filter(|p| f(p)).count();
    assert_eq!(count(&|p| matches!(p, Piece::Face { notched: false, .. })), 6);
    assert_eq!(count(&|p| matches!(p, Piece::Strip { .. })), 12);
    assert_eq!(count(&|p| matches!(p, Piece::Wedge { .. })), 0);
    assert_eq!(count(&|p| matches!(p, Piece::Patch { .. })), 8);
    let arcs = arcs_at(&topo, &all, &all, 0);
    assert_eq!(arcs.len(), 3);
    assert!(is_domed(&arcs, 3, 4));
    let rim = patch_rim(&arcs, 4).expect("a rim");
    assert_eq!(rim.len(), 12);
    assert!(rim.iter().all(|s| matches!(s, RimSpot::Arc { .. })));
    assert_eq!(feature_sides(&topo, &all).len(), 24);
}

#[test]
fn a_patch_needs_two_arcs() {
    let arc = |edge: usize, a: usize, b: usize| RimArc { edge, faces: (a, b), round: true };
    assert!(patch_rim(&vec![arc(0, 1, 2)], 3).is_none());
    assert!(patch_rim(&vec![arc(0, 1, 2), arc(1, 2, 1)], 3).is_some());
    assert_eq!(apex_face(&vec![arc(0, 1, 2), arc(1, 2, 3)], 4), Some(2));
}

#[test]
fn a_face_runs_along_an_edge_one_way() {
    let loops = vec![vec![0, 1, 2], vec![5, 4, 3]];
    assert_eq!(loop_dir(&loops, 1, 0), Some((0, 1)));
    assert_eq!(loop_dir(&loops, 3, 4), Some((4, 3)));
    assert_eq!(loop_dir(&loops, 5, 3), Some((3, 5)));
    assert_eq!(loop_dir(&loops, 0, 5), None);
}

#[test]
fn picked_edges_are_sorted_by_shape() {
    let shapes = vec![EdgeShape::Sides, EdgeShape::Curved, EdgeShape::Whole, EdgeShape::Curved];
    let (pieces, curved) = plan_round(&shapes, &vec![2, 7, 1, 1]);
    assert_eq!(
        pieces,
        vec![RoundPiece::Side { edge: 0, side: 0 }, RoundPiece::Side { edge: 0, side: 1 }, RoundPiece::Whole { edge: 2 }]
    );
    assert_eq!(curved, vec![1, 3]);
    assert_eq!(plan_round(&Vec::new(), &Vec::new()), (Vec::new(), Vec::new()));
}

#[test]
fn a_corner_is_rounded_where_three_faces_meet() {
    let lists = vec![vec![0, 1], vec![2, 3, 5, 8], vec![], vec![4, 6, 7]];
    assert_eq!(corners_to_round(&lists), vec![(2, 3, 5), (4, 6, 7)]);
}
