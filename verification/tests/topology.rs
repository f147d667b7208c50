use planet::template::{adjacencies, edges, fans, template, Triangulation};

fn next(e: usize) -> usize {
    if e % 3 == 2 {
        e - 2
    } else {
        e + 1
    }
}

/// The twin of every directed edge, found by comparing end points.
fn twins(triangles: &Vec<usize>) -> Vec<usize> {
    (0..triangles.len())
        .map(|e| {
            (0..triangles.len())
                .find(|f| {
                    triangles[next(*f)] == triangles[e] && triangles[*f] == triangles[next(e)]
                })
                .unwrap_or(usize::MAX)
        })
        .collect()
}

fn tetrahedron() -> Vec<usize> {
    vec![0, 1, 2, 0, 3, 1, 0, 2, 3, 1, 3, 2]
}

fn octahedron() -> Vec<usize> {
    vec![0, 1, 2, 0, 2, 3, 0, 3, 4, 0, 4, 1, 5, 2, 1, 5, 3, 2, 5, 4, 3, 5, 1, 4]
}

fn mesh(num_points: usize, triangles: Vec<usize>) -> Triangulation {
    let half_edges = twins(&triangles);
    Triangulation { num_points, triangles, half_edges }
}

#[test]
fn corners_follow_each_other_in_their_triangle() {
    assert_eq!(Triangulation::next_edge(0), 1);
    assert_eq!(Triangulation::next_edge(1), 2);
    assert_eq!(Triangulation::next_edge(2), 0);
    assert_eq!(Triangulation::next_edge(11), 9);
    assert_eq!(Triangulation::prev_edge(0), 2);
    assert_eq!(Triangulation::prev_edge(1), 0);
    assert_eq!(Triangulation::prev_edge(2), 1);
    assert_eq!(Triangulation::prev_edge(9), 11);
}

#[test]
fn tetrahedron_has_a_fan_of_three_at_each_vertex() {
    let t = tetrahedron();
    assert_eq!(twins(&t), vec![5, 11, 6, 8, 9, 0, 2, 10, 3, 4, 7, 1]);
    let (_, fans, neighbours) = template(4, t.clone(), twins(&t)).unwrap();
    assert_eq!(fans, vec![vec![0, 6, 3], vec![1, 5, 9], vec![2, 11, 7], vec![4, 8, 10]]);
    assert_eq!(neighbours, vec![vec![1, 2, 3], vec![2, 0, 3], vec![0, 1, 3], vec![1, 0, 2]]);
}

#[test]
fn octahedron_has_a_fan_of_four_at_each_vertex() {
    let t = octahedron();
    let (mesh, fans, neighbours) = template(6, t.clone(), twins(&t)).unwrap();
    assert_eq!(mesh.num_points, 6);
    assert_eq!(mesh.triangles, t);
    assert_eq!(
        fans,
        vec![
            vec![0, 3, 6, 9],
            vec![1, 11, 22, 14],
            vec![2, 13, 17, 4],
            vec![5, 16, 20, 7],
            vec![8, 19, 23, 10],
            vec![12, 21, 18, 15]
        ]
    );
    assert_eq!(
        neighbours,
        vec![
            vec![1, 2, 3, 4],
            vec![2, 0, 4, 5],
            vec![0, 1, 5, 3],
            vec![0, 2, 5, 4],
            vec![0, 3, 5, 1],
            vec![2, 1, 4, 3]
        ]
    );
}

#[test]
fn topology_keeps_its_lists_in_step() {
    for (n, t) in [(4, tetrahedron()), (6, octahedron())] {
        let (mesh, fans, neighbours) = template(n, t.clone(), twins(&t)).unwrap();
        assert_eq!(fans.len(), n);
        assert_eq!(neighbours.len(), n);
        for e in 0..t.len() {
            assert_eq!(mesh.half_edges[mesh.half_edges[e]], e);
        }
        let mut held = vec![0; t.len()];
        for p in 0..n {
            assert_eq!(fans[p].len(), neighbours[p].len());
            for i in 0..fans[p].len() {
                let e = fans[p][i];
                held[e] += 1;
                assert_eq!(mesh.triangles[e], p);
                assert_eq!(mesh.triangles[next(e)], neighbours[p][i]);
                assert_eq!(mesh.triangles[mesh.half_edges[e]], neighbours[p][i]);
                assert_eq!(mesh.triangles[next(mesh.half_edges[e])], p);
                assert_ne!(mesh.half_edges[e] / 3, e / 3);
                assert_ne!(neighbours[p][i], p);
                let after = fans[p][(i + 1) % fans[p].len()];
                assert_eq!(after, mesh.half_edges[Triangulation::prev_edge(e)]);
                assert!(neighbours[neighbours[p][i]].contains(&p));
            }
        }
        assert_eq!(held, vec![1; t.len()]);
    }
}

#[test]
fn edges_and_adjacencies_compose_to_the_template() {
    let t = mesh(6, octahedron());
    let lists = edges(&t);
    assert_eq!(Some(lists.clone()), fans(&t));
    let neighbours = adjacencies(&t, &lists);
    let (_, fans2, neighbours2) = template(6, octahedron(), twins(&octahedron())).unwrap();
    assert_eq!(lists, fans2);
    assert_eq!(neighbours, neighbours2);
}

#[test]
fn adjacencies_name_the_vertex_that_each_edge_reaches() {
    let t = mesh(4, tetrahedron());
    let found = adjacencies(&t, &vec![vec![0, 4, 8], vec![], vec![11]]);
    assert_eq!(found, vec![vec![1, 1, 0], vec![], vec![1]]);
    let found = adjacencies(&t, &vec![vec![2, 5], vec![9, 10]]);
    assert_eq!(found, vec![vec![0, 0], vec![3, 2]]);
}

#[test]
fn a_vertex_without_triangles_has_an_empty_fan() {
    let t = tetrahedron();
    let (_, fans, neighbours) = template(5, t.clone(), twins(&t)).unwrap();
    assert_eq!(fans[4], Vec::<usize>::new());
    assert_eq!(neighbours[4], Vec::<usize>::new());
    assert_eq!(fans[0], vec![0, 6, 3]);
}

#[test]
fn the_empty_mesh_is_closed() {
    let (_, fans, neighbours) = template(2, vec![], vec![]).unwrap();
    assert_eq!(fans, vec![Vec::<usize>::new(), Vec::new()]);
    assert_eq!(neighbours, vec![Vec::<usize>::new(), Vec::new()]);
    let (_, fans, _) = template(0, vec![], vec![]).unwrap();
    assert!(fans.is_empty());
}

#[test]
fn corners_must_come_in_threes() {
    assert!(template(3, vec![0, 1], vec![1, 0]).is_none());
    let t = Triangulation { num_points: 3, triangles: vec![0, 1, 2, 0], half_edges: vec![0; 4] };
    assert!(!t.is_indexed());
    assert!(fans(&t).is_none());
    assert_eq!(edges(&t), vec![vec![0, 3], vec![1], vec![2]]);
}

#[test]
fn every_corner_must_lie_at_a_vertex() {
    let t = tetrahedron();
    assert!(template(3, t.clone(), twins(&t)).is_none());
    let t = mesh(3, tetrahedron());
    assert!(!t.is_indexed());
}

#[test]
fn every_edge_needs_a_twin_in_range() {
    let t = tetrahedron();
    let mut h = twins(&t);
    h[0] = 12;
    assert!(template(4, t.clone(), h).is_none());
    assert!(template(4, t.clone(), vec![0; 11]).is_none());
    // a single triangle has a boundary: no edge has a twin
    assert!(template(3, vec![0, 1, 2], twins(&vec![0, 1, 2])).is_none());
}

#[test]
fn twins_must_pair_up() {
    let t = tetrahedron();
    let mut h = twins(&t);
    h[0] = 11;
    let bad = Triangulation { num_points: 4, triangles: t.clone(), half_edges: h.clone() };
    assert!(bad.is_indexed());
    assert!(!bad.is_twinned());
    assert!(template(4, t.clone(), h).is_none());
    let good = mesh(4, tetrahedron());
    assert!(good.is_indexed());
    assert!(good.is_twinned());
}

#[test]
fn a_triangle_glued_to_its_mirror_image_is_closed() {
    let t = vec![0, 1, 2, 0, 2, 1];
    let (_, fans, neighbours) = template(3, t.clone(), twins(&t)).unwrap();
    assert_eq!(fans, vec![vec![0, 3], vec![1, 5], vec![2, 4]]);
    assert_eq!(neighbours, vec![vec![1, 2], vec![2, 0], vec![0, 1]]);
}

#[test]
fn two_surfaces_that_touch_in_one_vertex_are_not_closed() {
    // two tetrahedra that share vertex 0 and nothing else
    let mut t = tetrahedron();
    for v in tetrahedron() {
        t.push(if v == 0 { 0 } else { v + 3 });
    }
    let h = twins(&t);
    let pinched = Triangulation { num_points: 7, triangles: t.clone(), half_edges: h.clone() };
    assert!(pinched.is_indexed());
    assert!(pinched.is_twinned());
    assert!(fans(&pinched).is_none());
    assert!(template(7, t, h).is_none());
}

#[test]
fn two_surfaces_apart_are_closed() {
    let mut t = tetrahedron();
    for v in tetrahedron() {
        t.push(v + 4);
    }
    let (_, fans, _) = template(8, t.clone(), twins(&t)).unwrap();
    assert_eq!(fans[0], vec![0, 6, 3]);
    assert_eq!(fans[4], vec![12, 18, 15]);
}

#[test]
fn every_edge_must_join_two_different_vertices() {
    // a triangle folded onto one vertex: every edge would be its own twin
    let folded =
        Triangulation { num_points: 1, triangles: vec![0, 0, 0], half_edges: vec![0, 1, 2] };
    assert!(!folded.is_indexed());
    assert!(fans(&folded).is_none());
    assert_eq!(edges(&folded), vec![vec![0, 1, 2]]);
    assert!(template(1, vec![0, 0, 0], vec![0, 1, 2]).is_none());
    // a triangle with two corners at one vertex
    assert!(template(2, vec![0, 0, 1, 0, 1, 0], vec![3, 5, 4, 0, 2, 1]).is_none());
    let pinched = Triangulation {
        num_points: 2,
        triangles: vec![0, 0, 1, 0, 1, 0],
        half_edges: vec![3, 5, 4, 0, 2, 1],
    };
    assert!(!pinched.is_indexed());
}

#[test]
fn an_edge_lies_in_the_list_of_the_vertex_at_its_corner() {
    for (n, t) in [(4, tetrahedron()), (6, octahedron())] {
        let (_, fans, neighbours) = template(n, t.clone(), twins(&t)).unwrap();
        for e in 0..t.len() {
            for p in 0..n {
                assert_eq!(fans[p].contains(&e), t[e] == p);
            }
            let i = fans[t[e]].iter().position(|x| *x == e).unwrap();
            assert_eq!(neighbours[t[e]][i], t[next(e)]);
        }
        for p in 0..n {
            let first = (0..t.len()).find(|c| t[*c] == p).unwrap();
            assert_eq!(fans[p][0], first);
        }
    }
}

#[test]
fn the_edges_of_an_open_mesh_stand_in_ascending_order() {
    // a single triangle has a boundary
    let open = Triangulation {
        num_points: 4,
        triangles: vec![2, 0, 1],
        half_edges: vec![usize::MAX; 3],
    };
    assert!(fans(&open).is_none());
    assert_eq!(edges(&open), vec![vec![1], vec![2], vec![0], vec![]]);
    assert_eq!(adjacencies(&open, &edges(&open)), vec![vec![1], vec![2], vec![0], vec![]]);

    // two tetrahedra that share vertex 0: its corners do not form one fan
    let mut t = tetrahedron();
    for v in tetrahedron() {
        t.push(if v == 0 { 0 } else { v + 3 });
    }
    let pinched = mesh(7, t.clone());
    let lists = edges(&pinched);
    assert_eq!(lists[0], vec![0, 3, 6, 12, 15, 18]);
    assert_eq!(lists[1], vec![1, 5, 9]);
    assert_eq!(lists[4], vec![13, 17, 21]);
    assert_eq!(lists.iter().map(|l| l.len()).sum::<usize>(), 24);
    for e in 0..24 {
        assert!(lists[t[e]].contains(&e));
    }
}

#[test]
fn the_edges_of_a_closed_mesh_stand_as_fans() {
    assert_eq!(
        edges(&mesh(4, tetrahedron())),
        vec![vec![0, 6, 3], vec![1, 5, 9], vec![2, 11, 7], vec![4, 8, 10]]
    );
    assert_eq!(edges(&mesh(0, vec![])), Vec::<Vec<usize>>::new());
}
