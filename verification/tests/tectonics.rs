use planet::scalar::Scalar;
use planet::lists::is_graph;
use planet::terrain::tectonics::growth::{grow, Growth};
use planet::terrain::tectonics::ranking::{polar_plate, rank, Plate};
use planet::terrain::tectonics::{
    cap, continental, nearest, tectonics, MAX_HEIGHT, NUM_PLATES, POLAR_RANK,
};
use rand::rngs::StdRng;
use rand::SeedableRng;

fn s(x: f32) -> Scalar {
    Scalar::from_bits(x.to_bits())
}

/// The six vertices of an octahedron: 0 and 5 are the poles.
fn octahedron() -> Vec<Vec<usize>> {
    vec![
        vec![2, 3, 4, 1],
        vec![0, 4, 5, 2],
        vec![1, 5, 3, 0],
        vec![2, 5, 4, 0],
        vec![3, 5, 1, 0],
        vec![1, 4, 3, 2],
    ]
}

/// A ring of `n` vertices, each joined to the one before and the one after.
fn ring(n: usize) -> Vec<Vec<usize>> {
    (0..n).map(|p| vec![(p + n - 1) % n, (p + 1) % n]).collect()
}

fn plate(origin: usize, vertices: Vec<usize>) -> Plate {
    Plate { origin, vertices }
}

fn shape(plates: &Vec<Plate>) -> Vec<(usize, Vec<usize>)> {
    plates.iter().map(|p| (p.origin, p.vertices.clone())).collect()
}

#[test]
fn continental_is_every_third_rank_from_the_second() {
    let tags: Vec<bool> = (0..7).map(continental).collect();
    assert_eq!(tags, vec![false, true, false, false, true, false, false]);
    assert!(!continental(POLAR_RANK));
    assert!(continental(19));
    assert!(!continental(usize::MAX));
}

#[test]
fn a_planet_has_twenty_plates_and_the_pole_at_rank_two() {
    assert_eq!(NUM_PLATES, 20);
    assert_eq!(POLAR_RANK, 2);
}

#[test]
fn no_height_rises_above_the_maximum() {
    assert_eq!(MAX_HEIGHT, 0.09f32.to_bits());
    assert_eq!(cap(s(0.1)), s(0.09));
    assert_eq!(cap(s(f32::INFINITY)), s(0.09));
    assert_eq!(cap(s(0.09)), s(0.09));
    assert_eq!(cap(s(0.05)), s(0.05));
    assert_eq!(cap(s(-0.03)), s(-0.03));
    assert_eq!(cap(s(0.0)), s(0.0));
    assert_eq!(cap(Scalar::from_bits(0.09f32.to_bits() + 1)), s(0.09));
    assert!(cap(s(f32::NAN)).nan());
    for h in [-1.0f32, 0.0, 0.08, 0.09, 0.091, 5.0, f32::MAX] {
        let capped = f32::from_bits(cap(s(h)).to_bits());
        assert!(capped <= 0.09);
        assert_eq!(capped, h.min(0.09));
    }
}

#[test]
fn nearest_is_the_first_least_distance() {
    assert_eq!(nearest(&vec![s(0.5), s(0.25), s(0.75)]), 1);
    assert_eq!(nearest(&vec![s(0.5), s(0.25), s(0.25)]), 1);
    assert_eq!(nearest(&vec![s(0.1)]), 0);
    assert_eq!(nearest(&vec![s(0.0), s(0.0), s(0.0)]), 0);
    assert_eq!(nearest(&vec![s(4.0), s(3.0), s(2.0), s(1.0)]), 3);
}

#[test]
fn nearest_goes_by_the_total_order() {
    assert_eq!(nearest(&vec![s(0.0), s(-0.0)]), 1);
    assert_eq!(nearest(&vec![s(f32::NAN), s(1.0)]), 1);
    assert_eq!(nearest(&vec![s(1.0), s(-f32::NAN)]), 1);
    assert_eq!(nearest(&vec![s(-1.0), s(-2.0), s(f32::NEG_INFINITY)]), 2);
}

#[test]
fn growth_starts_with_the_seeds_in_the_work_list() {
    let growth = Growth::new(&ring(5), vec![3, 0]);
    assert_eq!(growth.seeds, vec![3, 0]);
    assert_eq!(growth.queue, vec![(0, 3), (1, 0)]);
    assert_eq!(growth.assigned, vec![false; 5]);
    assert_eq!(growth.plates, vec![Vec::<usize>::new(), Vec::new()]);
}

#[test]
fn a_step_claims_a_vertex_and_queues_its_neighbours() {
    let graph = ring(5);
    let mut growth = Growth::new(&graph, vec![3, 0]);
    growth.step(&graph, 0);
    assert_eq!(growth.queue, vec![(1, 0), (0, 2), (0, 4)]);
    assert_eq!(growth.assigned, vec![false, false, false, true, false]);
    assert_eq!(growth.plates, vec![vec![3], vec![]]);
    growth.step(&graph, 1);
    assert_eq!(growth.queue, vec![(1, 0), (0, 4), (0, 1)]);
    assert_eq!(growth.plates, vec![vec![3, 2], vec![]]);
    growth.step(&graph, 0);
    assert_eq!(growth.queue, vec![(0, 1), (0, 4), (1, 4), (1, 1)]);
    assert_eq!(growth.plates, vec![vec![3, 2], vec![0]]);
}

#[test]
fn a_step_on_a_claimed_vertex_only_drops_the_entry() {
    let graph = ring(3);
    let mut growth = Growth::new(&graph, vec![0, 0, 1]);
    growth.step(&graph, 0);
    assert_eq!(growth.queue, vec![(2, 1), (1, 0), (0, 2), (0, 1)]);
    growth.step(&graph, 1);
    assert_eq!(growth.queue, vec![(2, 1), (0, 1), (0, 2)]);
    assert_eq!(growth.assigned, vec![true, false, false]);
    assert_eq!(growth.plates, vec![vec![0], vec![], vec![]]);
}

#[test]
fn a_plate_whose_seed_is_taken_stays_empty() {
    let graph = ring(3);
    let mut growth = Growth::new(&graph, vec![0, 0, 1]);
    while !growth.queue.is_empty() {
        growth.step(&graph, 0);
    }
    assert_eq!(growth.plates, vec![vec![0], vec![], vec![1, 2]]);
    assert_eq!(growth.assigned, vec![true; 3]);
}

#[test]
fn the_order_of_picks_shapes_the_plates() {
    let graph = ring(6);
    let mut first = Growth::new(&graph, vec![0, 3]);
    while !first.queue.is_empty() {
        first.step(&graph, 0);
    }
    let mut last = Growth::new(&graph, vec![0, 3]);
    while !last.queue.is_empty() {
        let k = last.queue.len() - 1;
        last.step(&graph, k);
    }
    assert_eq!(first.plates, vec![vec![0, 1, 2], vec![3, 4, 5]]);
    assert_eq!(last.plates, vec![vec![], vec![3, 4, 5, 0, 1, 2]]);
}

#[test]
fn growth_claims_every_vertex_once() {
    let adjacencies = octahedron();
    for seed in 0..50u64 {
        let mut rng = StdRng::seed_from_u64(seed);
        let plates = grow(&adjacencies, vec![0, 5, 2], &mut rng);
        assert_eq!(plates.len(), 3);
        let mut all: Vec<usize> = plates.iter().flatten().copied().collect();
        assert_eq!(all.len(), 6);
        all.sort();
        assert_eq!(all, vec![0, 1, 2, 3, 4, 5]);
        for (k, seed) in [0usize, 5, 2].into_iter().enumerate() {
            if !plates[k].is_empty() {
                assert_eq!(plates[k][0], seed);
            }
            for i in 1..plates[k].len() {
                assert!((0..i).any(|j| adjacencies[plates[k][j]].contains(&plates[k][i])));
            }
        }
    }
}

#[test]
fn growth_stays_within_reach_of_the_seeds() {
    // two rings of three that are not joined
    let graph = vec![vec![1, 2], vec![0, 2], vec![0, 1], vec![4, 5], vec![3, 5], vec![3, 4]];
    let mut rng = StdRng::seed_from_u64(7);
    let plates = grow(&graph, vec![1], &mut rng);
    let mut held = plates[0].clone();
    held.sort();
    assert_eq!(held, vec![0, 1, 2]);
    assert_eq!(plates[0][0], 1);
}

#[test]
fn growth_is_the_same_for_the_same_seed() {
    let graph = ring(40);
    let a = grow(&graph, vec![0, 10, 20, 30], &mut StdRng::seed_from_u64(99));
    let b = grow(&graph, vec![0, 10, 20, 30], &mut StdRng::seed_from_u64(99));
    assert_eq!(a, b);
    assert_eq!(a.iter().map(|p| p.len()).sum::<usize>(), 40);
}

#[test]
fn growth_without_seeds_claims_nothing() {
    let plates = grow(&ring(4), vec![], &mut StdRng::seed_from_u64(1));
    assert!(plates.is_empty());
}

#[test]
fn plates_are_ranked_by_size_and_then_by_seed() {
    let ranked = rank(vec![vec![7], vec![1, 2, 3], vec![], vec![4, 5, 6], vec![8, 9]]);
    assert_eq!(
        shape(&ranked),
        vec![
            (1, vec![1, 2, 3]),
            (3, vec![4, 5, 6]),
            (4, vec![8, 9]),
            (0, vec![7]),
            (2, vec![])
        ]
    );
    assert!(rank(vec![]).is_empty());
    assert_eq!(shape(&rank(vec![vec![], vec![]])), vec![(0, vec![]), (1, vec![])]);
}

#[test]
fn the_polar_plate_holds_the_vertex_of_greatest_latitude() {
    let plates = vec![plate(0, vec![0, 1]), plate(1, vec![2]), plate(2, vec![3, 4])];
    let latitudes = vec![s(0.1), s(0.2), s(0.3), s(0.9), s(0.5)];
    assert_eq!(polar_plate(&plates, &latitudes), 2);
    let latitudes = vec![s(0.1), s(0.95), s(0.3), s(0.9), s(0.5)];
    assert_eq!(polar_plate(&plates, &latitudes), 0);
}

#[test]
fn of_equal_latitudes_the_first_plate_wins() {
    let plates = vec![plate(0, vec![0]), plate(1, vec![1, 2]), plate(2, vec![3])];
    let latitudes = vec![s(0.5), s(0.7), s(0.2), s(0.7)];
    assert_eq!(polar_plate(&plates, &latitudes), 1);
}

#[test]
fn without_a_latitude_above_zero_the_first_plate_is_polar() {
    let plates = vec![plate(0, vec![0]), plate(1, vec![1]), plate(2, vec![2])];
    assert_eq!(polar_plate(&plates, &vec![s(0.0), s(0.0), s(0.0)]), 0);
    assert_eq!(polar_plate(&plates, &vec![s(0.0), s(f32::NAN), s(-1.0)]), 0);
    assert_eq!(polar_plate(&vec![], &vec![]), 0);
    assert_eq!(polar_plate(&vec![plate(0, vec![]), plate(1, vec![])], &vec![s(1.0)]), 0);
}

#[test]
fn a_latitude_that_is_no_number_is_passed_over() {
    let plates = vec![plate(0, vec![0]), plate(1, vec![1]), plate(2, vec![2])];
    assert_eq!(polar_plate(&plates, &vec![s(f32::NAN), s(0.2), s(0.1)]), 1);
    assert_eq!(polar_plate(&plates, &vec![s(0.3), s(f32::NAN), s(0.1)]), 0);
    assert_eq!(polar_plate(&plates, &vec![s(0.3), s(f32::INFINITY), s(0.1)]), 1);
}

#[test]
fn the_polar_plate_takes_rank_two() {
    // a ring of twelve: every vertex has a latitude, vertex 7 the greatest
    let graph = ring(12);
    let latitudes: Vec<Scalar> =
        (0..12).map(|p| s(if p == 7 { 0.99 } else { 0.01 * p as f32 })).collect();
    for seed in 0..50u64 {
        let mut rng = StdRng::seed_from_u64(seed);
        let seeds = vec![0, 3, 6, 9];
        let plates = tectonics(&graph, seeds.clone(), &latitudes, &mut rng);
        assert_eq!(plates.len(), 4);
        assert!(plates[POLAR_RANK].vertices.contains(&7));
        let mut origins: Vec<usize> = plates.iter().map(|p| p.origin).collect();
        origins.sort();
        assert_eq!(origins, vec![0, 1, 2, 3]);
        let mut all: Vec<usize> = plates.iter().flat_map(|p| p.vertices.clone()).collect();
        assert_eq!(all.len(), 12);
        all.sort();
        assert_eq!(all, (0..12).collect::<Vec<usize>>());
        for p in &plates {
            if !p.vertices.is_empty() {
                assert_eq!(p.vertices[0], seeds[p.origin]);
            }
        }
        // but for the exchange with rank two, the plates stand by size
        let q = (0..4)
            .find(|q| {
                let mut sizes: Vec<(usize, usize)> =
                    plates.iter().map(|p| (p.vertices.len(), p.origin)).collect();
                sizes.swap(POLAR_RANK, *q);
                (0..3).all(|i| {
                    sizes[i].0 > sizes[i + 1].0
                        || (sizes[i].0 == sizes[i + 1].0 && sizes[i].1 < sizes[i + 1].1)
                })
            });
        assert!(q.is_some());
    }
}

#[test]
fn tectonics_is_the_same_for_the_same_seed() {
    let graph = octahedron();
    let latitudes = vec![s(1.0), s(0.0), s(0.0), s(0.0), s(0.0), s(1.0)];
    let a = tectonics(&graph, vec![1, 2, 3], &latitudes, &mut StdRng::seed_from_u64(5));
    let b = tectonics(&graph, vec![1, 2, 3], &latitudes, &mut StdRng::seed_from_u64(5));
    assert_eq!(shape(&a), shape(&b));
    assert!(a[POLAR_RANK].vertices.contains(&0));
}

#[test]
fn a_graph_names_only_its_own_vertices() {
    assert!(is_graph(&octahedron()));
    assert!(is_graph(&ring(3)));
    assert!(is_graph(&vec![]));
    assert!(is_graph(&vec![vec![], vec![0, 0, 1]]));
    assert!(!is_graph(&vec![vec![1]]));
    assert!(!is_graph(&vec![vec![1], vec![0, 2]]));
}

fn origins(plates: &Vec<Plate>) -> Vec<usize> {
    plates.iter().map(|p| p.origin).collect()
}

#[test]
fn the_polar_plate_changes_places_with_rank_two() {
    // four vertices without edges: every plate holds its seed and nothing else
    let graph = vec![vec![], vec![], vec![], vec![]];
    let seeds = vec![0, 1, 2, 3];
    let mut rng = StdRng::seed_from_u64(3);

    let first = vec![s(0.9), s(0.1), s(0.2), s(0.3)];
    let plates = tectonics(&graph, seeds.clone(), &first, &mut rng);
    assert_eq!(origins(&plates), vec![2, 1, 0, 3]);

    let last = vec![s(0.1), s(0.2), s(0.3), s(0.9)];
    let plates = tectonics(&graph, seeds.clone(), &last, &mut rng);
    assert_eq!(origins(&plates), vec![0, 1, 3, 2]);
    assert_eq!(shape(&plates)[2], (3, vec![3]));
}

#[test]
fn a_polar_plate_of_rank_two_stays_where_it_is() {
    let graph = vec![vec![], vec![], vec![], vec![]];
    let latitudes = vec![s(0.1), s(0.2), s(0.9), s(0.3)];
    let plates = tectonics(&graph, vec![0, 1, 2, 3], &latitudes, &mut StdRng::seed_from_u64(3));
    assert_eq!(origins(&plates), vec![0, 1, 2, 3]);
}

#[test]
fn on_a_planet_without_latitudes_the_largest_plate_is_polar() {
    let graph = vec![vec![1], vec![0], vec![], vec![]];
    let latitudes = vec![s(0.0), s(0.0), s(0.0), s(0.0)];
    let plates = tectonics(&graph, vec![2, 0, 3], &latitudes, &mut StdRng::seed_from_u64(3));
    // by size the plates stand as 1, 0, 2; the first then changes places with the third
    assert_eq!(shape(&plates), vec![(2, vec![3]), (0, vec![2]), (1, vec![0, 1])]);
}

#[test]
fn three_plates_are_enough() {
    let plates =
        tectonics(&ring(3), vec![0, 1, 2], &vec![s(0.5); 3], &mut StdRng::seed_from_u64(11));
    assert_eq!(plates.len(), 3);
    assert_eq!(plates.iter().map(|p| p.vertices.len()).sum::<usize>(), 3);
}
