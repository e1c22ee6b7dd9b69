use rand::rngs::StdRng;
use rand::SeedableRng;
use voxel_wfc::direction::Direction;
use voxel_wfc::domain::Domain;
use voxel_wfc::error::WfcError;
use voxel_wfc::shape::neighbor_index;
use voxel_wfc::solver::Solver;
use voxel_wfc::vocabulary::{Example, Marker, TileVocabulary};

const DIRS: [Direction; 6] = [
    Direction::PosX,
    Direction::NegX,
    Direction::PosY,
    Direction::NegY,
    Direction::PosZ,
    Direction::NegZ,
];

fn m(name: &str) -> Marker {
    Marker::new(String::from(name), 0)
}

/// Two stacked cells: `b` below, `a` above.
fn stacked_vocabulary() -> TileVocabulary {
    let ex = Example { shape: [1, 2, 1], cells: vec![m("b"), m("a")] };
    TileVocabulary::new(&vec![ex]).unwrap()
}

/// Columns of full, grass, air, air, repeated over a 2 x 2 footprint.
fn layered_vocabulary() -> TileVocabulary {
    let mut cells = Vec::new();
    for _x in 0..2 {
        for y in 0..4 {
            for _z in 0..2 {
                let name = match y {
                    0 => "full",
                    1 => "grass",
                    _ => "air",
                };
                cells.push(m(name));
            }
        }
    }
    TileVocabulary::new(&vec![Example { shape: [2, 4, 2], cells }]).unwrap()
}

fn only(n: usize, t: usize) -> Domain {
    Domain::single(n, t)
}

fn domains(s: &Solver) -> Vec<Vec<bool>> {
    let shape = s.shape();
    let vol = shape[0] * shape[1] * shape[2];
    (0..vol).map(|i| s.domain_at(i).unwrap().bits).collect()
}

fn check_solution(v: &TileVocabulary, shape: [usize; 3], wrap: bool, tiles: &Vec<usize>) {
    for c in 0..tiles.len() {
        for d in DIRS {
            if let Some(j) = neighbor_index(shape, c, d, wrap) {
                let allowed = v.compatible(tiles[c], d).unwrap();
                assert!(allowed.contains(tiles[j]));
            }
        }
    }
}

#[test]
fn vocabulary_ids_follow_first_appearance() {
    let v = stacked_vocabulary();
    assert_eq!(v.tile_count(), 2);
    assert_eq!(v.get_asset_name(0).unwrap(), "b");
    assert_eq!(v.get_asset_name(1).unwrap(), "a");
    assert_eq!(v.get_variant(1).unwrap(), 0);
}

#[test]
fn adjacency_is_observed_and_mirrored() {
    let v = stacked_vocabulary();
    let up = v.compatible(0, Direction::PosY).unwrap();
    assert_eq!(up.bits, vec![false, true]);
    let down = v.compatible(1, Direction::NegY).unwrap();
    assert_eq!(down.bits, vec![true, false]);
    assert_eq!(v.compatible(1, Direction::PosY).unwrap().bits, vec![false, false]);
    assert_eq!(v.compatible(0, Direction::PosX).unwrap().bits, vec![false, false]);
}

#[test]
fn variants_are_distinct_tiles() {
    let ex = Example { shape: [2, 1, 1], cells: vec![Marker::new(String::from("wall"), 0), Marker::new(String::from("wall"), 1)] };
    let v = TileVocabulary::new(&vec![ex]).unwrap();
    assert_eq!(v.tile_count(), 2);
    assert_eq!(v.asset_bits(&String::from("wall")).unwrap().bits, vec![true, true]);
    assert_eq!(v.get_variant(1).unwrap(), 1);
}

#[test]
fn empty_examples_are_a_data_error() {
    assert_eq!(TileVocabulary::new(&vec![]).err(), Some(WfcError::DataError));
}

#[test]
fn malformed_example_is_a_data_error() {
    let ex = Example { shape: [2, 2, 1], cells: vec![m("a"), m("b"), m("a")] };
    assert_eq!(TileVocabulary::new(&vec![ex]).err(), Some(WfcError::DataError));
}

#[test]
fn unknown_group_and_out_of_range_ids() {
    let v = stacked_vocabulary();
    assert_eq!(v.asset_bits(&String::from("water")).err(), Some(WfcError::UnknownGroup));
    assert_eq!(v.get_asset_name(2).err(), Some(WfcError::OutOfRange));
    assert_eq!(v.get_variant(5).err(), Some(WfcError::OutOfRange));
    assert_eq!(v.compatible(2, Direction::PosX).err(), Some(WfcError::OutOfRange));
}

#[test]
fn bit_mask_is_union_of_groups() {
    let v = layered_vocabulary();
    let mask = v.bit_mask();
    let mut union = vec![false; v.tile_count()];
    for g in ["full", "grass", "air"] {
        let bits = v.asset_bits(&String::from(g)).unwrap();
        for t in 0..union.len() {
            union[t] = union[t] || bits.contains(t);
        }
    }
    assert_eq!(mask.bits, union);
    assert_eq!(mask.bits, vec![true, true, true]);
}

#[test]
fn stacked_seed_forces_top() {
    let v = stacked_vocabulary();
    let mut s = Solver::new([1, 2, 1], &v.bit_mask(), &v, false);
    let b = v.asset_bits(&String::from("b")).unwrap();
    assert_eq!(s.collapse_along_axis(&b, 0, Direction::PosY, [0, 1], [0, 1]), Ok(()));
    assert_eq!(domains(&s), vec![vec![true, false], vec![false, true]]);
    assert_eq!(s.find_min_entropy(), None);
}

#[test]
fn incompatible_seeds_contradict() {
    let v = stacked_vocabulary();
    let mut s = Solver::new([1, 2, 1], &v.bit_mask(), &v, false);
    assert_eq!(s.restrict_region(&only(2, 1), 0, Direction::PosY, [0, 1], [0, 1]), Ok(()));
    assert_eq!(s.restrict_region(&only(2, 0), -1, Direction::PosY, [0, 1], [0, 1]), Ok(()));
    let mut rng = StdRng::seed_from_u64(7);
    assert_eq!(s.solve(&mut rng), Err(WfcError::Contradiction));
}

#[test]
fn seeding_with_no_valid_neighbor_contradicts() {
    let v = stacked_vocabulary();
    let mut s = Solver::new([1, 2, 1], &v.bit_mask(), &v, false);
    let a = v.asset_bits(&String::from("a")).unwrap();
    assert_eq!(s.collapse_along_axis(&a, 0, Direction::PosY, [0, 1], [0, 1]), Err(WfcError::Contradiction));
}

#[test]
fn excluded_group_never_appears() {
    let v = layered_vocabulary();
    let full = v.asset_bits(&String::from("full")).unwrap();
    let initial = v.bit_mask().without(&full);
    let shape = [3, 3, 2];
    for seed in 0..10u64 {
        let mut s = Solver::new(shape, &initial, &v, false);
        let mut rng = StdRng::seed_from_u64(seed);
        let tiles = s.solve(&mut rng).unwrap();
        assert_eq!(tiles.len(), 18);
        for t in &tiles {
            assert_ne!(v.get_asset_name(*t).unwrap(), "full");
        }
        check_solution(&v, shape, false, &tiles);
    }
}

#[test]
fn solved_neighbors_are_compatible_with_wrap() {
    let v = layered_vocabulary();
    let shape = [2, 3, 3];
    for seed in 0..10u64 {
        let mut s = Solver::new(shape, &v.bit_mask(), &v, true);
        let mut rng = StdRng::seed_from_u64(seed);
        if let Ok(tiles) = s.solve(&mut rng) {
            check_solution(&v, shape, true, &tiles);
        }
    }
}

#[test]
fn boundary_layers_seed_bottom_and_top() {
    let v = layered_vocabulary();
    let full = v.asset_bits(&String::from("full")).unwrap();
    let grass = v.asset_bits(&String::from("grass")).unwrap();
    let air = v.asset_bits(&String::from("air")).unwrap();
    let initial = v.bit_mask().without(&full);
    let mut s = Solver::new([2, 3, 2], &initial, &v, false);
    assert_eq!(s.collapse_along_axis(&grass, 0, Direction::PosY, [0, 2], [0, 2]), Ok(()));
    assert_eq!(s.collapse_along_axis(&air, -1, Direction::NegY, [0, 2], [0, 2]), Ok(()));
    let mut rng = StdRng::seed_from_u64(3);
    let tiles = s.solve(&mut rng).unwrap();
    for x in 0..2 {
        for z in 0..2 {
            assert_eq!(v.get_asset_name(tiles[(x * 3) * 2 + z]).unwrap(), "grass");
            assert_eq!(v.get_asset_name(tiles[(x * 3 + 1) * 2 + z]).unwrap(), "air");
            assert_eq!(v.get_asset_name(tiles[(x * 3 + 2) * 2 + z]).unwrap(), "air");
        }
    }
}

#[test]
fn restrict_region_touches_only_the_region() {
    let v = layered_vocabulary();
    let mut s = Solver::new([2, 3, 2], &v.bit_mask(), &v, false);
    let before = domains(&s);
    let air = v.asset_bits(&String::from("air")).unwrap();
    assert_eq!(s.restrict_region(&air, 1, Direction::PosX, [0, 2], [1, 2]), Ok(()));
    let after = domains(&s);
    for i in 0..12 {
        let x = i / 6;
        let y = (i % 6) / 2;
        let z = i % 2;
        let inside = x == 1 && y < 2 && z == 1;
        if inside {
            assert_eq!(after[i], air.bits);
        } else {
            assert_eq!(after[i], before[i]);
        }
    }
}

#[test]
fn bad_regions_are_out_of_range() {
    let v = layered_vocabulary();
    let mut s = Solver::new([2, 3, 2], &v.bit_mask(), &v, false);
    let air = v.asset_bits(&String::from("air")).unwrap();
    let before = domains(&s);
    assert_eq!(s.restrict_region(&air, 3, Direction::PosY, [0, 2], [0, 2]), Err(WfcError::OutOfRange));
    assert_eq!(s.restrict_region(&air, -4, Direction::PosY, [0, 2], [0, 2]), Err(WfcError::OutOfRange));
    assert_eq!(s.collapse_along_axis(&air, 0, Direction::PosY, [0, 3], [0, 2]), Err(WfcError::OutOfRange));
    assert_eq!(domains(&s), before);
    assert_eq!(s.domain_at(12).err(), Some(WfcError::OutOfRange));
}

#[test]
fn propagation_on_fixed_point_changes_nothing() {
    let v = layered_vocabulary();
    let full = v.asset_bits(&String::from("full")).unwrap();
    let mut s = Solver::new([2, 3, 2], &v.bit_mask().without(&full), &v, false);
    let grass = v.asset_bits(&String::from("grass")).unwrap();
    assert_eq!(s.collapse_along_axis(&grass, 0, Direction::PosY, [0, 2], [0, 2]), Ok(()));
    let settled = domains(&s);
    assert_eq!(s.propagate((0..12).collect()), Ok(()));
    assert_eq!(domains(&s), settled);
    assert_eq!(s.propagate(vec![]), Ok(()));
    assert_eq!(domains(&s), settled);
}

#[test]
fn propagation_order_does_not_matter() {
    let v = layered_vocabulary();
    let grass = v.asset_bits(&String::from("grass")).unwrap();
    let mut base = Solver::new([2, 3, 2], &v.bit_mask(), &v, false);
    assert_eq!(base.restrict_region(&grass, 1, Direction::PosY, [0, 2], [0, 2]), Ok(()));
    let mut a = base.copy();
    let mut b = base.copy();
    assert_eq!(a.propagate((0..12).collect()), Ok(()));
    assert_eq!(b.propagate((0..12).rev().collect()), Ok(()));
    assert_eq!(domains(&a), domains(&b));
    let d = domains(&a);
    assert_eq!(d[0], v.asset_bits(&String::from("full")).unwrap().bits);
    assert_eq!(d[2], grass.bits);
    assert_eq!(d[4], v.asset_bits(&String::from("air")).unwrap().bits);
}

#[test]
fn solving_a_copy_leaves_the_seeded_solver() {
    let v = layered_vocabulary();
    let full = v.asset_bits(&String::from("full")).unwrap();
    let grass = v.asset_bits(&String::from("grass")).unwrap();
    let mut seeded = Solver::new([2, 3, 2], &v.bit_mask().without(&full), &v, false);
    assert_eq!(seeded.collapse_along_axis(&grass, 0, Direction::PosY, [0, 2], [0, 1]), Ok(()));
    let baseline = domains(&seeded);
    for seed in 0..5u64 {
        let mut attempt = seeded.copy();
        let mut rng = StdRng::seed_from_u64(seed);
        let tiles = attempt.solve(&mut rng).unwrap();
        assert_eq!(tiles.len(), 12);
        assert_eq!(domains(&seeded), baseline);
    }
    assert_eq!(seeded.shape(), [2, 3, 2]);
    assert!(!seeded.wraps());
}

#[test]
fn random_choice_varies_with_the_seed() {
    let v = stacked_vocabulary();
    let mut seen = [false, false];
    for seed in 0..40u64 {
        let mut s = Solver::new([1, 1, 1], &v.bit_mask(), &v, false);
        let mut rng = StdRng::seed_from_u64(seed);
        let tiles = s.solve(&mut rng).unwrap();
        seen[tiles[0]] = true;
    }
    assert_eq!(seen, [true, true]);
}

#[test]
fn min_entropy_prefers_fewest_then_lowest_index() {
    let v = layered_vocabulary();
    let mut s = Solver::new([1, 3, 1], &v.bit_mask(), &v, false);
    assert_eq!(s.find_min_entropy(), Some(0));
    let two = v.bit_mask().without(&v.asset_bits(&String::from("air")).unwrap());
    assert_eq!(s.restrict_region(&two, 2, Direction::PosY, [0, 1], [0, 1]), Ok(()));
    assert_eq!(s.find_min_entropy(), Some(2));
}

#[test]
fn collapse_cell_picks_in_id_order() {
    let v = stacked_vocabulary();
    let mut s = Solver::new([1, 2, 1], &v.bit_mask(), &v, false);
    assert_eq!(s.propagate(vec![0, 1]), Ok(()));
    assert_eq!(domains(&s), vec![vec![true, false], vec![false, true]]);
    let mut t = Solver::new([1, 1, 1], &v.bit_mask(), &v, false);
    assert_eq!(t.propagate(vec![0]), Ok(()));
    assert_eq!(t.collapse_cell(0, 1), Ok(()));
    assert_eq!(domains(&t), vec![vec![false, true]]);
}

#[test]
fn neighbors_step_and_wrap() {
    let s = [2, 3, 4];
    assert_eq!(neighbor_index(s, 0, Direction::PosX, false), Some(12));
    assert_eq!(neighbor_index(s, 0, Direction::PosY, false), Some(4));
    assert_eq!(neighbor_index(s, 0, Direction::PosZ, false), Some(1));
    assert_eq!(neighbor_index(s, 0, Direction::NegZ, false), None);
    assert_eq!(neighbor_index(s, 0, Direction::NegZ, true), Some(3));
    assert_eq!(neighbor_index(s, 23, Direction::PosX, true), Some(11));
    assert_eq!(neighbor_index(s, 23, Direction::PosY, false), None);
}

#[test]
fn domain_operations() {
    let a = Domain::from_flags(vec![true, false, true, true]);
    let b = Domain::from_flags(vec![false, false, true, false]);
    assert_eq!(a.count(), 3);
    assert_eq!(a.nth_one(1), 2);
    assert_eq!(a.intersect(&b).bits, vec![false, false, true, false]);
    assert_eq!(a.without(&b).bits, vec![true, false, false, true]);
    assert!(b.is_subset_of(&a));
    assert!(!a.is_subset_of(&b));
    assert_eq!(b.first_one(), Some(2));
    assert_eq!(Domain::empty(3).first_one(), None);
    let mut c = Domain::empty(4);
    c.union_with(&b);
    c.set(0, true);
    assert_eq!(c.bits, vec![true, false, true, false]);
    assert_eq!(Direction::PosX.opposite(), Direction::NegX);
    assert_eq!(Direction::from_index(3), Direction::NegY);
    assert_eq!(Direction::NegZ.to_index(), 5);
}

#[test]
fn allowed_next_to_is_union_of_compatible() {
    let v = layered_vocabulary();
    let full = v.asset_bits(&String::from("full")).unwrap();
    let grass = v.asset_bits(&String::from("grass")).unwrap();
    let air = v.asset_bits(&String::from("air")).unwrap();
    assert_eq!(v.allowed_next_to(&full, Direction::PosY).bits, grass.bits);
    assert_eq!(v.allowed_next_to(&air, Direction::NegY).bits, vec![false, true, true]);
    assert_eq!(v.allowed_next_to(&v.bit_mask(), Direction::PosX).bits, vec![true, true, true]);
}

#[test]
fn determined_stacked_grid_solves_to_b_below_a() {
    let v = stacked_vocabulary();
    let mut seeded = Solver::new([1, 2, 1], &v.bit_mask(), &v, false);
    let b = v.asset_bits(&String::from("b")).unwrap();
    assert_eq!(seeded.collapse_along_axis(&b, 0, Direction::PosY, [0, 1], [0, 1]), Ok(()));
    let mut attempt = seeded.copy();
    let mut rng = StdRng::seed_from_u64(11);
    let tiles = attempt.solve(&mut rng).unwrap();
    assert_eq!(v.get_asset_name(tiles[0]).unwrap(), "b");
    assert_eq!(v.get_asset_name(tiles[1]).unwrap(), "a");
}

#[test]
fn negative_layer_index_counts_from_the_top() {
    let v = layered_vocabulary();
    let full = v.asset_bits(&String::from("full")).unwrap();
    let grass = v.asset_bits(&String::from("grass")).unwrap();
    for restriction in [v.asset_bits(&String::from("air")).unwrap(), grass.copy()] {
        let mut a = Solver::new([2, 3, 2], &v.bit_mask().without(&full), &v, false);
        let mut b = a.copy();
        let ra = a.collapse_along_axis(&restriction, -1, Direction::NegY, [0, 2], [0, 2]);
        let rb = b.collapse_along_axis(&restriction, 2, Direction::NegY, [0, 2], [0, 2]);
        assert_eq!(ra, rb);
        assert_eq!(domains(&a), domains(&b));
    }
}

#[test]
fn contradiction_leaves_the_fixed_point() {
    let v = stacked_vocabulary();
    let mut a = Solver::new([1, 2, 1], &v.bit_mask(), &v, false);
    assert_eq!(a.restrict_region(&only(2, 1), 0, Direction::PosY, [0, 1], [0, 1]), Ok(()));
    let mut b = a.copy();
    assert_eq!(a.propagate(vec![0, 1]), Err(WfcError::Contradiction));
    assert_eq!(b.propagate(vec![1, 0]), Err(WfcError::Contradiction));
    assert_eq!(domains(&a), domains(&b));
    assert_eq!(domains(&a), vec![vec![false, false], vec![false, false]]);
}

#[test]
fn seeding_a_settled_grid_changes_only_what_it_reaches() {
    let v = layered_vocabulary();
    let mut s = Solver::new([3, 3, 1], &v.bit_mask(), &v, false);
    assert_eq!(s.propagate((0..9).collect()), Ok(()));
    let before = domains(&s);
    let grass = v.asset_bits(&String::from("grass")).unwrap();
    assert_eq!(s.collapse_along_axis(&grass, 1, Direction::PosY, [0, 1], [0, 1]), Ok(()));
    let after = domains(&s);
    // Column x == 0 is narrowed; the layers are joined sideways, so the change spreads.
    assert_eq!(after[1], grass.bits);
    assert_eq!(after[0], v.asset_bits(&String::from("full")).unwrap().bits);
    for i in 0..9 {
        for t in 0..3 {
            assert!(!after[i][t] || before[i][t]);
        }
    }
}
