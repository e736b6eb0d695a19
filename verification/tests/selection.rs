use array2d::Array2D;
use wave_collapse::decision::DecisionTree;
use wave_collapse::propagate::Contradiction;
use wave_collapse::random::Rng;
use wave_collapse::select::find_lowest_entropy;
use wave_collapse::solver::{choose_weighted, collapse};
use wave_collapse::tile::{Coord, Field};

fn tile(name: &str, weight: u32) -> Field {
    let s = "i-a".to_string();
    Field::new(name.to_string(), 0, [s.clone(), s.clone(), s.clone(), s], weight)
}

fn four() -> Vec<Field> {
    vec![tile("a", 1), tile("b", 1), tile("c", 1), tile("d", 1)]
}

#[test]
fn the_only_cell_with_fewer_candidates_is_selected() {
    let tiles = four();
    let all: Vec<&Field> = tiles.iter().collect();
    let mut wave = Array2D::filled_with(all.clone(), 3, 3);
    wave.set(1, 2, all[0..3].to_vec()).unwrap();
    let tree = DecisionTree::new();
    for seed in 0..20 {
        let mut rng = Rng::new(seed);
        assert_eq!(find_lowest_entropy(&wave, &tree, &mut rng), Ok(Some(Coord::new(2, 1))));
    }
}

#[test]
fn a_collapsed_cell_is_passed_over() {
    let tiles = four();
    let all: Vec<&Field> = tiles.iter().collect();
    let mut wave = Array2D::filled_with(all.clone(), 3, 3);
    wave.set(0, 0, all[0..1].to_vec()).unwrap();
    wave.set(2, 1, all[1..4].to_vec()).unwrap();
    let tree = DecisionTree::new();
    let mut rng = Rng::new(3);
    assert_eq!(find_lowest_entropy(&wave, &tree, &mut rng), Ok(Some(Coord::new(1, 2))));
}

#[test]
fn nothing_is_selected_when_all_cells_are_collapsed() {
    let tiles = four();
    let one: Vec<&Field> = vec![&tiles[2]];
    let wave = Array2D::filled_with(one, 3, 3);
    let tree = DecisionTree::new();
    let mut rng = Rng::new(5);
    assert_eq!(find_lowest_entropy(&wave, &tree, &mut rng), Ok(None));
    assert_eq!(rng, Rng::new(5));
}

#[test]
fn nothing_is_selected_in_an_empty_grid() {
    let wave: Array2D<Vec<&Field>> = Array2D::filled_with(Vec::new(), 0, 0);
    let tree = DecisionTree::new();
    let mut rng = Rng::new(5);
    assert_eq!(find_lowest_entropy(&wave, &tree, &mut rng), Ok(None));
}

#[test]
fn ties_are_broken_by_the_generator() {
    let tiles = four();
    let all: Vec<&Field> = tiles.iter().collect();
    let wave = Array2D::filled_with(all, 2, 3);
    let tree = DecisionTree::new();
    // Column by column: (0,0) (0,1) (1,0) (1,1) (2,0) (2,1); the first draw
    // from state 0 is 16294208416658607535, which leaves 1 modulo 6.
    let mut rng = Rng::new(0);
    assert_eq!(find_lowest_entropy(&wave, &tree, &mut rng), Ok(Some(Coord::new(0, 1))));
    // The second draw is 7960286522194355700, which leaves 0 modulo 6.
    assert_eq!(find_lowest_entropy(&wave, &tree, &mut rng), Ok(Some(Coord::new(0, 0))));
}

#[test]
fn a_cell_with_only_forbidden_candidates_is_left_out() {
    let tiles = four();
    let two: Vec<&Field> = vec![&tiles[0], &tiles[1]];
    let mut wave = Array2D::filled_with(two, 1, 2);
    let mut tree = DecisionTree::new();
    collapse(&mut wave, &mut tree, Coord::new(0, 0), &tiles[0]);
    assert!(tree.undo(&mut wave).is_ok());
    collapse(&mut wave, &mut tree, Coord::new(0, 0), &tiles[1]);
    assert!(tree.undo(&mut wave).is_ok());
    for seed in 0..10 {
        let mut rng = Rng::new(seed);
        assert_eq!(find_lowest_entropy(&wave, &tree, &mut rng), Ok(Some(Coord::new(1, 0))));
    }
}

#[test]
fn the_selector_is_stuck_when_every_tied_cell_is_forbidden() {
    let tiles = four();
    let two: Vec<&Field> = vec![&tiles[0], &tiles[1]];
    let mut wave = Array2D::filled_with(two, 1, 1);
    let mut tree = DecisionTree::new();
    collapse(&mut wave, &mut tree, Coord::new(0, 0), &tiles[0]);
    assert!(tree.undo(&mut wave).is_ok());
    collapse(&mut wave, &mut tree, Coord::new(0, 0), &tiles[1]);
    assert!(tree.undo(&mut wave).is_ok());
    let mut rng = Rng::new(9);
    assert_eq!(find_lowest_entropy(&wave, &tree, &mut rng), Err(Contradiction));
    assert_eq!(rng, Rng::new(9));
}

#[test]
fn the_generator_repeats_itself_from_one_seed() {
    let mut a = Rng::new(0);
    assert_eq!(a.next_u64(), 16294208416658607535);
    assert_eq!(a.next_u64(), 7960286522194355700);
    assert_eq!(a.next_u64(), 487617019471545679);
    let mut b = Rng::new(7);
    let mut c = Rng::new(7);
    for _ in 0..100 {
        assert_eq!(b.next_u64(), c.next_u64());
    }
    let mut d = Rng::new(7);
    assert_eq!(d.below(10), 7);
    assert_eq!(d.below(10), 4);
    assert_eq!(d.below(10), 6);
    assert_eq!(d.below(1), 0);
}

#[test]
fn tiles_are_drawn_by_weight() {
    let light = tile("light", 1);
    let heavy = tile("heavy", 3);
    let list = vec![&light, &heavy];
    // Tickets 0 | 1 2 3. The draws from state 0 leave 3, 0 and 3 modulo 4.
    let mut rng = Rng::new(0);
    assert_eq!(choose_weighted(&list, &mut rng), 1);
    assert_eq!(choose_weighted(&list, &mut rng), 0);
    assert_eq!(choose_weighted(&list, &mut rng), 1);
    let swapped = vec![&heavy, &light];
    // Tickets 0 1 2 | 3.
    let mut rng = Rng::new(0);
    assert_eq!(choose_weighted(&swapped, &mut rng), 1);
    assert_eq!(choose_weighted(&swapped, &mut rng), 0);
}

#[test]
fn weights_shape_the_distribution() {
    let light = tile("light", 1);
    let heavy = tile("heavy", 9);
    let list = vec![&light, &heavy];
    let mut rng = Rng::new(42);
    let mut heavy_count = 0;
    for _ in 0..1000 {
        if choose_weighted(&list, &mut rng) == 1 {
            heavy_count += 1;
        }
    }
    assert!(heavy_count > 800);
    assert!(heavy_count < 980);
}

#[test]
fn a_tile_without_weight_is_never_drawn_beside_others() {
    let none = tile("none", 0);
    let some = tile("some", 2);
    let list = vec![&none, &some, &none];
    let mut rng = Rng::new(11);
    for _ in 0..200 {
        assert_eq!(choose_weighted(&list, &mut rng), 1);
    }
}

#[test]
fn the_first_tile_is_taken_when_no_tile_has_weight() {
    let a = tile("a", 0);
    let b = tile("b", 0);
    let list = vec![&a, &b];
    let mut rng = Rng::new(11);
    assert_eq!(choose_weighted(&list, &mut rng), 0);
    assert_ne!(rng, Rng::new(11));
}
