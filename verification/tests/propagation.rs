use array2d::Array2D;
use wave_collapse::constraint::{
    apply_constraints, clear_duplicate_coords, clear_duplicates, constrain, find_neighbors,
    find_real_neighbors,
};
use wave_collapse::decision::DecisionTree;
use wave_collapse::propagate::{propagate, update_field, Contradiction};
use wave_collapse::tile::{Coord, Field, Params};

fn tile(name: &str, sides: [&str; 4]) -> Field {
    Field::new(
        name.to_string(),
        0,
        [sides[0].to_string(), sides[1].to_string(), sides[2].to_string(), sides[3].to_string()],
        1,
    )
}

fn gen_set() -> Vec<Field> {
    vec![
        tile("substrate", ["i-substrate", "i-substrate", "i-substrate", "i-substrate"]),
        tile("wire", ["i-wire", "i-substrate", "i-wire", "i-substrate"]),
        tile("track", ["i-substrate", "i-wire", "i-substrate", "i-wire"]),
        tile("cross", ["i-wire", "i-wire", "i-wire", "i-wire"]),
    ]
}

fn open_sides<'a>(tiles: &'a Vec<Field>, n: usize) -> [Vec<Vec<&'a Field>>; 4] {
    let cell: Vec<&Field> = tiles.iter().collect();
    let side = vec![cell; n];
    [side.clone(), side.clone(), side.clone(), side]
}

fn names(list: &Vec<&Field>) -> Vec<String> {
    list.iter().map(|f| f.img_name().clone()).collect()
}

fn texts(list: &Vec<&String>) -> Vec<String> {
    list.iter().map(|s| (*s).clone()).collect()
}

#[test]
fn adjacent_cells_are_listed_north_east_south_west() {
    let tiles = gen_set();
    let all: Vec<&Field> = tiles.iter().collect();
    let wave = Array2D::filled_with(all, 3, 4);
    assert_eq!(
        find_real_neighbors(&wave, Coord::new(1, 1)),
        vec![Coord::new(1, 0), Coord::new(2, 1), Coord::new(1, 2), Coord::new(0, 1)]
    );
    assert_eq!(
        find_real_neighbors(&wave, Coord::new(0, 0)),
        vec![Coord::new(1, 0), Coord::new(0, 1)]
    );
    assert_eq!(
        find_real_neighbors(&wave, Coord::new(3, 2)),
        vec![Coord::new(3, 1), Coord::new(2, 2)]
    );
    assert_eq!(find_real_neighbors(&wave, Coord::new(4, 1)), vec![Coord::new(3, 1)]);
    assert_eq!(find_real_neighbors(&wave, Coord::new(9, 9)), Vec::new());
}

#[test]
fn a_single_cell_has_no_adjacent_cells() {
    let tiles = gen_set();
    let all: Vec<&Field> = tiles.iter().collect();
    let wave = Array2D::filled_with(all, 1, 1);
    assert_eq!(find_real_neighbors(&wave, Coord::new(0, 0)), Vec::new());
}

#[test]
fn repeated_items_are_removed_in_order() {
    let a = Coord::new(0, 0);
    let b = Coord::new(1, 0);
    let c = Coord::new(0, 1);
    assert_eq!(clear_duplicate_coords(vec![a, b, a, c, b, b]), vec![a, b, c]);
    assert_eq!(clear_duplicate_coords(Vec::new()), Vec::new());
    let x = "x".to_string();
    let y = "y".to_string();
    let x2 = "x".to_string();
    assert_eq!(texts(&clear_duplicates(vec![&y, &x, &x2, &y])), vec!["y", "x"]);
}

#[test]
fn neighbours_offer_the_labels_that_face_the_cell() {
    let tiles = gen_set();
    let sides = open_sides(&tiles, 3);
    let params = Params::new(&tiles, &sides);
    let all: Vec<&Field> = tiles.iter().collect();
    let mut wave = Array2D::filled_with(all, 3, 3);
    wave.set(0, 1, vec![&tiles[1]]).unwrap();
    wave.set(1, 2, vec![&tiles[1], &tiles[0]]).unwrap();
    let offered = find_neighbors(&params, &wave, Coord::new(1, 1));
    assert_eq!(texts(&offered[0]), vec!["i-wire"]);
    assert_eq!(texts(&offered[1]), vec!["i-substrate"]);
    assert_eq!(texts(&offered[2]), vec!["i-substrate", "i-wire"]);
    assert_eq!(texts(&offered[3]), vec!["i-substrate", "i-wire"]);
}

#[test]
fn a_boundary_offers_its_virtual_cell_or_the_catalog() {
    let tiles = gen_set();
    let north: Vec<Vec<&Field>> = vec![vec![&tiles[3]]];
    let none: Vec<Vec<&Field>> = Vec::new();
    let sides = [north, none.clone(), none.clone(), none];
    let params = Params::new(&tiles, &sides);
    let all: Vec<&Field> = tiles.iter().collect();
    let wave = Array2D::filled_with(all, 1, 2);
    let first = find_neighbors(&params, &wave, Coord::new(0, 0));
    assert_eq!(texts(&first[0]), vec!["i-wire"]);
    assert_eq!(texts(&first[2]), vec!["i-substrate", "i-wire"]);
    assert_eq!(texts(&first[3]), vec!["i-substrate", "i-wire"]);
    let second = find_neighbors(&params, &wave, Coord::new(1, 0));
    assert_eq!(texts(&second[0]), vec!["i-substrate", "i-wire"]);
    assert_eq!(texts(&second[1]), vec!["i-substrate", "i-wire"]);
}

#[test]
fn only_supported_tiles_stay() {
    let tiles = gen_set();
    let substrate = "i-substrate".to_string();
    let wire = "i-wire".to_string();
    let offers = [vec![&wire], vec![&substrate, &wire], vec![&wire], vec![&substrate]];
    let mut list: Vec<&Field> = tiles.iter().collect();
    assert!(apply_constraints(&mut list, &offers));
    assert_eq!(names(&list), vec!["wire"]);
    assert!(!apply_constraints(&mut list, &offers));
    assert_eq!(names(&list), vec!["wire"]);
    let nothing: Vec<&String> = Vec::new();
    let closed = [vec![&wire], nothing, vec![&wire], vec![&substrate]];
    assert!(apply_constraints(&mut list, &closed));
    assert_eq!(list.len(), 0);
}

#[test]
fn a_cell_is_narrowed_by_its_neighbours() {
    let tiles = gen_set();
    let sides = open_sides(&tiles, 3);
    let params = Params::new(&tiles, &sides);
    let all: Vec<&Field> = tiles.iter().collect();
    let mut wave = Array2D::filled_with(all, 1, 3);
    wave.set(0, 0, vec![&tiles[3]]).unwrap();
    assert_eq!(names(&constrain(&params, &wave, Coord::new(1, 0))), vec!["track", "cross"]);
    assert_eq!(
        names(&constrain(&params, &wave, Coord::new(2, 0))),
        vec!["substrate", "wire", "track", "cross"]
    );
    assert_eq!(constrain(&params, &wave, Coord::new(3, 0)).len(), 0);
}

#[test]
fn narrowing_spreads_from_cell_to_cell() {
    let tiles = vec![
        tile("substrate", ["i-substrate", "i-substrate", "i-substrate", "i-substrate"]),
        tile("cross", ["i-wire", "i-wire", "i-wire", "i-wire"]),
    ];
    let sides = open_sides(&tiles, 3);
    let params = Params::new(&tiles, &sides);
    let all: Vec<&Field> = tiles.iter().collect();
    let mut wave = Array2D::filled_with(all, 1, 3);
    wave.set(0, 0, vec![&tiles[1]]).unwrap();
    assert_eq!(update_field(&params, &mut wave, Coord::new(0, 0)), Ok(2));
    for x in 0..3 {
        assert_eq!(names(wave.get(0, x).unwrap()), vec!["cross"]);
    }
    assert_eq!(update_field(&params, &mut wave, Coord::new(0, 0)), Ok(0));
}

#[test]
fn every_narrowing_goes_to_the_log() {
    let tiles = gen_set();
    let sides = open_sides(&tiles, 2);
    let params = Params::new(&tiles, &sides);
    let all: Vec<&Field> = tiles.iter().collect();
    let mut wave = Array2D::filled_with(all, 2, 2);
    let mut tree = DecisionTree::new();
    assert_eq!(propagate(&params, &mut wave, &mut tree, vec![Coord::new(0, 0)], false), Ok(()));
    assert_eq!(tree.history_len(), 0);
    assert_eq!(propagate(&params, &mut wave, &mut tree, vec![Coord::new(0, 0)], true), Ok(()));
    assert_eq!(tree.history_len(), 1);
    assert_eq!(tree.depth(), 0);
    wave.set(0, 0, vec![&tiles[3]]).unwrap();
    assert_eq!(propagate(&params, &mut wave, &mut tree, vec![Coord::new(1, 0)], false), Ok(()));
    assert_eq!(names(wave.get(0, 1).unwrap()), vec!["track", "cross"]);
    assert_eq!(names(wave.get(1, 0).unwrap()), vec!["substrate", "wire", "track", "cross"]);
    assert_eq!(tree.history_len(), 2);
}

#[test]
fn a_position_outside_the_grid_is_skipped() {
    let tiles = gen_set();
    let sides = open_sides(&tiles, 2);
    let params = Params::new(&tiles, &sides);
    let all: Vec<&Field> = tiles.iter().collect();
    let mut wave = Array2D::filled_with(all, 2, 2);
    let before = wave.clone();
    let mut tree = DecisionTree::new();
    let work = vec![Coord::new(5, 5), Coord::new(2, 0)];
    assert_eq!(propagate(&params, &mut wave, &mut tree, work, true), Ok(()));
    assert_eq!(wave, before);
    assert_eq!(tree.history_len(), 0);
}

#[test]
fn a_cell_without_support_is_a_contradiction() {
    let tiles = gen_set();
    let north: Vec<Vec<&Field>> = vec![vec![&tiles[0]]];
    let none: Vec<Vec<&Field>> = Vec::new();
    let sides = [north, none.clone(), none.clone(), none];
    let params = Params::new(&tiles, &sides);
    let mut wave = Array2D::filled_with(vec![&tiles[3]], 1, 1);
    let mut tree = DecisionTree::new();
    assert_eq!(
        propagate(&params, &mut wave, &mut tree, vec![Coord::new(0, 0)], false),
        Err(Contradiction)
    );
    assert_eq!(names(wave.get(0, 0).unwrap()), vec!["cross"]);
    assert_eq!(tree.history_len(), 0);
    assert_eq!(update_field(&params, &mut wave, Coord::new(0, 0)), Ok(0));
}

#[test]
fn a_contradiction_next_to_a_cell_is_reported() {
    let tiles = vec![
        tile("substrate", ["i-substrate", "i-substrate", "i-substrate", "i-substrate"]),
        tile("cross", ["i-wire", "i-wire", "i-wire", "i-wire"]),
    ];
    let sides = open_sides(&tiles, 2);
    let params = Params::new(&tiles, &sides);
    let mut wave = Array2D::filled_with(vec![&tiles[0]], 1, 2);
    wave.set(0, 0, vec![&tiles[1]]).unwrap();
    assert_eq!(update_field(&params, &mut wave, Coord::new(0, 0)), Err(Contradiction));
    assert_eq!(names(wave.get(0, 1).unwrap()), vec!["substrate"]);
}
