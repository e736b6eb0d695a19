use array2d::Array2D;
use wave_collapse::decision::{DecisionTree, NotCollapsable};
use wave_collapse::propagate::propagate;
use wave_collapse::solver::collapse;
use wave_collapse::tile::{Coord, Field, Params};
use wave_collapse::wave::{copy_list, dimensions, read_cell, write_cell};

fn tile(name: &str, label: &str) -> Field {
    let s = label.to_string();
    Field::new(name.to_string(), 0, [s.clone(), s.clone(), s.clone(), s], 1)
}

fn pair() -> Vec<Field> {
    vec![tile("substrate", "i-substrate"), tile("cross", "i-wire")]
}

fn open_sides<'a>(tiles: &'a Vec<Field>, n: usize) -> [Vec<Vec<&'a Field>>; 4] {
    let cell: Vec<&Field> = tiles.iter().collect();
    let side = vec![cell; n];
    [side.clone(), side.clone(), side.clone(), side]
}

fn entropy(wave: &Array2D<Vec<&Field>>) -> usize {
    wave.elements_row_major_iter().map(|c| c.len()).sum()
}

fn names(list: &Vec<&Field>) -> Vec<String> {
    list.iter().map(|f| f.img_name().clone()).collect()
}

#[test]
fn a_new_tree_is_empty() {
    let tree = DecisionTree::new();
    assert_eq!(tree.history_len(), 0);
    assert_eq!(tree.depth(), 0);
    assert_eq!(tree.forbidden_len(), 0);
    assert!(!tree.exhausted());
}

#[test]
fn forbidding_on_an_empty_branch_fails() {
    let mut tree = DecisionTree::new();
    assert_eq!(tree.forbid_last_decision(), Err(NotCollapsable));
    assert_eq!(tree.forbidden_len(), 0);
}

#[test]
fn undo_without_a_decision_fails() {
    let tiles = pair();
    let all: Vec<&Field> = tiles.iter().collect();
    let mut wave = Array2D::filled_with(all, 2, 2);
    let mut tree = DecisionTree::new();
    assert_eq!(tree.undo(&mut wave), Err(NotCollapsable));
    assert_eq!(entropy(&wave), 8);
}

#[test]
fn a_decision_is_recorded() {
    let tiles = pair();
    let all: Vec<&Field> = tiles.iter().collect();
    let wave = Array2D::filled_with(all, 2, 2);
    let mut tree = DecisionTree::new();
    tree.decide(&wave, Coord::new(1, 0), &tiles[1]);
    assert_eq!(tree.history_len(), 1);
    assert_eq!(tree.depth(), 1);
    assert_eq!(tree.forbidden_len(), 0);
    tree.decide(&wave, Coord::new(0, 1), &tiles[0]);
    assert_eq!(tree.history_len(), 2);
    assert_eq!(tree.depth(), 2);
}

#[test]
fn a_forbidden_tile_is_listed_for_its_cell_only() {
    let tiles = pair();
    let all: Vec<&Field> = tiles.iter().collect();
    let wave = Array2D::filled_with(all, 2, 2);
    let mut tree = DecisionTree::new();
    tree.decide(&wave, Coord::new(1, 0), &tiles[1]);
    assert_eq!(tree.forbid_last_decision(), Ok(()));
    assert_eq!(tree.depth(), 0);
    assert_eq!(tree.forbidden_len(), 1);
    assert_eq!(names(&tree.get_forbidden_options(Coord::new(1, 0))), vec!["cross"]);
    assert_eq!(tree.get_forbidden_options(Coord::new(0, 1)).len(), 0);
    assert_eq!(tree.get_forbidden_options(Coord::new(0, 0)).len(), 0);
}

#[test]
fn forbidden_tiles_are_not_among_the_remaining() {
    let tiles = pair();
    let all: Vec<&Field> = tiles.iter().collect();
    let mut wave = Array2D::filled_with(all, 1, 2);
    let mut tree = DecisionTree::new();
    let pos = Coord::new(0, 0);
    assert_eq!(names(&tree.remaining_options(&wave, pos)), vec!["substrate", "cross"]);
    collapse(&mut wave, &mut tree, pos, &tiles[0]);
    assert_eq!(tree.undo(&mut wave), Ok(()));
    let left = tree.remaining_options(&wave, pos);
    assert_eq!(names(&left), vec!["cross"]);
    let forbidden = tree.get_forbidden_options(pos);
    for f in left.iter() {
        for g in forbidden.iter() {
            assert!(!f.same(g));
        }
    }
    assert_eq!(names(&tree.remaining_options(&wave, Coord::new(1, 0))), vec!["substrate", "cross"]);
    collapse(&mut wave, &mut tree, pos, &tiles[1]);
    assert_eq!(tree.undo(&mut wave), Ok(()));
    assert_eq!(tree.remaining_options(&wave, pos).len(), 0);
    assert_eq!(tree.forbidden_len(), 2);
}

#[test]
fn a_collapse_lowers_the_entropy() {
    let tiles = pair();
    let all: Vec<&Field> = tiles.iter().collect();
    let mut wave = Array2D::filled_with(all, 1, 3);
    let mut tree = DecisionTree::new();
    assert_eq!(entropy(&wave), 6);
    collapse(&mut wave, &mut tree, Coord::new(1, 0), &tiles[1]);
    assert_eq!(entropy(&wave), 5);
    assert_eq!(names(wave.get(0, 1).unwrap()), vec!["cross"]);
    assert_eq!(tree.depth(), 1);
    assert_eq!(tree.history_len(), 1);
}

#[test]
fn undo_restores_the_wave_of_the_collapse() {
    let tiles = pair();
    let sides = open_sides(&tiles, 3);
    let params = Params::new(&tiles, &sides);
    let all: Vec<&Field> = tiles.iter().collect();
    let mut wave = Array2D::filled_with(all, 1, 3);
    let mut tree = DecisionTree::new();
    let before = wave.clone();
    let pos = Coord::new(1, 0);
    collapse(&mut wave, &mut tree, pos, &tiles[1]);
    assert_eq!(propagate(&params, &mut wave, &mut tree, vec![pos], true), Ok(()));
    assert_eq!(entropy(&wave), 3);
    assert_eq!(tree.history_len(), 4);
    assert_eq!(tree.undo(&mut wave), Ok(()));
    assert_eq!(entropy(&wave), 6);
    assert_eq!(wave, before);
    assert_eq!(tree.history_len(), 0);
    assert_eq!(tree.depth(), 0);
    assert_eq!(tree.forbidden_len(), 1);
}

#[test]
fn undo_stops_at_the_newest_collapse() {
    let tiles = pair();
    let all: Vec<&Field> = tiles.iter().collect();
    let mut wave = Array2D::filled_with(all, 1, 3);
    let mut tree = DecisionTree::new();
    collapse(&mut wave, &mut tree, Coord::new(0, 0), &tiles[0]);
    let between = wave.clone();
    collapse(&mut wave, &mut tree, Coord::new(2, 0), &tiles[1]);
    assert_eq!(entropy(&wave), 4);
    assert_eq!(tree.undo(&mut wave), Ok(()));
    assert_eq!(wave, between);
    assert_eq!(tree.depth(), 1);
    assert_eq!(tree.history_len(), 1);
    assert_eq!(names(&tree.get_forbidden_options(Coord::new(2, 0))), vec!["cross"]);
}

#[test]
fn cells_are_read_and_written_by_column_and_row() {
    let tiles = pair();
    let all: Vec<&Field> = tiles.iter().collect();
    let mut wave = Array2D::filled_with(all.clone(), 2, 3);
    assert_eq!(dimensions(&wave), (3, 2));
    write_cell(&mut wave, Coord::new(2, 1), vec![&tiles[1]]);
    assert_eq!(names(wave.get(1, 2).unwrap()), vec!["cross"]);
    assert_eq!(names(&read_cell(&wave, Coord::new(2, 1))), vec!["cross"]);
    assert_eq!(names(&read_cell(&wave, Coord::new(1, 1))), vec!["substrate", "cross"]);
    assert_eq!(read_cell(&wave, Coord::new(3, 0)).len(), 0);
    assert_eq!(read_cell(&wave, Coord::new(0, 2)).len(), 0);
    let before = wave.clone();
    write_cell(&mut wave, Coord::new(1, 2), vec![&tiles[0]]);
    assert_eq!(wave, before);
    assert_eq!(names(&copy_list(&all)), vec!["substrate", "cross"]);
}
