use array2d::Array2D;
use wave_collapse::decision::{DecisionTree, NotCollapsable};
use wave_collapse::edge::fits;
use wave_collapse::random::Rng;
use wave_collapse::solver::{collapse_wave, solve};
use wave_collapse::tile::{Field, Params};

fn tile(name: &str, sides: [&str; 4]) -> Field {
    Field::new(
        name.to_string(),
        0,
        [sides[0].to_string(), sides[1].to_string(), sides[2].to_string(), sides[3].to_string()],
        1,
    )
}

fn gen_set() -> Vec<Field> {
    vec![
        tile("substrate", ["i-substrate", "i-substrate", "i-substrate", "i-substrate"]),
        tile("wire", ["i-wire", "i-substrate", "i-wire", "i-substrate"]),
        tile("track", ["i-substrate", "i-wire", "i-substrate", "i-wire"]),
        tile("cross", ["i-wire", "i-wire", "i-wire", "i-wire"]),
    ]
}

fn open_sides<'a>(tiles: &'a Vec<Field>, n: usize) -> [Vec<Vec<&'a Field>>; 4] {
    let cell: Vec<&Field> = tiles.iter().collect();
    let side = vec![cell; n];
    [side.clone(), side.clone(), side.clone(), side]
}

fn all_edges_fit(grid: &Array2D<Field>) -> bool {
    for y in 0..grid.num_rows() {
        for x in 0..grid.num_columns() {
            let here = grid.get(y, x).unwrap();
            if let Some(east) = grid.get(y, x + 1) {
                if !fits(&here.sides()[1], &east.sides()[3]) {
                    return false;
                }
                if !fits(&east.sides()[3], &here.sides()[1]) {
                    return false;
                }
            }
            if let Some(south) = grid.get(y + 1, x) {
                if !fits(&here.sides()[2], &south.sides()[0]) {
                    return false;
                }
                if !fits(&south.sides()[0], &here.sides()[2]) {
                    return false;
                }
            }
        }
    }
    true
}

fn in_catalog(grid: &Array2D<Field>, tiles: &Vec<Field>) -> bool {
    grid.elements_row_major_iter().all(|f| tiles.iter().any(|t| t == f))
}

#[test]
fn an_open_grid_is_solved() {
    let tiles = gen_set();
    let sides = open_sides(&tiles, 3);
    let params = Params::new(&tiles, &sides);
    let mut rng = Rng::new(7);
    let grid = collapse_wave(&params, &mut rng).unwrap();
    assert_eq!(grid.num_rows(), 3);
    assert_eq!(grid.num_columns(), 3);
    assert!(all_edges_fit(&grid));
    assert!(in_catalog(&grid, &tiles));
}

#[test]
fn every_seed_gives_a_fitting_grid() {
    let tiles = gen_set();
    let sides = open_sides(&tiles, 4);
    let params = Params::new(&tiles, &sides);
    for seed in 0..40 {
        let mut rng = Rng::new(seed);
        match collapse_wave(&params, &mut rng) {
            Ok(grid) => {
                assert_eq!(grid.num_rows(), 4);
                assert_eq!(grid.num_columns(), 4);
                assert!(all_edges_fit(&grid));
                assert!(in_catalog(&grid, &tiles));
            },
            Err(e) => assert_eq!(e, NotCollapsable),
        }
    }
}

#[test]
fn one_seed_gives_one_grid() {
    let tiles = gen_set();
    let sides = open_sides(&tiles, 5);
    let params = Params::new(&tiles, &sides);
    for seed in [0u64, 7, 99] {
        let mut first = Rng::new(seed);
        let mut second = Rng::new(seed);
        let a = collapse_wave(&params, &mut first);
        let b = collapse_wave(&params, &mut second);
        assert_eq!(a, b);
        assert_eq!(first, second);
    }
}

#[test]
fn other_seeds_give_other_grids() {
    let tiles = gen_set();
    let sides = open_sides(&tiles, 5);
    let params = Params::new(&tiles, &sides);
    let first = collapse_wave(&params, &mut Rng::new(0));
    let mut differs = false;
    for seed in 1..30 {
        if collapse_wave(&params, &mut Rng::new(seed)) != first {
            differs = true;
        }
    }
    assert!(differs);
}

#[test]
fn the_north_boundary_constrains_the_top_row() {
    let tiles = gen_set();
    let mut sides = open_sides(&tiles, 3);
    sides[0] = vec![vec![&tiles[0]]; 3];
    let params = Params::new(&tiles, &sides);
    for seed in 0..20 {
        let mut rng = Rng::new(seed);
        if let Ok(grid) = collapse_wave(&params, &mut rng) {
            for x in 0..3 {
                let top = grid.get(0, x).unwrap();
                assert_eq!(top.sides()[0], "i-substrate");
                assert!(top.img_name() == "substrate" || top.img_name() == "track");
            }
            assert!(all_edges_fit(&grid));
        }
    }
    let mut rng = Rng::new(7);
    assert!(collapse_wave(&params, &mut rng).is_ok());
}

#[test]
fn all_four_boundaries_constrain_the_grid() {
    let tiles = gen_set();
    let cross_only: Vec<Vec<&Field>> = vec![vec![&tiles[3]]; 2];
    let sides = [cross_only.clone(), cross_only.clone(), cross_only.clone(), cross_only];
    let params = Params::new(&tiles, &sides);
    let mut rng = Rng::new(3);
    let grid = collapse_wave(&params, &mut rng).unwrap();
    assert!(all_edges_fit(&grid));
    assert_eq!(grid.get(0, 0).unwrap().sides()[0], "i-wire");
    assert_eq!(grid.get(0, 0).unwrap().sides()[3], "i-wire");
    assert_eq!(grid.get(1, 1).unwrap().sides()[1], "i-wire");
    assert_eq!(grid.get(1, 1).unwrap().sides()[2], "i-wire");
}

#[test]
fn a_single_tile_fills_the_grid() {
    let tiles = vec![gen_set().remove(0)];
    let sides = open_sides(&tiles, 5);
    let params = Params::new(&tiles, &sides);
    let mut rng = Rng::new(1);
    let grid = collapse_wave(&params, &mut rng).unwrap();
    assert_eq!(grid.num_rows(), 5);
    assert_eq!(grid.num_columns(), 5);
    assert!(grid.elements_row_major_iter().all(|f| f.img_name() == "substrate"));
    assert_eq!(rng, Rng::new(1));
}

#[test]
fn a_tile_that_does_not_fit_itself_cannot_fill_a_grid() {
    let tiles = vec![tile("plug", ["q-wire", "q-wire", "q-wire", "q-wire"])];
    let sides = open_sides(&tiles, 2);
    let params = Params::new(&tiles, &sides);
    let mut rng = Rng::new(1);
    assert_eq!(collapse_wave(&params, &mut rng), Err(NotCollapsable));
}

#[test]
fn a_uniqueness_flag_keeps_a_pair_apart() {
    assert!(!fits("q-wire-u_k1", "p-wire-u_k1"));
    let tiles = vec![
        tile("plain", ["i-s", "i-s", "i-s", "i-s"]),
        tile("left", ["i-s", "q-wire-u_k1", "i-s", "i-s"]),
        tile("right", ["i-s", "i-s", "i-s", "p-wire-u_k1"]),
        tile("plug", ["i-s", "q-wire", "i-s", "i-s"]),
        tile("socket", ["i-s", "i-s", "i-s", "p-wire"]),
    ];
    let sides = open_sides(&tiles, 2);
    let params = Params::new(&tiles, &sides);
    let mut solved = 0;
    for seed in 0..40 {
        let mut rng = Rng::new(seed);
        match collapse_wave(&params, &mut rng) {
            Ok(grid) => {
                solved += 1;
                assert!(all_edges_fit(&grid));
                for y in 0..2 {
                    let west = grid.get(y, 0).unwrap();
                    let east = grid.get(y, 1).unwrap();
                    assert!(!(west.img_name() == "left" && east.img_name() == "right"));
                }
            },
            Err(e) => assert_eq!(e, NotCollapsable),
        }
    }
    assert!(solved > 0);
}

#[test]
fn a_forced_collision_cannot_be_solved() {
    let tiles = vec![
        tile("left", ["i-s", "q-wire-u_k1", "i-s", "i-s"]),
        tile("right", ["i-s", "i-s", "i-s", "p-wire-u_k1"]),
    ];
    let sides = open_sides(&tiles, 2);
    let params = Params::new(&tiles, &sides);
    for seed in 0..10 {
        let mut rng = Rng::new(seed);
        assert_eq!(collapse_wave(&params, &mut rng), Err(NotCollapsable));
    }
}

#[test]
fn an_empty_catalog_cannot_be_solved() {
    let tiles: Vec<Field> = Vec::new();
    let sides = open_sides(&tiles, 3);
    let params = Params::new(&tiles, &sides);
    let mut rng = Rng::new(7);
    assert_eq!(collapse_wave(&params, &mut rng), Err(NotCollapsable));
    assert_eq!(rng, Rng::new(7));
}

#[test]
fn a_grid_without_cells_is_solved_at_once() {
    let tiles = gen_set();
    let sides = open_sides(&tiles, 0);
    let params = Params::new(&tiles, &sides);
    let mut rng = Rng::new(7);
    let grid = collapse_wave(&params, &mut rng).unwrap();
    assert_eq!(grid.num_elements(), 0);
}

#[test]
fn the_grid_is_as_wide_as_the_north_and_as_high_as_the_south_boundary() {
    let tiles = gen_set();
    let cell: Vec<&Field> = tiles.iter().collect();
    let sides = [vec![cell.clone(); 4], Vec::new(), vec![cell.clone(); 2], Vec::new()];
    let params = Params::new(&tiles, &sides);
    let mut rng = Rng::new(5);
    let grid = collapse_wave(&params, &mut rng).unwrap();
    assert_eq!(grid.num_columns(), 4);
    assert_eq!(grid.num_rows(), 2);
    assert!(all_edges_fit(&grid));
}

#[test]
fn the_search_goes_on_from_a_given_wave() {
    let tiles = gen_set();
    let sides = open_sides(&tiles, 3);
    let params = Params::new(&tiles, &sides);
    let all: Vec<&Field> = tiles.iter().collect();
    let mut wave = Array2D::filled_with(all, 3, 3);
    let mut tree = DecisionTree::new();
    let mut rng = Rng::new(12);
    assert_eq!(solve(&params, &mut wave, &mut tree, &mut rng), Ok(()));
    assert!(wave.elements_row_major_iter().all(|c| c.len() == 1));
    assert!(tree.depth() > 0);
    assert!(tree.history_len() >= tree.depth());
}

#[test]
fn the_parameters_give_back_what_they_were_made_of() {
    let tiles = gen_set();
    let sides = open_sides(&tiles, 2);
    let params = Params::new(&tiles, &sides);
    assert_eq!(params.fields().len(), 4);
    assert_eq!(params.sides()[0].len(), 2);
    assert_eq!(params.sides()[3][1].len(), 4);
}
