use wave_collapse::catalog::{Data, DataSet};
use wave_collapse::text::entry_string;
use wave_collapse::tile::{Coord, Field};

fn data(name: &str, rotateable: bool, weight: u32) -> Data {
    Data {
        name: name.to_string(),
        rotateable,
        sides: vec!["n".to_string(), "e".to_string(), "s".to_string(), "w".to_string()],
        weight,
    }
}

fn sides_of(f: &Field) -> Vec<String> {
    f.sides().iter().cloned().collect()
}

#[test]
fn a_fixed_tile_has_one_variant() {
    let fields = data("corner.png", false, 3).to_field();
    assert_eq!(fields.len(), 1);
    assert_eq!(fields[0].img_name(), "corner.png");
    assert_eq!(*fields[0].rotation(), 0);
    assert_eq!(*fields[0].weight(), 3);
    assert_eq!(sides_of(&fields[0]), vec!["n", "e", "s", "w"]);
}

#[test]
fn a_rotateable_tile_has_four_variants() {
    let fields = data("corner.png", true, 2).to_field();
    assert_eq!(fields.len(), 4);
    let rotations: Vec<i32> = fields.iter().map(|f| *f.rotation()).collect();
    assert_eq!(rotations, vec![0, 90, 180, 270]);
    assert_eq!(sides_of(&fields[0]), vec!["n", "e", "s", "w"]);
    assert_eq!(sides_of(&fields[1]), vec!["w", "n", "e", "s"]);
    assert_eq!(sides_of(&fields[2]), vec!["s", "w", "n", "e"]);
    assert_eq!(sides_of(&fields[3]), vec!["e", "s", "w", "n"]);
    for f in fields.iter() {
        assert_eq!(f.img_name(), "corner.png");
        assert_eq!(*f.weight(), 2);
    }
}

#[test]
fn a_catalog_holds_all_variants_in_order() {
    let set = DataSet {
        dir: "circuit".to_string(),
        fields: vec![data("a", false, 1), data("b", true, 1), data("c", false, 1)],
    };
    assert!(set.is_complete());
    let tiles = set.to_set();
    assert_eq!(tiles.dir(), "circuit");
    let names: Vec<&str> = tiles.fields().iter().map(|f| f.img_name().as_str()).collect();
    assert_eq!(names, vec!["a", "b", "b", "b", "b", "c"]);
}

#[test]
fn an_empty_catalog_has_no_tiles() {
    let set = DataSet { dir: "none".to_string(), fields: Vec::new() };
    assert!(set.is_complete());
    assert_eq!(set.to_set().fields().len(), 0);
}

#[test]
fn a_tile_with_missing_sides_is_found() {
    let mut short = data("a", false, 1);
    short.sides.pop();
    let set = DataSet { dir: "d".to_string(), fields: vec![data("b", true, 1), short] };
    assert!(!set.is_complete());
}

#[test]
fn tiles_compare_by_all_attributes() {
    let a = data("a", true, 1).to_field();
    assert!(a[0].same(&a[0].duplicate()));
    assert!(!a[0].same(&a[1]));
    assert_eq!(a[2].duplicate(), a[2]);
    let other_weight = data("a", true, 2).to_field();
    assert!(!a[0].same(&other_weight[0]));
    let other_name = data("b", true, 1).to_field();
    assert!(!a[0].same(&other_name[0]));
    assert_eq!(a[1].side(0), "w");
    assert_eq!(a[1].side(3), "s");
}

#[test]
fn a_candidate_list_prints_its_names() {
    let a = data("a.png", false, 1).to_field();
    let b = data("b.png", true, 1).to_field();
    let list = vec![&a[0], &b[0], &b[1]];
    assert_eq!(entry_string(&list), "[a.png, b.png, b.png]");
    assert_eq!(entry_string(&vec![&a[0]]), "[a.png]");
    assert_eq!(entry_string(&Vec::new()), "[]");
}

#[test]
fn coordinates_hold_column_and_row() {
    let c = Coord::new(2, 5);
    assert_eq!(c.x, 2);
    assert_eq!(c.y, 5);
    assert_eq!(c, Coord { x: 2, y: 5 });
}
