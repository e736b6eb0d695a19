use wave_collapse::edge::{fits, same_chars, split_label};

#[test]
fn symmetric_edges_of_one_class_fit() {
    assert!(fits("i-substrate", "i-substrate"));
    assert!(fits("i-wire", "i-wire"));
    assert!(fits("i-", "i-"));
}

#[test]
fn connector_pair_fits_in_both_orders() {
    assert!(fits("q-wire", "p-wire"));
    assert!(fits("p-wire", "q-wire"));
}

#[test]
fn symmetric_edges_of_other_classes_do_not_fit() {
    assert!(!fits("i-substrate", "i-wire"));
    assert!(!fits("i-wire", "i-substrate"));
}

#[test]
fn a_connector_does_not_fit_itself() {
    assert!(!fits("q-wire", "q-wire"));
    assert!(!fits("p-wire", "p-wire"));
}

#[test]
fn connector_pair_of_other_classes_does_not_fit() {
    assert!(!fits("q-wire", "p-track"));
    assert!(!fits("p-track", "q-wire"));
}

#[test]
fn the_same_uniqueness_flag_never_fits() {
    assert!(!fits("i-wire-u_k1", "i-wire-u_k1"));
    assert!(!fits("q-wire-u_k1", "p-wire-u_k1"));
    assert!(!fits("p-wire-u_k1", "q-wire-u_k1"));
}

#[test]
fn other_flags_do_not_matter() {
    assert!(fits("i-wire-u_k1", "i-wire-u_k2"));
    assert!(fits("q-wire-u_k1", "p-wire"));
    assert!(fits("i-wire-x", "i-wire-x"));
    assert!(fits("i-wire-u", "i-wire-u"));
    assert!(fits("i-wire-none", "i-wire"));
}

#[test]
fn a_label_with_one_token_fits_nothing() {
    assert!(!fits("i", "i"));
    assert!(!fits("", ""));
    assert!(!fits("i", "i-wire"));
    assert!(!fits("i-wire", "wire"));
}

#[test]
fn a_mixed_pair_of_shapes_does_not_fit() {
    assert!(!fits("i-wire", "q-wire"));
    assert!(!fits("p-wire", "i-wire"));
    assert!(!fits("x-wire", "x-wire"));
    assert!(!fits("ii-wire", "ii-wire"));
}

#[test]
fn fitting_is_symmetric_on_samples() {
    let labels = ["i-a", "q-a", "p-a", "i-b", "q-a-u_1", "p-a-u_1", "p-a-u_2", "x", ""];
    for a in labels.iter() {
        for b in labels.iter() {
            assert_eq!(fits(a, b), fits(b, a));
        }
    }
}

#[test]
fn labels_split_at_every_hyphen() {
    let t = split_label("q-wire-u_k1");
    let texts: Vec<String> = t.iter().map(|v| v.iter().collect()).collect();
    assert_eq!(texts, vec!["q".to_string(), "wire".to_string(), "u_k1".to_string()]);
    assert_eq!(split_label("").len(), 1);
    assert_eq!(split_label("-").len(), 2);
    assert_eq!(split_label("a--b").len(), 3);
    assert_eq!(split_label("a--b")[1].len(), 0);
}

#[test]
fn character_vectors_compare_by_content() {
    assert!(same_chars(&vec!['a', 'b'], &vec!['a', 'b']));
    assert!(!same_chars(&vec!['a', 'b'], &vec!['a', 'c']));
    assert!(!same_chars(&vec!['a'], &vec!['a', 'b']));
}
