use filematch::FilePath;
use filematch::sort_paths;

fn comps(s: &str) -> Vec<Vec<u8>> {
    s.split('/').map(|c| c.as_bytes().to_vec()).collect()
}

fn path(s: &str) -> FilePath {
    FilePath::from_components(comps(s))
}

fn rendered(v: &[FilePath]) -> Vec<Vec<Vec<u8>>> {
    v.iter().map(|p| p.components().clone()).collect()
}

#[test]
fn sort_orders_component_wise() {
    let input = vec![path("b"), path("a/x"), path("a-b"), path("a")];
    let sorted = sort_paths(input);
    // a path is ordered before any path it is a prefix of, and components
    // compare before the separator is considered
    let expected = vec![
        comps("a"),
        comps("a/x"),
        comps("a-b"),
        comps("b"),
    ];
    assert_eq!(rendered(&sorted), expected);
}

#[test]
fn sort_keeps_duplicates() {
    let input = vec![path("dup"), path("a"), path("dup")];
    let sorted = sort_paths(input);
    let expected = vec![comps("a"), comps("dup"), comps("dup")];
    assert_eq!(rendered(&sorted), expected);
}

#[test]
fn sort_is_insensitive_to_input_order() {
    let one = vec![path("z"), path("m/q"), path("a"), path("m")];
    let two = vec![path("m"), path("a"), path("z"), path("m/q")];
    assert_eq!(rendered(&sort_paths(one)), rendered(&sort_paths(two)));
}

#[test]
fn sort_of_empty_is_empty() {
    let sorted = sort_paths(Vec::new());
    assert!(sorted.is_empty());
}
