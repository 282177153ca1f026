use std::collections::HashSet;

use filematch::FileHasher;
use filematch::FilePath;
use filematch::Side;
use filematch::SideMapping;
use filematch::WorkerMaps;
use filematch::compare_hashmaps;
use filematch::compute_file_hash_and_insert_path;
use filematch::partition_map_values;
use filematch::sort_paths;

fn comps(s: &str) -> Vec<Vec<u8>> {
    s.split('/').map(|c| c.as_bytes().to_vec()).collect()
}

fn path(s: &str) -> FilePath {
    FilePath::from_components(comps(s))
}

fn record(map: &mut SideMapping, content: &[u8], p: &str, base: Option<&str>) {
    let mut h = FileHasher::new();
    h.update(content);
    let b = base.map(path);
    compute_file_hash_and_insert_path(map, &h, path(p), b.as_ref());
}

fn rendered(v: &[FilePath]) -> Vec<Vec<Vec<u8>>> {
    v.iter().map(|p| p.components().clone()).collect()
}

fn as_set(v: &[FilePath]) -> HashSet<Vec<Vec<u8>>> {
    rendered(v).into_iter().collect()
}

fn set_of(paths: &[&str]) -> HashSet<Vec<Vec<u8>>> {
    paths.iter().map(|s| comps(s)).collect()
}

#[test]
fn scenario_with_duplicates() {
    // left: a.txt = "hello", dup1.txt = "x", dup2.txt = "x"
    // right: b.txt = "hello", c.txt = "y"
    let mut left = SideMapping::new();
    record(&mut left, b"hello", "a.txt", None);
    record(&mut left, b"x", "dup1.txt", None);
    record(&mut left, b"x", "dup2.txt", None);
    let mut right = SideMapping::new();
    record(&mut right, b"hello", "b.txt", None);
    record(&mut right, b"y", "c.txt", None);

    let (i, u1, u2) = compare_hashmaps(&left, &right, true, true, true);
    let i = sort_paths(i.unwrap());
    let u1 = sort_paths(u1.unwrap());
    let u2 = sort_paths(u2.unwrap());

    assert_eq!(rendered(&i), vec![comps("a.txt"), comps("b.txt")]);
    assert_eq!(rendered(&u1), vec![comps("dup1.txt"), comps("dup2.txt")]);
    assert_eq!(rendered(&u2), vec![comps("c.txt")]);
}

#[test]
fn flag_gating_controls_each_output() {
    let mut left = SideMapping::new();
    record(&mut left, b"one", "l.txt", None);
    let mut right = SideMapping::new();
    record(&mut right, b"two", "r.txt", None);

    let (i, u1, u2) = compare_hashmaps(&left, &right, true, false, false);
    assert!(i.is_some());
    assert!(u1.is_none());
    assert!(u2.is_none());

    let (i, u1, u2) = compare_hashmaps(&left, &right, false, true, false);
    assert!(i.is_none());
    assert!(u1.is_some());
    assert!(u2.is_none());

    let (i, u1, u2) = compare_hashmaps(&left, &right, false, false, true);
    assert!(i.is_none());
    assert!(u1.is_none());
    assert!(u2.is_some());

    let (i, u1, u2) = compare_hashmaps(&left, &right, false, false, false);
    assert!(i.is_none() && u1.is_none() && u2.is_none());
}

#[test]
fn partition_map_values_matches_compare_hashmaps() {
    let mut left = SideMapping::new();
    record(&mut left, b"shared", "l.txt", None);
    record(&mut left, b"only left", "m.txt", None);
    let mut right = SideMapping::new();
    record(&mut right, b"shared", "r.txt", None);

    let (i1, u11, u21) = compare_hashmaps(&left, &right, true, true, true);
    let (i2, u12, u22) = partition_map_values(&left, &right, true, true, true);
    assert_eq!(as_set(&i1.unwrap()), as_set(&i2.unwrap()));
    assert_eq!(as_set(&u11.unwrap()), as_set(&u12.unwrap()));
    assert_eq!(as_set(&u21.unwrap()), as_set(&u22.unwrap()));
}

#[test]
fn partition_completeness_by_path() {
    // every left path is in exactly one of intersection / unique-left
    let left_files: Vec<(&[u8], &str)> = vec![
        (b"alpha", "one.txt"),
        (b"beta", "two.txt"),
        (b"gamma", "sub/three.txt"),
        (b"alpha", "four.txt"),
    ];
    let right_files: Vec<(&[u8], &str)> = vec![(b"alpha", "r1.txt"), (b"delta", "r2.txt")];

    let mut left = SideMapping::new();
    for (content, p) in &left_files {
        record(&mut left, content, p, None);
    }
    let mut right = SideMapping::new();
    for (content, p) in &right_files {
        record(&mut right, content, p, None);
    }

    let (i, u1, _) = compare_hashmaps(&left, &right, true, true, true);
    let i = as_set(&i.unwrap());
    let u1 = as_set(&u1.unwrap());
    for (_, p) in &left_files {
        let in_i = i.contains(&comps(p));
        let in_u = u1.contains(&comps(p));
        assert!(in_i != in_u, "each left path is in exactly one output");
    }
}

#[test]
fn hidden_files_pruned_before_grouping_never_reach_outputs() {
    // the walk prunes a hidden entry and with it its subtree; simulate the
    // walk by filtering on the hidden-name test before recording
    let files: Vec<(&[u8], &str)> = vec![
        (b"keep", "a.txt"),
        (b"drop", ".secret.txt"),
        (b"drop", ".hidden/inner.txt"),
        (b"keep", "sub/b.txt"),
    ];
    let mut left = SideMapping::new();
    for (content, p) in &files {
        let hidden = p.split('/').any(|c| filematch::is_hidden(c.as_bytes()));
        if !hidden {
            record(&mut left, content, p, None);
        }
    }
    let right = SideMapping::new();
    let (i, u1, u2) = compare_hashmaps(&left, &right, true, true, true);
    let all: HashSet<_> = as_set(&i.unwrap())
        .into_iter()
        .chain(as_set(&u1.unwrap()))
        .chain(as_set(&u2.unwrap()))
        .collect();
    assert_eq!(all, set_of(&["a.txt", "sub/b.txt"]));
}

#[test]
fn relative_rewrite_applies_at_recording() {
    let mut left = SideMapping::new();
    record(&mut left, b"data", "treeleft/sub/a.txt", Some("treeleft"));
    let mut right = SideMapping::new();
    record(&mut right, b"data", "treeright/a.txt", Some("treeright"));
    record(&mut right, b"more", "treeright/b.txt", Some("treeright"));

    let (i, _, u2) = compare_hashmaps(&left, &right, true, true, true);
    assert_eq!(as_set(&i.unwrap()), set_of(&["sub/a.txt", "a.txt"]));
    assert_eq!(as_set(&u2.unwrap()), set_of(&["b.txt"]));
}

#[test]
fn absolute_paths_kept_without_base() {
    let mut left = SideMapping::new();
    record(&mut left, b"data", "treeleft/a.txt", None);
    let right = SideMapping::new();
    let (_, u1, _) = compare_hashmaps(&left, &right, false, true, false);
    assert_eq!(as_set(&u1.unwrap()), set_of(&["treeleft/a.txt"]));
}

#[test]
fn empty_groupings_give_empty_outputs() {
    let left = SideMapping::new();
    let right = SideMapping::new();
    let (i, u1, u2) = compare_hashmaps(&left, &right, true, true, true);
    assert!(i.unwrap().is_empty());
    assert!(u1.unwrap().is_empty());
    assert!(u2.unwrap().is_empty());
}

#[test]
fn worker_maps_route_by_side_and_merge() {
    // two workers each see a mixture of both sides
    let mut w1 = WorkerMaps::new();
    let mut w2 = WorkerMaps::new();

    let mut h = FileHasher::new();
    h.update(b"common");
    w1.record(Side::Left, &h, path("left1.txt"), None);
    let mut h = FileHasher::new();
    h.update(b"common");
    w2.record(Side::Right, &h, path("right1.txt"), None);
    let mut h = FileHasher::new();
    h.update(b"only left");
    w2.record(Side::Left, &h, path("left2.txt"), None);
    let mut h = FileHasher::new();
    h.update(b"only right");
    w1.record(Side::Right, &h, path("right2.txt"), None);

    let mut left = SideMapping::new();
    let mut right = SideMapping::new();
    left.merge_from(&w1.left);
    right.merge_from(&w1.right);
    left.merge_from(&w2.left);
    right.merge_from(&w2.right);

    let (i, u1, u2) = compare_hashmaps(&left, &right, true, true, true);
    assert_eq!(as_set(&i.unwrap()), set_of(&["left1.txt", "right1.txt"]));
    assert_eq!(as_set(&u1.unwrap()), set_of(&["left2.txt"]));
    assert_eq!(as_set(&u2.unwrap()), set_of(&["right2.txt"]));
}

#[test]
fn grouping_is_stable_across_worker_orderings() {
    // the same files split differently over workers, merged in a
    // different order, still print the same sorted outputs
    let files: Vec<(&[u8], &str, Side)> = vec![
        (b"hello", "a.txt", Side::Left),
        (b"x", "dup1.txt", Side::Left),
        (b"x", "dup2.txt", Side::Left),
        (b"hello", "b.txt", Side::Right),
        (b"y", "c.txt", Side::Right),
    ];

    let run = |order: &[usize], split: usize| -> (Vec<Vec<Vec<u8>>>, Vec<Vec<Vec<u8>>>, Vec<Vec<Vec<u8>>>) {
        let mut w1 = WorkerMaps::new();
        let mut w2 = WorkerMaps::new();
        for (pos, &idx) in order.iter().enumerate() {
            let (content, p, side) = files[idx];
            let mut h = FileHasher::new();
            h.update(content);
            if pos < split {
                w1.record(side, &h, path(p), None);
            } else {
                w2.record(side, &h, path(p), None);
            }
        }
        let mut left = SideMapping::new();
        let mut right = SideMapping::new();
        left.merge_from(&w1.left);
        left.merge_from(&w2.left);
        right.merge_from(&w2.right);
        right.merge_from(&w1.right);
        let (i, u1, u2) = compare_hashmaps(&left, &right, true, true, true);
        (
            rendered(&sort_paths(i.unwrap())),
            rendered(&sort_paths(u1.unwrap())),
            rendered(&sort_paths(u2.unwrap())),
        )
    };

    let first = run(&[0, 1, 2, 3, 4], 2);
    let second = run(&[4, 2, 0, 3, 1], 3);
    assert_eq!(first, second);
    assert_eq!(first.0, vec![comps("a.txt"), comps("b.txt")]);
    assert_eq!(first.1, vec![comps("dup1.txt"), comps("dup2.txt")]);
    assert_eq!(first.2, vec![comps("c.txt")]);
}
