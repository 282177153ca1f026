use filematch::FilePath;
use filematch::is_hidden;

fn comps(s: &str) -> Vec<Vec<u8>> {
    s.split('/').map(|c| c.as_bytes().to_vec()).collect()
}

fn path(s: &str) -> FilePath {
    FilePath::from_components(comps(s))
}

#[test]
fn hidden_names_start_with_a_dot() {
    assert!(is_hidden(b".git"));
    assert!(is_hidden(b"."));
    assert!(is_hidden(b".hidden"));
    assert!(!is_hidden(b"git"));
    assert!(!is_hidden(b"a.b"));
    assert!(!is_hidden(b""));
}

#[test]
fn clone_preserves_components() {
    let p = path("root/sub/file.txt");
    let q = p.clone_path();
    assert_eq!(q.components(), &comps("root/sub/file.txt"));
}

#[test]
fn relative_to_strips_the_root_prefix() {
    let p = path("root/sub/file.txt");
    let base = path("root");
    let r = p.relative_to(&base);
    assert_eq!(r.components(), &comps("sub/file.txt"));

    let deep_base = path("root/sub");
    let r2 = p.relative_to(&deep_base);
    assert_eq!(r2.components(), &comps("file.txt"));
}

#[test]
fn relative_to_keeps_a_path_not_under_the_base() {
    let p = path("elsewhere/file.txt");
    let base = path("root");
    let r = p.relative_to(&base);
    assert_eq!(r.components(), &comps("elsewhere/file.txt"));

    // a base longer than the path cannot be a prefix
    let long_base = path("elsewhere/file.txt/deeper");
    let r2 = p.relative_to(&long_base);
    assert_eq!(r2.components(), &comps("elsewhere/file.txt"));

    // sharing only part of the prefix is not enough
    let near_base = path("elsewhere/other");
    let r3 = p.relative_to(&near_base);
    assert_eq!(r3.components(), &comps("elsewhere/file.txt"));
}
