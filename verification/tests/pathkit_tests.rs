use dupfinder::pathkit::{canonical_folders, parent_of_path};

fn bytes_of(s: &str) -> Vec<u8> {
    s.as_bytes().to_vec()
}

#[test]
fn parent_of_nested_path() {
    assert_eq!(
        parent_of_path(&bytes_of("/root/a/x.txt")),
        bytes_of("/root/a")
    );
}

#[test]
fn parent_of_bare_name_is_empty() {
    assert_eq!(parent_of_path(&bytes_of("x.txt")), bytes_of(""));
}

#[test]
fn parent_of_top_level_file_is_root() {
    assert_eq!(parent_of_path(&bytes_of("/x.txt")), bytes_of("/"));
}

#[test]
fn parent_of_relative_path() {
    assert_eq!(parent_of_path(&bytes_of("a/b")), bytes_of("a"));
}

#[test]
fn canonical_folders_sorts_and_dedups() {
    let paths = vec![
        bytes_of("/r/b/y.txt"),
        bytes_of("/r/a/x.txt"),
        bytes_of("/r/a/z.txt"),
    ];
    let folders = canonical_folders(&paths);
    assert_eq!(folders, vec![bytes_of("/r/a"), bytes_of("/r/b")]);
}

#[test]
fn canonical_folders_order_independent() {
    let one = vec![bytes_of("/r/b/y.txt"), bytes_of("/r/a/x.txt")];
    let other = vec![bytes_of("/r/a/x.txt"), bytes_of("/r/b/y.txt")];
    assert_eq!(canonical_folders(&one), canonical_folders(&other));
}
