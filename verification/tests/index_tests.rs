use dupfinder::index::HashIndex;

fn bytes_of(s: &str) -> Vec<u8> {
    s.as_bytes().to_vec()
}

fn fake_digest(tag: u8) -> Vec<u8> {
    vec![tag; 32]
}

#[test]
fn empty_index_has_no_groups() {
    let ix = HashIndex::new();
    assert_eq!(ix.group_count(), 0);
}

#[test]
fn merge_new_digest_opens_group() {
    let mut ix = HashIndex::new();
    ix.merge(fake_digest(1), bytes_of("/a/x"));
    ix.merge(fake_digest(2), bytes_of("/a/y"));
    assert_eq!(ix.group_count(), 2);
    assert_eq!(ix.groups[0].digest, fake_digest(1));
    assert_eq!(ix.groups[0].paths, vec![bytes_of("/a/x")]);
}

#[test]
fn merge_known_digest_appends_path() {
    let mut ix = HashIndex::new();
    ix.merge(fake_digest(1), bytes_of("/a/x"));
    ix.merge(fake_digest(2), bytes_of("/b/y"));
    ix.merge(fake_digest(1), bytes_of("/c/z"));
    assert_eq!(ix.group_count(), 2);
    assert_eq!(
        ix.groups[0].paths,
        vec![bytes_of("/a/x"), bytes_of("/c/z")]
    );
    assert_eq!(ix.groups[1].paths, vec![bytes_of("/b/y")]);
}
