use dupfinder::digest::content_digest;
use dupfinder::grouping::duplicate_groups;
use dupfinder::index::HashIndex;

fn bytes_of(s: &str) -> Vec<u8> {
    s.as_bytes().to_vec()
}

fn fake_digest(tag: u8) -> Vec<u8> {
    vec![tag; 32]
}

#[test]
fn two_duplicates_and_a_unique_file() {
    // x.txt and y.txt share content; z.txt differs.
    let mut ix = HashIndex::new();
    ix.merge(fake_digest(1), bytes_of("/root/a/x.txt"));
    ix.merge(fake_digest(1), bytes_of("/root/b/y.txt"));
    ix.merge(fake_digest(2), bytes_of("/root/c/z.txt"));
    let report = duplicate_groups(&ix);
    assert_eq!(report.len(), 1);
    assert_eq!(
        report[0].folders,
        vec![bytes_of("/root/a"), bytes_of("/root/b")]
    );
    assert_eq!(report[0].files.len(), 1);
    let rep = &report[0].files[0];
    assert!(*rep == bytes_of("/root/a/x.txt") || *rep == bytes_of("/root/b/y.txt"));
    for entry in &report {
        for f in &entry.files {
            assert_ne!(*f, bytes_of("/root/c/z.txt"));
        }
        for d in &entry.folders {
            assert_ne!(*d, bytes_of("/root/c"));
        }
    }
}

#[test]
fn three_copies_in_three_folders() {
    let mut ix = HashIndex::new();
    ix.merge(fake_digest(7), bytes_of("/r/a/one.txt"));
    ix.merge(fake_digest(7), bytes_of("/r/b/two.txt"));
    ix.merge(fake_digest(7), bytes_of("/r/c/three.txt"));
    let report = duplicate_groups(&ix);
    assert_eq!(report.len(), 1);
    assert_eq!(
        report[0].folders,
        vec![bytes_of("/r/a"), bytes_of("/r/b"), bytes_of("/r/c")]
    );
    // One representative per hash group: exactly one file stands in.
    assert_eq!(report[0].files, vec![bytes_of("/r/c/three.txt")]);
}

#[test]
fn unreadable_file_is_absent() {
    // The unreadable file's hash task failed, so it was never merged;
    // the scan went on and the readable duplicates are still reported.
    let mut ix = HashIndex::new();
    ix.merge(fake_digest(3), bytes_of("/r/a/dup.txt"));
    ix.merge(fake_digest(3), bytes_of("/r/b/dup.txt"));
    // "/r/c/locked.txt" never reaches the index.
    let report = duplicate_groups(&ix);
    assert_eq!(report.len(), 1);
    assert_eq!(report[0].folders, vec![bytes_of("/r/a"), bytes_of("/r/b")]);
    for entry in &report {
        for f in &entry.files {
            assert_ne!(*f, bytes_of("/r/c/locked.txt"));
        }
    }
}

#[test]
fn empty_index_gives_empty_report() {
    let ix = HashIndex::new();
    assert_eq!(ix.group_count(), 0);
    let report = duplicate_groups(&ix);
    assert!(report.is_empty());
}

#[test]
fn singleton_groups_never_reported() {
    let mut ix = HashIndex::new();
    ix.merge(fake_digest(1), bytes_of("/r/a/only.txt"));
    ix.merge(fake_digest(2), bytes_of("/r/b/other.txt"));
    let report = duplicate_groups(&ix);
    assert!(report.is_empty());
}

#[test]
fn shared_folder_key_merges_groups() {
    // Two distinct hash groups whose duplicates live in the same folder
    // pair: their representatives merge into one entry.
    let mut ix = HashIndex::new();
    ix.merge(fake_digest(1), bytes_of("/r/a/x1.txt"));
    ix.merge(fake_digest(1), bytes_of("/r/b/x2.txt"));
    ix.merge(fake_digest(2), bytes_of("/r/a/y1.txt"));
    ix.merge(fake_digest(2), bytes_of("/r/b/y2.txt"));
    let report = duplicate_groups(&ix);
    assert_eq!(report.len(), 1);
    assert_eq!(report[0].folders, vec![bytes_of("/r/a"), bytes_of("/r/b")]);
    assert_eq!(
        report[0].files,
        vec![bytes_of("/r/b/x2.txt"), bytes_of("/r/b/y2.txt")]
    );
}

#[test]
fn real_digests_group_by_content() {
    let mut ix = HashIndex::new();
    let same = bytes_of("identical payload");
    let diff = bytes_of("different payload");
    ix.merge(content_digest(&same), bytes_of("/root/a/x.txt"));
    ix.merge(content_digest(&same), bytes_of("/root/b/y.txt"));
    ix.merge(content_digest(&diff), bytes_of("/root/c/z.txt"));
    let report = duplicate_groups(&ix);
    assert_eq!(report.len(), 1);
    assert_eq!(
        report[0].folders,
        vec![bytes_of("/root/a"), bytes_of("/root/b")]
    );
}

#[test]
fn duplicates_in_one_folder() {
    let mut ix = HashIndex::new();
    ix.merge(fake_digest(5), bytes_of("/r/a/copy1.txt"));
    ix.merge(fake_digest(5), bytes_of("/r/a/copy2.txt"));
    let report = duplicate_groups(&ix);
    assert_eq!(report.len(), 1);
    // The folder appears once, even though both duplicates live in it.
    assert_eq!(report[0].folders, vec![bytes_of("/r/a")]);
    assert_eq!(report[0].files, vec![bytes_of("/r/a/copy2.txt")]);
}
