use dupefiles::{check_duplicates, compare, is_duplicate, FileContent};
use std::cmp::Ordering;

fn entity(path: &str, device: u64, data: Vec<u8>) -> FileContent {
    FileContent::new(path.to_string(), device, data)
}

#[test]
fn size_fast_path_reads_nothing() {
    let mut small = entity("/d/small.bin", 1, vec![7u8; 50]);
    let mut large = entity("/d/large.bin", 1, vec![7u8; 100]);
    assert_eq!(compare(&mut small, &mut large), Ordering::Less);
    assert_eq!(compare(&mut large, &mut small), Ordering::Greater);
    assert_eq!(small.bytes_read(), 0, "size fast path must not read content");
    assert_eq!(large.bytes_read(), 0, "size fast path must not read content");
}

#[test]
fn identity_fast_path_reads_nothing() {
    let mut a = entity("/d/same.bin", 1, vec![1u8; 64]);
    let mut b = entity("/d/same.bin", 1, vec![1u8; 64]);
    assert_eq!(compare(&mut a, &mut b), Ordering::Equal);
    assert_eq!(a.bytes_read(), 0);
    assert_eq!(b.bytes_read(), 0);
}

#[test]
fn self_exclusion() {
    let mut a = entity("/d/a.bin", 1, vec![3u8; 10]);
    let mut also_a = entity("/d/a.bin", 1, vec![3u8; 10]);
    assert!(!is_duplicate(&mut a, &mut also_a), "a file is not its own duplicate");
}

#[test]
fn duplicate_relation_is_symmetric() {
    let mut a = entity("/d/a.bin", 1, vec![9u8; 33]);
    let mut b = entity("/d/b.bin", 1, vec![9u8; 33]);
    assert!(is_duplicate(&mut a, &mut b));
    assert!(is_duplicate(&mut b, &mut a));

    let mut c = entity("/d/c.bin", 1, vec![8u8; 33]);
    assert!(!is_duplicate(&mut a, &mut c));
    assert!(!is_duplicate(&mut c, &mut a));
}

#[test]
fn duplicate_relation_is_transitive() {
    let content = b"the very same bytes in all three files".to_vec();
    let mut a = entity("/d/a.bin", 1, content.clone());
    let mut b = entity("/d/b.bin", 1, content.clone());
    let mut c = entity("/d/c.bin", 1, content);
    assert!(is_duplicate(&mut a, &mut b));
    assert!(is_duplicate(&mut b, &mut c));
    assert!(is_duplicate(&mut a, &mut c));
}

#[test]
fn amortization_never_rereads_covered_bytes() {
    let len = 3 * 4096 + 100;
    let base = vec![0u8; len];
    let mut fixed = entity("/d/fixed.bin", 1, base.clone());
    for n in 0..5u8 {
        let mut other_data = base.clone();
        let last = other_data.len() - 1;
        other_data[last] = n + 1;
        let mut other = entity(&format!("/d/other{}.bin", n), 1, other_data);
        assert!(!is_duplicate(&mut fixed, &mut other));
    }
    assert!(
        fixed.bytes_read() <= len,
        "digest re-read bytes across comparisons: {} > {}",
        fixed.bytes_read(),
        len
    );
}

#[test]
fn device_isolation() {
    let content = b"identical content".to_vec();
    let mut a = entity("/d/a.bin", 1, content.clone());
    let mut b = entity("/e/b.bin", 2, content);
    assert!(!is_duplicate(&mut a, &mut b));
    assert!(!is_duplicate(&mut b, &mut a));
    assert_eq!(a.bytes_read(), 0, "device fast path must not read content");
}

#[test]
fn end_to_end_scenario_a() {
    let content_x = vec![0xabu8; 100];
    let original = entity("/d/original.bin", 1, content_x.clone());
    let copies = vec![
        entity("/d/copy1.bin", 1, content_x.clone()),
        entity("/d/copy2.bin", 1, content_x.clone()),
        entity("/d/copy3.bin", 1, content_x),
    ];
    let mut checks = copies;
    let sets = check_duplicates(vec![original], &mut checks);
    assert_eq!(sets.len(), 1, "expected exactly one duplicate set");
    assert_eq!(sets[0].original.path().as_str(), "/d/original.bin");
    assert_eq!(sets[0].dupes.len(), 3, "expected the three copies as members");
    assert!(checks.is_empty(), "all copies should have been drained");
}

#[test]
fn end_to_end_scenario_b() {
    let a = entity("/d/a.bin", 1, vec![5u8; 50]);
    let mut checks = vec![
        entity("/d/x.bin", 1, vec![5u8; 10]),
        entity("/d/y.bin", 1, vec![5u8; 100]),
    ];
    let sets = check_duplicates(vec![a], &mut checks);
    assert_eq!(sets.len(), 0, "no check of equal size, so no duplicate set");
    assert_eq!(checks.len(), 2, "nothing should have been drained");
}

#[test]
fn end_to_end_scenario_c() {
    // Same size, differing in the final byte only: judged not equal, with
    // coverage having reached the diverging (single) chunk, i.e. the end.
    let mut data_a = vec![1u8; 100];
    let mut data_b = vec![1u8; 100];
    data_b[99] = 2;
    let mut a = entity("/d/a.bin", 1, data_a.clone());
    let mut b = entity("/d/b.bin", 1, data_b.clone());
    assert_ne!(compare(&mut a, &mut b), Ordering::Equal);
    assert!(!is_duplicate(&mut a, &mut b));

    // Same size, diverging in the first chunk of several: the comparator
    // must stop early, short of the full file length.
    let len = 3 * 4096;
    data_a = vec![1u8; len];
    data_b = vec![1u8; len];
    data_b[0] = 2;
    let mut c = entity("/d/c.bin", 1, data_a);
    let mut d = entity("/d/d.bin", 1, data_b);
    assert_ne!(compare(&mut c, &mut d), Ordering::Equal);
    assert!(c.bytes_read() < len, "comparison should settle before the end");
    assert!(d.bytes_read() < len, "comparison should settle before the end");
    assert_eq!(c.bytes_read(), 4096);
}

#[test]
fn grouping_keeps_leftovers_in_order() {
    let content = b"shared".to_vec();
    let orig = entity("/d/orig.bin", 1, content.clone());
    let mut checks = vec![
        entity("/d/dup1.bin", 1, content.clone()),
        entity("/d/lone.bin", 1, b"others".to_vec()),
        entity("/d/dup2.bin", 1, content),
    ];
    let sets = check_duplicates(vec![orig], &mut checks);
    assert_eq!(sets.len(), 1);
    assert_eq!(sets[0].dupes.len(), 2);
    assert_eq!(sets[0].dupes[0].path().as_str(), "/d/dup1.bin");
    assert_eq!(sets[0].dupes[1].path().as_str(), "/d/dup2.bin");
    assert_eq!(checks.len(), 1);
    assert_eq!(checks[0].path().as_str(), "/d/lone.bin");
}

#[test]
fn grouping_respects_devices() {
    let content = b"identical content".to_vec();
    let orig = entity("/d/orig.bin", 1, content.clone());
    let mut checks = vec![entity("/e/elsewhere.bin", 2, content)];
    let sets = check_duplicates(vec![orig], &mut checks);
    assert_eq!(sets.len(), 0, "files on different devices are never grouped");
    assert_eq!(checks.len(), 1);
}

#[test]
fn entity_metadata_getters() {
    let e = entity("/d/meta.bin", 7, vec![0u8; 1234]);
    assert_eq!(e.len(), 1234);
    assert_eq!(e.device_class(), 7);
    assert_eq!(e.path().as_str(), "/d/meta.bin");
}
