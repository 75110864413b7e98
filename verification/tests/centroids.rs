use vectorscale::centroids::{
    centroids_size, holds_centroids, read_centroids_from_shmem, write_centroids_to_shmem,
};

#[test]
fn centroids_are_read_back() {
    let centroids = vec![vec![1, 2, 3, 4], vec![5, 6, 7, 8], vec![9, 10, 11, 12]];
    let bytes = centroids_size(3, 4);
    assert_eq!(bytes, 8 + 3 * (8 + 4 * 4));
    let mut memory = vec![0xFFFF_FFFFu32; bytes / 4];
    write_centroids_to_shmem(&mut memory, &centroids, 4);
    assert_eq!(memory[..4], [3, 0, 4, 0]);
    assert_eq!(read_centroids_from_shmem(&memory), centroids);
}

#[test]
fn only_the_wanted_components_are_written() {
    let centroids = vec![vec![1, 2, 3], vec![4, 5, 6]];
    let mut memory = vec![0u32; centroids_size(2, 2) / 4];
    write_centroids_to_shmem(&mut memory, &centroids, 2);
    assert_eq!(read_centroids_from_shmem(&memory), vec![vec![1, 2], vec![4, 5]]);
}

#[test]
fn one_centroid_of_odd_length_is_read_back() {
    let centroids = vec![vec![7, 8, 9]];
    let mut memory = vec![0u32; centroids_size(1, 3) / 4];
    write_centroids_to_shmem(&mut memory, &centroids, 3);
    assert_eq!(read_centroids_from_shmem(&memory), centroids);
}

#[test]
fn a_length_overlaps_an_odd_component() {
    // The length of the second centroid lies on the last component of the first.
    let centroids = vec![vec![7, 8, 9], vec![1, 2, 3]];
    let mut memory = vec![0u32; centroids_size(2, 3) / 4];
    write_centroids_to_shmem(&mut memory, &centroids, 3);
    assert_eq!(read_centroids_from_shmem(&memory), vec![vec![7, 8, 3], vec![1, 2, 3]]);
}

#[test]
fn no_centroids_are_read_back() {
    let mut memory = vec![9u32; 2];
    write_centroids_to_shmem(&mut memory, &[], 5);
    assert_eq!(memory, vec![0, 0]);
    assert!(read_centroids_from_shmem(&memory).is_empty());
}

#[test]
fn memory_that_holds_no_centroids_is_told() {
    let mut memory = vec![0u32; centroids_size(2, 3) / 4];
    write_centroids_to_shmem(&mut memory, &[vec![7, 8, 9], vec![1, 2, 3]], 3);
    assert!(holds_centroids(&memory));
    assert!(holds_centroids(&[0, 0]));
    assert!(!holds_centroids(&[]));
    assert!(!holds_centroids(&[0]));
    // One word is missing, one centroid too many is announced, or a length is far too large.
    assert!(!holds_centroids(&memory[..memory.len() - 1]));
    memory[0] = 3;
    assert!(!holds_centroids(&memory));
    assert!(!holds_centroids(&[1, 0, 0, 1]));
    assert!(!holds_centroids(&[u32::MAX, u32::MAX, 0, 0]));
}
