use file_loader::accumulate;
use file_loader::FileContents;

#[test]
fn known_content_round_trips_exactly() {
    // A file whose bytes are known comes back byte for byte, in order.
    let chunks: Vec<Vec<u8>> = vec![vec![0x4c, 0x6f, 0x61, 0x64], vec![0x65, 0x64]];
    let contents = accumulate(&chunks);
    assert_eq!(contents.len(), 6);
    let bytes = contents.into_bytes();
    assert_eq!(bytes, vec![0x4c, 0x6f, 0x61, 0x64, 0x65, 0x64]);
}

#[test]
fn single_chunk_is_returned_unchanged() {
    let chunks: Vec<Vec<u8>> = vec![vec![1, 2, 3, 4, 5]];
    let bytes = accumulate(&chunks).into_bytes();
    assert_eq!(bytes, vec![1, 2, 3, 4, 5]);
}

#[test]
fn zero_length_read_yields_empty_contents() {
    // A zero-length file produces no chunks: the result is empty, a success.
    let chunks: Vec<Vec<u8>> = Vec::new();
    let contents = accumulate(&chunks);
    assert!(contents.is_empty());
    assert_eq!(contents.len(), 0);
    assert_eq!(contents.into_bytes(), Vec::<u8>::new());
}

#[test]
fn fresh_buffer_is_empty() {
    let contents = FileContents::new();
    assert!(contents.is_empty());
    assert_eq!(contents.len(), 0);
}

#[test]
fn append_chunk_takes_only_the_read_count() {
    // A read fills only part of its buffer; the tail must not leak in.
    let mut contents = FileContents::new();
    let buffer: [u8; 6] = [10, 20, 30, 99, 99, 99];
    contents.append_chunk(&buffer, 3);
    assert_eq!(contents.len(), 3);
    assert_eq!(contents.into_bytes(), vec![10, 20, 30]);
}

#[test]
fn chunks_keep_their_original_order() {
    let mut contents = FileContents::new();
    contents.append_chunk(&[1, 2], 2);
    contents.append_chunk(&[3], 1);
    contents.append_chunk(&[], 0);
    contents.append_chunk(&[4, 5], 2);
    assert_eq!(contents.into_bytes(), vec![1, 2, 3, 4, 5]);
}

#[test]
fn byte_at_reads_each_position() {
    let chunks: Vec<Vec<u8>> = vec![vec![7], vec![8, 9]];
    let contents = accumulate(&chunks);
    assert_eq!(contents.byte_at(0), 7);
    assert_eq!(contents.byte_at(1), 8);
    assert_eq!(contents.byte_at(2), 9);
}

#[test]
fn repeated_reads_of_same_chunks_are_identical() {
    // An unmodified file hands back the same chunks; the results agree
    // byte for byte.
    let chunks: Vec<Vec<u8>> = vec![vec![5, 6, 7], vec![8]];
    let first = accumulate(&chunks);
    let second = accumulate(&chunks);
    assert!(first.eq_bytes(&second));
    assert_eq!(first.into_bytes(), second.into_bytes());
}

#[test]
fn differing_contents_compare_unequal() {
    let a = accumulate(&vec![vec![1, 2, 3]]);
    let b = accumulate(&vec![vec![1, 2, 4]]);
    let c = accumulate(&vec![vec![1, 2]]);
    assert!(!a.eq_bytes(&b));
    assert!(!a.eq_bytes(&c));
    assert!(a.eq_bytes(&a));
}
