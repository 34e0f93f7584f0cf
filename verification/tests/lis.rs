use shezem_rs::utils::longest_increasing_subsequence;

#[test]
fn test_empty() {
    let empty: Vec<u32> = vec![];
    assert_eq!(longest_increasing_subsequence(&empty), vec![]);
}

#[test]
fn test_single_element() {
    let single = vec![5];
    assert_eq!(longest_increasing_subsequence(&single), vec![5]);
}

#[test]
fn test_all_same() {
    // A strictly increasing subsequence of an all-equal sequence is a
    // single element.
    let all_same = vec![3, 3, 3, 3];
    assert_eq!(longest_increasing_subsequence(&all_same), vec![3]);
}

#[test]
fn test_strictly_increasing() {
    let increasing = vec![1, 2, 3, 4, 5];
    assert_eq!(
        longest_increasing_subsequence(&increasing),
        vec![1, 2, 3, 4, 5]
    );
}

#[test]
fn test_mixed_sequence_length() {
    let seq = vec![3, 1, 4, 1, 5, 9, 2, 6];
    let lis = longest_increasing_subsequence(&seq);
    assert_eq!(lis.len(), 4);
    for w in lis.windows(2) {
        assert!(w[0] < w[1]);
    }
}

#[test]
fn test_decreasing_sequence() {
    let seq = vec![9, 7, 5, 3];
    assert_eq!(longest_increasing_subsequence(&seq).len(), 1);
}
