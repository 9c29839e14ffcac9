use llm_service::forward::{
    all_single_token, positions, request_offsets, BatchShape, QueryRange, Request,
};

fn q(start: u32, end: u32) -> QueryRange {
    QueryRange { start, end }
}

#[test]
fn range_lengths() {
    let r = q(3, 7);
    assert_eq!(r.pos(), 3);
    assert_eq!(r.seq_len(), 4);
    assert_eq!(r.att_len(), 7);
    let e = q(5, 5);
    assert_eq!(e.seq_len(), 0);
    assert_eq!(e.att_len(), 5);
    // an inverted range is empty
    assert_eq!(q(6, 2).seq_len(), 0);
}

#[test]
fn request_lengths() {
    let tokens = [7u32, 8, 9];
    let r = Request { tokens: &tokens, pos: 5 };
    assert_eq!(r.seq_len(), 3);
    assert_eq!(r.att_len(), 8);
    assert_eq!(r.range(), q(5, 8));
    let e = Request { tokens: &[], pos: 2 };
    assert_eq!(e.seq_len(), 0);
    assert_eq!(e.att_len(), 2);
}

#[test]
fn batch_shape_sums_and_maxima() {
    let shape = BatchShape::of(&[q(0, 22), q(10, 11), q(3, 3), q(100, 104)]).unwrap();
    assert_eq!(shape, BatchShape { nt: 27, max_seq_len: 22, max_att_len: 104 });
}

#[test]
fn batch_shape_of_nothing() {
    assert_eq!(
        BatchShape::of(&[]),
        Some(BatchShape { nt: 0, max_seq_len: 0, max_att_len: 0 })
    );
}

#[test]
fn offsets_are_prefix_sums() {
    assert_eq!(
        request_offsets(&[q(0, 22), q(10, 11), q(3, 3), q(100, 104)]),
        Some(vec![0, 22, 23, 23])
    );
    assert_eq!(request_offsets(&[]), Some(vec![]));
}

#[test]
fn positions_run_through_each_range() {
    assert_eq!(
        positions(&[q(0, 3), q(10, 11), q(3, 3), q(100, 102)]),
        Some(vec![0, 1, 2, 10, 100, 101])
    );
    assert_eq!(positions(&[]), Some(vec![]));
}

#[test]
fn a_prompt_of_twenty_two_tokens() {
    let prompt: [u32; 22] = [
        29966, 29989, 1792, 29989, 29958, 13, 29903, 388, 376, 18567, 29908, 304, 592, 21106,
        29879, 5299, 29989, 465, 22137, 29989, 29958, 13,
    ];
    let r = Request { tokens: &prompt, pos: 0 };
    let ranges = [r.range()];
    let shape = BatchShape::of(&ranges).unwrap();
    assert_eq!(shape, BatchShape { nt: 22, max_seq_len: 22, max_att_len: 22 });
    assert_eq!(positions(&ranges).unwrap(), (0..22).collect::<Vec<u32>>());
}

#[test]
fn single_token_steps() {
    assert!(all_single_token(&[q(3, 4), q(0, 1), q(9, 10)]));
    assert!(all_single_token(&[]));
    assert!(!all_single_token(&[q(3, 4), q(0, 2)]));
    assert!(!all_single_token(&[q(3, 3)]));
}
