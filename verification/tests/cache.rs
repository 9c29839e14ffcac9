use llm_service::cache::Cache;

fn cache(capacity: u32, tokens: Vec<u32>) -> Cache<()> {
    Cache::with_storage((), capacity, tokens)
}

#[test]
fn fresh_cache_has_nothing_stored() {
    let c = cache(8, vec![1, 2, 3]);
    assert_eq!(c.len(), 3);
    assert_eq!(c.base(), 0);
    assert_eq!(c.start(), 0);
    assert_eq!(c.end(), 0);
    assert_eq!(c.capacity(), 8);
    assert_eq!(c.cached_range(), 0..0);
    assert_eq!(c.query(), &[1, 2, 3]);
    assert_eq!(c.slice_tail(1), &[2, 3]);
    assert_eq!(c.slice_tail(3), &[] as &[u32]);
}

#[test]
fn extend_and_push_do_not_move_end() {
    let mut c = cache(8, vec![1]);
    c.extend(&[2, 3]);
    c.push(4);
    assert_eq!(c.len(), 4);
    assert_eq!(c.end(), 0);
    assert_eq!(c.query(), &[1, 2, 3, 4]);
}

#[test]
fn advance_moves_end_by_the_forwarded_tokens() {
    let mut c = cache(8, vec![1, 2, 3, 4]);
    c.advance(3);
    assert_eq!(c.cached_range(), 0..3);
    assert_eq!(c.query(), &[4]);
    c.advance(1);
    assert_eq!(c.end(), 4);
    assert_eq!(c.query(), &[] as &[u32]);
}

#[test]
fn revert_shrinks_tokens_and_end() {
    let mut c = cache(8, vec![1, 2, 3, 4, 5]);
    c.advance(4);
    assert_eq!(c.revert(3), Some(()));
    assert_eq!(c.len(), 3);
    assert_eq!(c.end(), 3);
    assert_eq!(c.slice_tail(0), &[1, 2, 3]);
    // beyond the tokens: nothing changes
    assert_eq!(c.revert(9), Some(()));
    assert_eq!(c.len(), 3);
    assert_eq!(c.end(), 3);
    // end stays where it is when it lies before the new length
    c.extend(&[7, 8]);
    assert_eq!(c.revert(4), Some(()));
    assert_eq!(c.len(), 4);
    assert_eq!(c.end(), 3);
    assert_eq!(c.slice_tail(0), &[1, 2, 3, 7]);
}

#[test]
fn cache_revert_twice_is_revert_once() {
    let mut c = cache(8, vec![1, 2, 3, 4, 5]);
    c.advance(4);
    assert_eq!(c.revert(2), Some(()));
    let once = (c.len(), c.cached_range(), c.slice_tail(0).to_vec());
    assert_eq!(c.revert(2), Some(()));
    assert_eq!((c.len(), c.cached_range(), c.slice_tail(0).to_vec()), once);
}

#[test]
fn revert_before_the_window_fails_and_changes_nothing() {
    let mut c = cache(4, vec![0; 10]);
    c.reset_with(vec![6, 7, 8, 9], 6);
    c.advance(2);
    assert_eq!(c.revert(5), None);
    assert_eq!(c.len(), 10);
    assert_eq!(c.cached_range(), 6..8);
    assert_eq!(c.slice_tail(6), &[6, 7, 8, 9]);
    assert_eq!(c.revert(6), Some(()));
    assert_eq!(c.len(), 6);
    assert_eq!(c.cached_range(), 6..6);
}

#[test]
fn reset_with_starts_over_at_the_position() {
    let mut c = cache(4, vec![1, 2, 3]);
    c.advance(3);
    c.reset_with(vec![8, 9], 5);
    assert_eq!(c.base(), 5);
    assert_eq!(c.cached_range(), 5..5);
    assert_eq!(c.len(), 7);
    assert_eq!(c.capacity(), 4);
    assert_eq!(c.query(), &[8, 9]);
}

#[test]
fn slide_evicts_what_does_not_fit() {
    // a prompt of capacity + 3 tokens
    let mut c = cache(4, vec![1, 2, 3, 4, 5, 6, 7]);
    c.slide();
    assert_eq!(c.start(), 3);
    assert_eq!(c.end(), 3);
    assert_eq!(c.len(), 7);
    assert_eq!(c.query(), &[4, 5, 6, 7]);
    // the tokens are all still there
    assert_eq!(c.slice_tail(0), &[1, 2, 3, 4, 5, 6, 7]);
    // a second slide changes nothing
    c.advance(4);
    c.slide();
    assert_eq!(c.cached_range(), 3..7);
}

#[test]
fn slide_leaves_a_fitting_cache_alone() {
    let mut c = cache(4, vec![1, 2, 3, 4]);
    c.advance(2);
    c.slide();
    assert_eq!(c.cached_range(), 0..2);
    assert_eq!(c.len(), 4);
}

#[test]
fn cleanup_drops_the_tokens_before_the_window() {
    let mut c = cache(4, vec![1, 2, 3, 4, 5, 6, 7]);
    c.slide();
    c.advance(2);
    c.cleanup_before_start();
    assert_eq!(c.base(), 3);
    assert_eq!(c.cached_range(), 3..5);
    assert_eq!(c.len(), 7);
    assert_eq!(c.slice_tail(3), &[4, 5, 6, 7]);
    assert_eq!(c.query(), &[6, 7]);
}

#[test]
fn replace_storage_keeps_the_bookkeeping() {
    let mut c = Cache::with_storage("kv", 4, vec![1, 2, 3]);
    c.advance(2);
    assert_eq!(*c.storage(), "kv");
    let (d, s) = c.replace_storage(17u8);
    assert_eq!(s, "kv");
    assert_eq!(*d.storage(), 17);
    assert_eq!(d.cached_range(), 0..2);
    assert_eq!(d.slice_tail(0), &[1, 2, 3]);
    assert_eq!(d.capacity(), 4);
}

#[test]
fn caches_made_by_the_operations_are_well_formed() {
    let mut c = cache(4, vec![1, 2, 3, 4, 5, 6, 7]);
    assert!(c.is_wf());
    c.slide();
    assert!(c.is_wf());
    c.advance(4);
    assert!(c.is_wf());
    c.push(8);
    c.slide();
    assert!(c.is_wf());
    c.cleanup_before_start();
    assert!(c.is_wf());
    assert_eq!(c.revert(5), Some(()));
    assert!(c.is_wf());
    c.reset_with(vec![1], usize::MAX - 1);
    assert!(c.is_wf());
    assert_eq!(c.len(), usize::MAX);
}
