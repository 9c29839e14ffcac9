use llm_service::dialog::{copy_tokens, Dialog};

#[test]
fn empty_dialog_has_nothing() {
    let d = Dialog::new();
    assert_eq!(d.num_sentences(), 0);
    assert_eq!(d.num_tokens(), 0);
    assert!(d.last_prompt().is_none());
    assert_eq!(d.window(8), (vec![], 0));
}

#[test]
fn push_counts_sentences_and_tokens() {
    let mut d = Dialog::new();
    d.push(vec![1, 2, 3]);
    assert_eq!(d.num_sentences(), 1);
    assert_eq!(d.num_tokens(), 3);
    d.push(vec![]);
    d.push(vec![4, 5]);
    assert_eq!(d.num_sentences(), 3);
    assert_eq!(d.num_tokens(), 5);
}

#[test]
fn last_prompt_is_the_newest_sentence_at_an_even_index() {
    let mut d = Dialog::new();
    d.push(vec![1, 2, 3]);
    assert_eq!(d.last_prompt(), Some(&[1u32, 2, 3][..]));
    d.push(vec![9]);
    assert_eq!(d.last_prompt(), None);
    d.push(vec![4, 5]);
    assert_eq!(d.last_prompt(), Some(&[4u32, 5][..]));
}

#[test]
fn revert_keeps_the_first_sentences() {
    let mut d = Dialog::new();
    d.push(vec![1, 2, 3]);
    d.push(vec![9]);
    d.push(vec![4, 5]);
    d.revert(5);
    assert_eq!(d.num_sentences(), 3);
    assert_eq!(d.num_tokens(), 6);
    d.revert(3);
    assert_eq!(d.num_sentences(), 3);
    d.revert(2);
    assert_eq!(d.num_sentences(), 2);
    assert_eq!(d.num_tokens(), 4);
    assert_eq!(d.window(10), (vec![1, 2, 3, 9], 0));
    d.revert(0);
    assert_eq!(d.num_sentences(), 0);
    assert_eq!(d.num_tokens(), 0);
}

#[test]
fn window_is_the_most_recent_tokens() {
    let mut d = Dialog::new();
    d.push(vec![1, 2, 3]);
    d.push(vec![9]);
    d.push(vec![4, 5]);
    assert_eq!(d.window(6), (vec![1, 2, 3, 9, 4, 5], 0));
    assert_eq!(d.window(7), (vec![1, 2, 3, 9, 4, 5], 0));
    assert_eq!(d.window(4), (vec![3, 9, 4, 5], 2));
    assert_eq!(d.window(1), (vec![5], 5));
    assert_eq!(d.window(0), (vec![], 6));
}

#[test]
fn clone_is_independent() {
    let mut d = Dialog::new();
    d.push(vec![1, 2, 3]);
    let mut e = d.clone();
    e.push(vec![7]);
    assert_eq!(d.num_sentences(), 1);
    assert_eq!(d.num_tokens(), 3);
    assert_eq!(e.num_sentences(), 2);
    assert_eq!(e.window(10), (vec![1, 2, 3, 7], 0));
}

#[test]
fn copy_tokens_copies() {
    assert_eq!(copy_tokens(&[5, 6, 7]), vec![5, 6, 7]);
    assert_eq!(copy_tokens(&[]), Vec::<u32>::new());
}
