use llm_service::backend::{CausalLM, DecodingMeta, QueryContext, SampleMeta};
use llm_service::manager::{SessionError, SessionManager};
use std::sync::Arc;

struct Toy;

impl CausalLM for Toy {
    type Storage = Vec<u32>;
    type SampleArgs = u8;

    fn max_seq_len(&self) -> u32 {
        32
    }
    fn bos_token(&self) -> u32 {
        1
    }
    fn eos_token(&self) -> u32 {
        2
    }
    fn new_cache(&self) -> Vec<u32> {
        Vec::new()
    }
    fn duplicate_cache(&self, cache: &Vec<u32>, pos: u32) -> Vec<u32> {
        cache[..pos as usize].to_vec()
    }
    fn token_embed(&self, tokens: &[u32]) -> Vec<u32> {
        tokens.to_vec()
    }
    fn forward(&self, _: &mut [QueryContext<Vec<u32>>], embedded: Vec<u32>) -> Vec<u32> {
        embedded
    }
    fn decode(&self, _: &[DecodingMeta], hidden: Vec<u32>) -> Vec<u32> {
        hidden
    }
    fn sample(&self, _: &[SampleMeta<u8>], logits: Vec<u32>) -> Vec<u32> {
        logits
    }
}

fn manager() -> SessionManager<Toy> {
    SessionManager::new(Arc::new(Toy), 5)
}

#[test]
fn a_new_registry_is_empty() {
    let m = manager();
    assert!(m.list().is_empty());
    assert!(!m.contains("a"));
}

#[test]
fn creation_is_idempotent() {
    let mut m = manager();
    assert_eq!(m.fork_or_create("a", None), Ok(()));
    assert_eq!(m.list(), vec!["a"]);
    {
        let mut s = m.take("a").ok().unwrap();
        assert_eq!(s.sample, 5);
        s.extend(&[vec![1, 2, 3]]);
        assert!(m.restore("a", s));
    }
    // a second creation changes nothing, with a base or without
    assert_eq!(m.fork_or_create("a", None), Ok(()));
    assert_eq!(m.fork_or_create("a", Some("zzz")), Ok(()));
    assert_eq!(m.list(), vec!["a"]);
    assert_eq!(m.take("a").ok().unwrap().dialog_pos(), 1);
}

#[test]
fn creation_from_a_base_forks_it() {
    let mut m = manager();
    assert_eq!(m.fork_or_create("a", None), Ok(()));
    let mut s = m.take("a").ok().unwrap();
    s.extend(&[vec![1, 2, 3], vec![4]]);
    assert!(m.restore("a", s));
    assert_eq!(m.fork_or_create("b", Some("a")), Ok(()));
    assert_eq!(m.fork_or_create("c", Some("nobody")), Ok(()));
    assert_eq!(m.list(), vec!["a", "b", "c"]);
    assert_eq!(m.take("b").ok().unwrap().dialog_pos(), 2);
    assert_eq!(m.take("c").ok().unwrap().dialog_pos(), 0);
    assert_eq!(m.take("a").ok().unwrap().dialog_pos(), 2);
}

#[test]
fn fork_makes_a_name_of_its_own() {
    let mut m = manager();
    assert_eq!(m.fork_or_create("a", None), Ok(()));
    assert_eq!(m.fork_or_create("long", None), Ok(()));
    assert_eq!(m.fork("a"), Ok("a''''".to_string()));
    assert_eq!(m.fork("a"), Ok("a'''''".to_string()));
    assert_eq!(m.fork("long"), Ok("long'''".to_string()));
    assert_eq!(m.list(), vec!["a", "long", "a''''", "a'''''", "long'''"]);
    assert_eq!(m.fork("nobody"), Err(SessionError::NotFound));
}

#[test]
fn fork_copies_the_history() {
    let mut m = manager();
    assert_eq!(m.fork_or_create("a", None), Ok(()));
    let mut s = m.take("a").ok().unwrap();
    s.extend(&[vec![1, 2, 3]]);
    assert!(m.restore("a", s));
    let name = m.fork("a").unwrap();
    let mut t = m.take(&name).ok().unwrap();
    assert_eq!(t.dialog_pos(), 1);
    t.extend(&[vec![9]]);
    assert_eq!(t.dialog_pos(), 2);
    assert_eq!(m.take("a").ok().unwrap().dialog_pos(), 1);
}

#[test]
fn a_session_is_handed_out_once() {
    let mut m = manager();
    assert_eq!(m.fork_or_create("a", None), Ok(()));
    let s = m.take("a").ok().unwrap();
    assert_eq!(m.take("a").err(), Some(SessionError::Busy));
    assert_eq!(m.fork("a"), Err(SessionError::Busy));
    assert_eq!(m.fork_or_create("b", Some("a")), Err(SessionError::Busy));
    assert_eq!(m.list(), vec!["a"]);
    assert!(m.contains("a"));
    assert!(m.restore("a", s));
    assert!(m.take("a").is_ok());
    assert_eq!(m.take("nobody").err(), Some(SessionError::NotFound));
}

#[test]
fn restore_of_what_is_not_missing_is_refused() {
    let mut m = manager();
    assert_eq!(m.fork_or_create("a", None), Ok(()));
    assert_eq!(m.fork_or_create("b", None), Ok(()));
    let mut s = m.take("a").ok().unwrap();
    s.extend(&[vec![1]]);
    // "b" holds its session
    assert!(!m.restore("b", s));
    assert_eq!(m.take("b").ok().unwrap().dialog_pos(), 0);
    let s = m.take("nobody");
    assert!(s.is_err());
}

#[test]
fn drop_removes_the_entry() {
    let mut m = manager();
    assert_eq!(m.fork_or_create("a", None), Ok(()));
    assert_eq!(m.fork_or_create("b", None), Ok(()));
    assert_eq!(m.fork_or_create("c", None), Ok(()));
    assert_eq!(m.drop("b"), Ok(()));
    assert_eq!(m.list(), vec!["a", "c"]);
    assert_eq!(m.drop("b"), Err(SessionError::NotFound));
    // a session that is handed out can be dropped; giving it back then
    // comes to nothing
    let s = m.take("c").ok().unwrap();
    assert_eq!(m.drop("c"), Ok(()));
    assert!(!m.restore("c", s));
    assert_eq!(m.list(), vec!["a"]);
}
