use llm_service::backend::{CausalLM, DecodingMeta, QueryContext, SampleMeta};
use llm_service::batcher::Batcher;
use llm_service::cache::Cache;
use llm_service::dispatch::{advance, plan, route, Delivery, Dispatcher, Task};
use llm_service::forward::QueryRange;
use llm_service::session::Session;
use std::sync::Arc;

/// A backend whose storage is the list of tokens whose keys and values it
/// holds. It continues a sequence with the sum of the stored tokens modulo
/// 50, so that what it says depends on everything it has seen.
struct Toy {
    max_seq_len: u32,
}

const EOS: u32 = 0;

impl CausalLM for Toy {
    type Storage = Vec<u32>;
    type SampleArgs = u32;

    fn max_seq_len(&self) -> u32 {
        self.max_seq_len
    }
    fn bos_token(&self) -> u32 {
        1
    }
    fn eos_token(&self) -> u32 {
        EOS
    }
    fn new_cache(&self) -> Vec<u32> {
        Vec::new()
    }
    fn duplicate_cache(&self, cache: &Vec<u32>, pos: u32) -> Vec<u32> {
        cache[..pos as usize].to_vec()
    }
    fn token_embed(&self, tokens: &[u32]) -> Vec<u32> {
        tokens.to_vec()
    }
    fn forward(&self, queries: &mut [QueryContext<Vec<u32>>], embedded: Vec<u32>) -> Vec<u32> {
        let mut hidden = Vec::new();
        let mut row = 0;
        for q in queries.iter_mut() {
            assert!(q.att_len() <= self.max_seq_len);
            q.cache.truncate(q.pos() as usize);
            for _ in 0..q.seq_len() {
                q.cache.push(embedded[row]);
                hidden.push(q.cache.iter().sum::<u32>() % 50);
                row += 1;
            }
        }
        assert_eq!(row, embedded.len());
        hidden
    }
    fn decode(&self, decoding: &[DecodingMeta], hidden: Vec<u32>) -> Vec<u32> {
        DecodingMeta::select(decoding).unwrap().into_iter().map(|r| hidden[r]).collect()
    }
    fn sample(&self, args: &[SampleMeta<u32>], logits: Vec<u32>) -> Vec<u32> {
        let args = SampleMeta::expand(args);
        assert_eq!(args.len(), logits.len());
        // the sampling argument is added to what the model says
        logits.into_iter().zip(args).map(|(t, a)| (t + a) % 50).collect()
    }
}

fn task(capacity: u32, tokens: Vec<u32>) -> Task<Vec<u32>, u32> {
    Task { cache: Cache::with_storage(Vec::new(), capacity, tokens), sample: 0, closed: false }
}

fn q(start: u32, end: u32) -> QueryRange {
    QueryRange { start, end }
}

fn d(num_query: usize, num_decode: usize) -> DecodingMeta {
    DecodingMeta { num_query, num_decode }
}

#[test]
fn plan_takes_everything_outstanding_within_the_budget() {
    let mut b = task(16, vec![4, 5]);
    b.cache.advance(1);
    b.sample = 7;
    let tasks = vec![task(16, vec![1, 2, 3]), b, task(16, vec![])];
    let p = plan(&tasks, 100);
    assert_eq!(p.tokens, vec![1, 2, 3, 5]);
    assert_eq!(p.ranges, vec![q(0, 3), q(1, 2), q(0, 0)]);
    assert_eq!(p.decoding, vec![d(3, 1), d(1, 1), d(0, 0)]);
    let samples: Vec<(usize, u32)> = p.samples.iter().map(|s| (s.num_decode, s.args)).collect();
    assert_eq!(samples, vec![(1, 0), (1, 7), (0, 0)]);
}

#[test]
fn plan_cuts_a_long_prompt_at_the_budget() {
    let tasks = vec![task(16, vec![1, 2]), task(16, vec![3, 4, 5, 6, 7]), task(16, vec![8])];
    let p = plan(&tasks, 5);
    assert_eq!(p.tokens, vec![1, 2, 3, 4, 5]);
    assert_eq!(p.ranges, vec![q(0, 2), q(0, 3), q(0, 0)]);
    // only the task that is caught up is decoded
    assert_eq!(p.decoding, vec![d(2, 1), d(3, 0), d(0, 0)]);
}

#[test]
fn plan_with_no_budget_forwards_nothing() {
    let tasks = vec![task(16, vec![1, 2])];
    let p = plan(&tasks, 0);
    assert!(p.tokens.is_empty());
    assert_eq!(p.ranges, vec![q(0, 0)]);
    assert_eq!(p.decoding, vec![d(0, 0)]);
}

#[test]
fn a_closed_task_finishes_its_step_and_its_token_is_discarded() {
    let mut t = task(16, vec![1, 2]);
    t.closed = true;
    let mut tasks = vec![t, task(16, vec![3])];
    let p = plan(&tasks, 10);
    assert_eq!(p.tokens, vec![1, 2, 3]);
    assert_eq!(p.decoding, vec![d(2, 1), d(1, 1)]);
    advance(&mut tasks, &p.ranges);
    let deliveries = route(&mut tasks, &p.decoding, &[40, 41], EOS);
    assert_eq!(
        deliveries,
        vec![
            Delivery { token: None, finished: true },
            Delivery { token: Some(41), finished: false },
        ]
    );
    assert_eq!(tasks[0].cache.slice_tail(0), &[1, 2]);
    assert_eq!(tasks[0].cache.end(), 2);
    assert_eq!(tasks[1].cache.slice_tail(0), &[3, 41]);
}

#[test]
fn advance_moves_each_end_by_its_range() {
    let mut b = task(16, vec![4, 5, 6]);
    b.cache.advance(1);
    let mut tasks = vec![task(16, vec![1, 2, 3]), b, task(16, vec![])];
    let before: usize = tasks.iter().map(|t| t.cache.end()).sum();
    let ranges = vec![q(0, 3), q(1, 2), q(0, 0)];
    advance(&mut tasks, &ranges);
    let ends: Vec<usize> = tasks.iter().map(|t| t.cache.end()).collect();
    assert_eq!(ends, vec![3, 2, 0]);
    // together the ends moved by the number of rows of the batch
    let after: usize = ends.iter().sum();
    assert_eq!(after - before, 4);
    assert!(tasks.iter().all(|t| t.cache.end() <= t.cache.len()));
}

#[test]
fn route_hands_tokens_out_in_task_order() {
    let mut a = task(16, vec![1, 2]);
    a.cache.advance(2);
    let mut b = task(16, vec![3, 4]);
    b.cache.advance(1);
    let mut c = task(16, vec![5]);
    c.cache.advance(1);
    let mut tasks = vec![a, b, c];
    let deliveries = route(&mut tasks, &vec![d(2, 1), d(1, 0), d(1, 1)], &[40, 41], EOS);
    assert_eq!(
        deliveries,
        vec![
            Delivery { token: Some(40), finished: false },
            Delivery { token: None, finished: false },
            Delivery { token: Some(41), finished: false },
        ]
    );
    assert_eq!(tasks[0].cache.slice_tail(0), &[1, 2, 40]);
    assert_eq!(tasks[1].cache.slice_tail(0), &[3, 4]);
    assert_eq!(tasks[2].cache.slice_tail(0), &[5, 41]);
    // a sampled token is not yet cached
    assert_eq!(tasks[0].cache.end(), 2);
}

#[test]
fn route_finishes_on_end_of_sequence() {
    let mut a = task(16, vec![1, 2]);
    a.cache.advance(2);
    let mut tasks = vec![a];
    let deliveries = route(&mut tasks, &vec![d(2, 1)], &[EOS], EOS);
    assert_eq!(deliveries, vec![Delivery { token: None, finished: true }]);
    assert_eq!(tasks[0].cache.slice_tail(0), &[1, 2]);
}

#[test]
fn route_finishes_a_task_the_backend_gave_nothing() {
    let mut a = task(16, vec![1]);
    a.cache.advance(1);
    let mut b = task(16, vec![2]);
    b.cache.advance(1);
    let mut tasks = vec![a, b];
    let deliveries = route(&mut tasks, &vec![d(1, 1), d(1, 1)], &[9], EOS);
    assert_eq!(
        deliveries,
        vec![Delivery { token: Some(9), finished: false }, Delivery { token: None, finished: true }]
    );
}

#[test]
fn route_finishes_closed_and_idle_tasks() {
    let mut closed = task(16, vec![1, 2]);
    closed.closed = true;
    closed.cache.advance(2);
    let idle = task(16, vec![]);
    let mut cut = task(16, vec![1, 2, 3]);
    cut.cache.advance(2);
    let mut tasks = vec![closed, idle, cut];
    let deliveries = route(&mut tasks, &vec![d(2, 0), d(0, 0), d(2, 0)], &[], EOS);
    assert_eq!(
        deliveries,
        vec![
            Delivery { token: None, finished: true },
            Delivery { token: None, finished: true },
            Delivery { token: None, finished: false },
        ]
    );
}

#[test]
fn route_slides_a_full_window() {
    let mut a = task(3, vec![1, 2, 3]);
    a.cache.advance(3);
    let mut tasks = vec![a];
    let deliveries = route(&mut tasks, &vec![d(3, 1)], &[7], EOS);
    assert_eq!(deliveries, vec![Delivery { token: Some(7), finished: false }]);
    assert_eq!(tasks[0].cache.slice_tail(0), &[1, 2, 3, 7]);
    assert_eq!(tasks[0].cache.cached_range(), 1..1);
    assert_eq!(tasks[0].cache.query(), &[2, 3, 7]);
}

#[test]
fn generate_slides_a_long_prompt() {
    let model = Toy { max_seq_len: 4 };
    let t = Task::generate(&model, vec![1, 2, 3, 4, 5, 6], 3);
    assert_eq!(t.cache.capacity(), 4);
    assert_eq!(t.cache.cached_range(), 2..2);
    assert_eq!(t.cache.query(), &[3, 4, 5, 6]);
    assert_eq!(t.sample, 3);
    assert!(!t.closed);
    let short = Task::generate(&model, vec![1, 2], 0);
    assert_eq!(short.cache.cached_range(), 0..0);
    assert_eq!(short.cache.query(), &[1, 2]);
}

#[test]
fn dispatcher_reads_its_backend_once() {
    let d = Dispatcher::new(Arc::new(Toy { max_seq_len: 8 }), 64);
    assert_eq!(d.eos_token(), EOS);
    assert_eq!(d.max_tokens_per_batch(), 64);
    assert_eq!(d.backend().max_seq_len(), 8);
}

/// Runs the tasks to their end, one step after another, and returns what
/// each of them was sent.
fn run(d: &Dispatcher<Toy>, tasks: Vec<Task<Vec<u32>, u32>>, limit: usize) -> Vec<Vec<u32>> {
    let n = tasks.len();
    let mut heard = vec![Vec::new(); n];
    let mut live: Vec<usize> = (0..n).collect();
    let mut tasks = tasks;
    while !tasks.is_empty() {
        let (stepped, deliveries) = d.step(tasks);
        let mut next = Vec::new();
        let mut next_live = Vec::new();
        for ((mut t, delivery), id) in stepped.into_iter().zip(deliveries).zip(live) {
            heard[id].extend(delivery.token);
            if heard[id].len() >= limit {
                t.closed = true;
            }
            if !delivery.finished {
                next.push(t);
                next_live.push(id);
            }
        }
        tasks = next;
        live = next_live;
    }
    heard
}

#[test]
fn a_step_forwards_and_samples() {
    let d = Dispatcher::new(Arc::new(Toy { max_seq_len: 16 }), 64);
    let (tasks, deliveries) = d.step(vec![task(16, vec![1, 2, 3]), task(16, vec![10])]);
    assert_eq!(
        deliveries,
        vec![
            Delivery { token: Some(6), finished: false },
            Delivery { token: Some(10), finished: false },
        ]
    );
    assert_eq!(tasks[0].cache.slice_tail(0), &[1, 2, 3, 6]);
    assert_eq!(tasks[0].cache.cached_range(), 0..3);
    assert_eq!(tasks[0].cache.storage(), &vec![1, 2, 3]);
    assert_eq!(tasks[1].cache.slice_tail(0), &[10, 10]);
    assert_eq!(tasks[1].cache.storage(), &vec![10]);
}

#[test]
fn batched_and_separate_runs_agree() {
    let d = Dispatcher::new(Arc::new(Toy { max_seq_len: 64 }), 64);
    let prompts = [vec![1, 2, 3], vec![7], vec![5, 5, 5, 5, 20]];
    let together = run(&d, prompts.iter().map(|p| task(64, p.clone())).collect(), 6);
    for (i, p) in prompts.iter().enumerate() {
        let alone = run(&d, vec![task(64, p.clone())], 6);
        assert_eq!(alone[0], together[i]);
    }
}

#[test]
fn a_small_budget_changes_the_pace_not_the_tokens() {
    let model = Arc::new(Toy { max_seq_len: 64 });
    let wide = Dispatcher::new(model.clone(), 64);
    let narrow = Dispatcher::new(model, 2);
    let prompts = [vec![1, 2, 3, 4, 5, 6, 7], vec![9]];
    let a = run(&wide, prompts.iter().map(|p| task(64, p.clone())).collect(), 4);
    let b = run(&narrow, prompts.iter().map(|p| task(64, p.clone())).collect(), 4);
    assert_eq!(a, b);
}

#[test]
fn a_prompt_longer_than_the_window_still_produces_tokens() {
    let d = Dispatcher::new(Arc::new(Toy { max_seq_len: 4 }), 64);
    let (tasks, deliveries) = d.step(vec![task(4, vec![1, 2, 3, 4, 5, 6, 7])]);
    // the window slid to the last four tokens: 4 + 5 + 6 + 7
    assert_eq!(deliveries[0].token, Some(22));
    assert!(tasks[0].cache.start() >= 3);
    let heard = run(&d, vec![task(4, vec![1, 2, 3, 4, 5, 6, 7])], 5);
    assert_eq!(heard[0].len(), 5);
}

#[test]
fn generation_ends_with_end_of_sequence() {
    let d = Dispatcher::new(Arc::new(Toy { max_seq_len: 64 }), 64);
    // 25 + 25 = 50, which the toy says as 0: the end of the sequence
    let (tasks, deliveries) = d.step(vec![task(64, vec![25, 25])]);
    assert_eq!(deliveries, vec![Delivery { token: None, finished: true }]);
    assert_eq!(tasks[0].cache.slice_tail(0), &[25, 25]);
    assert_eq!(tasks[0].cache.cached_range(), 0..2);
}

#[test]
fn test() {
    let model = Arc::new(Toy { max_seq_len: 64 });
    let d = Dispatcher::new(model.clone(), 1024);
    let prompts = ["Say \"Hi\" to me.", "Hi", "Where is the capital of France?"];
    let mut sessions: Vec<Session<Toy>> =
        prompts.iter().map(|_| Session::new(model.clone(), 0)).collect();
    let mut queue = Batcher::new();
    for (id, (prompt, session)) in prompts.iter().zip(sessions.iter_mut()).enumerate() {
        // one token per byte, kept clear of the end-of-sequence token
        let tokens: Vec<u32> = prompt.bytes().map(|b| (b % 40) as u32 + 1).collect();
        session.extend(&[tokens]);
        queue.enq((id, session.chat()));
    }

    let mut heard: Vec<Vec<Option<u32>>> = vec![Vec::new(); 3];
    let mut returned: Vec<Option<Cache<Vec<u32>>>> = vec![None, None, None];
    while !queue.must_wait() {
        let (ids, tasks): (Vec<usize>, Vec<_>) = queue.deq().into_iter().unzip();
        let (tasks, deliveries) = d.step(tasks);
        for ((id, mut t), delivery) in ids.into_iter().zip(tasks).zip(deliveries) {
            heard[id].push(delivery.token);
            if heard[id].len() >= 40 {
                t.closed = true;
            }
            if delivery.finished {
                returned[id] = Some(t.cache);
            } else {
                queue.enq((id, t));
            }
        }
    }
    queue.shutdown();

    for (id, session) in sessions.iter_mut().enumerate() {
        // every stream is non-empty and ends with the end of the sequence
        assert!(!heard[id].is_empty());
        assert_eq!(heard[id].last(), Some(&None));
        assert!(heard[id][..heard[id].len() - 1].iter().all(|t| t.is_some()));
        session.restore_cache(returned[id].take().unwrap());
        assert!(session.dialog_pos() == 1 || session.dialog_pos() == 2);
    }
}

#[test]
fn shutdown_leaves_no_work_behind() {
    let mut queue: Batcher<Task<Vec<u32>, u32>> = Batcher::new();
    queue.enq(task(8, vec![1]));
    queue.shutdown();
    // the worker sees a dead queue with nothing in it and leaves
    assert!(!queue.must_wait());
    assert!(queue.deq().is_empty());
    assert!(!queue.is_alive());
    // a late submission is dropped
    queue.enq(task(8, vec![2]));
    assert!(queue.deq().is_empty());
}

#[test]
fn a_budget_that_covers_everything_plans_each_task_as_if_alone() {
    let make = |which: usize| {
        let mut t = match which {
            0 => task(16, vec![1, 2, 3]),
            1 => task(16, vec![4, 5, 6]),
            _ => task(16, vec![7]),
        };
        if which == 1 {
            t.cache.advance(1);
        }
        t
    };
    let together = plan(&vec![make(0), make(1), make(2)], 6);
    for i in 0..3 {
        let alone = plan(&vec![make(i)], 6);
        assert_eq!(together.ranges[i], alone.ranges[0]);
        assert_eq!(together.decoding[i], alone.decoding[0]);
    }
    assert_eq!(together.tokens, vec![1, 2, 3, 5, 6, 7]);
}
