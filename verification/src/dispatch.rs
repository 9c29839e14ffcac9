//! The dispatcher: one worker that fuses the outstanding work of every
//! pending task into a single forward step and routes the sampled tokens
//! back.
//!
//! A step is planned from the tasks alone. Each task, in queue order, is
//! granted as many of its outstanding tokens as the step's token budget
//! still allows. A task whose grant covers all it has outstanding is caught
//! up by the step and gets a token sampled; a task cut short by the budget
//! continues its prefill in a later step. A task whose receiver is gone
//! finishes the step like any other; what was sampled for it is discarded
//! and the task is finished.

use vstd::prelude::*;
use std::sync::Arc;
use crate::Token;
use crate::backend::{CausalLM, DecodingMeta, QueryContext, SampleMeta};
use crate::cache::{Cache, CacheView};
use crate::forward::{lemma_total_len_push, lemma_total_len_take, total_len, QueryRange};
use crate::session::continuation;

verus! {

/// A submission to the dispatcher. It owns its cache until the submitter
/// takes it back.
pub struct Task<S, A> {
    /// The cache to continue from.
    pub cache: Cache<S>,
    /// The sampling parameters of the submission.
    pub sample: A,
    /// Whether the receiver of the task's tokens has gone away.
    pub closed: bool,
}

impl<S, A> Task<S, A> {
    /// A submission that generates from a bare prompt: a fresh cache of
    /// `model` standing for `tokens`, its window moved forward if the
    /// prompt is longer than the model's limit.
    pub fn generate<M: CausalLM<Storage = S, SampleArgs = A>>(
        model: &M,
        tokens: Vec<Token>,
        sample: A,
    ) -> (r: Self)
        ensures
            r.cache@.tokens == tokens@,
            r.cache@.base == 0,
            r.cache@.end == r.cache@.start,
            r.cache@.start == if tokens@.len() <= r.cache@.capacity {
                0
            } else {
                tokens@.len() - r.cache@.capacity
            },
            r.cache@.wf(),
            r.cache@.fits(),
            r.sample == sample,
            !r.closed,
    {
        let mut cache = Cache::new(model, tokens);
        cache.slide();
        Task { cache, sample, closed: false }
    }
}

/// Mathematical content of a [`Task`].
pub struct TaskView<S, A> {
    /// The cache.
    pub cache: CacheView<S>,
    /// The sampling parameters.
    pub sample: A,
    /// Whether the receiver has gone away.
    pub closed: bool,
}

impl<S, A> View for Task<S, A> {
    type V = TaskView<S, A>;

    open spec fn view(&self) -> TaskView<S, A> {
        TaskView { cache: self.cache@, sample: self.sample, closed: self.closed }
    }
}

/// The views of `tasks`, in order.
pub open spec fn views<S, A>(tasks: Seq<Task<S, A>>) -> Seq<TaskView<S, A>> {
    Seq::new(tasks.len(), |i: int| tasks[i]@)
}

/// Every task's cache is well formed and ready to be forwarded.
pub open spec fn all_fit<S, A>(tasks: Seq<TaskView<S, A>>) -> bool {
    forall|i: int| 0 <= i < tasks.len() ==> (#[trigger] tasks[i]).cache.wf() && tasks[i].cache.fits()
}

/// Every task's cache is well formed.
pub open spec fn all_wf<S, A>(tasks: Seq<TaskView<S, A>>) -> bool {
    forall|i: int| 0 <= i < tasks.len() ==> (#[trigger] tasks[i]).cache.wf()
}

/// Number of tokens of `c` whose keys and values are yet to be computed.
pub open spec fn outstanding<S>(c: CacheView<S>) -> nat {
    (c.len() - c.end) as nat
}

/// What is left of `budget` when the first `i` tasks have had their grants.
pub open spec fn budget_before<S, A>(tasks: Seq<TaskView<S, A>>, budget: nat, i: int) -> nat
    decreases i,
{
    if i <= 0 {
        budget
    } else {
        let left = budget_before(tasks, budget, i - 1);
        let wanted = outstanding(tasks[i - 1].cache);
        if wanted <= left {
            (left - wanted) as nat
        } else {
            0
        }
    }
}

/// Number of tokens forwarded for task `i`: all it has outstanding, or as
/// many as the budget still allows.
pub open spec fn grant_at<S, A>(tasks: Seq<TaskView<S, A>>, budget: nat, i: int) -> nat {
    let left = budget_before(tasks, budget, i);
    let wanted = outstanding(tasks[i].cache);
    if wanted <= left {
        wanted
    } else {
        left
    }
}

/// Whether the step samples a token for task `i`: the step forwards
/// something for it and leaves nothing outstanding.
pub open spec fn decodes_at<S, A>(tasks: Seq<TaskView<S, A>>, budget: nat, i: int) -> bool {
    &&& grant_at(tasks, budget, i) > 0
    &&& grant_at(tasks, budget, i) == outstanding(tasks[i].cache)
}

/// The cache positions the step fills for task `i`, counted from the start
/// of the task's window.
pub open spec fn range_at<S, A>(tasks: Seq<TaskView<S, A>>, budget: nat, i: int) -> QueryRange {
    let c = tasks[i].cache;
    QueryRange {
        start: (c.end - c.start) as u32,
        end: (c.end - c.start + grant_at(tasks, budget, i)) as u32,
    }
}

/// The rows task `i` contributes and how many of them are decoded.
pub open spec fn decoding_at<S, A>(tasks: Seq<TaskView<S, A>>, budget: nat, i: int) -> DecodingMeta {
    DecodingMeta {
        num_query: grant_at(tasks, budget, i) as usize,
        num_decode: if decodes_at(tasks, budget, i) {
            1
        } else {
            0
        },
    }
}

/// The tokens the step forwards for the first `i` tasks: for each task in
/// order, the first of its outstanding tokens, as many as it was granted.
pub open spec fn batch_tokens<S, A>(tasks: Seq<TaskView<S, A>>, budget: nat, i: int) -> Seq<Token>
    decreases i,
{
    if i <= 0 {
        Seq::empty()
    } else {
        batch_tokens(tasks, budget, i - 1) + tasks[i - 1].cache.query().take(
            grant_at(tasks, budget, i - 1) as int,
        )
    }
}

/// What a step hands to the backend.
pub struct Plan<A> {
    /// The tokens to embed: the rows of the batch.
    pub tokens: Vec<Token>,
    /// For each task, the cache positions its rows fill.
    pub ranges: Vec<QueryRange>,
    /// For each task, its rows and whether its last row is decoded.
    pub decoding: Vec<DecodingMeta>,
    /// For each task, how many tokens to sample and how.
    pub samples: Vec<SampleMeta<A>>,
}

/// Plans one step over `tasks` with a budget of `budget` tokens.
pub fn plan<S, A: Copy>(tasks: &Vec<Task<S, A>>, budget: usize) -> (r: Plan<A>)
    requires
        all_fit(views(tasks@)),
    ensures
        r.tokens@ == batch_tokens(views(tasks@), budget as nat, tasks@.len() as int),
        r.tokens@.len() + budget_before(views(tasks@), budget as nat, tasks@.len() as int)
            == budget,
        r.tokens@.len() == total_len(r.ranges@),
        r.ranges@.len() == tasks@.len(),
        r.decoding@.len() == tasks@.len(),
        r.samples@.len() == tasks@.len(),
        forall|i: int|
            0 <= i < tasks@.len() ==> {
                &&& #[trigger] r.ranges@[i] == range_at(views(tasks@), budget as nat, i)
                &&& r.ranges@[i].len() == grant_at(views(tasks@), budget as nat, i)
                &&& r.ranges@[i].end <= tasks@[i]@.cache.capacity
            },
        forall|i: int|
            0 <= i < tasks@.len() ==> #[trigger] r.decoding@[i] == decoding_at(
                views(tasks@),
                budget as nat,
                i,
            ),
        forall|i: int|
            0 <= i < tasks@.len() ==> {
                &&& (#[trigger] r.samples@[i]).num_decode == decoding_at(
                    views(tasks@),
                    budget as nat,
                    i,
                ).num_decode
                &&& r.samples@[i].args == tasks@[i].sample
            },
{
    let ghost all = views(tasks@);
    let mut tokens: Vec<Token> = Vec::new();
    let mut ranges: Vec<QueryRange> = Vec::new();
    let mut decoding: Vec<DecodingMeta> = Vec::new();
    let mut samples: Vec<SampleMeta<A>> = Vec::new();
    let mut left = budget;
    let mut i: usize = 0;
    while i < tasks.len()
        invariant
            0 <= i <= tasks@.len(),
            all == views(tasks@),
            all_fit(all),
            left == budget_before(all, budget as nat, i as int),
            tokens@ == batch_tokens(all, budget as nat, i as int),
            tokens@.len() + left == budget,
            tokens@.len() == total_len(ranges@),
            ranges@.len() == i,
            decoding@.len() == i,
            samples@.len() == i,
            forall|k: int|
                0 <= k < i ==> {
                    &&& #[trigger] ranges@[k] == range_at(all, budget as nat, k)
                    &&& ranges@[k].len() == grant_at(all, budget as nat, k)
                    &&& ranges@[k].end <= all[k].cache.capacity
                },
            forall|k: int| 0 <= k < i ==> #[trigger] decoding@[k] == decoding_at(all, budget as nat, k),
            forall|k: int|
                0 <= k < i ==> {
                    &&& (#[trigger] samples@[k]).num_decode == decoding_at(
                        all,
                        budget as nat,
                        k,
                    ).num_decode
                    &&& samples@[k].args == tasks@[k].sample
                },
        decreases tasks@.len() - i,
    {
        let task = &tasks[i];
        assert(all[i as int] == task@);
        let wanted = task.cache.len() - task.cache.end();
        let grant = if wanted <= left {
            wanted
        } else {
            left
        };
        let num_decode: usize = if grant > 0 && grant == wanted {
            1
        } else {
            0
        };
        let start = task.cache.end() - task.cache.start();
        let query = task.cache.query();
        let ghost head = tokens@;
        let mut j: usize = 0;
        while j < grant
            invariant
                0 <= j <= grant <= query@.len(),
                tokens@ == head + query@.take(j as int),
            decreases grant - j,
        {
            tokens.push(query[j]);
            assert(head + query@.take(j as int + 1) =~= (head + query@.take(j as int)).push(
                query@[j as int],
            ));
            j += 1;
        }
        proof {
            lemma_total_len_push(
                ranges@,
                QueryRange { start: start as u32, end: (start + grant) as u32 },
            );
        }
        ranges.push(QueryRange { start: start as u32, end: (start + grant) as u32 });
        decoding.push(DecodingMeta { num_query: grant, num_decode });
        samples.push(SampleMeta { num_decode, args: task.sample });
        left = left - grant;
        i += 1;
    }
    Plan { tokens, ranges, decoding, samples }
}

/// Records a finished forward step in the caches: the cache of task `i`
/// now holds the keys and values of the `ranges[i]` tokens it contributed.
/// The caches are well formed and fit, and no range reaches beyond the
/// tokens of its cache.
pub fn advance<S, A>(tasks: &mut Vec<Task<S, A>>, ranges: &Vec<QueryRange>)
    requires
        ranges@.len() == old(tasks)@.len(),
        all_fit(views(old(tasks)@)),
        forall|i: int|
            0 <= i < old(tasks)@.len() ==> (#[trigger] old(tasks)@[i])@.cache.end
                + ranges@[i].len() <= old(tasks)@[i]@.cache.len(),
    ensures
        final(tasks)@.len() == old(tasks)@.len(),
        forall|i: int|
            0 <= i < old(tasks)@.len() ==> {
                &&& (#[trigger] final(tasks)@[i])@ == (TaskView {
                    cache: old(tasks)@[i]@.cache.advanced(ranges@[i].len()),
                    ..old(tasks)@[i]@
                })
                &&& final(tasks)@[i]@.cache.wf()
                &&& final(tasks)@[i]@.cache.end == old(tasks)@[i]@.cache.end + ranges@[i].len()
                &&& final(tasks)@[i]@.cache.end <= final(tasks)@[i]@.cache.len()
            },
{
    let mut i: usize = 0;
    while i < tasks.len()
        invariant
            0 <= i <= tasks@.len(),
            tasks@.len() == old(tasks)@.len(),
            ranges@.len() == tasks@.len(),
            forall|k: int| i <= k < tasks@.len() ==> #[trigger] tasks@[k] == old(tasks)@[k],
            all_fit(views(old(tasks)@)),
            forall|k: int|
                0 <= k < old(tasks)@.len() ==> (#[trigger] old(tasks)@[k])@.cache.end
                    + ranges@[k].len() <= old(tasks)@[k]@.cache.len(),
            forall|k: int|
                0 <= k < i ==> {
                    &&& (#[trigger] tasks@[k])@ == (TaskView {
                        cache: old(tasks)@[k]@.cache.advanced(ranges@[k].len()),
                        ..old(tasks)@[k]@
                    })
                    &&& tasks@[k]@.cache.wf()
                },
        decreases tasks@.len() - i,
    {
        let n = ranges[i].seq_len() as usize;
        proof {
            let c = views(old(tasks)@)[i as int].cache;
            assert(c == old(tasks)@[i as int]@.cache);
            assert(c.wf() && c.fits());
        }
        tasks[i].cache.advance(n);
        i += 1;
    }
}

/// What a plan grants can be recorded: for tasks whose caches are well
/// formed and fit, the range planned for a task has the length of its
/// grant, ends within the tokens of its cache, and keeps the stored window
/// within the storage.
pub proof fn lemma_planned_ranges_can_be_advanced<S, A>(
    tasks: Seq<TaskView<S, A>>,
    budget: nat,
    i: int,
)
    requires
        0 <= i < tasks.len(),
        tasks[i].cache.wf(),
        tasks[i].cache.fits(),
    ensures
        range_at(tasks, budget, i).len() == grant_at(tasks, budget, i),
        tasks[i].cache.end + grant_at(tasks, budget, i) <= tasks[i].cache.len(),
        tasks[i].cache.end + grant_at(tasks, budget, i) - tasks[i].cache.start
            <= tasks[i].cache.capacity,
        tasks[i].cache.advanced(grant_at(tasks, budget, i)).wf(),
        grant_at(tasks, budget, i) == 0 ==> tasks[i].cache.advanced(grant_at(tasks, budget, i))
            == tasks[i].cache,
{
}

/// A step moves the end of every cache forward by exactly what the cache
/// was granted, and never beyond its tokens: whatever the caches were, the
/// step first slides the windows that must slide, and the cache it then
/// hands to routing is the slid cache with its end moved by the grant. A
/// task that was granted nothing keeps its end.
pub proof fn lemma_step_advances_by_grant<S, A>(tasks: Seq<TaskView<S, A>>, budget: nat, i: int)
    requires
        0 <= i < tasks.len(),
        tasks[i].cache.wf(),
    ensures
        ({
            let ready = slid_all(tasks);
            let grant = grant_at(ready, budget, i);
            let after = ready[i].cache.advanced(grant);
            &&& range_at(ready, budget, i).len() == grant
            &&& after.end == ready[i].cache.end + grant
            &&& after.end <= after.len()
            &&& after.end - after.start <= after.capacity
            &&& after.wf()
        }),
{
    let ready = slid_all(tasks);
    assert(ready[i].cache == tasks[i].cache.slid());
    lemma_planned_ranges_can_be_advanced(ready, budget, i);
}

/// The sum of the cached ends of the first `i` tasks.
pub open spec fn cached_sum<S, A>(tasks: Seq<TaskView<S, A>>, i: int) -> nat
    decreases i,
{
    if i <= 0 {
        0
    } else {
        cached_sum(tasks, i - 1) + tasks[i - 1].cache.end
    }
}

/// A forward step moves the caches' ends forward by the number of rows of
/// its batch, neither more nor less: if every cache advanced by the length
/// of its range, the ends together advanced by the total of the ranges.
pub proof fn lemma_forward_advances_by_batch<S, A>(
    before: Seq<TaskView<S, A>>,
    after: Seq<TaskView<S, A>>,
    ranges: Seq<QueryRange>,
)
    requires
        after.len() == before.len(),
        ranges.len() == before.len(),
        forall|i: int|
            0 <= i < before.len() ==> (#[trigger] after[i]).cache.end == before[i].cache.end
                + ranges[i].len(),
    ensures
        cached_sum(after, after.len() as int) == cached_sum(before, before.len() as int)
            + total_len(ranges),
{
    lemma_forward_advances_upto(before, after, ranges, before.len() as int);
    assert(ranges.take(ranges.len() as int) =~= ranges);
}

proof fn lemma_forward_advances_upto<S, A>(
    before: Seq<TaskView<S, A>>,
    after: Seq<TaskView<S, A>>,
    ranges: Seq<QueryRange>,
    n: int,
)
    requires
        0 <= n <= before.len(),
        after.len() == before.len(),
        ranges.len() == before.len(),
        forall|i: int|
            0 <= i < before.len() ==> (#[trigger] after[i]).cache.end == before[i].cache.end
                + ranges[i].len(),
    ensures
        cached_sum(after, n) == cached_sum(before, n) + total_len(ranges.take(n)),
    decreases n,
{
    if n > 0 {
        lemma_forward_advances_upto(before, after, ranges, n - 1);
        lemma_total_len_take(ranges, n - 1);
        assert(after[n - 1].cache.end == before[n - 1].cache.end + ranges[n - 1].len());
    } else {
        assert(ranges.take(0) =~= Seq::<QueryRange>::empty());
    }
}

/// What a step decided for one task.
#[derive(Clone, Copy, PartialEq, Eq, Debug)]
pub struct Delivery {
    /// The token to send to the task's receiver, if the step produced one.
    pub token: Option<Token>,
    /// Whether the task is done: finished tasks are not queued again.
    pub finished: bool,
}

/// Number of tokens sampled for the tasks before `i`.
pub open spec fn rank_at(decoding: Seq<DecodingMeta>, i: int) -> nat
    decreases i,
{
    if i <= 0 {
        0
    } else {
        rank_at(decoding, i - 1) + decoding[i - 1].num_decode as nat
    }
}

/// What becomes of a task after the forward step, given whether a token was
/// sampled for it and, if so, which place that token has among the
/// `sampled` ones.
///
/// A task whose receiver is gone is finished, and what was sampled for it
/// is discarded. Otherwise a sampled token other than `eos` is appended to
/// the cache, whose window then slides if it must, and is delivered. The
/// task is finished if its token is `eos` or missing, if its cache cannot
/// grow, or if it had nothing to forward and nothing is outstanding.
///
/// A task that was submitted with nothing outstanding has no token that
/// could be forwarded, so no logits to sample from: it is finished without
/// a token rather than kept waiting for one.
pub open spec fn routed<S, A>(
    t: TaskView<S, A>,
    decodes: bool,
    rank: nat,
    sampled: Seq<Token>,
    eos: Token,
) -> (TaskView<S, A>, Delivery) {
    if t.closed {
        (t, Delivery { token: None, finished: true })
    } else if decodes {
        if rank < sampled.len() && sampled[rank as int] != eos && t.cache.len() < usize::MAX {
            (
                TaskView { cache: t.cache.extended(seq![sampled[rank as int]]).slid(), ..t },
                Delivery { token: Some(sampled[rank as int]), finished: false },
            )
        } else {
            (t, Delivery { token: None, finished: true })
        }
    } else {
        (t, Delivery { token: None, finished: outstanding(t.cache) == 0 })
    }
}

/// Hands the sampled tokens to the tasks they were sampled for, in task
/// order, and decides which tasks are finished.
pub fn route<S, A>(
    tasks: &mut Vec<Task<S, A>>,
    decoding: &Vec<DecodingMeta>,
    sampled: &[Token],
    eos: Token,
) -> (r: Vec<Delivery>)
    requires
        decoding@.len() == old(tasks)@.len(),
        forall|i: int| 0 <= i < decoding@.len() ==> (#[trigger] decoding@[i]).num_decode <= 1,
        forall|i: int| 0 <= i < old(tasks)@.len() ==> (#[trigger] old(tasks)@[i])@.cache.wf(),
    ensures
        final(tasks)@.len() == old(tasks)@.len(),
        r@.len() == old(tasks)@.len(),
        forall|i: int|
            #![trigger final(tasks)@[i]]
            #![trigger r@[i]]
            0 <= i < old(tasks)@.len() ==> (final(tasks)@[i]@, r@[i]) == routed(
                old(tasks)@[i]@,
                decoding@[i].num_decode > 0,
                rank_at(decoding@, i),
                sampled@,
                eos,
            ),
        forall|i: int| 0 <= i < old(tasks)@.len() ==> (#[trigger] final(tasks)@[i])@.cache.wf(),
{
    let mut out: Vec<Delivery> = Vec::new();
    let mut rank: usize = 0;
    let mut i: usize = 0;
    while i < tasks.len()
        invariant
            0 <= i <= tasks@.len(),
            tasks@.len() == old(tasks)@.len(),
            decoding@.len() == tasks@.len(),
            out@.len() == i,
            rank == rank_at(decoding@, i as int),
            rank <= i,
            forall|k: int| 0 <= k < decoding@.len() ==> (#[trigger] decoding@[k]).num_decode <= 1,
            forall|k: int| i <= k < tasks@.len() ==> #[trigger] tasks@[k] == old(tasks)@[k],
            forall|k: int| 0 <= k < old(tasks)@.len() ==> (#[trigger] old(tasks)@[k])@.cache.wf(),
            forall|k: int|
                0 <= k < i ==> ((#[trigger] tasks@[k])@, out@[k]) == routed(
                    old(tasks)@[k]@,
                    decoding@[k].num_decode > 0,
                    rank_at(decoding@, k),
                    sampled@,
                    eos,
                ),
            forall|k: int| 0 <= k < i ==> (#[trigger] tasks@[k])@.cache.wf(),
        decreases tasks@.len() - i,
    {
        let decodes = decoding[i].num_decode > 0;
        let ghost before = tasks@[i as int]@;
        let delivery = if tasks[i].closed {
            Delivery { token: None, finished: true }
        } else if decodes {
            if rank < sampled.len() && sampled[rank] != eos && tasks[i].cache.len() < usize::MAX {
                let token = sampled[rank];
                tasks[i].cache.push(token);
                tasks[i].cache.slide();
                Delivery { token: Some(token), finished: false }
            } else {
                Delivery { token: None, finished: true }
            }
        } else {
            let idle = tasks[i].cache.len() == tasks[i].cache.end();
            Delivery { token: None, finished: idle }
        };
        out.push(delivery);
        if decodes {
            rank += 1;
        }
        i += 1;
    }
    out
}

/// The elements of `v` in reverse order.
fn reversed<T>(v: Vec<T>) -> (r: Vec<T>)
    ensures
        r@ == v@.reverse(),
{
    let mut v = v;
    let ghost all = v@;
    let mut out: Vec<T> = Vec::new();
    while v.len() > 0
        invariant
            v@.len() <= all.len(),
            v@ == all.take(v@.len() as int),
            out@.len() + v@.len() == all.len(),
            forall|k: int| 0 <= k < out@.len() ==> #[trigger] out@[k] == all[all.len() - 1 - k],
        decreases v@.len(),
    {
        let last = v.pop().unwrap();
        out.push(last);
    }
    assert(out@ =~= all.reverse());
    out
}

/// Takes the storage out of every task, pairing it with the task's range.
fn detach<S, A>(tasks: Vec<Task<S, A>>, ranges: &Vec<QueryRange>) -> (r: (
    Vec<Task<(), A>>,
    Vec<QueryContext<S>>,
))
    requires
        ranges@.len() == tasks@.len(),
    ensures
        r.0@.len() == tasks@.len(),
        r.1@.len() == tasks@.len(),
        forall|i: int|
            0 <= i < tasks@.len() ==> (#[trigger] r.0@[i])@ == (TaskView {
                cache: tasks@[i]@.cache.with_storage(()),
                sample: tasks@[i].sample,
                closed: tasks@[i].closed,
            }),
        forall|i: int| 0 <= i < tasks@.len() ==> (#[trigger] r.1@[i]).range == ranges@[i],
        forall|i: int| 0 <= i < tasks@.len() ==> (#[trigger] r.1@[i]).cache == tasks@[i]@.cache.storage,
{
    let mut parts: Vec<Task<(), A>> = Vec::new();
    let mut queries: Vec<QueryContext<S>> = Vec::new();
    let ghost all = tasks@;
    for task in it: tasks
        invariant
            it.seq() == all,
            ranges@.len() == all.len(),
            parts@.len() == it.index(),
            queries@.len() == it.index(),
            forall|i: int|
                0 <= i < it.index() ==> (#[trigger] parts@[i])@ == (TaskView {
                    cache: all[i]@.cache.with_storage(()),
                    sample: all[i].sample,
                    closed: all[i].closed,
                }),
            forall|i: int| 0 <= i < it.index() ==> (#[trigger] queries@[i]).range == ranges@[i],
            forall|i: int|
                0 <= i < it.index() ==> (#[trigger] queries@[i]).cache == all[i]@.cache.storage,
    {
        let Task { cache, sample, closed } = task;
        let (bare, storage) = cache.replace_storage(());
        let range = ranges[parts.len()];
        parts.push(Task { cache: bare, sample, closed });
        queries.push(QueryContext { cache: storage, range });
    }
    (parts, queries)
}

/// Gives every task the storage of the query at its place.
fn attach<S, A>(parts: Vec<Task<(), A>>, queries: Vec<QueryContext<S>>) -> (r: Vec<Task<S, A>>)
    requires
        queries@.len() == parts@.len(),
    ensures
        r@.len() == parts@.len(),
        forall|i: int|
            0 <= i < parts@.len() ==> (#[trigger] r@[i])@ == (TaskView {
                cache: parts@[i]@.cache.with_storage(queries@[i].cache),
                sample: parts@[i].sample,
                closed: parts@[i].closed,
            }),
{
    let mut stack = reversed(queries);
    let mut tasks: Vec<Task<S, A>> = Vec::new();
    let ghost all = parts@;
    for part in it: parts
        invariant
            it.seq() == all,
            queries@.len() == all.len(),
            tasks@.len() == it.index(),
            stack@ == queries@.reverse().take(all.len() - it.index()),
            forall|i: int|
                0 <= i < it.index() ==> (#[trigger] tasks@[i])@ == (TaskView {
                    cache: all[i]@.cache.with_storage(queries@[i].cache),
                    sample: all[i].sample,
                    closed: all[i].closed,
                }),
    {
        let Task { cache, sample, closed } = part;
        let query = stack.pop().unwrap();
        let (full, _) = cache.replace_storage(query.cache);
        tasks.push(Task { cache: full, sample, closed });
    }
    tasks
}

/// The tasks with every window moved forward as far as it must.
pub open spec fn slid_all<S, A>(tasks: Seq<TaskView<S, A>>) -> Seq<TaskView<S, A>> {
    Seq::new(tasks.len(), |i: int| TaskView { cache: tasks[i].cache.slid(), ..tasks[i] })
}

/// What the plan asks decoding to do for each task.
pub open spec fn planned_decoding<S, A>(tasks: Seq<TaskView<S, A>>, budget: nat) -> Seq<
    DecodingMeta,
> {
    Seq::new(tasks.len(), |i: int| decoding_at(tasks, budget, i))
}

/// What one whole step makes of task `i` when the backend samples
/// `sampled`: the window slides if it must, the granted tokens are
/// forwarded, and the sampled token is routed.
pub open spec fn stepped<S, A>(
    tasks: Seq<TaskView<S, A>>,
    budget: nat,
    eos: Token,
    sampled: Seq<Token>,
    i: int,
) -> (TaskView<S, A>, Delivery) {
    let ready = slid_all(tasks);
    routed(
        TaskView { cache: ready[i].cache.advanced(grant_at(ready, budget, i)), ..ready[i] },
        decodes_at(ready, budget, i),
        rank_at(planned_decoding(ready, budget), i),
        sampled,
        eos,
    )
}

/// The task without regard to what its storage holds.
pub open spec fn bare<S, A>(t: TaskView<S, A>) -> TaskView<(), A> {
    TaskView { cache: t.cache.with_storage(()), sample: t.sample, closed: t.closed }
}

/// `after` and `deliveries` are what a step with budget `budget` makes of
/// `before` when the backend samples `sampled`. The storages are the
/// backend's business and left open.
pub open spec fn is_step<S, A>(
    before: Seq<TaskView<S, A>>,
    budget: nat,
    eos: Token,
    sampled: Seq<Token>,
    after: Seq<TaskView<S, A>>,
    deliveries: Seq<Delivery>,
) -> bool {
    &&& after.len() == before.len()
    &&& deliveries.len() == before.len()
    &&& forall|i: int|
        #![trigger after[i]]
        #![trigger deliveries[i]]
        0 <= i < before.len() ==> {
            &&& bare(after[i]) == bare(stepped(before, budget, eos, sampled, i).0)
            &&& deliveries[i] == stepped(before, budget, eos, sampled, i).1
        }
}

/// The inference worker's state: the backend it drives and the number of
/// tokens it forwards in one step at most.
pub struct Dispatcher<M: CausalLM> {
    model: Arc<M>,
    /// The model's end-of-sequence token.
    eos: Token,
    max_tokens_per_batch: usize,
}

impl<M: CausalLM> Dispatcher<M> {
    /// The backend.
    pub closed spec fn model(&self) -> M {
        *self.model
    }

    /// The token budget of a step.
    pub closed spec fn budget(&self) -> nat {
        self.max_tokens_per_batch as nat
    }

    /// The end-of-sequence token of the backend.
    pub closed spec fn eos(&self) -> Token {
        self.eos
    }

    /// A dispatcher for `model` that forwards at most
    /// `max_tokens_per_batch` tokens per step. It asks the model once for
    /// its end-of-sequence token and goes by it from then on.
    pub fn new(model: Arc<M>, max_tokens_per_batch: usize) -> (r: Self)
        ensures
            r.model() == *model,
            r.budget() == max_tokens_per_batch,
    {
        let eos = model.eos_token();
        Dispatcher { model, eos, max_tokens_per_batch }
    }

    /// The backend.
    pub fn backend(&self) -> (r: &M)
        ensures
            *r == self.model(),
    {
        &*self.model
    }

    /// The end-of-sequence token of the backend.
    pub fn eos_token(&self) -> (r: Token)
        ensures
            r == self.eos(),
    {
        self.eos
    }

    /// The token budget of a step.
    pub fn max_tokens_per_batch(&self) -> (r: usize)
        ensures
            r == self.budget(),
    {
        self.max_tokens_per_batch
    }

    /// Runs one step over `tasks`: slides the windows that must slide,
    /// plans the batch, has the backend embed, forward, decode and sample
    /// it, and routes the sampled tokens. Returns the tasks in their order,
    /// each with what was decided for it.
    pub fn step(&self, tasks: Vec<Task<M::Storage, M::SampleArgs>>) -> (r: (
        Vec<Task<M::Storage, M::SampleArgs>>,
        Vec<Delivery>,
    ))
        requires
            all_wf(views(tasks@)),
        ensures
            all_wf(views(r.0@)),
            exists|sampled: Seq<Token>|
                is_step(views(tasks@), self.budget(), self.eos(), sampled, views(r.0@), r.1@),
    {
        let ghost before = views(tasks@);
        let ghost ready = slid_all(before);
        let mut work = tasks;
        let mut i: usize = 0;
        while i < work.len()
            invariant
                0 <= i <= work@.len(),
                work@.len() == before.len(),
                all_wf(before),
                ready == slid_all(before),
                forall|k: int| 0 <= k < i ==> (#[trigger] work@[k])@ == ready[k],
                forall|k: int| i <= k < work@.len() ==> (#[trigger] work@[k])@ == before[k],
            decreases work@.len() - i,
        {
            assert(before[i as int].cache.wf());
            work[i].cache.slide();
            i += 1;
        }
        assert(views(work@) =~= ready);
        assert forall|k: int| 0 <= k < ready.len() implies (#[trigger] ready[k]).cache.wf()
            && ready[k].cache.fits() by {
            assert(before[k].cache.wf());
        }
        let eos = self.eos;
        let plan = plan(&work, self.max_tokens_per_batch);
        assert(plan.decoding@ =~= planned_decoding(ready, self.budget()));
        let (parts, mut queries) = detach(work, &plan.ranges);
        assert forall|k: int| 0 <= k < plan.decoding@.len() implies (#[trigger] plan.decoding@[k]).num_decode
            <= plan.decoding@[k].num_query by {
            assert(plan.decoding@[k] == decoding_at(ready, self.budget(), k));
        }
        let embedded = self.model.token_embed(plan.tokens.as_slice());
        let hidden = self.model.forward(queries.as_mut_slice(), embedded);
        let logits = self.model.decode(plan.decoding.as_slice(), hidden);
        let sampled = self.model.sample(plan.samples.as_slice(), logits);
        work = attach(parts, queries);
        assert forall|k: int| 0 <= k < work@.len() implies bare((#[trigger] work@[k])@) == bare(
            ready[k],
        ) by {
            assert(parts@[k]@ == bare(ready[k]));
        }
        assert forall|k: int| 0 <= k < work@.len() implies {
            let c = (#[trigger] work@[k])@.cache;
            &&& c.wf()
            &&& c.end + plan.ranges@[k].len() <= c.len()
            &&& c.end + plan.ranges@[k].len() - c.start <= c.capacity
        } by {
            assert(bare(work@[k]@) == bare(ready[k]));
            assert(plan.ranges@[k] == range_at(ready, self.budget(), k));
            assert(ready[k].cache.wf() && ready[k].cache.fits());
        }
        let ghost attached = views(work@);
        advance(&mut work, &plan.ranges);
        let ghost advanced = views(work@);
        assert forall|k: int| 0 <= k < plan.decoding@.len() implies (#[trigger] plan.decoding@[k]).num_decode
            <= 1 by {
            assert(plan.decoding@[k] == decoding_at(ready, self.budget(), k));
        }
        let deliveries = route(&mut work, &plan.decoding, sampled.as_slice(), eos);
        proof {
            let after = views(work@);
            assert forall|k: int| 0 <= k < before.len() implies {
                &&& bare(#[trigger] after[k]) == bare(
                    stepped(before, self.budget(), eos, sampled@, k).0,
                )
                &&& deliveries@[k] == stepped(before, self.budget(), eos, sampled@, k).1
            } by {
                assert(plan.ranges@[k] == range_at(ready, self.budget(), k));
                assert(plan.decoding@[k] == decoding_at(ready, self.budget(), k));
                assert(bare(attached[k]) == bare(ready[k]));
                let t1 = advanced[k];
                let s1 = TaskView {
                    cache: ready[k].cache.advanced(grant_at(ready, self.budget(), k)),
                    ..ready[k]
                };
                assert(bare(t1) == bare(s1));
                lemma_routed_bare(
                    t1,
                    s1,
                    plan.decoding@[k].num_decode > 0,
                    rank_at(plan.decoding@, k),
                    sampled@,
                    eos,
                );
            }
            assert(is_step(before, self.budget(), eos, sampled@, after, deliveries@));
            assert forall|k: int| 0 <= k < after.len() implies (#[trigger] after[k]).cache.wf() by {
                assert(work@[k]@.cache.wf());
            }
        }
        let ghost routed_tasks = work@;
        let ghost decided = deliveries@;
        let r = (work, deliveries);
        assert(r.0@ == routed_tasks && r.1@ == decided);
        assert(is_step(before, self.budget(), self.eos(), sampled@, views(r.0@), r.1@));
        r
    }
}

/// The tokens outstanding in the first `i` tasks together.
pub open spec fn outstanding_before<S, A>(tasks: Seq<TaskView<S, A>>, i: int) -> nat
    decreases i,
{
    if i <= 0 {
        0
    } else {
        outstanding_before(tasks, i - 1) + outstanding(tasks[i - 1].cache)
    }
}

/// With a budget that covers everything outstanding, batching changes
/// nothing for a task: it is granted all it has outstanding, and its range
/// and its decoding are what they would be if it were planned alone.
pub proof fn lemma_batched_plan_is_the_plan_alone<S, A>(
    tasks: Seq<TaskView<S, A>>,
    budget: nat,
    i: int,
)
    requires
        0 <= i < tasks.len(),
        outstanding_before(tasks, tasks.len() as int) <= budget,
    ensures
        grant_at(tasks, budget, i) == outstanding(tasks[i].cache),
        range_at(tasks, budget, i) == range_at(seq![tasks[i]], outstanding(tasks[i].cache), 0),
        decoding_at(tasks, budget, i) == decoding_at(
            seq![tasks[i]],
            outstanding(tasks[i].cache),
            0,
        ),
{
    lemma_outstanding_grows(tasks, i, i + 1);
    lemma_outstanding_grows(tasks, i + 1, tasks.len() as int);
    lemma_budget_suffices(tasks, budget, i);
}

proof fn lemma_outstanding_grows<S, A>(tasks: Seq<TaskView<S, A>>, i: int, j: int)
    requires
        0 <= i <= j,
    ensures
        outstanding_before(tasks, i) <= outstanding_before(tasks, j),
    decreases j - i,
{
    if i < j {
        lemma_outstanding_grows(tasks, i, j - 1);
    }
}

proof fn lemma_budget_suffices<S, A>(tasks: Seq<TaskView<S, A>>, budget: nat, i: int)
    requires
        0 <= i,
        outstanding_before(tasks, i) <= budget,
    ensures
        budget_before(tasks, budget, i) == budget - outstanding_before(tasks, i),
    decreases i,
{
    if i > 0 {
        lemma_outstanding_grows(tasks, i - 1, i);
        lemma_budget_suffices(tasks, budget, i - 1);
    }
}

/// What a step never takes from a budget that it does not have: the grant
/// of a task is no more than it has outstanding.
pub proof fn lemma_grant_bounded<S, A>(tasks: Seq<TaskView<S, A>>, budget: nat, i: int)
    ensures
        grant_at(tasks, budget, i) <= outstanding(tasks[i].cache),
        grant_at(tasks, budget, i) <= budget_before(tasks, budget, i),
{
}

/// A step keeps a cache a continuation of the dialog it came from: if the
/// cache of task `i` continues a dialog before the step, then so does the
/// cache the step leaves, whatever the backend sampled. The session can
/// therefore take its cache back after any number of steps.
pub proof fn lemma_step_keeps_continuation<S, A>(
    tasks: Seq<TaskView<S, A>>,
    budget: nat,
    eos: Token,
    sampled: Seq<Token>,
    i: int,
    said: Seq<Token>,
    window: nat,
)
    requires
        0 <= i < tasks.len(),
        continuation(said, window, tasks[i].cache),
    ensures
        continuation(said, window, stepped(tasks, budget, eos, sampled, i).0.cache),
{
    let ready = slid_all(tasks);
    let c0 = tasks[i].cache;
    let c1 = ready[i].cache;
    assert(c1 == c0.slid());
    let grant = grant_at(ready, budget, i);
    let c2 = c1.advanced(grant);
    assert(continuation(said, window, c2));
    let rank = rank_at(planned_decoding(ready, budget), i);
    if !tasks[i].closed && decodes_at(ready, budget, i) && rank < sampled.len() && sampled[rank as int]
        != eos && c2.len() < usize::MAX {
        let c3 = c2.extended(seq![sampled[rank as int]]);
        assert(c3.tokens.take(said.len() - c3.base) =~= c2.tokens.take(said.len() - c2.base));
        assert(continuation(said, window, c3));
        assert(continuation(said, window, c3.slid()));
    }
}

/// Whether a cache continues a dialog does not depend on what its storage
/// holds.
pub proof fn lemma_continuation_bare<S>(said: Seq<Token>, window: nat, c: CacheView<S>)
    ensures
        continuation(said, window, c) == continuation(said, window, c.with_storage(())),
{
}

/// Routing looks at a task's tokens and positions only: tasks that differ
/// in nothing but their storage are routed alike.
pub proof fn lemma_routed_bare<S, A>(
    a: TaskView<S, A>,
    b: TaskView<S, A>,
    decodes: bool,
    rank: nat,
    sampled: Seq<Token>,
    eos: Token,
)
    requires
        bare(a) == bare(b),
    ensures
        bare(routed(a, decodes, rank, sampled, eos).0) == bare(
            routed(b, decodes, rank, sampled, eos).0,
        ),
        routed(a, decodes, rank, sampled, eos).1 == routed(b, decodes, rank, sampled, eos).1,
{
    assert(a.cache.with_storage(()) == b.cache.with_storage(()));
    assert(a.cache.tokens == b.cache.tokens);
}

} // verus!
