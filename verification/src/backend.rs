//! The capability surface every causal-language-model backend offers to the
//! dispatcher and to sessions, and the per-request arguments that go with
//! it.

use vstd::prelude::*;
use crate::Token;
use crate::forward::QueryRange;

verus! {

/// One request of a fused forward step: the key/value storage of its
/// session and the cache positions its new tokens occupy.
pub struct QueryContext<S> {
    /// The session's key/value storage, updated in place by the step.
    pub cache: S,
    /// The positions of the tokens forwarded for this request.
    pub range: QueryRange,
}

impl<S> QueryContext<S> {
    /// Number of tokens cached before the step.
    pub fn pos(&self) -> (r: u32)
        ensures
            r == self.range.start,
    {
        self.range.pos()
    }

    /// Number of tokens forwarded.
    pub fn seq_len(&self) -> (r: u32)
        ensures
            r == self.range.len(),
    {
        self.range.seq_len()
    }

    /// Number of positions attended to.
    pub fn att_len(&self) -> (r: u32)
        ensures
            r == self.range.end,
    {
        self.range.att_len()
    }
}

/// What decoding takes from one request's rows of the hidden state.
#[derive(Clone, Copy, PartialEq, Eq, Debug)]
pub struct DecodingMeta {
    /// Number of rows the request contributed to the step.
    pub num_query: usize,
    /// Number of its last rows to turn into logits.
    pub num_decode: usize,
}

/// How to sample for one request.
#[derive(Debug)]
pub struct SampleMeta<A> {
    /// Number of tokens to sample, one per row of logits of the request.
    pub num_decode: usize,
    /// The sampling parameters of the request.
    pub args: A,
}

/// Number of rows the first `i` requests contributed.
pub open spec fn rows_before(decoding: Seq<DecodingMeta>, i: int) -> nat
    decreases i,
{
    if i <= 0 {
        0
    } else {
        rows_before(decoding, i - 1) + decoding[i - 1].num_query as nat
    }
}

/// The rows of the hidden state that are decoded for the first `i`
/// requests: for each request in order, the last `num_decode` of its rows.
pub open spec fn selected_rows(decoding: Seq<DecodingMeta>, i: int) -> Seq<int>
    decreases i,
{
    if i <= 0 {
        Seq::empty()
    } else {
        let d = decoding[i - 1];
        selected_rows(decoding, i - 1) + Seq::new(
            d.num_decode as nat,
            |j: int| rows_before(decoding, i - 1) + d.num_query - d.num_decode + j,
        )
    }
}

/// No request asks for more rows to be decoded than it contributed.
pub open spec fn decodable(decoding: Seq<DecodingMeta>) -> bool {
    forall|i: int| 0 <= i < decoding.len() ==> (#[trigger] decoding[i]).num_decode <= decoding[i].num_query
}

impl DecodingMeta {
    /// The rows of the hidden state to decode, in the order of their
    /// logits. Returns `None` if some request asks for more rows than it
    /// contributed, or if the batch has more rows than fit in `usize`.
    pub fn select(decoding: &[DecodingMeta]) -> (r: Option<Vec<usize>>)
        ensures
            r.is_some() <==> decodable(decoding@) && rows_before(
                decoding@,
                decoding@.len() as int,
            ) <= usize::MAX,
            r matches Some(rows) ==> {
                &&& rows@.len() == selected_rows(decoding@, decoding@.len() as int).len()
                &&& forall|j: int|
                    0 <= j < rows@.len() ==> #[trigger] rows@[j] == selected_rows(
                        decoding@,
                        decoding@.len() as int,
                    )[j]
            },
    {
        let mut rows: Vec<usize> = Vec::new();
        let mut seen: usize = 0;
        let mut i: usize = 0;
        while i < decoding.len()
            invariant
                0 <= i <= decoding@.len(),
                seen == rows_before(decoding@, i as int),
                forall|k: int|
                    0 <= k < i ==> (#[trigger] decoding@[k]).num_decode <= decoding@[k].num_query,
                rows@.len() == selected_rows(decoding@, i as int).len(),
                forall|j: int|
                    0 <= j < rows@.len() ==> #[trigger] rows@[j] == selected_rows(
                        decoding@,
                        i as int,
                    )[j],
            decreases decoding@.len() - i,
        {
            let d = decoding[i];
            if d.num_decode > d.num_query {
                return None;
            }
            let end = match seen.checked_add(d.num_query) {
                Some(end) => end,
                None => {
                    proof {
                        lemma_rows_before_grows(decoding@, i as int + 1, decoding@.len() as int);
                    }
                    return None;
                },
            };
            let first = end - d.num_decode;
            let ghost head = selected_rows(decoding@, i as int);
            let mut j: usize = 0;
            while j < d.num_decode
                invariant
                    0 <= j <= d.num_decode,
                    first + d.num_decode == end,
                    rows@.len() == head.len() + j,
                    forall|a: int| 0 <= a < head.len() ==> #[trigger] rows@[a] == head[a],
                    forall|b: int| 0 <= b < j ==> #[trigger] rows@[head.len() + b] == first + b,
                decreases d.num_decode - j,
            {
                rows.push(first + j);
                j += 1;
            }
            proof {
                let next = selected_rows(decoding@, i as int + 1);
                assert(decoding@[i as int] == d);
                assert(rows@.len() == next.len());
                assert forall|a: int| 0 <= a < rows@.len() implies #[trigger] rows@[a] == next[a] by {
                    if a >= head.len() {
                        let b = a - head.len();
                        assert(rows@[head.len() + b] == first + b);
                    }
                }
            }
            seen = end;
            i += 1;
        }
        Some(rows)
    }
}

/// The rows counted grow with the number of requests counted.
pub proof fn lemma_rows_before_grows(decoding: Seq<DecodingMeta>, i: int, j: int)
    requires
        0 <= i <= j,
    ensures
        rows_before(decoding, i) <= rows_before(decoding, j),
    decreases j - i,
{
    if i < j {
        lemma_rows_before_grows(decoding, i, j - 1);
    }
}

/// The sampling parameters of the first `i` requests, each repeated once
/// per token to sample for it.
pub open spec fn expanded_args<A>(args: Seq<SampleMeta<A>>, i: int) -> Seq<A>
    decreases i,
{
    if i <= 0 {
        Seq::empty()
    } else {
        expanded_args(args, i - 1) + Seq::new(
            args[i - 1].num_decode as nat,
            |j: int| args[i - 1].args,
        )
    }
}

impl<A: Copy> SampleMeta<A> {
    /// The sampling parameters row by row: entry `r` belongs to row `r` of
    /// the logits.
    pub fn expand(args: &[SampleMeta<A>]) -> (r: Vec<A>)
        ensures
            r@ == expanded_args(args@, args@.len() as int),
    {
        let mut out: Vec<A> = Vec::new();
        let mut i: usize = 0;
        while i < args.len()
            invariant
                0 <= i <= args@.len(),
                out@ == expanded_args(args@, i as int),
            decreases args@.len() - i,
        {
            let ghost head = out@;
            let n = args[i].num_decode;
            let a = args[i].args;
            let mut j: usize = 0;
            while j < n
                invariant
                    0 <= j <= n,
                    out@ == head + Seq::new(j as nat, |k: int| a),
                decreases n - j,
            {
                out.push(a);
                assert(head + Seq::new((j + 1) as nat, |k: int| a) =~= (head + Seq::new(
                    j as nat,
                    |k: int| a,
                )).push(a));
                j += 1;
            }
            assert(Seq::new(n as nat, |k: int| a) =~= Seq::new(
                args@[i as int].num_decode as nat,
                |k: int| args@[i as int].args,
            ));
            i += 1;
        }
        out
    }
}

/// A backend: a model on some device that embeds tokens, runs the
/// transformer layers over a batch of requests, and samples from the
/// resulting logits.
///
/// Only `forward` touches a session's storage.
pub trait CausalLM {
    /// Device tensors: key/value storage, hidden states, logits.
    type Storage;

    /// Sampling parameters.
    type SampleArgs: Copy;

    /// Number of positions a cache of this model holds.
    fn max_seq_len(&self) -> u32;

    /// The token that starts a sequence.
    fn bos_token(&self) -> Token;

    /// The token that ends a sequence.
    fn eos_token(&self) -> Token;

    /// Storage for an empty cache.
    fn new_cache(&self) -> Self::Storage;

    /// Storage that holds a copy of the first `pos` positions of `cache`.
    fn duplicate_cache(&self, cache: &Self::Storage, pos: u32) -> Self::Storage;

    /// The embeddings of `tokens`, one row each.
    fn token_embed(&self, tokens: &[Token]) -> Self::Storage;

    /// Runs every layer over the batch whose rows are `token_embedded`,
    /// writing the new keys and values of request `i` into its storage at
    /// the positions of its range, and returns the hidden state.
    ///
    /// The requests are lent as a slice, which has the same length before
    /// and after, whatever the implementation does.
    fn forward(
        &self,
        queries: &mut [QueryContext<Self::Storage>],
        token_embedded: Self::Storage,
    ) -> (hidden_state: Self::Storage)
        ensures
            final(queries)@.len() == old(queries)@.len(),
    ;

    /// The logits of the rows of `hidden_state` that `decoding` selects.
    /// Callers ask for no more rows of a request than it contributed.
    fn decode(&self, decoding: &[DecodingMeta], hidden_state: Self::Storage) -> Self::Storage
        requires
            decodable(decoding@),
    ;

    /// One token per row of `logits`, sampled with the arguments of the
    /// request the row belongs to.
    fn sample(&self, args: &[SampleMeta<Self::SampleArgs>], logits: Self::Storage) -> Vec<Token>;
}

} // verus!
