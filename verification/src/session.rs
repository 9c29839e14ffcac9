//! A conversation with the model: its dialog, its cache, and the rules
//! that keep the two in step.

use vstd::prelude::*;
use std::sync::Arc;
use crate::Token;
use crate::backend::CausalLM;
use crate::cache::{Cache, CacheView};
use crate::dialog::{concat, copy_tokens, lemma_concat_take, Dialog};
use crate::dispatch::Task;

verus! {

/// The one error a session reports: a sentence position beyond the dialog.
#[derive(Clone, Copy, PartialEq, Eq, Hash, Debug)]
pub struct ChatError;

impl ChatError {
    /// The text shown for the error.
    pub fn message(&self) -> (r: &'static str)
        ensures
            r@ == "chat error"@,
    {
        "chat error"
    }
}

/// `Arc::clone` hands out another handle to the same shared value.
#[verifier::external_body]
pub(crate) fn share<T>(handle: &Arc<T>) -> (r: Arc<T>)
    ensures
        r == *handle,
{
    Arc::clone(handle)
}

/// Mathematical content of a [`Session`].
pub struct SessionView<S> {
    /// The sentences of the dialog, oldest first.
    pub dialog: Seq<Seq<Token>>,
    /// The cache, unless a task holds it.
    pub cache: Option<CacheView<S>>,
}

impl<S> SessionView<S> {
    /// All tokens of the dialog.
    pub open spec fn tokens(self) -> Seq<Token> {
        concat(self.dialog)
    }

    /// The cache, if the session holds it, is well formed, holds
    /// `max_seq_len` positions, and stands for exactly the tokens of the
    /// dialog from its first kept position on.
    pub open spec fn agrees(self, max_seq_len: nat) -> bool {
        self.cache matches Some(c) ==> {
            &&& c.wf()
            &&& c.capacity == max_seq_len
            &&& c.len() == self.tokens().len()
            &&& c.tokens == self.tokens().skip(c.base as int)
        }
    }

    /// The session holds its cache, or has nothing yet to cache.
    pub open spec fn ready(self) -> bool {
        self.cache.is_none() ==> self.dialog.len() == 0
    }

    /// Position at which the most recent `window` tokens of the dialog
    /// start.
    pub open spec fn window_start(self, window: nat) -> nat {
        if self.tokens().len() <= window {
            0
        } else {
            (self.tokens().len() - window) as nat
        }
    }

    /// The session rolled back to its first `n` sentences. The cache is
    /// rolled back with it: its window stays where it is and loses what
    /// lies beyond the new end. Only if the new end lies before the window
    /// does the cache start over, on the most recent `window` tokens.
    pub open spec fn reverted(self, n: nat, window: nat) -> Self
        recommends
            self.cache.is_some(),
            n < self.dialog.len(),
    {
        let dialog = self.dialog.take(n as int);
        let total = concat(dialog).len();
        let old_cache = self.cache.unwrap();
        let after = SessionView { dialog, cache: self.cache };
        let at = after.window_start(window);
        SessionView {
            dialog,
            cache: Some(
                if old_cache.start <= total {
                    old_cache.reverted(total)
                } else {
                    CacheView {
                        tokens: concat(dialog).skip(at as int),
                        base: at,
                        start: at,
                        end: at,
                        ..old_cache
                    }
                },
            ),
        }
    }
}

impl<S> SessionView<S> {
    /// What a request to roll back to `n` sentences leaves of the session:
    /// the session rolled back, if it has more than `n` sentences, and the
    /// session as it is otherwise.
    pub open spec fn after_revert(self, n: nat, window: nat) -> Self {
        if n < self.dialog.len() {
            self.reverted(n, window)
        } else {
            self
        }
    }

    /// `self` is a fork of `origin`: it has the same dialog, and a cache
    /// exactly if `origin` has one, which then stands for the same tokens
    /// at the same positions.
    pub open spec fn is_fork_of(self, origin: Self) -> bool {
        &&& self.dialog == origin.dialog
        &&& self.cache.is_some() == origin.cache.is_some()
        &&& self.cache matches Some(c) ==> c.with_storage(()) == origin.cache.unwrap().with_storage(
            (),
        )
    }

    /// The session, which holds a cache, after `sentences` were appended.
    pub open spec fn extended(self, sentences: Seq<Seq<Token>>) -> Self
        recommends
            self.cache.is_some(),
    {
        SessionView {
            dialog: self.dialog + sentences,
            cache: Some(self.cache.unwrap().extended(concat(sentences))),
        }
    }
}

/// Rolling back to the same position twice has the effect of rolling back
/// once.
pub proof fn lemma_revert_idempotent<S>(s: SessionView<S>, n: nat, window: nat)
    ensures
        s.after_revert(n, window).after_revert(n, window) == s.after_revert(n, window),
{
}

/// What is appended to a fork reaches the fork alone: the fork's cache then
/// stands for the tokens of the origin's cache followed by the new tokens,
/// and its dialog is the origin's followed by the new sentences.
pub proof fn lemma_fork_isolation<S>(
    origin: SessionView<S>,
    fork: SessionView<S>,
    sentences: Seq<Seq<Token>>,
)
    requires
        origin.cache.is_some(),
        fork.is_fork_of(origin),
    ensures
        fork.extended(sentences).cache.unwrap().tokens == origin.cache.unwrap().tokens + concat(
            sentences,
        ),
        fork.extended(sentences).dialog == origin.dialog + sentences,
        fork.extended(sentences).cache.unwrap().base == origin.cache.unwrap().base,
        fork.extended(sentences).cache.unwrap().start == origin.cache.unwrap().start,
        fork.extended(sentences).cache.unwrap().end == origin.cache.unwrap().end,
{
    let a = fork.cache.unwrap();
    let b = origin.cache.unwrap();
    assert(a.with_storage(()).tokens == b.with_storage(()).tokens);
    assert(a.with_storage(()).base == b.with_storage(()).base);
    assert(a.with_storage(()).start == b.with_storage(()).start);
    assert(a.with_storage(()).end == b.with_storage(()).end);
}

/// `cache` continues a dialog that holds the tokens `said`, for a model
/// with a window of `window` positions: it is well formed, holds `window`
/// positions, keeps tokens from a position within the dialog on, and
/// agrees with the dialog on the tokens they share.
pub open spec fn continuation<S>(said: Seq<Token>, window: nat, cache: CacheView<S>) -> bool {
    &&& cache.wf()
    &&& cache.capacity == window
    &&& cache.base <= said.len() <= cache.len()
    &&& cache.tokens.take(said.len() - cache.base) == said.skip(cache.base as int)
}

/// The cache that a session hands out continues the session's dialog.
pub proof fn lemma_chat_hands_out_a_continuation<S>(s: SessionView<S>, window: nat)
    requires
        s.cache.is_some(),
        s.agrees(window),
    ensures
        continuation(s.tokens(), window, s.cache.unwrap().slid()),
{
    let c = s.cache.unwrap();
    assert(c.tokens.take(s.tokens().len() - c.base) =~= c.tokens);
}

/// The views of `sentences`, in order.
pub open spec fn sentences_view(sentences: Seq<Vec<Token>>) -> Seq<Seq<Token>> {
    Seq::new(sentences.len(), |i: int| sentences[i]@)
}

/// A conversation with the model `M`.
pub struct Session<M: CausalLM> {
    model: Arc<M>,
    /// Number of positions a cache of the model holds.
    window: u32,
    /// The model's end-of-sequence token.
    eos: Token,
    /// The sampling parameters of the session.
    pub sample: M::SampleArgs,
    dialog: Dialog,
    cache: Option<Cache<M::Storage>>,
}

impl<M: CausalLM> View for Session<M> {
    type V = SessionView<M::Storage>;

    closed spec fn view(&self) -> SessionView<M::Storage> {
        SessionView {
            dialog: self.dialog@,
            cache: match self.cache {
                Some(c) => Some(c@),
                None => None,
            },
        }
    }
}

impl<M: CausalLM> Session<M> {
    /// The model the session talks to.
    pub closed spec fn model(&self) -> M {
        *self.model
    }

    /// The sampling parameters of the session.
    pub closed spec fn sampling(&self) -> M::SampleArgs {
        self.sample
    }

    /// Number of positions a cache of the session's model holds.
    pub closed spec fn window(&self) -> u32 {
        self.window
    }

    /// The end-of-sequence token of the session's model.
    pub closed spec fn eos(&self) -> Token {
        self.eos
    }

    /// The dialog is consistent and the cache agrees with it.
    pub closed spec fn wf(&self) -> bool {
        &&& self.dialog.wf()
        &&& self@.agrees(self.window() as nat)
    }

    /// A well-formed session's cache agrees with its dialog.
    pub proof fn lemma_wf_agrees(&self)
        requires
            self.wf(),
        ensures
            self@.agrees(self.window() as nat),
    {
    }

    /// A session without history on `model`, sampling with `sample`. The
    /// session asks the model once for its window and its end-of-sequence
    /// token and goes by these from then on.
    pub fn new(model: Arc<M>, sample: M::SampleArgs) -> (r: Self)
        ensures
            r.wf(),
            r.model() == *model,
            r.sampling() == sample,
            r@.dialog == Seq::<Seq<Token>>::empty(),
            r@.cache.is_none(),
    {
        let window = model.max_seq_len();
        let eos = model.eos_token();
        Session { model, window, eos, sample, dialog: Dialog::new(), cache: None }
    }

    /// Number of positions a cache of the session's model holds.
    pub fn max_seq_len(&self) -> (r: u32)
        ensures
            r == self.window(),
    {
        self.window
    }

    /// The end-of-sequence token of the session's model.
    pub fn eos_token(&self) -> (r: Token)
        ensures
            r == self.eos(),
    {
        self.eos
    }

    /// Whether the session holds its cache.
    pub fn has_cache(&self) -> (r: bool)
        ensures
            r == self@.cache.is_some(),
    {
        self.cache.is_some()
    }

    /// Whether the session holds its cache or has nothing yet to cache.
    pub fn is_ready(&self) -> (r: bool)
        ensures
            r == self@.ready(),
    {
        self.cache.is_some() || self.dialog.num_sentences() == 0
    }

    /// Number of tokens in the dialog.
    pub fn num_tokens(&self) -> (r: usize)
        requires
            self.wf(),
        ensures
            r == self@.tokens().len(),
    {
        self.dialog.num_tokens()
    }

    /// Number of sentences in the dialog.
    pub fn dialog_pos(&self) -> (r: usize)
        ensures
            r == self@.dialog.len(),
    {
        self.dialog.num_sentences()
    }

    /// A second session with the same history. Its cache has storage of
    /// its own, so nothing done to either session reaches the other.
    pub fn fork(&self) -> (r: Self)
        requires
            self.wf(),
        ensures
            r.wf(),
            r.model() == self.model(),
            r.sampling() == self.sampling(),
            r.window() == self.window(),
            r.eos() == self.eos(),
            r@.is_fork_of(self@),
    {
        let cache = match &self.cache {
            Some(c) => Some(c.duplicate(&*self.model)),
            None => None,
        };
        Session {
            model: share(&self.model),
            window: self.window,
            eos: self.eos,
            sample: self.sample,
            dialog: self.dialog.clone(),
            cache,
        }
    }

    /// Rolls the conversation back to its first `dialog_pos` sentences.
    ///
    /// Fails, and changes nothing, if the dialog has fewer sentences. With
    /// exactly that many it succeeds and changes nothing.
    pub fn revert(&mut self, dialog_pos: usize) -> (r: Result<(), ChatError>)
        requires
            old(self).wf(),
            old(self)@.ready(),
        ensures
            final(self).wf(),
            final(self)@.ready(),
            final(self).model() == old(self).model(),
            final(self).sampling() == old(self).sampling(),
            final(self).window() == old(self).window(),
            final(self).eos() == old(self).eos(),
            r.is_err() <==> dialog_pos > old(self)@.dialog.len(),
            final(self)@ == old(self)@.after_revert(
                dialog_pos as nat,
                old(self).window() as nat,
            ),
    {
        let n = self.dialog.num_sentences();
        if dialog_pos > n {
            return Err(ChatError);
        }
        if dialog_pos == n {
            return Ok(());
        }
        let ghost before = self@;
        let ghost c0 = before.cache.unwrap();
        self.dialog.revert(dialog_pos);
        let total = self.dialog.num_tokens();
        let window = self.window as usize;
        let mut cache = self.cache.take().unwrap();
        proof {
            lemma_concat_take(before.dialog, dialog_pos as int);
        }
        match cache.revert(total) {
            Some(()) => {
                assert(cache@.tokens =~= self.dialog.tokens().skip(cache@.base as int));
            },
            None => {
                let (tokens, pos) = self.dialog.window(window);
                cache.reset_with(tokens, pos);
            },
        }
        self.cache = Some(cache);
        Ok(())
    }

    /// Appends `sentences` to the dialog and to the cache, creating the
    /// cache if the session has none yet. Afterwards the cache stands for
    /// exactly as many tokens as the dialog holds.
    pub fn extend(&mut self, sentences: &[Vec<Token>])
        requires
            old(self).wf(),
            old(self)@.ready(),
        ensures
            final(self).wf(),
            final(self)@.ready(),
            final(self).model() == old(self).model(),
            final(self).sampling() == old(self).sampling(),
            final(self).window() == old(self).window(),
            final(self).eos() == old(self).eos(),
            final(self)@.dialog == old(self)@.dialog + sentences_view(sentences@),
            final(self)@.cache.is_some(),
            old(self)@.cache.is_some() ==> final(self)@ == old(self)@.extended(
                sentences_view(sentences@),
            ),
            old(self)@.cache.is_none() ==> final(self)@.cache.unwrap().with_storage(()) == (CacheView {
                tokens: concat(sentences_view(sentences@)),
                base: 0,
                start: 0,
                end: 0,
                capacity: old(self).window() as nat,
                storage: (),
            }),
            final(self)@.cache.unwrap().len() == final(self)@.tokens().len(),
    {
        let mut cache = match self.cache.take() {
            Some(c) => c,
            None => Cache::with_storage(self.model.new_cache(), self.window, Vec::new()),
        };
        let ghost c0 = cache@;
        let ghost d0 = self.dialog@;
        let ghost all = sentences_view(sentences@);
        assert(all.take(0) =~= Seq::<Seq<Token>>::empty());
        assert(c0.tokens + Seq::<Token>::empty() =~= c0.tokens);
        assert(d0 + Seq::<Seq<Token>>::empty() =~= d0);
        assert(concat(d0).skip(0) =~= concat(d0));
        let mut i: usize = 0;
        while i < sentences.len()
            invariant
                0 <= i <= sentences@.len(),
                all == sentences_view(sentences@),
                self.dialog.wf(),
                self.dialog@ == d0 + all.take(i as int),
                self.dialog.tokens() == concat(d0) + concat(all.take(i as int)),
                cache@ == c0.extended(concat(all.take(i as int))),
                cache@.wf(),
                c0.wf(),
                c0.len() == concat(d0).len(),
                c0.tokens == concat(d0).skip(c0.base as int),
                self.model() == old(self).model(),
                self.sampling() == old(self).sampling(),
                self.window() == old(self).window(),
                self.eos() == old(self).eos(),
                c0.capacity == self.window(),
                self.cache.is_none(),
            decreases sentences@.len() - i,
        {
            let sentence = &sentences[i];
            proof {
                lemma_concat_take(all, i as int);
                lemma_concat_take(all, i as int + 1);
                assert(all[i as int] == sentence@);
            }
            self.dialog.push(copy_tokens(sentence.as_slice()));
            cache.extend(sentence.as_slice());
            proof {
                assert(d0 + all.take(i as int + 1) =~= (d0 + all.take(i as int)).push(sentence@));
                assert(c0.tokens + concat(all.take(i as int + 1)) =~= (c0.tokens + concat(
                    all.take(i as int),
                )) + sentence@);
                assert(concat(d0) + concat(all.take(i as int + 1)) =~= (concat(d0) + concat(
                    all.take(i as int),
                )) + sentence@);
            }
            i += 1;
        }
        proof {
            assert(all.take(i as int) =~= all);
            assert(cache@.tokens =~= self.dialog.tokens().skip(cache@.base as int));
        }
        self.cache = Some(cache);
    }

    /// Hands the cache out as a task for the dispatcher. The window of the
    /// cache is first moved forward as far as the model's limit demands.
    pub fn chat(&mut self) -> (r: Task<M::Storage, M::SampleArgs>)
        requires
            old(self).wf(),
            old(self)@.cache.is_some(),
        ensures
            final(self).wf(),
            final(self).model() == old(self).model(),
            final(self).sampling() == old(self).sampling(),
            final(self).window() == old(self).window(),
            final(self).eos() == old(self).eos(),
            final(self)@.dialog == old(self)@.dialog,
            final(self)@.cache.is_none(),
            r.cache@ == old(self)@.cache.unwrap().slid(),
            r.cache@.wf(),
            r.cache@.fits(),
            r.sample == old(self).sampling(),
            !r.closed,
    {
        let mut cache = self.cache.take().unwrap();
        cache.slide();
        Task { cache, sample: self.sample, closed: false }
    }

    /// What a cache that comes back from a task must satisfy: it continues
    /// the dialog of the session.
    pub open spec fn continues(&self, cache: CacheView<M::Storage>) -> bool {
        continuation(self@.tokens(), self.window() as nat, cache)
    }

    /// Whether `cache` continues the dialog, so that the session can take
    /// it back.
    pub fn accepts(&self, cache: &Cache<M::Storage>) -> (r: bool)
        requires
            self.wf(),
        ensures
            r == self.continues(cache@),
    {
        if !cache.is_wf() || cache.capacity() != self.window {
            return false;
        }
        let n = self.dialog.num_tokens();
        let base = cache.base();
        if base > n || n > cache.len() {
            return false;
        }
        let (said, at) = self.dialog.window(n - base);
        let kept = cache.slice_tail(base);
        assert(said@ == self@.tokens().skip(base as int));
        assert(kept@ =~= cache@.tokens);
        let mut i: usize = 0;
        while i < n - base
            invariant
                0 <= i <= n - base,
                said@.len() == n - base,
                n - base <= kept@.len(),
                said@ == self@.tokens().skip(base as int),
                kept@ == cache@.tokens,
                n == self@.tokens().len(),
                base == cache@.base,
                forall|k: int| 0 <= k < i ==> said@[k] == kept@[k],
            decreases n - base - i,
        {
            if said[i] != kept[i] {
                assert(cache@.tokens.take(n - base)[i as int] != self@.tokens().skip(
                    base as int,
                )[i as int]);
                return false;
            }
            i += 1;
        }
        assert(kept@.take(n - base) =~= said@);
        true
    }

    /// The tokens a returned cache adds to the dialog: those generated
    /// since the dialog ended, closed by the end-of-sequence token.
    pub open spec fn reply(&self, cache: CacheView<M::Storage>) -> Seq<Token> {
        cache.tokens.skip(self@.tokens().len() - cache.base).push(self.eos())
    }

    /// Takes back the cache of a finished or abandoned task.
    ///
    /// If tokens were generated, they become a new sentence of the dialog,
    /// closed by the end-of-sequence token, which the cache receives too.
    /// Tokens before the cache's window are dropped from the cache.
    pub fn restore_cache(&mut self, cache: Cache<M::Storage>)
        requires
            old(self).wf(),
            old(self).continues(cache@),
        ensures
            final(self).wf(),
            final(self)@.ready(),
            final(self).model() == old(self).model(),
            final(self).sampling() == old(self).sampling(),
            final(self).window() == old(self).window(),
            final(self).eos() == old(self).eos(),
            cache@.len() > old(self)@.tokens().len() ==> {
                &&& final(self)@.dialog == old(self)@.dialog.push(old(self).reply(cache@))
                &&& final(self)@.cache == Some(
                    cache@.extended(seq![old(self).eos()]).cleaned(),
                )
            },
            cache@.len() == old(self)@.tokens().len() ==> {
                &&& final(self)@.dialog == old(self)@.dialog
                &&& final(self)@.cache == Some(cache@.cleaned())
            },
            final(self)@.cache.unwrap().len() == final(self)@.tokens().len(),
    {
        let ghost returned = cache@;
        let mut cache = cache;
        let end = self.dialog.num_tokens();
        if cache.len() > end {
            let mut reply = copy_tokens(cache.slice_tail(end));
            reply.push(self.eos);
            proof {
                assert(reply@ =~= old(self).reply(returned));
            }
            let ghost said = old(self)@.tokens();
            let ghost k = said.len() - returned.base;
            self.dialog.push(reply);
            // the dialog holds the reply and so bounds the length of the cache
            cache.push(self.eos);
            proof {
                assert(returned.tokens =~= returned.tokens.take(k) + returned.tokens.skip(k));
                assert((said + reply@).skip(returned.base as int) =~= said.skip(
                    returned.base as int,
                ) + reply@);
                assert(cache@.tokens =~= self.dialog.tokens().skip(cache@.base as int));
            }
        } else {
            proof {
                assert(cache@.tokens =~= self.dialog.tokens().skip(cache@.base as int));
            }
        }
        cache.cleanup_before_start();
        proof {
            assert(cache@.tokens =~= self.dialog.tokens().skip(cache@.base as int));
        }
        self.cache = Some(cache);
    }
}

} // verus!
