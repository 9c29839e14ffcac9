//! Bookkeeping of a session's key/value cache.
//!
//! A cache stands for a run of tokens at absolute positions of the
//! conversation. Three positions divide that run: the tokens before `base`
//! are no longer kept, the keys and values of the positions in
//! `start..end` are held by the storage, and the tokens from `end` on are
//! still to be forwarded.

use vstd::prelude::*;
use vstd::slice::slice_subrange;
use std::ops::Range;
use crate::Token;
use crate::backend::CausalLM;

verus! {

/// Mathematical content of a [`Cache`].
pub struct CacheView<S> {
    /// The tokens kept, starting with the one at position `base`.
    pub tokens: Seq<Token>,
    /// Position of the first token kept.
    pub base: nat,
    /// Position of the first token whose keys and values are stored.
    pub start: nat,
    /// One past the position of the last token whose keys and values are
    /// stored.
    pub end: nat,
    /// Number of positions the storage holds.
    pub capacity: nat,
    /// The stored keys and values.
    pub storage: S,
}

impl<S> CacheView<S> {
    /// Position one past the last token: the length of the conversation the
    /// cache stands for.
    pub open spec fn len(self) -> nat {
        self.base + self.tokens.len()
    }

    /// The positions are ordered, the stored window fits the storage, and
    /// every position is a machine integer.
    pub open spec fn wf(self) -> bool {
        &&& self.base <= self.start <= self.end <= self.len() <= usize::MAX
        &&& self.end - self.start <= self.capacity <= u32::MAX
    }

    /// Everything from `start` on fits the storage, so the outstanding
    /// tokens can be forwarded.
    pub open spec fn fits(self) -> bool {
        self.len() - self.start <= self.capacity
    }

    /// The tokens still to be forwarded.
    pub open spec fn query(self) -> Seq<Token>
        recommends
            self.wf(),
    {
        self.tokens.skip(self.end - self.base)
    }

    /// The cache after `more` was appended.
    pub open spec fn extended(self, more: Seq<Token>) -> Self {
        CacheView { tokens: self.tokens + more, ..self }
    }

    /// The cache rolled back to `n` tokens.
    pub open spec fn reverted(self, n: nat) -> Self
        recommends
            self.wf(),
            self.start <= n,
    {
        CacheView {
            tokens: if n < self.len() {
                self.tokens.take(n - self.base)
            } else {
                self.tokens
            },
            end: if n < self.end {
                n
            } else {
                self.end
            },
            ..self
        }
    }

    /// The cache with its window moved forward until everything from
    /// `start` on fits; the stored keys and values are given up when the
    /// window moves.
    pub open spec fn slid(self) -> Self {
        if self.fits() {
            self
        } else {
            CacheView {
                start: (self.len() - self.capacity) as nat,
                end: (self.len() - self.capacity) as nat,
                ..self
            }
        }
    }

    /// The cache without the tokens before `start`.
    pub open spec fn cleaned(self) -> Self
        recommends
            self.wf(),
    {
        CacheView { tokens: self.tokens.skip(self.start - self.base), base: self.start, ..self }
    }

    /// The cache after the keys and values of its next `n` tokens were
    /// stored.
    pub open spec fn advanced(self, n: nat) -> Self {
        CacheView { end: self.end + n, ..self }
    }

    /// The same tokens and positions over another storage.
    pub open spec fn with_storage<T>(self, storage: T) -> CacheView<T> {
        CacheView {
            tokens: self.tokens,
            base: self.base,
            start: self.start,
            end: self.end,
            capacity: self.capacity,
            storage,
        }
    }
}

/// Sliding makes room: a well-formed cache that stands for `k` tokens more
/// than its storage holds has, after sliding, a window that starts at
/// position `k` or later, never earlier than before, and fits the storage.
/// A cache that already fits is left as it is.
pub proof fn lemma_slide_makes_room<S>(c: CacheView<S>, k: nat)
    requires
        c.wf(),
        c.len() == c.capacity + k,
    ensures
        c.slid().wf(),
        c.slid().fits(),
        c.slid().start >= k,
        c.slid().start >= c.start,
        c.slid().tokens == c.tokens,
        c.fits() ==> c.slid() == c,
{
}

/// Sliding twice is sliding once.
pub proof fn lemma_slide_idempotent<S>(c: CacheView<S>)
    requires
        c.wf(),
    ensures
        c.slid().slid() == c.slid(),
{
}

/// Rolling back to `n` tokens twice is rolling back once.
pub proof fn lemma_cache_revert_idempotent<S>(c: CacheView<S>, n: nat)
    requires
        c.wf(),
        c.start <= n,
    ensures
        c.reverted(n).wf(),
        c.reverted(n).start <= n,
        c.reverted(n).reverted(n) == c.reverted(n),
{
    assert(c.reverted(n).reverted(n).tokens =~= c.reverted(n).tokens);
}

/// A session's key/value cache: the storage and the tokens it stands for.
pub struct Cache<S> {
    tokens: Vec<Token>,
    base: usize,
    start: usize,
    end: usize,
    capacity: u32,
    storage: S,
}

impl<S> View for Cache<S> {
    type V = CacheView<S>;

    closed spec fn view(&self) -> CacheView<S> {
        CacheView {
            tokens: self.tokens@,
            base: self.base as nat,
            start: self.start as nat,
            end: self.end as nat,
            capacity: self.capacity as nat,
            storage: self.storage,
        }
    }
}

impl<S> Cache<S> {
    /// A cache over `storage`, which holds `capacity` positions, none of
    /// them filled yet, standing for `tokens`.
    pub fn with_storage(storage: S, capacity: u32, tokens: Vec<Token>) -> (r: Self)
        ensures
            r@ == (CacheView {
                tokens: tokens@,
                base: 0,
                start: 0,
                end: 0,
                capacity: capacity as nat,
                storage,
            }),
            r@.wf(),
    {
        assert(tokens@.len() == tokens.len());
        Cache { tokens, base: 0, start: 0, end: 0, capacity, storage }
    }

    /// A cache with fresh storage of `model`, which holds as many positions
    /// as the model says, standing for `tokens`.
    pub fn new<M: CausalLM<Storage = S>>(model: &M, tokens: Vec<Token>) -> (r: Self)
        ensures
            r@.tokens == tokens@,
            r@.base == 0,
            r@.start == 0,
            r@.end == 0,
            r@.wf(),
    {
        let capacity = model.max_seq_len();
        let storage = model.new_cache();
        Self::with_storage(storage, capacity, tokens)
    }

    /// A cache that stands for the same tokens, with storage of its own
    /// that `model` copied from the stored window.
    pub fn duplicate<M: CausalLM<Storage = S>>(&self, model: &M) -> (r: Self)
        requires
            self@.wf(),
        ensures
            r@.with_storage(()) == self@.with_storage(()),
            r@.wf(),
    {
        let storage = model.duplicate_cache(&self.storage, (self.end - self.start) as u32);
        Cache {
            tokens: crate::dialog::copy_tokens(self.tokens.as_slice()),
            base: self.base,
            start: self.start,
            end: self.end,
            capacity: self.capacity,
            storage,
        }
    }

    /// Whether the cache is well formed.
    pub fn is_wf(&self) -> (r: bool)
        ensures
            r == self@.wf(),
    {
        self.base <= self.start && self.start <= self.end && self.end - self.base
            <= self.tokens.len() && self.tokens.len() <= usize::MAX - self.base && self.end
            - self.start <= self.capacity as usize
    }

    /// Position one past the last token.
    pub fn len(&self) -> (r: usize)
        requires
            self@.wf(),
        ensures
            r == self@.len(),
    {
        self.base + self.tokens.len()
    }

    /// Position of the first token kept.
    pub fn base(&self) -> (r: usize)
        ensures
            r == self@.base,
    {
        self.base
    }

    /// Position of the first token whose keys and values are stored.
    pub fn start(&self) -> (r: usize)
        ensures
            r == self@.start,
    {
        self.start
    }

    /// One past the position of the last token whose keys and values are
    /// stored.
    pub fn end(&self) -> (r: usize)
        ensures
            r == self@.end,
    {
        self.end
    }

    /// Number of positions the storage holds.
    pub fn capacity(&self) -> (r: u32)
        ensures
            r == self@.capacity,
    {
        self.capacity
    }

    /// The positions whose keys and values are stored.
    pub fn cached_range(&self) -> (r: Range<usize>)
        ensures
            r.start == self@.start,
            r.end == self@.end,
    {
        self.start..self.end
    }

    /// The stored keys and values.
    pub fn storage(&self) -> (r: &S)
        ensures
            *r == self@.storage,
    {
        &self.storage
    }

    /// Appends `tokens`. Their keys and values are not stored until a
    /// forward step has run over them.
    pub fn extend(&mut self, tokens: &[Token])
        requires
            old(self)@.wf(),
            old(self)@.len() + tokens@.len() <= usize::MAX,
        ensures
            final(self)@ == old(self)@.extended(tokens@),
            final(self)@.wf(),
    {
        let mut i: usize = 0;
        while i < tokens.len()
            invariant
                0 <= i <= tokens@.len(),
                self@ == old(self)@.extended(tokens@.take(i as int)),
            decreases tokens@.len() - i,
        {
            self.tokens.push(tokens[i]);
            assert(old(self)@.tokens + tokens@.take(i as int + 1) =~= (old(self)@.tokens
                + tokens@.take(i as int)).push(tokens@[i as int]));
            i += 1;
        }
        assert(tokens@.take(i as int) =~= tokens@);
    }

    /// Appends one token.
    pub fn push(&mut self, token: Token)
        requires
            old(self)@.wf(),
            old(self)@.len() + 1 <= usize::MAX,
        ensures
            final(self)@ == old(self)@.extended(seq![token]),
            final(self)@.wf(),
    {
        self.tokens.push(token);
        assert(old(self)@.tokens + seq![token] =~= old(self)@.tokens.push(token));
    }

    /// The tokens from position `from` on.
    pub fn slice_tail(&self, from: usize) -> (r: &[Token])
        requires
            self@.wf(),
            self@.base <= from <= self@.len(),
        ensures
            r@ == self@.tokens.skip(from - self@.base),
    {
        let r = slice_subrange(self.tokens.as_slice(), from - self.base, self.tokens.len());
        assert(r@ =~= self@.tokens.skip(from - self@.base));
        r
    }

    /// The tokens still to be forwarded.
    pub fn query(&self) -> (r: &[Token])
        requires
            self@.wf(),
        ensures
            r@ == self@.query(),
    {
        self.slice_tail(self.end)
    }

    /// Rolls the cache back to `n` tokens: drops the tokens from position
    /// `n` on and forgets the keys and values stored for them. Fails, and
    /// changes nothing, if `n` lies before the stored window.
    pub fn revert(&mut self, n: usize) -> (r: Option<()>)
        requires
            old(self)@.wf(),
        ensures
            r.is_some() <==> old(self)@.start <= n,
            r.is_some() ==> final(self)@ == old(self)@.reverted(n as nat),
            r.is_none() ==> final(self)@ == old(self)@,
            final(self)@.wf(),
    {
        if n < self.start {
            return None;
        }
        if n < self.base + self.tokens.len() {
            self.tokens.truncate(n - self.base);
        }
        if n < self.end {
            self.end = n;
        }
        assert(self@.tokens =~= old(self)@.reverted(n as nat).tokens);
        Some(())
    }

    /// Replaces the tokens by `tokens`, the first of which has position
    /// `pos`, and gives up every stored key and value.
    pub fn reset_with(&mut self, tokens: Vec<Token>, pos: usize)
        requires
            pos + tokens@.len() <= usize::MAX,
        ensures
            final(self)@ == (CacheView {
                tokens: tokens@,
                base: pos as nat,
                start: pos as nat,
                end: pos as nat,
                ..old(self)@
            }),
            final(self)@.wf(),
    {
        self.tokens = tokens;
        self.base = pos;
        self.start = pos;
        self.end = pos;
    }

    /// Drops the tokens before the stored window.
    pub fn cleanup_before_start(&mut self)
        requires
            old(self)@.wf(),
        ensures
            final(self)@ == old(self)@.cleaned(),
            final(self)@.wf(),
    {
        let kept = self.tokens.split_off(self.start - self.base);
        self.tokens = kept;
        self.base = self.start;
        assert(self@.tokens =~= old(self)@.cleaned().tokens);
    }

    /// Moves the window forward, if it must, until everything from its
    /// start on fits the storage. A window that moves starts over: its keys
    /// and values are computed again by the next forward step.
    pub fn slide(&mut self)
        requires
            old(self)@.wf(),
        ensures
            final(self)@ == old(self)@.slid(),
            final(self)@.wf(),
            final(self)@.fits(),
    {
        let len = self.base + self.tokens.len();
        if len - self.start > self.capacity as usize {
            let start = len - self.capacity as usize;
            self.start = start;
            self.end = start;
        }
    }

    /// Records that a forward step stored the keys and values of the next
    /// `n` tokens.
    pub fn advance(&mut self, n: usize)
        requires
            old(self)@.wf(),
            old(self)@.end + n <= old(self)@.len(),
            old(self)@.end + n - old(self)@.start <= old(self)@.capacity,
        ensures
            final(self)@ == old(self)@.advanced(n as nat),
            final(self)@.wf(),
    {
        self.end = self.end + n;
    }

    /// Takes the storage out of the cache and puts `storage` in its place.
    /// The tokens and positions stay as they are.
    pub fn replace_storage<T>(self, storage: T) -> (r: (Cache<T>, S))
        ensures
            r.0@ == self@.with_storage(storage),
            r.1 == self@.storage,
    {
        let Cache { tokens, base, start, end, capacity, storage: taken } = self;
        (Cache { tokens, base, start, end, capacity, storage }, taken)
    }
}

} // verus!
