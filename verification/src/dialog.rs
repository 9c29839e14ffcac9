//! The history of a conversation as token sentences.
//!
//! Sentences alternate between the two speakers: those at even indices are
//! the user's, those at odd indices the assistant's. The dialog keeps its
//! tokens in one run and, for every sentence, the running total of tokens
//! up to its end, so the number of tokens before any sentence is known
//! without walking the sentences.

use vstd::prelude::*;
use vstd::slice::slice_subrange;
use crate::Token;

verus! {

/// All tokens of the sentences `ss`, in order.
pub open spec fn concat(ss: Seq<Seq<Token>>) -> Seq<Token>
    decreases ss.len(),
{
    if ss.len() == 0 {
        Seq::empty()
    } else {
        concat(ss.drop_last()) + ss.last()
    }
}

/// Appending a sentence appends its tokens.
pub proof fn lemma_concat_push(ss: Seq<Seq<Token>>, s: Seq<Token>)
    ensures
        concat(ss.push(s)) == concat(ss) + s,
{
    assert(ss.push(s).drop_last() =~= ss);
}

/// The tokens of the first `i` sentences are the first tokens of the whole.
pub proof fn lemma_concat_take(ss: Seq<Seq<Token>>, i: int)
    requires
        0 <= i <= ss.len(),
    ensures
        concat(ss.take(i)).len() <= concat(ss).len(),
        concat(ss.take(i)) == concat(ss).take(concat(ss.take(i)).len() as int),
        i < ss.len() ==> concat(ss.take(i + 1)) == concat(ss.take(i)) + ss[i],
    decreases ss.len(),
{
    if i < ss.len() {
        assert(ss.take(i + 1).drop_last() =~= ss.take(i));
        assert(ss.drop_last().take(i) =~= ss.take(i));
        lemma_concat_take(ss.drop_last(), i);
        assert(concat(ss.take(i)) =~= concat(ss).take(concat(ss.take(i)).len() as int));
    } else {
        assert(ss.take(i) =~= ss);
        assert(concat(ss) =~= concat(ss).take(concat(ss).len() as int));
    }
}

/// A copy of `src`.
pub fn copy_tokens(src: &[Token]) -> (r: Vec<Token>)
    ensures
        r@ == src@,
{
    let mut out: Vec<Token> = Vec::new();
    let mut i: usize = 0;
    while i < src.len()
        invariant
            0 <= i <= src@.len(),
            out@ == src@.take(i as int),
        decreases src@.len() - i,
    {
        out.push(src[i]);
        assert(src@.take(i as int + 1) =~= src@.take(i as int).push(src@[i as int]));
        i += 1;
    }
    assert(src@.take(i as int) =~= src@);
    out
}

/// A conversation: sentences of tokens, oldest first.
pub struct Dialog {
    /// All tokens, in order.
    tokens: Vec<Token>,
    /// Entry `i` is the number of tokens in the sentences up to and
    /// including sentence `i`.
    ends: Vec<usize>,
}

impl View for Dialog {
    type V = Seq<Seq<Token>>;

    closed spec fn view(&self) -> Seq<Seq<Token>> {
        Seq::new(
            self.ends@.len(),
            |i: int| self.tokens@.subrange(self.boundary(i), self.ends@[i] as int),
        )
    }
}

impl Dialog {
    /// Number of tokens before sentence `i`.
    closed spec fn boundary(&self, i: int) -> int {
        if i <= 0 {
            0
        } else {
            self.ends@[i - 1] as int
        }
    }

    /// The running totals are in order, end with the number of tokens, and
    /// cut the tokens into the sentences.
    pub closed spec fn wf(&self) -> bool {
        &&& forall|i: int, j: int|
            0 <= i <= j < self.ends@.len() ==> #[trigger] self.ends@[i] <= #[trigger] self.ends@[j]
        &&& forall|i: int| 0 <= i < self.ends@.len() ==> #[trigger] self.ends@[i] <= self.tokens@.len()
        &&& self.boundary(self.ends@.len() as int) == self.tokens@.len()
        &&& forall|i: int|
            0 <= i <= self.ends@.len() ==> #[trigger] concat(self@.take(i)) == self.tokens@.take(
                self.boundary(i),
            )
    }

    /// All tokens of the dialog, in order.
    pub open spec fn tokens(&self) -> Seq<Token> {
        concat(self@)
    }

    /// The tokens of a well-formed dialog are the tokens it keeps.
    proof fn lemma_tokens(&self)
        requires
            self.wf(),
        ensures
            self.tokens() == self.tokens@,
            self@.len() == self.ends@.len(),
    {
        assert(self@.take(self@.len() as int) =~= self@);
        assert(self.tokens@.take(self.tokens@.len() as int) =~= self.tokens@);
    }

    /// An empty dialog.
    pub fn new() -> (r: Self)
        ensures
            r.wf(),
            r@ == Seq::<Seq<Token>>::empty(),
    {
        let r = Dialog { tokens: Vec::new(), ends: Vec::new() };
        assert(r@ =~= Seq::<Seq<Token>>::empty());
        assert(r@.take(0) =~= Seq::<Seq<Token>>::empty());
        assert(r.tokens@.take(0) =~= Seq::<Token>::empty());
        r
    }

    /// Number of sentences.
    pub fn num_sentences(&self) -> (r: usize)
        ensures
            r == self@.len(),
    {
        self.ends.len()
    }

    /// Number of tokens in all sentences.
    pub fn num_tokens(&self) -> (r: usize)
        requires
            self.wf(),
        ensures
            r == self.tokens().len(),
    {
        proof {
            self.lemma_tokens();
        }
        self.tokens.len()
    }

    /// Appends `sentence` as the newest sentence.
    pub fn push(&mut self, sentence: Vec<Token>)
        requires
            old(self).wf(),
        ensures
            final(self).wf(),
            final(self)@ == old(self)@.push(sentence@),
            final(self).tokens() == old(self).tokens() + sentence@,
            final(self).tokens().len() <= usize::MAX,
    {
        let ghost before = self@;
        let ghost kept = self.tokens@;
        let ghost n = self.ends@.len() as int;
        proof {
            old(self).lemma_tokens();
            lemma_concat_push(before, sentence@);
        }
        let ghost said = sentence@;
        let mut rest = sentence;
        self.tokens.append(&mut rest);
        let total = self.tokens.len();
        self.ends.push(total);
        proof {
            let after = self@;
            assert(after.len() == n + 1);
            assert forall|i: int| 0 <= i < n implies #[trigger] after[i] == before[i] by {
                assert(old(self).ends@[i] <= kept.len());
                assert(self.boundary(i) == old(self).boundary(i));
                assert(after[i] =~= before[i]);
            }
            assert(self.boundary(n) == kept.len());
            assert(after[n] =~= said);
            assert(after =~= before.push(said));
            assert forall|i: int| 0 <= i <= self.ends@.len() implies #[trigger] concat(
                after.take(i),
            ) == self.tokens@.take(self.boundary(i)) by {
                if i <= n {
                    assert(after.take(i) =~= before.take(i));
                    assert(self.boundary(i) == old(self).boundary(i));
                    assert(old(self).boundary(i) <= kept.len());
                    assert(self.tokens@.take(self.boundary(i)) =~= kept.take(old(self).boundary(i)));
                } else {
                    assert(after.take(i) =~= after);
                    assert(self.tokens@.take(self.boundary(i)) =~= kept + said);
                }
            }
            assert(after.take(n + 1) =~= after);
        }
    }

    /// Keeps the first `len` sentences and drops the rest. A `len` beyond
    /// the number of sentences changes nothing.
    pub fn revert(&mut self, len: usize)
        requires
            old(self).wf(),
        ensures
            final(self).wf(),
            len <= old(self)@.len() ==> final(self)@ == old(self)@.take(len as int),
            len > old(self)@.len() ==> final(self)@ == old(self)@,
            final(self).tokens() == old(self).tokens().take(final(self).tokens().len() as int),
    {
        let ghost before = self@;
        let ghost kept = self.tokens@;
        proof {
            old(self).lemma_tokens();
        }
        if len < self.ends.len() {
            let cut = if len == 0 {
                0
            } else {
                self.ends[len - 1]
            };
            assert(cut == old(self).boundary(len as int));
            assert(old(self).ends@[len as int] <= kept.len());
            self.ends.truncate(len);
            self.tokens.truncate(cut);
            proof {
                let after = self@;
                assert forall|i: int| 0 <= i < len implies #[trigger] after[i] == before[i] by {
                    assert(self.boundary(i) == old(self).boundary(i));
                    assert(old(self).ends@[i] <= cut) by {
                        assert(old(self).ends@[i] <= old(self).ends@[len - 1]);
                    }
                    assert(after[i] =~= before[i]);
                }
                assert(after =~= before.take(len as int));
                assert forall|i: int| 0 <= i <= self.ends@.len() implies #[trigger] concat(
                    after.take(i),
                ) == self.tokens@.take(self.boundary(i)) by {
                    assert(after.take(i) =~= before.take(i));
                    assert(self.boundary(i) == old(self).boundary(i));
                    if i > 0 {
                        assert(old(self).ends@[i - 1] <= old(self).ends@[len - 1]);
                    }
                    assert(self.tokens@.take(self.boundary(i)) =~= kept.take(
                        old(self).boundary(i),
                    ));
                }
                self.lemma_tokens();
                assert(self.tokens@ =~= kept.take(cut as int));
            }
        } else {
            proof {
                assert(before.take(before.len() as int) =~= before);
                assert(kept =~= kept.take(kept.len() as int));
            }
        }
    }

    /// The newest sentence, if it is the user's: one at an even index.
    pub fn last_prompt(&self) -> (r: Option<&[Token]>)
        requires
            self.wf(),
        ensures
            self@.len() % 2 == 1 ==> r.is_some() && r.unwrap()@ == self@.last(),
            self@.len() % 2 == 0 ==> r.is_none(),
    {
        let n = self.ends.len();
        if n % 2 == 1 {
            let from = if n == 1 {
                0
            } else {
                self.ends[n - 2]
            };
            assert(from == self.boundary(n - 1));
            assert(self.ends@[n - 2 + 1] <= self.tokens@.len());
            if n > 1 {
                assert(self.ends@[n - 2] <= self.ends@[n - 1]);
            }
            Some(slice_subrange(self.tokens.as_slice(), from, self.ends[n - 1]))
        } else {
            None
        }
    }

    /// The position at which the most recent `len` tokens start: zero if the
    /// dialog has no more than `len` tokens.
    pub open spec fn window_start(&self, len: nat) -> nat {
        if self.tokens().len() <= len {
            0
        } else {
            (self.tokens().len() - len) as nat
        }
    }

    /// The most recent tokens that fit in a window of `len` tokens, and the
    /// position of the first of them in the dialog.
    pub fn window(&self, len: usize) -> (r: (Vec<Token>, usize))
        requires
            self.wf(),
        ensures
            r.1 == self.window_start(len as nat),
            r.0@ == self.tokens().skip(r.1 as int),
            r.0@.len() <= len,
    {
        proof {
            self.lemma_tokens();
        }
        let total = self.tokens.len();
        let pos = if total <= len {
            0
        } else {
            total - len
        };
        let recent = slice_subrange(self.tokens.as_slice(), pos, total);
        assert(recent@ =~= self.tokens@.skip(pos as int));
        (copy_tokens(recent), pos)
    }
}

impl Clone for Dialog {
    /// A copy with the same sentences.
    fn clone(&self) -> (r: Self)
        ensures
            r@ == self@,
            self.wf() ==> r.wf(),
    {
        let tokens = copy_tokens(self.tokens.as_slice());
        let mut ends: Vec<usize> = Vec::new();
        let mut i: usize = 0;
        while i < self.ends.len()
            invariant
                0 <= i <= self.ends@.len(),
                ends@ == self.ends@.take(i as int),
            decreases self.ends@.len() - i,
        {
            ends.push(self.ends[i]);
            assert(self.ends@.take(i as int + 1) =~= self.ends@.take(i as int).push(
                self.ends@[i as int],
            ));
            i += 1;
        }
        assert(self.ends@.take(i as int) =~= self.ends@);
        let r = Dialog { tokens, ends };
        assert(r.tokens@ == self.tokens@ && r.ends@ == self.ends@);
        assert(forall|k: int| r.boundary(k) == self.boundary(k));
        assert(r@ =~= self@);
        r
    }
}

} // verus!
