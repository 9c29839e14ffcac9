//! Which tokenizer and which text normalizer a model directory calls for,
//! and what the normalizers do to a text.

use vstd::prelude::*;
use vstd::string::*;

verus! {

/// The kinds of tokenizer.
#[derive(Clone, Copy, PartialEq, Eq, Debug)]
pub enum Tokenizer {
    /// Byte-pair encoding, read from `tokenizer.model`.
    Bpe,
    /// Linear-piece encoding, read from `vocabs.txt`.
    Lpe,
}

/// The kinds of text normalizer.
#[derive(Clone, Copy, PartialEq, Eq, Debug)]
pub enum Normalizer {
    /// Puts the word-boundary mark in front of the text and in the place
    /// of every space.
    BpeCommon,
    /// Leaves the text as it is.
    Identity,
}

/// The tokenizer for a model directory, given which of the two tokenizer
/// files it holds: byte-pair encoding if `tokenizer.model` is there, else
/// linear-piece encoding. A directory with neither file has no tokenizer.
pub fn tokenizer(has_tokenizer_model: bool, has_vocabs_txt: bool) -> (r: Tokenizer)
    requires
        has_tokenizer_model || has_vocabs_txt,
    ensures
        r == if has_tokenizer_model {
            Tokenizer::Bpe
        } else {
            Tokenizer::Lpe
        },
{
    if has_tokenizer_model {
        Tokenizer::Bpe
    } else {
        Tokenizer::Lpe
    }
}

/// The normalizer that goes with the tokenizer of a model directory.
pub fn normalizer(has_tokenizer_model: bool, has_vocabs_txt: bool) -> (r: Normalizer)
    requires
        has_tokenizer_model || has_vocabs_txt,
    ensures
        r == if has_tokenizer_model {
            Normalizer::BpeCommon
        } else {
            Normalizer::Identity
        },
{
    if has_tokenizer_model {
        Normalizer::BpeCommon
    } else {
        Normalizer::Identity
    }
}

/// The word-boundary mark of byte-pair vocabularies.
pub open spec fn boundary() -> char {
    '\u{2581}'
}

/// `text` with every space replaced by the word-boundary mark.
pub open spec fn marked(text: Seq<char>) -> Seq<char> {
    Seq::new(
        text.len(),
        |i: int|
            if text[i] == ' ' {
                boundary()
            } else {
                text[i]
            },
    )
}

/// `String::push` appends the character to the string.
#[verifier::external_body]
fn push_char(s: &mut String, c: char)
    ensures
        final(s)@ == old(s)@.push(c),
{
    s.push(c)
}

impl Normalizer {
    /// What the normalizer makes of `text`.
    pub open spec fn encoded(self, text: Seq<char>) -> Seq<char> {
        match self {
            Normalizer::BpeCommon => seq![boundary()] + marked(text),
            Normalizer::Identity => text,
        }
    }

    /// Normalizes `text`.
    pub fn encode(&self, text: &str) -> (r: String)
        ensures
            r@ == self.encoded(text@),
    {
        match self {
            Normalizer::Identity => String::from_str(text),
            Normalizer::BpeCommon => {
                let mut out = String::new();
                push_char(&mut out, '\u{2581}');
                let n = text.unicode_len();
                let mut i: usize = 0;
                assert(marked(text@).take(0) =~= Seq::<char>::empty());
                while i < n
                    invariant
                        0 <= i <= n,
                        n == text@.len(),
                        out@ =~= seq![boundary()] + marked(text@).take(i as int),
                    decreases n - i,
                {
                    let c = text.get_char(i);
                    if c == ' ' {
                        push_char(&mut out, '\u{2581}');
                    } else {
                        push_char(&mut out, c);
                    }
                    assert(marked(text@).take(i as int + 1) =~= marked(text@).take(i as int).push(
                        marked(text@)[i as int],
                    ));
                    i += 1;
                }
                assert(marked(text@).take(n as int) =~= marked(text@));
                out
            },
        }
    }
}

} // verus!
