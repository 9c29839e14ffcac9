//! The two chat templates: which one a model gets, and the text each makes
//! of a list of messages.

use vstd::prelude::*;
use vstd::string::*;
use crate::chat::same_text;

verus! {

/// The lower-case form of an upper-case ASCII letter; any other character
/// unchanged.
pub open spec fn lowered(c: char) -> char {
    if c == 'A' {
        'a'
    } else if c == 'B' {
        'b'
    } else if c == 'C' {
        'c'
    } else if c == 'D' {
        'd'
    } else if c == 'E' {
        'e'
    } else if c == 'F' {
        'f'
    } else if c == 'G' {
        'g'
    } else if c == 'H' {
        'h'
    } else if c == 'I' {
        'i'
    } else if c == 'J' {
        'j'
    } else if c == 'K' {
        'k'
    } else if c == 'L' {
        'l'
    } else if c == 'M' {
        'm'
    } else if c == 'N' {
        'n'
    } else if c == 'O' {
        'o'
    } else if c == 'P' {
        'p'
    } else if c == 'Q' {
        'q'
    } else if c == 'R' {
        'r'
    } else if c == 'S' {
        's'
    } else if c == 'T' {
        't'
    } else if c == 'U' {
        'u'
    } else if c == 'V' {
        'v'
    } else if c == 'W' {
        'w'
    } else if c == 'X' {
        'x'
    } else if c == 'Y' {
        'y'
    } else if c == 'Z' {
        'z'
    } else {
        c
    }
}

/// The lower-case form of an upper-case ASCII letter; any other character
/// unchanged.
pub fn ascii_lower(c: char) -> (r: char)
    ensures
        r == lowered(c),
{
    match c {
        'A' => 'a',
        'B' => 'b',
        'C' => 'c',
        'D' => 'd',
        'E' => 'e',
        'F' => 'f',
        'G' => 'g',
        'H' => 'h',
        'I' => 'i',
        'J' => 'j',
        'K' => 'k',
        'L' => 'l',
        'M' => 'm',
        'N' => 'n',
        'O' => 'o',
        'P' => 'p',
        'Q' => 'q',
        'R' => 'r',
        'S' => 's',
        'T' => 't',
        'U' => 'u',
        'V' => 'v',
        'W' => 'w',
        'X' => 'x',
        'Y' => 'y',
        'Z' => 'z',
        _ => c,
    }
}

/// `pattern` stands in `text` at position `at`, upper-case ASCII letters
/// of `text` read as lower-case.
pub open spec fn matches_at(text: Seq<char>, pattern: Seq<char>, at: int) -> bool {
    &&& 0 <= at
    &&& at + pattern.len() <= text.len()
    &&& forall|k: int| 0 <= k < pattern.len() ==> lowered(#[trigger] text[at + k]) == pattern[k]
}

/// `pattern` stands somewhere in `text`, upper-case ASCII letters of
/// `text` read as lower-case.
pub open spec fn contains_lowered(text: Seq<char>, pattern: Seq<char>) -> bool {
    exists|at: int| matches_at(text, pattern, at)
}

/// Whether `pattern` stands somewhere in `text` when the upper-case ASCII
/// letters of `text` are read as lower-case.
pub fn contains_ignoring_case(text: &str, pattern: &str) -> (r: bool)
    ensures
        r == contains_lowered(text@, pattern@),
{
    let n = text.unicode_len();
    let m = pattern.unicode_len();
    if m > n {
        assert forall|at: int| !matches_at(text@, pattern@, at) by {}
        return false;
    }
    let mut at: usize = 0;
    while at <= n - m
        invariant
            m <= n,
            n == text@.len(),
            m == pattern@.len(),
            0 <= at <= n - m + 1,
            forall|a: int| 0 <= a < at ==> !matches_at(text@, pattern@, a),
        decreases n - m + 1 - at,
    {
        let mut k: usize = 0;
        let mut same = true;
        while k < m && same
            invariant
                m <= n,
                n == text@.len(),
                m == pattern@.len(),
                0 <= at <= n - m,
                0 <= k <= m,
                same ==> forall|j: int|
                    0 <= j < k ==> lowered(#[trigger] text@[at + j]) == pattern@[j],
                !same ==> !matches_at(text@, pattern@, at as int),
            decreases m - k + if same { 1int } else { 0int },
        {
            if ascii_lower(text.get_char(at + k)) != pattern.get_char(k) {
                same = false;
                assert(lowered(text@[at + k]) != pattern@[k as int]);
            } else {
                k += 1;
            }
        }
        if same {
            assert(matches_at(text@, pattern@, at as int));
            return true;
        }
        at += 1;
    }
    assert forall|a: int| !matches_at(text@, pattern@, a) by {}
    false
}

/// A chat template.
#[derive(Clone, Copy, PartialEq, Eq, Debug)]
pub enum Template {
    /// Each message is introduced by a tag that names its role and closed
    /// by the end-of-sequence text.
    TinyLlama,
    /// A user's message stands between a user tag and an assistant tag;
    /// other messages stand bare.
    Generic,
}

/// The template for the model kept in `model_dir`: the first if the name
/// of the directory holds "tinyllama" in any mix of cases, else the second.
pub fn template(model_dir: &str) -> (r: Template)
    ensures
        r == if contains_lowered(model_dir@, "tinyllama"@) {
            Template::TinyLlama
        } else {
            Template::Generic
        },
{
    if contains_ignoring_case(model_dir, "tinyllama") {
        Template::TinyLlama
    } else {
        Template::Generic
    }
}

/// `text` without its leading and trailing Unicode white space.
pub uninterp spec fn trimmed(text: Seq<char>) -> Seq<char>;

/// `str::trim` returns the part of the text between its leading and its
/// trailing white space.
#[verifier::external_body]
fn trim(text: &str) -> (r: &str)
    ensures
        r@ == trimmed(text@),
{
    text.trim()
}

/// One message of a conversation.
#[derive(Clone, Copy, Debug)]
pub struct Message<'a> {
    /// Who says it: `user`, `system` or `assistant`.
    pub role: &'a str,
    /// What is said.
    pub content: &'a str,
}

/// Mathematical content of a [`Message`].
pub struct MessageView {
    /// The role.
    pub role: Seq<char>,
    /// The content.
    pub content: Seq<char>,
}

impl<'a> View for Message<'a> {
    type V = MessageView;

    open spec fn view(&self) -> MessageView {
        MessageView { role: self.role@, content: self.content@ }
    }
}

/// The views of `messages`, in order.
pub open spec fn message_views(messages: Seq<Message<'_>>) -> Seq<MessageView> {
    Seq::new(messages.len(), |i: int| messages[i]@)
}

impl Template {
    /// What the template makes of one message. `prompts` tells whether the
    /// message is the last and a reply is asked for.
    pub open spec fn rendered_one(
        self,
        m: MessageView,
        bos: Seq<char>,
        eos: Seq<char>,
        prompts: bool,
    ) -> Seq<char> {
        match self {
            Template::TinyLlama => {
                let said = if m.role == "user"@ {
                    "<|user|>\n"@ + m.content + eos
                } else if m.role == "system"@ {
                    "<|system|>\n"@ + m.content + eos
                } else if m.role == "assistant"@ {
                    "<|assistant|>\n"@ + m.content + eos
                } else {
                    Seq::empty()
                };
                if prompts {
                    said + "<|assistant|>\n"@
                } else {
                    said
                }
            },
            Template::Generic => if m.role == "user"@ {
                bos + "<用户>"@ + trimmed(m.content) + "<AI>"@
            } else {
                trimmed(m.content)
            },
        }
    }

    /// What the template makes of the first `i` of `messages`.
    pub open spec fn rendered(
        self,
        messages: Seq<MessageView>,
        bos: Seq<char>,
        eos: Seq<char>,
        add_generation_prompt: bool,
        i: int,
    ) -> Seq<char>
        decreases i,
    {
        if i <= 0 {
            Seq::empty()
        } else {
            self.rendered(messages, bos, eos, add_generation_prompt, i - 1) + self.rendered_one(
                messages[i - 1],
                bos,
                eos,
                add_generation_prompt && i == messages.len(),
            )
        }
    }

    /// The text of `messages` under the template.
    pub fn render(
        &self,
        messages: &[Message<'_>],
        bos: &str,
        eos: &str,
        add_generation_prompt: bool,
    ) -> (r: String)
        ensures
            r@ == self.rendered(
                message_views(messages@),
                bos@,
                eos@,
                add_generation_prompt,
                messages@.len() as int,
            ),
    {
        let ghost all = message_views(messages@);
        let mut out = String::new();
        let mut i: usize = 0;
        while i < messages.len()
            invariant
                0 <= i <= messages@.len(),
                all == message_views(messages@),
                out@ == self.rendered(all, bos@, eos@, add_generation_prompt, i as int),
            decreases messages@.len() - i,
        {
            let m = &messages[i];
            let ghost head = out@;
            let ghost prompts = add_generation_prompt && i + 1 == messages@.len();
            assert(all[i as int] == m@);
            match self {
                Template::TinyLlama => {
                    if same_text(m.role, "user") {
                        out.append("<|user|>\n");
                        out.append(m.content);
                        out.append(eos);
                        assert(out@ =~= head + ("<|user|>\n"@ + m.content@ + eos@));
                    } else if same_text(m.role, "system") {
                        out.append("<|system|>\n");
                        out.append(m.content);
                        out.append(eos);
                        assert(out@ =~= head + ("<|system|>\n"@ + m.content@ + eos@));
                    } else if same_text(m.role, "assistant") {
                        out.append("<|assistant|>\n");
                        out.append(m.content);
                        out.append(eos);
                        assert(out@ =~= head + ("<|assistant|>\n"@ + m.content@ + eos@));
                    } else {
                        assert(out@ =~= head + Seq::<char>::empty());
                    }
                    let ghost said = out@;
                    if add_generation_prompt && i + 1 == messages.len() {
                        out.append("<|assistant|>\n");
                    }
                    assert(out@ =~= head + self.rendered_one(m@, bos@, eos@, prompts));
                },
                Template::Generic => {
                    if same_text(m.role, "user") {
                        out.append(bos);
                        out.append("<用户>");
                        out.append(trim(m.content));
                        out.append("<AI>");
                        assert(out@ =~= head + (bos@ + "<用户>"@ + trimmed(m.content@) + "<AI>"@));
                    } else {
                        out.append(trim(m.content));
                    }
                    assert(out@ =~= head + self.rendered_one(m@, bos@, eos@, prompts));
                },
            }
            i += 1;
        }
        out
    }
}

} // verus!
