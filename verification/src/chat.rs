//! The sessions of the interactive chat front end: which sessions exist,
//! which one is current, how a line of input is read as a command, and what
//! each command does to the sessions.
//!
//! The front end reads the lines and prints. It hands each command to
//! [`Chatting::execute_command`], which does to the sessions what the
//! command asks, and says what the outcome tells it to say.

use vstd::prelude::*;
use vstd::string::*;
use std::collections::HashMap;
use std::sync::Arc;
use crate::backend::CausalLM;
use crate::session::{share, Session, SessionView};

verus! {

broadcast use vstd::std_specs::hash::group_hash_axioms;

/// The words of `line`: its maximal runs of characters that are not
/// Unicode white space, in order.
pub uninterp spec fn words_of(line: Seq<char>) -> Seq<Seq<char>>;

/// The texts of `words`, in order.
pub open spec fn texts(words: Seq<String>) -> Seq<Seq<char>> {
    Seq::new(words.len(), |i: int| words[i]@)
}

/// `str::split_whitespace` yields the words of the line in order; each is
/// copied into a string of its own.
#[verifier::external_body]
fn split_words(line: &str) -> (r: Vec<String>)
    ensures
        texts(r@) == words_of(line@),
{
    line.split_whitespace().map(String::from).collect()
}

/// Whether `a` and `b` hold the same characters.
pub fn same_text(a: &str, b: &str) -> (r: bool)
    ensures
        r == (a@ == b@),
{
    let n = a.unicode_len();
    if n != b.unicode_len() {
        return false;
    }
    let mut i: usize = 0;
    while i < n
        invariant
            0 <= i <= n,
            n == a@.len(),
            n == b@.len(),
            forall|k: int| 0 <= k < i ==> a@[k] == b@[k],
        decreases n - i,
    {
        if a.get_char(i) != b.get_char(i) {
            return false;
        }
        i += 1;
    }
    assert(a@ =~= b@);
    true
}

/// The value of a decimal digit.
pub open spec fn digit(c: char) -> Option<nat> {
    if c == '0' {
        Some(0)
    } else if c == '1' {
        Some(1)
    } else if c == '2' {
        Some(2)
    } else if c == '3' {
        Some(3)
    } else if c == '4' {
        Some(4)
    } else if c == '5' {
        Some(5)
    } else if c == '6' {
        Some(6)
    } else if c == '7' {
        Some(7)
    } else if c == '8' {
        Some(8)
    } else if c == '9' {
        Some(9)
    } else {
        None
    }
}

/// The number that the decimal digits `s` write, if `s` holds digits only.
pub open spec fn digits_value(s: Seq<char>) -> Option<nat>
    decreases s.len(),
{
    if s.len() == 0 {
        Some(0)
    } else {
        match (digits_value(s.drop_last()), digit(s.last())) {
            (Some(v), Some(d)) => Some(10 * v + d),
            _ => None,
        }
    }
}

/// The number that `s` writes as an unsigned machine integer: an optional
/// plus sign and then at least one decimal digit and nothing else, with a
/// value that fits.
pub open spec fn parsed_usize(s: Seq<char>) -> Option<usize> {
    let body = if s.len() > 0 && s[0] == '+' {
        s.skip(1)
    } else {
        s
    };
    if body.len() == 0 {
        None
    } else {
        match digits_value(body) {
            Some(v) => if v <= usize::MAX {
                Some(v as usize)
            } else {
                None
            },
            None => None,
        }
    }
}

/// What the first `i` digits write bounds what all of them write: if the
/// first `i` are no number, the whole is none; otherwise the whole, if it
/// is a number, is at least as large.
proof fn lemma_digits_prefix(s: Seq<char>, i: int)
    requires
        0 <= i <= s.len(),
    ensures
        digits_value(s.take(i)).is_none() ==> digits_value(s).is_none(),
        digits_value(s.take(i)).is_some() && digits_value(s).is_some() ==> digits_value(
            s.take(i),
        ).unwrap() <= digits_value(s).unwrap(),
        i < s.len() ==> digits_value(s.take(i + 1)) == match (
            digits_value(s.take(i)),
            digit(s[i]),
        ) {
            (Some(v), Some(d)) => Some(10 * v + d),
            _ => None,
        },
    decreases s.len(),
{
    if i < s.len() {
        assert(s.take(i + 1).drop_last() =~= s.take(i));
        assert(s.drop_last().take(i) =~= s.take(i));
        lemma_digits_prefix(s.drop_last(), i);
    } else {
        assert(s.take(i) =~= s);
    }
}

fn digit_of(c: char) -> (r: Option<usize>)
    ensures
        r.is_some() == digit(c).is_some(),
        r matches Some(d) ==> digit(c) == Some(d as nat) && d <= 9,
{
    match c {
        '0' => Some(0),
        '1' => Some(1),
        '2' => Some(2),
        '3' => Some(3),
        '4' => Some(4),
        '5' => Some(5),
        '6' => Some(6),
        '7' => Some(7),
        '8' => Some(8),
        '9' => Some(9),
        _ => None,
    }
}

/// Reads `word` as an unsigned machine integer.
pub fn parse_usize(word: &str) -> (r: Option<usize>)
    ensures
        r == parsed_usize(word@),
{
    let n = word.unicode_len();
    let first: usize = if n > 0 && word.get_char(0) == '+' {
        1
    } else {
        0
    };
    if first == n {
        return None;
    }
    let ghost body = word@.skip(first as int);
    proof {
        if first == 0 {
            assert(body =~= word@);
        }
    }
    let mut value: usize = 0;
    let mut i: usize = first;
    assert(body.take(0) =~= Seq::<char>::empty());
    while i < n
        invariant
            first <= i <= n,
            n == word@.len(),
            body == word@.skip(first as int),
            body.len() == n - first,
            parsed_usize(word@) == match digits_value(body) {
                Some(v) => if v <= usize::MAX {
                    Some(v as usize)
                } else {
                    None
                },
                None => None,
            },
            digits_value(body.take(i - first)) == Some(value as nat),
        decreases n - i,
    {
        proof {
            lemma_digits_prefix(body, i - first);
            lemma_digits_prefix(body, i - first + 1);
        }
        let d = match digit_of(word.get_char(i)) {
            Some(d) => d,
            None => {
                return None;
            },
        };
        let tens = match value.checked_mul(10) {
            Some(tens) => tens,
            None => {
                return None;
            },
        };
        value = match tens.checked_add(d) {
            Some(sum) => sum,
            None => {
                return None;
            },
        };
        i += 1;
    }
    assert(body.take(n - first) =~= body);
    Some(value)
}

/// What a line of input is to the front end.
#[derive(Clone, Copy, PartialEq, Eq, Debug)]
pub enum Input {
    /// Nothing but white space.
    Empty,
    /// A command: the first word starts with a slash.
    Command,
    /// Something to say to the model.
    Message,
}

/// What a line with the words `words` is to the front end.
pub open spec fn classified(words: Seq<Seq<char>>) -> Input {
    if words.len() == 0 {
        Input::Empty
    } else if words[0].len() > 0 && words[0][0] == '/' {
        Input::Command
    } else {
        Input::Message
    }
}

/// Tells whether `line` is empty, a command, or a message.
pub fn classify(line: &str) -> (r: Input)
    ensures
        r == classified(words_of(line@)),
{
    let words = split_words(line);
    if words.len() == 0 {
        Input::Empty
    } else {
        let first = words[0].as_str();
        assert(texts(words@)[0] == first@);
        if first.unicode_len() > 0 && first.get_char(0) == '/' {
            Input::Command
        } else {
            Input::Message
        }
    }
}

/// The value that a line of three words gives to a sampling parameter: its
/// third word. A line of another length gives none.
pub open spec fn arg_value_of(words: Seq<Seq<char>>) -> Option<Seq<char>> {
    if words.len() == 3 {
        Some(words[2])
    } else {
        None
    }
}

/// The value that `command` gives to a sampling parameter.
pub fn arg_value(command: &str) -> (r: Option<String>)
    ensures
        r.is_some() == arg_value_of(words_of(command@)).is_some(),
        r matches Some(value) ==> arg_value_of(words_of(command@)) == Some(value@),
{
    let mut words = split_words(command);
    if words.len() == 3 {
        assert(texts(words@)[2] == words@[2]@);
        words.pop()
    } else {
        None
    }
}

/// A sampling parameter that a command can set.
#[derive(Clone, Copy, PartialEq, Eq, Debug)]
pub enum ArgKey {
    /// The temperature.
    Temperature,
    /// The number of candidates kept.
    TopK,
    /// The probability mass kept.
    TopP,
}

/// A command of the chat front end. A session is named by its number; a
/// word that is no number is kept as `None`.
#[derive(Clone, Copy, PartialEq, Eq, Debug)]
pub enum Command {
    /// `/list`: show the sessions.
    List,
    /// `/create`: start a session and make it current.
    Create,
    /// `/fork`: copy the current session and make the copy current.
    Fork,
    /// `/fork <id>`: copy the named session and make the copy current.
    ForkFrom(Option<usize>),
    /// `/switch <id>`: make the named session current.
    Switch(Option<usize>),
    /// `/drop`: drop the current session.
    Drop,
    /// `/drop <id>`: drop the named session.
    DropId(Option<usize>),
    /// `/args`: show the sampling parameters.
    Args,
    /// `/args <key> <value>`: set a sampling parameter to the third word.
    SetArg(ArgKey),
    /// `/help`: show the commands.
    Help,
    /// `/exit`: leave.
    Exit,
    /// Anything else.
    Unknown,
}

/// The command that `words` spell.
pub open spec fn parsed_command(words: Seq<Seq<char>>) -> Command {
    if words.len() == 1 {
        if words[0] == "/list"@ {
            Command::List
        } else if words[0] == "/create"@ {
            Command::Create
        } else if words[0] == "/fork"@ {
            Command::Fork
        } else if words[0] == "/drop"@ {
            Command::Drop
        } else if words[0] == "/args"@ {
            Command::Args
        } else if words[0] == "/help"@ {
            Command::Help
        } else if words[0] == "/exit"@ {
            Command::Exit
        } else {
            Command::Unknown
        }
    } else if words.len() == 2 {
        if words[0] == "/fork"@ {
            Command::ForkFrom(parsed_usize(words[1]))
        } else if words[0] == "/switch"@ {
            Command::Switch(parsed_usize(words[1]))
        } else if words[0] == "/drop"@ {
            Command::DropId(parsed_usize(words[1]))
        } else {
            Command::Unknown
        }
    } else if words.len() == 3 && words[0] == "/args"@ {
        if words[1] == "temperature"@ {
            Command::SetArg(ArgKey::Temperature)
        } else if words[1] == "top-k"@ {
            Command::SetArg(ArgKey::TopK)
        } else if words[1] == "top-p"@ {
            Command::SetArg(ArgKey::TopP)
        } else {
            Command::Unknown
        }
    } else {
        Command::Unknown
    }
}

impl Command {
    /// Reads the words of a line as a command.
    pub fn parse(words: &[String]) -> (r: Command)
        ensures
            r == parsed_command(texts(words@)),
    {
        let n = words.len();
        if n == 1 {
            let w = words[0].as_str();
            assert(texts(words@)[0] == w@);
            if same_text(w, "/list") {
                Command::List
            } else if same_text(w, "/create") {
                Command::Create
            } else if same_text(w, "/fork") {
                Command::Fork
            } else if same_text(w, "/drop") {
                Command::Drop
            } else if same_text(w, "/args") {
                Command::Args
            } else if same_text(w, "/help") {
                Command::Help
            } else if same_text(w, "/exit") {
                Command::Exit
            } else {
                Command::Unknown
            }
        } else if n == 2 {
            let w = words[0].as_str();
            let arg = words[1].as_str();
            assert(texts(words@)[0] == w@);
            assert(texts(words@)[1] == arg@);
            if same_text(w, "/fork") {
                Command::ForkFrom(parse_usize(arg))
            } else if same_text(w, "/switch") {
                Command::Switch(parse_usize(arg))
            } else if same_text(w, "/drop") {
                Command::DropId(parse_usize(arg))
            } else {
                Command::Unknown
            }
        } else if n == 3 {
            let w = words[0].as_str();
            let key = words[1].as_str();
            assert(texts(words@)[0] == w@);
            assert(texts(words@)[1] == key@);
            if !same_text(w, "/args") {
                Command::Unknown
            } else if same_text(key, "temperature") {
                Command::SetArg(ArgKey::Temperature)
            } else if same_text(key, "top-k") {
                Command::SetArg(ArgKey::TopK)
            } else if same_text(key, "top-p") {
                Command::SetArg(ArgKey::TopP)
            } else {
                Command::Unknown
            }
        } else {
            Command::Unknown
        }
    }
}

/// What a command did and what the front end has to say.
#[derive(Clone, Copy, PartialEq, Eq, Debug)]
pub enum Outcome {
    /// Show the sessions.
    List,
    /// A session was started under the given number and is current.
    Created(usize),
    /// A copy of session `from` was stored under the number `to` and is
    /// current. `named` tells whether the command named the session it
    /// copied.
    Forked { from: usize, to: usize, named: bool },
    /// The command named a session that does not exist.
    InvalidSession,
    /// The command named a session by a word that is no number.
    InvalidNumber,
    /// The named session is the current one already.
    AlreadyCurrent(usize),
    /// The named session is now current.
    Switched(usize),
    /// The session of the given number was dropped. `announce` tells
    /// whether to say so: the drop of the current session is reported when
    /// the front end next looks for a current session.
    Dropped { id: usize, announce: bool },
    /// Show the sampling parameters.
    ShowArgs,
    /// Set the given sampling parameter of the current session to the
    /// third word of the line.
    SetArg(ArgKey),
    /// Show the commands.
    Help,
    /// Leave.
    Exit,
    /// The line is no command.
    Unknown,
}

/// What happened when the front end looked for the current session before
/// it read a line.
#[derive(Clone, Copy, PartialEq, Eq, Debug)]
pub enum Refresh {
    /// The current session exists.
    Kept,
    /// The current session was dropped; the second number is current now.
    Switched { from: usize, to: usize },
    /// No session was left: one was started under the given number.
    Created(usize),
}

/// The numbers of a [`Chatting`].
pub struct ChattingView {
    /// Number of the current session.
    pub current: usize,
    /// Number the next new session gets.
    pub next_id: usize,
    /// Numbers of the sessions that exist.
    pub ids: Set<usize>,
}

impl ChattingView {
    /// Every number in use is below the next to be given out, and the
    /// current number is not beyond it.
    pub open spec fn wf(self) -> bool {
        &&& forall|id: usize| self.ids.contains(id) ==> id < self.next_id
        &&& self.current <= self.next_id
    }

    /// Whether a session of number `id` exists.
    pub open spec fn has(self, id: usize) -> bool {
        self.ids.contains(id)
    }

    /// `id` is the lowest number in use.
    pub open spec fn is_lowest(self, id: usize) -> bool {
        &&& self.ids.contains(id)
        &&& forall|other: usize| self.ids.contains(other) ==> id <= other
    }

    /// The lowest number in use.
    pub open spec fn lowest(self) -> usize
        recommends
            exists|id: usize| self.ids.contains(id),
    {
        choose|id: usize| self.is_lowest(id)
    }

    /// The state with a new session, which is now current.
    pub open spec fn grown(self) -> Self {
        ChattingView {
            current: self.next_id,
            next_id: (self.next_id + 1) as usize,
            ids: self.ids.insert(self.next_id),
        }
    }

    /// The state without the session `id`.
    pub open spec fn without(self, id: usize) -> Self {
        ChattingView { ids: self.ids.remove(id), ..self }
    }

    /// The state and the outcome after `command`.
    pub open spec fn executed(self, command: Command) -> (Self, Outcome) {
        match command {
            Command::List => (self, Outcome::List),
            Command::Create => (self.grown(), Outcome::Created(self.next_id)),
            Command::Fork => (
                self.grown(),
                Outcome::Forked { from: self.current, to: self.next_id, named: false },
            ),
            Command::ForkFrom(None) => (self, Outcome::InvalidNumber),
            Command::ForkFrom(Some(id)) => if self.has(id) {
                (self.grown(), Outcome::Forked { from: id, to: self.next_id, named: true })
            } else {
                (self, Outcome::InvalidSession)
            },
            Command::Switch(None) => (self, Outcome::InvalidNumber),
            Command::Switch(Some(id)) => if id == self.current {
                (self, Outcome::AlreadyCurrent(id))
            } else if self.has(id) {
                (ChattingView { current: id, ..self }, Outcome::Switched(id))
            } else {
                (self, Outcome::InvalidSession)
            },
            Command::Drop => (
                self.without(self.current),
                Outcome::Dropped { id: self.current, announce: false },
            ),
            Command::DropId(None) => (self, Outcome::InvalidNumber),
            Command::DropId(Some(id)) => if self.has(id) {
                (self.without(id), Outcome::Dropped { id, announce: id != self.current })
            } else {
                (self, Outcome::InvalidSession)
            },
            Command::Args => (self, Outcome::ShowArgs),
            Command::SetArg(key) => (self, Outcome::SetArg(key)),
            Command::Help => (self, Outcome::Help),
            Command::Exit => (self, Outcome::Exit),
            Command::Unknown => (self, Outcome::Unknown),
        }
    }

    /// The state and what happened after the front end looked for the
    /// current session: the current session if it exists, else the session
    /// of the lowest number, else a new session under the current number.
    pub open spec fn refreshed(self) -> (Self, Refresh) {
        if self.has(self.current) {
            (self, Refresh::Kept)
        } else if exists|id: usize| self.ids.contains(id) {
            (
                ChattingView { current: self.lowest(), ..self },
                Refresh::Switched { from: self.current, to: self.lowest() },
            )
        } else {
            (
                ChattingView {
                    ids: self.ids.insert(self.current),
                    next_id: if self.current == self.next_id {
                        (self.next_id + 1) as usize
                    } else {
                        self.next_id
                    },
                    ..self
                },
                Refresh::Created(self.current),
            )
        }
    }
}

/// A session without history and without cache.
pub open spec fn is_new<S>(s: SessionView<S>) -> bool {
    s.dialog == Seq::<Seq<crate::Token>>::empty() && s.cache.is_none()
}

/// The sessions of the chat front end by number.
pub struct Chatting<M: CausalLM> {
    model: Arc<M>,
    /// The sampling parameters a new session starts with.
    pub default_sample: M::SampleArgs,
    current: usize,
    next_id: usize,
    sessions: HashMap<usize, Session<M>>,
}

impl<M: CausalLM> View for Chatting<M> {
    type V = ChattingView;

    closed spec fn view(&self) -> ChattingView {
        ChattingView { current: self.current, next_id: self.next_id, ids: self.sessions@.dom() }
    }
}

impl<M: CausalLM> Chatting<M> {
    /// The session of number `id`.
    pub closed spec fn session(&self, id: usize) -> SessionView<M::Storage>
        recommends
            self@.has(id),
    {
        self.sessions@[id]@
    }

    /// The sampling parameters of the session of number `id`.
    pub closed spec fn sampling(&self, id: usize) -> M::SampleArgs
        recommends
            self@.has(id),
    {
        self.sessions@[id].sampling()
    }

    /// The sampling parameters a new session starts with.
    pub closed spec fn default_sampling(&self) -> M::SampleArgs {
        self.default_sample
    }

    /// The numbers are well formed and so is every session.
    pub closed spec fn wf(&self) -> bool {
        &&& self@.wf()
        &&& forall|id: usize| #[trigger]
            self.sessions@.contains_key(id) ==> self.sessions@[id].wf()
    }

    /// The sessions of `self` are those of `before`, but for the session
    /// `but`.
    pub open spec fn keeps(&self, before: &Self, but: usize) -> bool {
        &&& self.default_sampling() == before.default_sampling()
        &&& forall|id: usize|
            id != but && before@.has(id) && self@.has(id) ==> #[trigger] self.session(id)
                == before.session(id)
        &&& forall|id: usize|
            id != but && before@.has(id) && self@.has(id) ==> #[trigger] self.sampling(id)
                == before.sampling(id)
    }

    /// What `command` did to the sessions of `before`: it kept those that
    /// it did not drop as they were, and the session it made, if any, is
    /// new, with the default sampling parameters, or a copy of its origin,
    /// with the parameters of its origin.
    pub open spec fn did(&self, before: &Self, outcome: Outcome) -> bool {
        match outcome {
            Outcome::Created(id) => {
                &&& self.keeps(before, id)
                &&& is_new(self.session(id))
                &&& self.sampling(id) == before.default_sampling()
            },
            Outcome::Forked { from, to, named } => {
                &&& self.keeps(before, to)
                &&& self.session(to).is_fork_of(before.session(from))
                &&& self.sampling(to) == before.sampling(from)
            },
            _ => self.keeps(before, self@.next_id),
        }
    }

    /// A front end without sessions, whose sessions will talk to `model`
    /// and start with the sampling parameters `default_sample`. Its first
    /// session will have number zero.
    pub fn new(model: Arc<M>, default_sample: M::SampleArgs) -> (r: Self)
        ensures
            r@ == (ChattingView { current: 0, next_id: 0, ids: Set::empty() }),
            r.wf(),
    {
        let r = Chatting { model, default_sample, current: 0, next_id: 0, sessions: HashMap::new() };
        assert(r@.ids =~= Set::<usize>::empty());
        r
    }

    /// Number of the current session.
    pub fn current(&self) -> (r: usize)
        ensures
            r == self@.current,
    {
        self.current
    }

    /// Number the next new session gets.
    pub fn next_id(&self) -> (r: usize)
        ensures
            r == self@.next_id,
    {
        self.next_id
    }

    /// Whether a session of number `id` exists.
    pub fn has(&self, id: usize) -> (r: bool)
        ensures
            r == self@.has(id),
    {
        self.sessions.contains_key(&id)
    }

    /// The session of number `id`, if it exists.
    pub fn get(&self, id: usize) -> (r: Option<&Session<M>>)
        ensures
            r.is_some() == self@.has(id),
            r matches Some(s) ==> {
                &&& s@ == self.session(id)
                &&& s.sampling() == self.sampling(id)
                &&& self.wf() ==> s.wf()
            },
    {
        self.sessions.get(&id)
    }

    /// The numbers in use, lowest first.
    pub fn ids(&self) -> (r: Vec<usize>)
        requires
            self.wf(),
        ensures
            forall|id: usize| r@.contains(id) <==> self@.has(id),
            forall|i: int, j: int| 0 <= i < j < r@.len() ==> r@[i] < r@[j],
    {
        let mut out: Vec<usize> = Vec::new();
        let mut id: usize = 0;
        while id < self.next_id
            invariant
                0 <= id <= self.next_id,
                forall|k: usize| out@.contains(k) <==> self@.has(k) && k < id,
                forall|i: int| 0 <= i < out@.len() ==> out@[i] < id,
                forall|i: int, j: int| 0 <= i < j < out@.len() ==> out@[i] < out@[j],
            decreases self.next_id - id,
        {
            if self.sessions.contains_key(&id) {
                let ghost before = out@;
                out.push(id);
                proof {
                    assert(out@[before.len() as int] == id);
                    assert forall|k: usize| out@.contains(k) implies self@.has(k) && k < id + 1 by {
                        let i = choose|i: int| 0 <= i < out@.len() && out@[i] == k;
                        if i < before.len() {
                            assert(before[i] == k);
                            assert(before.contains(k));
                        }
                    }
                    assert forall|k: usize| self@.has(k) && k < id + 1 implies out@.contains(k) by {
                        if k < id {
                            assert(before.contains(k));
                            let i = choose|i: int| 0 <= i < before.len() && before[i] == k;
                            assert(out@[i] == k);
                        }
                    }
                }
            }
            id += 1;
        }
        out
    }

    /// The lowest number in use, if any is.
    fn first(&self) -> (r: Option<usize>)
        requires
            self.wf(),
        ensures
            r.is_some() == (exists|id: usize| self@.ids.contains(id)),
            r matches Some(id) ==> self@.is_lowest(id) && id == self@.lowest(),
    {
        let mut id: usize = 0;
        while id < self.next_id
            invariant
                0 <= id <= self.next_id,
                self.wf(),
                forall|k: usize| k < id ==> !self@.ids.contains(k),
            decreases self.next_id - id,
        {
            if self.sessions.contains_key(&id) {
                proof {
                    assert(self@.is_lowest(id));
                    let other = self@.lowest();
                    assert(self@.is_lowest(other));
                }
                return Some(id);
            }
            id += 1;
        }
        None
    }

    /// Takes the session of number `id` out, to talk to it.
    pub fn take(&mut self, id: usize) -> (r: Option<Session<M>>)
        requires
            old(self).wf(),
        ensures
            final(self).wf(),
            r.is_some() == old(self)@.has(id),
            final(self)@ == old(self)@.without(id),
            final(self).keeps(old(self), id),
            r matches Some(s) ==> {
                &&& s.wf()
                &&& s@ == old(self).session(id)
                &&& s.sampling() == old(self).sampling(id)
            },
    {
        let taken = self.sessions.remove(&id);
        proof {
            assert(self@.ids =~= old(self)@.ids.remove(id));
        }
        taken
    }

    /// Puts a session back under its number, or in the place of the
    /// session of that number.
    pub fn put(&mut self, id: usize, session: Session<M>)
        requires
            old(self).wf(),
            session.wf(),
            id < old(self)@.next_id,
        ensures
            final(self).wf(),
            final(self)@ == (ChattingView { ids: old(self)@.ids.insert(id), ..old(self)@ }),
            final(self).keeps(old(self), id),
            final(self).session(id) == session@,
            final(self).sampling(id) == session.sampling(),
    {
        self.sessions.insert(id, session);
        proof {
            assert(self@.ids =~= old(self)@.ids.insert(id));
        }
    }

    /// Stores `session` under the next number and makes it current.
    fn grow(&mut self, session: Session<M>)
        requires
            old(self).wf(),
            old(self)@.next_id < usize::MAX,
            session.wf(),
        ensures
            final(self)@ == old(self)@.grown(),
            final(self).wf(),
            final(self)@.has(final(self)@.current),
            final(self).keeps(old(self), old(self)@.next_id),
            final(self).session(old(self)@.next_id) == session@,
            final(self).sampling(old(self)@.next_id) == session.sampling(),
    {
        let id = self.next_id;
        self.current = id;
        self.next_id = id + 1;
        self.sessions.insert(id, session);
        proof {
            assert(self@.ids =~= old(self)@.ids.insert(id));
        }
    }

    /// Does what `command` asks.
    ///
    /// The front end looks for the current session before it reads a
    /// command, so the current session exists; and it has not run out of
    /// numbers.
    pub fn execute(&mut self, command: Command) -> (r: Outcome)
        requires
            old(self).wf(),
            old(self)@.has(old(self)@.current),
            old(self)@.next_id < usize::MAX,
        ensures
            (final(self)@, r) == old(self)@.executed(command),
            final(self).wf(),
            final(self).did(old(self), r),
            final(self)@.has(final(self)@.current) || r == (Outcome::Dropped {
                id: old(self)@.current,
                announce: false,
            }),
    {
        match command {
            Command::List => Outcome::List,
            Command::Create => {
                let to = self.next_id;
                let session = Session::new(share(&self.model), self.default_sample);
                self.grow(session);
                Outcome::Created(to)
            },
            Command::Fork => self.fork(self.current, false),
            Command::ForkFrom(None) => Outcome::InvalidNumber,
            Command::ForkFrom(Some(id)) => self.fork(id, true),
            Command::Switch(None) => Outcome::InvalidNumber,
            Command::Switch(Some(id)) => {
                if id == self.current {
                    Outcome::AlreadyCurrent(id)
                } else if self.has(id) {
                    self.current = id;
                    Outcome::Switched(id)
                } else {
                    Outcome::InvalidSession
                }
            },
            Command::Drop => {
                let id = self.current;
                self.take(id);
                Outcome::Dropped { id, announce: false }
            },
            Command::DropId(None) => Outcome::InvalidNumber,
            Command::DropId(Some(id)) => {
                let announce = id != self.current;
                match self.take(id) {
                    Some(_) => Outcome::Dropped { id, announce },
                    None => {
                        assert(self@.ids =~= old(self)@.ids);
                        Outcome::InvalidSession
                    },
                }
            },
            Command::Args => Outcome::ShowArgs,
            Command::SetArg(key) => Outcome::SetArg(key),
            Command::Help => Outcome::Help,
            Command::Exit => Outcome::Exit,
            Command::Unknown => Outcome::Unknown,
        }
    }

    /// Copies the session `from`, if it exists, to the next number.
    fn fork(&mut self, from: usize, named: bool) -> (r: Outcome)
        requires
            old(self).wf(),
            old(self)@.next_id < usize::MAX,
        ensures
            final(self).wf(),
            old(self)@.has(from) ==> {
                &&& final(self)@ == old(self)@.grown()
                &&& r == (Outcome::Forked { from, to: old(self)@.next_id, named })
                &&& final(self)@.has(final(self)@.current)
            },
            !old(self)@.has(from) ==> final(self)@ == old(self)@ && r == Outcome::InvalidSession,
            final(self).did(old(self), r),
    {
        let forked = match self.sessions.get(&from) {
            Some(origin) => origin.fork(),
            None => {
                return Outcome::InvalidSession;
            },
        };
        let to = self.next_id;
        self.grow(forked);
        Outcome::Forked { from, to, named }
    }

    /// Reads `command` as a command and executes it.
    pub fn execute_command(&mut self, command: &str) -> (r: Outcome)
        requires
            old(self).wf(),
            old(self)@.has(old(self)@.current),
            old(self)@.next_id < usize::MAX,
        ensures
            (final(self)@, r) == old(self)@.executed(parsed_command(words_of(command@))),
            final(self).wf(),
            final(self).did(old(self), r),
            final(self)@.has(final(self)@.current) || r == (Outcome::Dropped {
                id: old(self)@.current,
                announce: false,
            }),
    {
        let words = split_words(command);
        let parsed = Command::parse(words.as_slice());
        self.execute(parsed)
    }

    /// Makes sure that there is a current session: keeps the current one
    /// if it exists, else turns to the session of the lowest number, else
    /// starts one under the current number.
    pub fn refresh(&mut self) -> (r: Refresh)
        requires
            old(self).wf(),
            old(self)@.next_id < usize::MAX,
        ensures
            (final(self)@, r) == old(self)@.refreshed(),
            final(self).wf(),
            final(self)@.has(final(self)@.current),
            final(self).keeps(old(self), old(self)@.current),
            r == Refresh::Created(old(self)@.current) ==> {
                &&& is_new(final(self).session(old(self)@.current))
                &&& final(self).sampling(old(self)@.current) == old(self).default_sampling()
            },
    {
        if self.has(self.current) {
            return Refresh::Kept;
        }
        match self.first() {
            Some(to) => {
                let from = self.current;
                self.current = to;
                Refresh::Switched { from, to }
            },
            None => {
                let id = self.current;
                let session = Session::new(share(&self.model), self.default_sample);
                self.sessions.insert(id, session);
                if id == self.next_id {
                    self.next_id = id + 1;
                }
                proof {
                    assert(self@.ids =~= old(self)@.ids.insert(id));
                }
                Refresh::Created(id)
            },
        }
    }
}

} // verus!
