//! A registry of sessions by name.
//!
//! A session is either held by the registry or handed out to exactly one
//! user, who gives it back when done. Names are unique. A fork gets a name
//! of its own making: the name of its origin, followed by as many
//! apostrophes as make it longer than every name in use.

use vstd::prelude::*;
use vstd::string::*;
use std::sync::Arc;
use crate::backend::CausalLM;
use crate::chat::same_text;
use crate::session::{share, Session, SessionView};

verus! {

/// Why the registry refused.
#[derive(Clone, Copy, PartialEq, Eq, Debug)]
pub enum SessionError {
    /// The session is handed out.
    Busy,
    /// No session has that name.
    NotFound,
}

/// Mathematical content of a [`SessionManager`].
pub struct ManagerView<S> {
    /// The names, in the order in which the sessions were registered.
    pub ids: Seq<Seq<char>>,
    /// For each name its session, or `None` while it is handed out.
    pub slots: Seq<Option<SessionView<S>>>,
}

/// Length of the longest of `ids`; zero if there is none.
pub open spec fn longest(ids: Seq<Seq<char>>) -> nat
    decreases ids.len(),
{
    if ids.len() == 0 {
        0
    } else {
        let rest = longest(ids.drop_last());
        if ids.last().len() > rest {
            ids.last().len()
        } else {
            rest
        }
    }
}

/// No name is longer than the longest.
pub proof fn lemma_longest_bounds(ids: Seq<Seq<char>>, i: int)
    requires
        0 <= i < ids.len(),
    ensures
        ids[i].len() <= longest(ids),
    decreases ids.len(),
{
    if i < ids.len() - 1 {
        lemma_longest_bounds(ids.drop_last(), i);
    }
}

/// The name a fork of `id` gets among `ids`: `id` followed by apostrophes
/// up to one character more than the longest name in use.
pub open spec fn fresh_id(ids: Seq<Seq<char>>, id: Seq<char>) -> Seq<char> {
    if id.len() > longest(ids) {
        id
    } else {
        id + Seq::new((longest(ids) + 1 - id.len()) as nat, |k: int| '\'')
    }
}

impl<S> ManagerView<S> {
    /// Every name has a slot and no name occurs twice.
    pub open spec fn wf(self) -> bool {
        &&& self.ids.len() == self.slots.len()
        &&& forall|i: int, j: int|
            0 <= i < j < self.ids.len() ==> #[trigger] self.ids[i] != #[trigger] self.ids[j]
    }

    /// Whether a session is registered under `id`.
    pub open spec fn has(self, id: Seq<char>) -> bool {
        self.ids.contains(id)
    }

    /// The place of `id` in the registry.
    pub open spec fn place(self, id: Seq<char>) -> int
        recommends
            self.has(id),
    {
        choose|i: int| 0 <= i < self.ids.len() && self.ids[i] == id
    }

    /// The session registered under `id`, or `None` while it is handed out.
    pub open spec fn slot(self, id: Seq<char>) -> Option<SessionView<S>>
        recommends
            self.has(id),
    {
        self.slots[self.place(id)]
    }

    /// The registry with `session` registered last under `id`.
    pub open spec fn with(self, id: Seq<char>, session: SessionView<S>) -> Self {
        ManagerView { ids: self.ids.push(id), slots: self.slots.push(Some(session)) }
    }

    /// The registry without the entry `id`.
    pub open spec fn without(self, id: Seq<char>) -> Self
        recommends
            self.has(id),
    {
        ManagerView {
            ids: self.ids.remove(self.place(id)),
            slots: self.slots.remove(self.place(id)),
        }
    }

    /// The registry with the slot of `id` set to `slot`.
    pub open spec fn set(self, id: Seq<char>, slot: Option<SessionView<S>>) -> Self
        recommends
            self.has(id),
    {
        ManagerView { ids: self.ids, slots: self.slots.update(self.place(id), slot) }
    }
}

/// A session without history and without cache.
pub open spec fn blank<S>() -> SessionView<S> {
    SessionView { dialog: Seq::empty(), cache: None }
}

/// A registry of sessions of the model `M` by name.
pub struct SessionManager<M: CausalLM> {
    model: Arc<M>,
    default_sample: M::SampleArgs,
    ids: Vec<String>,
    slots: Vec<Option<Session<M>>>,
}

impl<M: CausalLM> View for SessionManager<M> {
    type V = ManagerView<M::Storage>;

    closed spec fn view(&self) -> ManagerView<M::Storage> {
        ManagerView {
            ids: Seq::new(self.ids@.len(), |i: int| self.ids@[i]@),
            slots: Seq::new(
                self.slots@.len(),
                |i: int|
                    match self.slots@[i] {
                        Some(s) => Some(s@),
                        None => None,
                    },
            ),
        }
    }
}

impl<M: CausalLM> SessionManager<M> {
    /// The registry is well formed and so is every session it holds.
    pub closed spec fn wf(&self) -> bool {
        &&& self@.wf()
        &&& forall|i: int|
            0 <= i < self.slots@.len() ==> (#[trigger] self.slots@[i] matches Some(s) ==> s.wf())
    }

    /// An empty registry whose new sessions talk to `model` and sample
    /// with `default_sample`.
    pub fn new(model: Arc<M>, default_sample: M::SampleArgs) -> (r: Self)
        ensures
            r.wf(),
            r@.ids == Seq::<Seq<char>>::empty(),
            r@.slots == Seq::<Option<SessionView<M::Storage>>>::empty(),
    {
        let r = SessionManager { model, default_sample, ids: Vec::new(), slots: Vec::new() };
        assert(r@.ids =~= Seq::<Seq<char>>::empty());
        assert(r@.slots =~= Seq::<Option<SessionView<M::Storage>>>::empty());
        r
    }

    /// The names in use, in the order of registration.
    pub fn list(&self) -> (r: Vec<String>)
        ensures
            r@.len() == self@.ids.len(),
            forall|i: int| 0 <= i < r@.len() ==> (#[trigger] r@[i])@ == self@.ids[i],
    {
        let mut out: Vec<String> = Vec::new();
        let mut i: usize = 0;
        while i < self.ids.len()
            invariant
                0 <= i <= self.ids@.len(),
                out@.len() == i,
                forall|k: int| 0 <= k < i ==> (#[trigger] out@[k])@ == self.ids@[k]@,
            decreases self.ids@.len() - i,
        {
            out.push(self.ids[i].clone());
            i += 1;
        }
        out
    }

    /// The place of `id`, if it is in use.
    fn find(&self, id: &str) -> (r: Option<usize>)
        requires
            self.wf(),
        ensures
            r.is_some() == self@.has(id@),
            r matches Some(i) ==> i < self@.ids.len() && self@.ids[i as int] == id@ && i
                == self@.place(id@),
    {
        let mut i: usize = 0;
        while i < self.ids.len()
            invariant
                self.wf(),
                0 <= i <= self.ids@.len(),
                forall|k: int| 0 <= k < i ==> self@.ids[k] != id@,
            decreases self.ids@.len() - i,
        {
            if same_text(self.ids[i].as_str(), id) {
                proof {
                    assert(self@.ids[i as int] == id@);
                    let p = self@.place(id@);
                    assert(0 <= p < self@.ids.len() && self@.ids[p] == id@);
                    if p < i {
                        assert(self@.ids[p] != self@.ids[i as int]);
                    }
                    if i < p {
                        assert(self@.ids[i as int] != self@.ids[p]);
                    }
                }
                return Some(i);
            }
            assert(self@.ids[i as int] == self.ids@[i as int]@);
            i += 1;
        }
        None
    }

    /// Whether a session is registered under `id`.
    pub fn contains(&self, id: &str) -> (r: bool)
        requires
            self.wf(),
        ensures
            r == self@.has(id@),
    {
        self.find(id).is_some()
    }

    /// Registers `session` under the unused name `id`.
    fn register(&mut self, id: String, session: Session<M>)
        requires
            old(self).wf(),
            !old(self)@.has(id@),
            session.wf(),
        ensures
            final(self).wf(),
            final(self)@ == old(self)@.with(id@, session@),
    {
        self.ids.push(id);
        self.slots.push(Some(session));
        proof {
            let before = old(self)@;
            let after = self@;
            assert(after.ids =~= before.ids.push(id@));
            assert(after.slots =~= before.slots.push(Some(session@)));
            assert forall|i: int, j: int| 0 <= i < j < after.ids.len() implies #[trigger] after.ids[i]
                != #[trigger] after.ids[j] by {
                assert(after.ids[i] == before.ids[i]);
                if j < before.ids.len() {
                    assert(after.ids[j] == before.ids[j]);
                }
            }
            assert forall|i: int| 0 <= i < self.slots@.len() implies (#[trigger] self.slots@[i] matches Some(
                s,
            ) ==> s.wf()) by {
                if i < old(self).slots@.len() {
                    assert(self.slots@[i] == old(self).slots@[i]);
                }
            }
        }
    }

    /// The name a fork of `id` gets.
    fn fresh(&self, id: &str) -> (r: String)
        requires
            self.wf(),
        ensures
            r@ == fresh_id(self@.ids, id@),
            !self@.has(r@),
    {
        let mut max: usize = 0;
        let mut i: usize = 0;
        assert(self@.ids.take(0) =~= Seq::<Seq<char>>::empty());
        while i < self.ids.len()
            invariant
                0 <= i <= self.ids@.len(),
                self@.ids.len() == self.ids@.len(),
                max == longest(self@.ids.take(i as int)),
            decreases self.ids@.len() - i,
        {
            let n = self.ids[i].as_str().unicode_len();
            assert(self@.ids.take(i as int + 1).drop_last() =~= self@.ids.take(i as int));
            assert(self@.ids.take(i as int + 1).last() == self.ids@[i as int]@);
            if n > max {
                max = n;
            }
            i += 1;
        }
        assert(self@.ids.take(i as int) =~= self@.ids);
        let mut name = String::from_str(id);
        let mut n = name.as_str().unicode_len();
        let ghost start = n;
        proof {
            assert(id@ + Seq::new(0, |k: int| '\'') =~= id@);
            reveal_strlit("'");
        }
        while n <= max
            invariant
                start == id@.len(),
                start <= n,
                n == start || n <= max + 1,
                n == name@.len(),
                name@ == id@ + Seq::new((n - start) as nat, |k: int| '\''),
                "'"@ == seq!['\''],
            decreases max + 1 - n,
        {
            name.append("'");
            assert(id@ + Seq::new((n + 1 - start) as nat, |k: int| '\'') =~= (id@ + Seq::new(
                (n - start) as nat,
                |k: int| '\'',
            )) + seq!['\'']);
            n = name.as_str().unicode_len();
        }
        proof {
            if self@.has(name@) {
                let p = self@.place(name@);
                lemma_longest_bounds(self@.ids, p);
            }
            assert(name@ =~= fresh_id(self@.ids, id@));
        }
        name
    }

    /// Registers a copy of the session `id` under a name of its own and
    /// returns that name.
    pub fn fork(&mut self, id: &str) -> (r: Result<String, SessionError>)
        requires
            old(self).wf(),
        ensures
            final(self).wf(),
            r == Err::<String, SessionError>(SessionError::NotFound) <==> !old(self)@.has(id@),
            r == Err::<String, SessionError>(SessionError::Busy) <==> old(self)@.has(id@) && old(self)@.slot(id@).is_none(),
            r.is_err() ==> final(self)@ == old(self)@,
            r matches Ok(name) ==> {
                &&& name@ == fresh_id(old(self)@.ids, id@)
                &&& !old(self)@.has(name@)
                &&& final(self)@.ids == old(self)@.ids.push(name@)
                &&& final(self)@.slots.drop_last() == old(self)@.slots
                &&& final(self)@.slots.last().is_some()
                &&& final(self)@.slots.last().unwrap().is_fork_of(old(self)@.slot(id@).unwrap())
            },
    {
        let at = match self.find(id) {
            Some(at) => at,
            None => {
                return Err(SessionError::NotFound);
            },
        };
        let forked = match &self.slots[at] {
            Some(session) => session.fork(),
            None => {
                return Err(SessionError::Busy);
            },
        };
        let name = self.fresh(id);
        let shown = name.clone();
        self.register(name, forked);
        assert(self@.slots.drop_last() =~= old(self)@.slots);
        Ok(shown)
    }

    /// Makes sure a session is registered under `id`. If there is none
    /// yet, it is a copy of the session `base` if `base` names one, and a
    /// new session otherwise. If there is one, nothing changes.
    pub fn fork_or_create(&mut self, id: &str, base: Option<&str>) -> (r: Result<(), SessionError>)
        requires
            old(self).wf(),
        ensures
            final(self).wf(),
            final(self)@.has(id@) || r.is_err(),
            old(self)@.has(id@) ==> r.is_ok() && final(self)@ == old(self)@,
            r.is_err() ==> final(self)@ == old(self)@,
            r == Err::<(), SessionError>(SessionError::Busy) <==> !old(self)@.has(id@) && (
            base matches Some(b) && old(self)@.has(b@) && old(self)@.slot(b@).is_none()),
            r != Err::<(), SessionError>(SessionError::NotFound),
            !old(self)@.has(id@) && r.is_ok() ==> {
                &&& final(self)@.ids == old(self)@.ids.push(id@)
                &&& final(self)@.slots.drop_last() == old(self)@.slots
                &&& final(self)@.slots.last().is_some()
                &&& (base matches Some(b) && old(self)@.has(b@)) ==> final(self)@.slots.last().unwrap().is_fork_of(old(self)@.slot(base.unwrap()@).unwrap())
                &&& !(base matches Some(b) && old(self)@.has(b@)) ==> {
                    &&& final(self)@.slots.last().unwrap().dialog == Seq::<Seq<crate::Token>>::empty()
                    &&& final(self)@.slots.last().unwrap().cache.is_none()
                }
            },
    {
        if self.contains(id) {
            return Ok(());
        }
        let origin = match base {
            Some(b) => self.find(b),
            None => None,
        };
        let session = match origin {
            Some(at) => match &self.slots[at] {
                Some(session) => session.fork(),
                None => {
                    return Err(SessionError::Busy);
                },
            },
            None => Session::new(share(&self.model), self.default_sample),
        };
        self.register(String::from_str(id), session);
        proof {
            assert(self@.slots.drop_last() =~= old(self)@.slots);
            assert(self@.ids[self@.ids.len() - 1] == id@);
        }
        Ok(())
    }

    /// Removes the entry `id`, whether its session is handed out or not.
    pub fn drop(&mut self, id: &str) -> (r: Result<(), SessionError>)
        requires
            old(self).wf(),
        ensures
            final(self).wf(),
            r.is_ok() <==> old(self)@.has(id@),
            r.is_err() ==> r == Err::<(), SessionError>(SessionError::NotFound) && final(self)@
                == old(self)@,
            r.is_ok() ==> final(self)@ == old(self)@.without(id@),
            !final(self)@.has(id@),
    {
        match self.find(id) {
            None => {
                Err(SessionError::NotFound)
            },
            Some(at) => {
                self.ids.remove(at);
                self.slots.remove(at);
                proof {
                    let before = old(self)@;
                    let after = self@;
                    assert(after.ids =~= before.ids.remove(at as int));
                    assert(after.slots =~= before.slots.remove(at as int));
                    assert forall|i: int| 0 <= i < self.slots@.len() implies (#[trigger] self.slots@[i] matches Some(
                        s,
                    ) ==> s.wf()) by {
                        if i < at {
                            assert(self.slots@[i] == old(self).slots@[i]);
                        } else {
                            assert(self.slots@[i] == old(self).slots@[i + 1]);
                        }
                    }
                    if after.has(id@) {
                        let p = after.place(id@);
                        if p < at {
                            assert(before.ids[p] != before.ids[at as int]);
                        } else {
                            assert(before.ids[at as int] != before.ids[p + 1]);
                        }
                    }
                }
                Ok(())
            },
        }
    }

    /// Hands the session `id` out. Until it is given back, the registry
    /// refuses to hand it out again or to fork it.
    pub fn take(&mut self, id: &str) -> (r: Result<Session<M>, SessionError>)
        requires
            old(self).wf(),
        ensures
            final(self).wf(),
            r == Err::<Session<M>, SessionError>(SessionError::NotFound) <==> !old(self)@.has(id@),
            r == Err::<Session<M>, SessionError>(SessionError::Busy) <==> old(self)@.has(id@)
                && old(self)@.slot(id@).is_none(),
            r.is_err() ==> final(self)@ == old(self)@,
            r matches Ok(session) ==> {
                &&& session.wf()
                &&& Some(session@) == old(self)@.slot(id@)
                &&& final(self)@ == old(self)@.set(id@, None)
            },
    {
        let at = match self.find(id) {
            Some(at) => at,
            None => {
                return Err(SessionError::NotFound);
            },
        };
        let taken = self.slots[at].take();
        proof {
            assert(self@.ids =~= old(self)@.ids);
            assert forall|i: int| 0 <= i < self.slots@.len() implies (#[trigger] self.slots@[i] matches Some(
                s,
            ) ==> s.wf()) by {
                if i != at {
                    assert(self.slots@[i] == old(self).slots@[i]);
                }
            }
        }
        match taken {
            Some(session) => {
                assert(self@.slots =~= old(self)@.slots.update(at as int, None));
                Ok(session)
            },
            None => {
                assert(self@.slots =~= old(self)@.slots);
                Err(SessionError::Busy)
            },
        }
    }

    /// Gives the session `id` back. If the entry was dropped in the
    /// meantime, or holds a session already, the session given is
    /// discarded and nothing changes.
    pub fn restore(&mut self, id: &str, session: Session<M>) -> (r: bool)
        requires
            old(self).wf(),
            session.wf(),
        ensures
            final(self).wf(),
            r <==> old(self)@.has(id@) && old(self)@.slot(id@).is_none(),
            r ==> final(self)@ == old(self)@.set(id@, Some(session@)),
            !r ==> final(self)@ == old(self)@,
    {
        match self.find(id) {
            None => false,
            Some(at) => {
                if self.slots[at].is_some() {
                    false
                } else {
                    self.slots.set(at, Some(session));
                    proof {
                        assert(self@.ids =~= old(self)@.ids);
                        assert(self@.slots =~= old(self)@.slots.update(at as int, Some(session@)));
                        assert forall|i: int| 0 <= i < self.slots@.len() implies (#[trigger] self.slots@[i] matches Some(
                            s,
                        ) ==> s.wf()) by {
                            if i != at {
                                assert(self.slots@[i] == old(self).slots@[i]);
                            }
                        }
                    }
                    true
                }
            },
        }
    }
}

} // verus!
