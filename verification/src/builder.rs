//! The graph builder: the executable traversal.
//!
//! The builder makes every decision of the traversal and leaves the file
//! system to its driver. The driver asks [`Builder::action`] what is wanted,
//! performs it, and hands the answer to [`Builder::step`], until the action
//! is [`Action::Finish`].

use vstd::prelude::*;
use crate::classification::{lemma_settled, lemma_with_new, ClassMap};
use crate::identity::Identity;
use crate::machine::{with_unresolved, ActionView, EventView, PhaseView, State};
use crate::imports::{declared, find_deps, parsed};
use crate::layout::has_dos_header;
use crate::record::{
    duplicate_names, texts, DepRecord, Failure, FailureKind, FailureView, RecordView,
};
use crate::soundness::lemma_step_wf;

verus! {

/// A request to the file system.
#[derive(Debug, PartialEq, Eq)]
pub enum Action {
    /// Canonicalize an initial input path.
    Canonicalize { path: String },
    /// Read the module at a canonical path and list its dependency names.
    Load { path: String },
    /// Canonicalize `name` joined to the search directory `dir`.
    Probe { dir: String, name: String },
    /// The traversal is complete.
    Finish,
}

impl View for Action {
    type V = ActionView;

    open spec fn view(&self) -> ActionView {
        match self {
            Action::Canonicalize { path } => ActionView::Canonicalize { path: path@ },
            Action::Load { path } => ActionView::Load { path: path@ },
            Action::Probe { dir, name } => ActionView::Probe { dir: dir@, name: name@ },
            Action::Finish => ActionView::Finish,
        }
    }
}

/// An answer from the file system.
#[derive(Debug, PartialEq, Eq)]
pub enum Event {
    /// The canonical path of the file asked for, or nothing where it does
    /// not exist.
    Located(Option<String>),
    /// The dependency names of the module asked for, or why it could not
    /// be read.
    Imports(Result<Vec<String>, Failure>),
}

impl View for Event {
    type V = EventView;

    open spec fn view(&self) -> EventView {
        match self {
            Event::Located(Some(path)) => EventView::Located(Some(path@)),
            Event::Located(None) => EventView::Located(None),
            Event::Imports(Ok(names)) => EventView::Imports(Ok(texts(names@))),
            Event::Imports(Err(failure)) => EventView::Imports(Err(failure@)),
        }
    }
}

impl Event {
    /// The answer to a `Load` request, from what reading the file gave: its
    /// bytes, or the message of the error that kept it from being read.
    ///
    /// A file that could not be read is an `Io` failure with that message.
    /// The bytes of one that was read go to [`find_deps`]: the answer holds
    /// what is declared by what is parsed of them, which is never an `Io`
    /// failure.
    pub fn loaded(image: Result<&[u8], String>) -> (event: Event)
        ensures
            event@ is Imports,
            image matches Err(message) ==> event@ == EventView::Imports(
                Err(FailureView { kind: FailureKind::Io, detail: message@ }),
            ),
            image matches Ok(bytes) ==> event@ == EventView::Imports(declared(parsed(bytes@))),
            image is Ok ==> (event@ matches EventView::Imports(Err(failure)) ==> failure.kind
                != FailureKind::Io),
            image matches Ok(bytes) && !has_dos_header(bytes@) ==> (event@ matches EventView::Imports(
                Err(failure),
            ) && failure.kind == FailureKind::Parse),
    {
        match image {
            Ok(bytes) => Event::Imports(find_deps(bytes)),
            Err(message) => Event::Imports(Err(Failure::new(FailureKind::Io, message))),
        }
    }
}

#[derive(Debug)]
enum Phase {
    Seeding { next: usize },
    Loading { path: String },
    Probing { names: Vec<String>, name: usize, dir: usize },
    Finished,
}

impl View for Phase {
    type V = PhaseView;

    closed spec fn view(&self) -> PhaseView {
        match self {
            Phase::Seeding { next } => PhaseView::Seeding { next: *next as int },
            Phase::Loading { path } => PhaseView::Loading { path: path@ },
            Phase::Probing { names, name, dir } => PhaseView::Probing {
                names: texts(names@),
                name: *name as int,
                dir: *dir as int,
            },
            Phase::Finished => PhaseView::Finished,
        }
    }
}

/// Appending a string appends its text.
proof fn lemma_texts_push(list: Seq<String>, last: String)
    ensures
        texts(list.push(last)) == texts(list).push(last@),
{
    assert(texts(list.push(last)) =~= texts(list).push(last@));
}

/// Records each of `names` as an unresolved dependency.
fn mark_unresolved(map: &mut ClassMap, names: &Vec<String>)
    requires
        old(map).wf(),
    ensures
        final(map).wf(),
        final(map)@ == with_unresolved(old(map)@, texts(names@)),
{
    let ghost all = texts(names@);
    let mut i: usize = 0;
    while i < names.len()
        invariant
            i <= names.len(),
            all == texts(names@),
            map.wf(),
            map@ == with_unresolved(old(map)@, all.take(i as int)),
        decreases names.len() - i,
    {
        proof {
            assert(all.take(i + 1).drop_last() =~= all.take(i as int));
        }
        map.insert_if_absent(Identity::unresolved(names[i].as_str()), DepRecord::NotFound);
        i += 1;
    }
    assert(all.take(i as int) =~= all);
}

/// The traversal in progress.
#[derive(Debug)]
pub struct Builder {
    inputs: Vec<String>,
    dirs: Vec<String>,
    map: ClassMap,
    queue: Vec<String>,
    missing: Vec<String>,
    phase: Phase,
}

impl View for Builder {
    type V = State;

    closed spec fn view(&self) -> State {
        State {
            inputs: texts(self.inputs@),
            dirs: texts(self.dirs@),
            map: self.map@,
            queue: texts(self.queue@),
            missing: texts(self.missing@),
            phase: self.phase@,
        }
    }
}

impl Builder {
    /// The invariant of the traversal holds.
    pub open spec fn wf(&self) -> bool {
        self@.wf()
    }

    /// A traversal from the given initial inputs, resolving dependency
    /// names against `dirs` in the order given.
    pub fn new(inputs: Vec<String>, dirs: Vec<String>) -> (b: Builder)
        ensures
            b@ == State::initial(texts(inputs@), texts(dirs@)),
            b.wf(),
    {
        let phase = if inputs.len() == 0 {
            Phase::Finished
        } else {
            Phase::Seeding { next: 0 }
        };
        let b = Builder {
            inputs,
            dirs,
            map: ClassMap::new(),
            queue: Vec::new(),
            missing: Vec::new(),
            phase,
        };
        proof {
            assert(texts(b.queue@) =~= Seq::<Seq<char>>::empty());
            assert(texts(b.missing@) =~= Seq::<Seq<char>>::empty());
        }
        b
    }

    /// What the traversal asks of the file system next.
    pub fn action(&self) -> (a: Action)
        requires
            self.wf(),
        ensures
            a@ == self@.action(),
    {
        match &self.phase {
            Phase::Seeding { next } => Action::Canonicalize { path: self.inputs[*next].clone() },
            Phase::Loading { path } => Action::Load { path: path.clone() },
            Phase::Probing { names, name, dir } => Action::Probe {
                dir: self.dirs[*dir].clone(),
                name: names[*name].clone(),
            },
            Phase::Finished => Action::Finish,
        }
    }

    /// Whether the traversal is complete.
    pub fn is_finished(&self) -> (r: bool)
        ensures
            r == (self@.phase is Finished),
    {
        match &self.phase {
            Phase::Finished => true,
            _ => false,
        }
    }

    /// The classification so far.
    pub fn map(&self) -> (m: &ClassMap)
        ensures
            m@ == self@.map,
            self.wf() ==> m.wf(),
    {
        &self.map
    }

    /// The initial inputs that do not exist, in input order.
    pub fn missing(&self) -> (m: &Vec<String>)
        ensures
            texts(m@) == self@.missing,
    {
        &self.missing
    }

    /// Gives up the builder for its classification.
    pub fn into_map(self) -> (m: ClassMap)
        ensures
            m@ == self@.map,
            self.wf() ==> m.wf(),
    {
        self.map
    }

    fn discover(&mut self, path: String)
        requires
            old(self).map.wf(),
        ensures
            final(self).map.wf(),
            final(self)@ == old(self)@.discover(path@),
    {
        let id = Identity::resolved(path.as_str());
        proof {
            lemma_with_new(self.map@, id@, RecordView::Queued);
            lemma_texts_push(self.queue@, path);
        }
        if self.map.insert_if_absent(id, DepRecord::Queued) {
            self.queue.push(path);
        }
    }

    fn dispatch(&mut self)
        ensures
            final(self).map == old(self).map,
            final(self)@ == old(self)@.dispatch(),
    {
        let ghost before = self.queue@;
        match self.queue.pop() {
            Some(path) => {
                proof {
                    assert(texts(self.queue@) =~= texts(before).drop_last());
                }
                self.phase = Phase::Loading { path };
            },
            None => {
                self.phase = Phase::Finished;
            },
        }
    }

    fn next_input(&mut self, next: usize)
        requires
            next < old(self).inputs.len(),
        ensures
            final(self).map == old(self).map,
            final(self)@ == old(self)@.next_input(next as int),
    {
        if next + 1 < self.inputs.len() {
            self.phase = Phase::Seeding { next: next + 1 };
        } else {
            self.dispatch();
        }
    }

    fn next_name(&mut self, names: Vec<String>, name: usize)
        requires
            name < names.len(),
        ensures
            final(self).map == old(self).map,
            final(self)@ == old(self)@.next_name(texts(names@), name as int),
    {
        if name + 1 < names.len() {
            self.phase = Phase::Probing { names, name: name + 1, dir: 0 };
        } else {
            self.dispatch();
        }
    }

    /// Consumes an answer from the file system.
    ///
    /// The traversal moves as [`State::step`] says. An event that does not
    /// answer the pending action changes nothing.
    pub fn step(&mut self, event: Event)
        requires
            old(self).wf(),
        ensures
            final(self).wf(),
            final(self)@ == old(self)@.step(event@),
    {
        proof {
            lemma_step_wf(self@, event@);
        }
        let mut phase = Phase::Finished;
        core::mem::swap(&mut self.phase, &mut phase);
        match (phase, event) {
            (Phase::Seeding { next }, Event::Located(Some(path))) => {
                self.phase = Phase::Seeding { next };
                self.discover(path);
                self.next_input(next);
            },
            (Phase::Seeding { next }, Event::Located(None)) => {
                self.phase = Phase::Seeding { next };
                proof {
                    lemma_texts_push(self.missing@, self.inputs@[next as int]);
                }
                self.missing.push(self.inputs[next].clone());
                self.next_input(next);
            },
            (Phase::Loading { path }, Event::Imports(Ok(names))) => {
                let id = Identity::resolved(path.as_str());
                self.phase = Phase::Loading { path };
                proof {
                    lemma_settled(self.map@, id@, RecordView::Found(texts(names@)));
                }
                self.map.settle(&id, DepRecord::Found(duplicate_names(&names)));
                if names.len() == 0 {
                    self.dispatch();
                } else if self.dirs.len() == 0 {
                    mark_unresolved(&mut self.map, &names);
                    self.dispatch();
                } else {
                    self.phase = Phase::Probing { names, name: 0, dir: 0 };
                }
            },
            (Phase::Loading { path }, Event::Imports(Err(failure))) => {
                let id = Identity::resolved(path.as_str());
                self.phase = Phase::Loading { path };
                self.map.settle(&id, DepRecord::Invalid(failure));
                self.dispatch();
            },
            (Phase::Probing { names, name, dir }, Event::Located(Some(path))) => {
                self.discover(path);
                self.next_name(names, name);
            },
            (Phase::Probing { names, name, dir }, Event::Located(None)) => {
                assert(dir < self.dirs.len());
                if dir + 1 < self.dirs.len() {
                    self.phase = Phase::Probing { names, name, dir: dir + 1 };
                } else {
                    self.map.insert_if_absent(
                        Identity::unresolved(names[name].as_str()),
                        DepRecord::NotFound,
                    );
                    self.next_name(names, name);
                }
            },
            (phase, _) => {
                self.phase = phase;
            },
        }
    }
}

} // verus!
