//! The traversal as a transition system over mathematical values.
//!
//! A [`State`] holds everything the traversal knows. In every state but the
//! last it waits for one answer from the file system, named by
//! [`State::action`]; [`State::step`] consumes the answer. The executable
//! builder is proved to follow these transitions.

use vstd::prelude::*;
use crate::classification::{distinct, known, lookup, settled, with_new, EntryView};
use crate::identity::IdentityView;
use crate::record::{FailureView, RecordView};

verus! {

/// What the traversal is waiting for.
pub ghost enum PhaseView {
    /// The canonical form of the initial input at position `next`.
    Seeding { next: int },
    /// The dependency names of the module at `path`.
    Loading { path: Seq<char> },
    /// The canonical form of `names[name]` under the search directory at
    /// position `dir`. `names` are the dependencies of the module that was
    /// read last.
    Probing { names: Seq<Seq<char>>, name: int, dir: int },
    /// Nothing: the queue is empty.
    Finished,
}

/// A request to the file system.
pub ghost enum ActionView {
    /// Canonicalize an initial input path.
    Canonicalize { path: Seq<char> },
    /// Read the module at a canonical path and list its dependency names.
    Load { path: Seq<char> },
    /// Canonicalize `name` joined to the search directory `dir`.
    Probe { dir: Seq<char>, name: Seq<char> },
    /// The traversal is complete.
    Finish,
}

/// An answer from the file system.
pub ghost enum EventView {
    /// The canonical path of the file asked for, or nothing where it does
    /// not exist.
    Located(Option<Seq<char>>),
    /// The dependency names of the module asked for, or why it could not
    /// be read.
    Imports(Result<Seq<Seq<char>>, FailureView>),
}

/// The state of a traversal.
pub ghost struct State {
    /// The initial input paths, as given.
    pub inputs: Seq<Seq<char>>,
    /// The search directories, in order of precedence.
    pub dirs: Seq<Seq<char>>,
    /// The classification so far.
    pub map: Seq<EntryView>,
    /// Canonical paths of modules waiting to be read; the last is read
    /// first.
    pub queue: Seq<Seq<char>>,
    /// Initial inputs that do not exist, in input order.
    pub missing: Seq<Seq<char>>,
    pub phase: PhaseView,
}

/// The listing after each of `names` was recorded as unresolved, in order.
pub open spec fn with_unresolved(list: Seq<EntryView>, names: Seq<Seq<char>>) -> Seq<EntryView>
    decreases names.len(),
{
    if names.len() == 0 {
        list
    } else {
        with_new(
            with_unresolved(list, names.drop_last()),
            IdentityView::Unresolved(names.last()),
            RecordView::NotFound,
        )
    }
}

impl State {
    /// The state before anything was asked.
    pub open spec fn initial(inputs: Seq<Seq<char>>, dirs: Seq<Seq<char>>) -> State {
        State {
            inputs,
            dirs,
            map: Seq::empty(),
            queue: Seq::empty(),
            missing: Seq::empty(),
            phase: if inputs.len() == 0 {
                PhaseView::Finished
            } else {
                PhaseView::Seeding { next: 0 }
            },
        }
    }

    /// What the state asks of the file system.
    pub open spec fn action(self) -> ActionView {
        match self.phase {
            PhaseView::Seeding { next } => ActionView::Canonicalize { path: self.inputs[next] },
            PhaseView::Loading { path } => ActionView::Load { path },
            PhaseView::Probing { names, name, dir } => ActionView::Probe {
                dir: self.dirs[dir],
                name: names[name],
            },
            PhaseView::Finished => ActionView::Finish,
        }
    }

    /// Whether the event is an answer to what the state asks.
    pub open spec fn accepts(self, event: EventView) -> bool {
        match self.phase {
            PhaseView::Seeding { .. } => event is Located,
            PhaseView::Loading { .. } => event is Imports,
            PhaseView::Probing { .. } => event is Located,
            PhaseView::Finished => false,
        }
    }

    /// A file was located: it is queued, unless its path is known.
    pub open spec fn discover(self, path: Seq<char>) -> State {
        let id = IdentityView::Resolved(path);
        if known(self.map, id) {
            self
        } else {
            State {
                map: with_new(self.map, id, RecordView::Queued),
                queue: self.queue.push(path),
                ..self
            }
        }
    }

    /// Takes the next module off the queue, or finishes.
    pub open spec fn dispatch(self) -> State {
        if self.queue.len() == 0 {
            State { phase: PhaseView::Finished, ..self }
        } else {
            State {
                phase: PhaseView::Loading { path: self.queue.last() },
                queue: self.queue.drop_last(),
                ..self
            }
        }
    }

    /// Goes on to the name after `names[name]`, or to the next module.
    pub open spec fn next_name(self, names: Seq<Seq<char>>, name: int) -> State {
        if name + 1 < names.len() {
            State { phase: PhaseView::Probing { names, name: name + 1, dir: 0 }, ..self }
        } else {
            self.dispatch()
        }
    }

    /// Goes on to the input after the one at `next`, or to the first module.
    pub open spec fn next_input(self, next: int) -> State {
        if next + 1 < self.inputs.len() {
            State { phase: PhaseView::Seeding { next: next + 1 }, ..self }
        } else {
            self.dispatch()
        }
    }

    /// The state after an event. An event that does not answer what the
    /// state asks changes nothing.
    pub open spec fn step(self, event: EventView) -> State {
        match (self.phase, event) {
            (PhaseView::Seeding { next }, EventView::Located(Some(path))) => self.discover(
                path,
            ).next_input(next),
            (PhaseView::Seeding { next }, EventView::Located(None)) => State {
                missing: self.missing.push(self.inputs[next]),
                ..self
            }.next_input(next),
            (PhaseView::Loading { path }, EventView::Imports(Ok(names))) => {
                let read = State {
                    map: settled(
                        self.map,
                        IdentityView::Resolved(path),
                        RecordView::Found(names),
                    ),
                    ..self
                };
                if names.len() == 0 {
                    read.dispatch()
                } else if self.dirs.len() == 0 {
                    State { map: with_unresolved(read.map, names), ..read }.dispatch()
                } else {
                    State { phase: PhaseView::Probing { names, name: 0, dir: 0 }, ..read }
                }
            },
            (PhaseView::Loading { path }, EventView::Imports(Err(failure))) => State {
                map: settled(
                    self.map,
                    IdentityView::Resolved(path),
                    RecordView::Invalid(failure),
                ),
                ..self
            }.dispatch(),
            (PhaseView::Probing { names, name, dir }, EventView::Located(Some(path))) => {
                self.discover(path).next_name(names, name)
            },
            (PhaseView::Probing { names, name, dir }, EventView::Located(None)) => {
                if dir + 1 < self.dirs.len() {
                    State { phase: PhaseView::Probing { names, name, dir: dir + 1 }, ..self }
                } else {
                    State {
                        map: with_new(
                            self.map,
                            IdentityView::Unresolved(names[name]),
                            RecordView::NotFound,
                        ),
                        ..self
                    }.next_name(names, name)
                }
            },
            _ => self,
        }
    }

    /// The invariant of a traversal: the classification and the modules
    /// still to read are [`consistent`], the module being read counting as
    /// one of them, and the phase points at an input, a name and a
    /// directory that exist.
    pub open spec fn wf(self) -> bool {
        match self.phase {
            PhaseView::Seeding { next } => {
                &&& consistent(self.map, self.queue)
                &&& 0 <= next < self.inputs.len()
            },
            PhaseView::Loading { path } => {
                &&& consistent(self.map, self.queue.push(path))
            },
            PhaseView::Probing { names, name, dir } => {
                &&& consistent(self.map, self.queue)
                &&& 0 <= name < names.len()
                &&& 0 <= dir < self.dirs.len()
            },
            PhaseView::Finished => {
                &&& consistent(self.map, self.queue)
                &&& self.queue.len() == 0
            },
        }
    }
}

/// Whether the module at `path` is discovered and not yet read.
pub open spec fn awaits(map: Seq<EntryView>, path: Seq<char>) -> bool {
    lookup(map, IdentityView::Resolved(path)) == Some(RecordView::Queued)
}

/// How a classification and the paths still to read fit together.
///
/// No identity is classified twice and no path is waiting twice. The
/// records that are `Queued` are exactly those of the waiting paths. A bare
/// name is recorded as `NotFound`, and a path never is.
pub open spec fn consistent(map: Seq<EntryView>, waiting: Seq<Seq<char>>) -> bool {
    &&& distinct(map)
    &&& waiting.no_duplicates()
    &&& forall|i: int| 0 <= i < waiting.len() ==> awaits(map, #[trigger] waiting[i])
    &&& forall|i: int|
        0 <= i < map.len() ==> ((#[trigger] map[i]).id is Unresolved
            <==> map[i].record is NotFound)
    &&& forall|i: int|
        0 <= i < map.len() && (#[trigger] map[i]).record is Queued ==> waiting.contains(
            map[i].id.text(),
        )
}

} // verus!
