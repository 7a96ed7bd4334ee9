//! The file system as the traversal sees it, and what a traversal in a given
//! file system comes to.

use vstd::prelude::*;
use crate::classification::{lemma_settled, lookup};
use crate::identity::IdentityView;
use crate::machine::{ActionView, EventView, PhaseView, State};
use crate::record::{FailureView, RecordView};
use crate::soundness::{lemma_read, lemma_step_wf};

verus! {

/// A file system that does not change: what it answers to each request.
pub ghost struct World {
    /// The canonical form of a path, where the file exists.
    pub canon: spec_fn(Seq<char>) -> Option<Seq<char>>,
    /// The canonical form of a name joined to a directory, where that file
    /// exists.
    pub probe: spec_fn(Seq<char>, Seq<char>) -> Option<Seq<char>>,
    /// The dependency names that the module at a canonical path declares,
    /// or why it cannot be read.
    pub imports: spec_fn(Seq<char>) -> Result<Seq<Seq<char>>, FailureView>,
}

impl World {
    /// The answer to a request. A finished traversal asks nothing; what is
    /// handed to it changes nothing.
    pub open spec fn answer(self, action: ActionView) -> EventView {
        match action {
            ActionView::Canonicalize { path } => EventView::Located((self.canon)(path)),
            ActionView::Load { path } => EventView::Imports((self.imports)(path)),
            ActionView::Probe { dir, name } => EventView::Located((self.probe)(dir, name)),
            ActionView::Finish => EventView::Located(None),
        }
    }

    /// The state after the pending request was answered.
    pub open spec fn next(self, s: State) -> State {
        s.step(self.answer(s.action()))
    }

    /// The state after `n` requests were answered.
    pub open spec fn run(self, s: State, n: nat) -> State
        decreases n,
    {
        if n == 0 {
            s
        } else {
            self.run(self.next(s), (n - 1) as nat)
        }
    }

    /// Whether each event of the list is the answer of this file system to
    /// the request that was pending when it came.
    pub open spec fn gives(self, s: State, events: Seq<EventView>) -> bool
        decreases events.len(),
    {
        events.len() > 0 ==> events[0] == self.answer(s.action()) && self.gives(
            s.step(events[0]),
            events.drop_first(),
        )
    }

}

/// The state after a list of events, whatever they answer.
pub open spec fn replay(s: State, events: Seq<EventView>) -> State
    decreases events.len(),
{
    if events.len() == 0 {
        s
    } else {
        replay(s.step(events[0]), events.drop_first())
    }
}

/// Every state of a replay meets the invariant.
pub proof fn lemma_replay_wf(s: State, events: Seq<EventView>)
    requires
        s.wf(),
    ensures
        replay(s, events).wf(),
    decreases events.len(),
{
    if events.len() > 0 {
        lemma_step_wf(s, events[0]);
        lemma_replay_wf(s.step(events[0]), events.drop_first());
    }
}

/// Every state of a run meets the invariant.
pub proof fn lemma_run_wf(world: World, s: State, n: nat)
    requires
        s.wf(),
    ensures
        world.run(s, n).wf(),
    decreases n,
{
    if n > 0 {
        lemma_step_wf(s, world.answer(s.action()));
        lemma_run_wf(world, world.next(s), (n - 1) as nat);
    }
}

/// A run of `a + b` answers is a run of `a` followed by a run of `b`.
pub proof fn lemma_run_split(world: World, s: State, a: nat, b: nat)
    ensures
        world.run(s, a + b) == world.run(world.run(s, a), b),
    decreases a,
{
    if a > 0 {
        lemma_run_split(world, world.next(s), (a - 1) as nat, b);
    }
}

/// A finished traversal stays as it is.
pub proof fn lemma_finished_stays(world: World, s: State, n: nat)
    requires
        s.phase is Finished,
    ensures
        world.run(s, n) == s,
    decreases n,
{
    if n > 0 {
        lemma_finished_stays(world, s, (n - 1) as nat);
    }
}

/// Events that this file system gives lead where its run leads.
pub proof fn lemma_replay_is_run(world: World, s: State, events: Seq<EventView>)
    requires
        world.gives(s, events),
    ensures
        replay(s, events) == world.run(s, events.len()),
    decreases events.len(),
{
    if events.len() > 0 {
        lemma_replay_is_run(world, s.step(events[0]), events.drop_first());
    }
}

/// Resolution is repeatable. Two traversals from the same inputs and search
/// directories, each answered by the same unchanged file system until it
/// finished, end in the same state: the same classification, in the same
/// order, and the same missing inputs.
pub proof fn lemma_rerun_identical(
    world: World,
    inputs: Seq<Seq<char>>,
    dirs: Seq<Seq<char>>,
    first: Seq<EventView>,
    second: Seq<EventView>,
)
    requires
        world.gives(State::initial(inputs, dirs), first),
        world.gives(State::initial(inputs, dirs), second),
        replay(State::initial(inputs, dirs), first).phase is Finished,
        replay(State::initial(inputs, dirs), second).phase is Finished,
    ensures
        replay(State::initial(inputs, dirs), first) == replay(
            State::initial(inputs, dirs),
            second,
        ),
{
    let start = State::initial(inputs, dirs);
    lemma_replay_is_run(world, start, first);
    lemma_replay_is_run(world, start, second);
    let a = first.len();
    let b = second.len();
    if a <= b {
        lemma_run_split(world, start, a, (b - a) as nat);
        lemma_finished_stays(world, world.run(start, a), (b - a) as nat);
    } else {
        lemma_run_split(world, start, b, (a - b) as nat);
        lemma_finished_stays(world, world.run(start, b), (a - b) as nat);
    }
}

/// A module that declares no dependencies is recorded as found, with an
/// empty list.
pub proof fn lemma_no_dependencies(s: State)
    requires
        s.wf(),
        s.phase is Loading,
    ensures
        lookup(
            s.step(EventView::Imports(Ok(Seq::empty()))).map,
            IdentityView::Resolved(s.phase->Loading_path),
        ) == Some(RecordView::Found(Seq::empty())),
{
    lemma_read(s.map, s.queue, s.phase->Loading_path, RecordView::Found(Seq::empty()));
}

/// An initial input that does not exist is noted as missing, and leaves the
/// classification as it was.
pub proof fn lemma_missing_input(s: State)
    requires
        s.wf(),
        s.phase is Seeding,
    ensures
        s.step(EventView::Located(None)).map == s.map,
        s.step(EventView::Located(None)).missing == s.missing.push(
            s.inputs[s.phase->Seeding_next],
        ),
{
}

/// An event that does not answer what the state asks changes nothing.
pub proof fn lemma_unasked_event_ignored(s: State, event: EventView)
    requires
        !s.accepts(event),
    ensures
        s.step(event) == s,
{
}

/// A module that cannot be read or parsed is recorded as invalid with the
/// failure that was met, be it that the file could not be read or that its
/// content is no image. Nothing is discovered through it: the
/// classification holds the identities it held, and the queue does not
/// grow. The traversal goes on with the next module of the queue, and
/// finishes where there is none.
pub proof fn lemma_invalid_module(s: State, failure: FailureView)
    requires
        s.wf(),
        s.phase is Loading,
    ensures
        ({
            let after = s.step(EventView::Imports(Err(failure)));
            &&& lookup(after.map, IdentityView::Resolved(s.phase->Loading_path)) == Some(
                RecordView::Invalid(failure),
            )
            &&& after.map.len() == s.map.len()
            &&& forall|i: int| 0 <= i < s.map.len() ==> (#[trigger] after.map[i]).id == s.map[i].id
            &&& after.queue.len() <= s.queue.len()
            &&& s.queue.len() == 0 ==> after.phase is Finished
            &&& s.queue.len() > 0 ==> after.phase == (PhaseView::Loading { path: s.queue.last() })
        }),
{
    let id = IdentityView::Resolved(s.phase->Loading_path);
    lemma_read(s.map, s.queue, s.phase->Loading_path, RecordView::Invalid(failure));
    lemma_settled(s.map, id, RecordView::Invalid(failure));
}

} // verus!
