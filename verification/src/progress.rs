//! Every traversal in a finite file system finishes.

use vstd::prelude::*;
use vstd::set_lib::lemma_len_subset;
use crate::classification::{known, lemma_settled, settled, slot, with_new, EntryView};
use crate::identity::IdentityView;
use crate::machine::{with_unresolved, EventView, PhaseView, State};
use crate::record::RecordView;
use crate::soundness::{lemma_awaits_known, lemma_step_extends, lemma_step_wf};
use crate::visits::{is_read, lemma_load_reads};
use crate::world::World;

verus! {

/// Every path that the file system hands out lies in `universe`.
pub open spec fn within(world: World, universe: Set<Seq<char>>) -> bool {
    &&& forall|path: Seq<char>|
        (#[trigger] (world.canon)(path)) matches Some(found) ==> universe.contains(found)
    &&& forall|dir: Seq<char>, name: Seq<char>|
        (#[trigger] (world.probe)(dir, name)) matches Some(found) ==> universe.contains(found)
}

/// Every path in the listing lies in `universe`.
pub open spec fn keys_within(map: Seq<EntryView>, universe: Set<Seq<char>>) -> bool {
    forall|i: int|
        0 <= i < map.len() && (#[trigger] map[i]).id is Resolved ==> universe.contains(
            map[i].id.text(),
        )
}

/// The paths of `universe` that have no terminal record yet.
pub open spec fn unread(map: Seq<EntryView>, universe: Set<Seq<char>>) -> Set<Seq<char>> {
    Set::new(|path: Seq<char>| universe.contains(path) && !is_read(map, path))
}

/// How many initial inputs are still to be located.
pub open spec fn inputs_left(s: State) -> int {
    match s.phase {
        PhaseView::Seeding { next } => s.inputs.len() - next,
        _ => 0,
    }
}

/// How many names of the module read last are still to be resolved.
pub open spec fn names_left(s: State) -> int {
    match s.phase {
        PhaseView::Probing { names, name, dir } => names.len() - name,
        _ => 0,
    }
}

/// How many directories are still to be asked for the name being resolved.
pub open spec fn dirs_left(s: State) -> int {
    match s.phase {
        PhaseView::Probing { names, name, dir } => s.dirs.len() - dir,
        _ => 0,
    }
}

/// Discovering a path of `universe` keeps the paths of the listing in it.
pub proof fn lemma_keys_with_new(
    map: Seq<EntryView>,
    universe: Set<Seq<char>>,
    id: IdentityView,
    record: RecordView,
)
    requires
        keys_within(map, universe),
        id is Resolved ==> universe.contains(id.text()),
    ensures
        keys_within(with_new(map, id, record), universe),
{
    let next = with_new(map, id, record);
    assert forall|i: int| 0 <= i < next.len() && (#[trigger] next[i]).id is Resolved implies universe.contains(
        next[i].id.text(),
    ) by {
        if i < map.len() {
            assert(next[i] == map[i]);
        }
    }
}

/// Recording bare names keeps the paths of the listing in `universe`.
pub proof fn lemma_keys_with_unresolved(
    map: Seq<EntryView>,
    universe: Set<Seq<char>>,
    names: Seq<Seq<char>>,
)
    requires
        keys_within(map, universe),
    ensures
        keys_within(with_unresolved(map, names), universe),
    decreases names.len(),
{
    if names.len() > 0 {
        lemma_keys_with_unresolved(map, universe, names.drop_last());
        lemma_keys_with_new(
            with_unresolved(map, names.drop_last()),
            universe,
            IdentityView::Unresolved(names.last()),
            RecordView::NotFound,
        );
    }
}

/// An answer of the file system keeps the paths of the classification in
/// `universe`.
pub proof fn lemma_next_keys_within(world: World, universe: Set<Seq<char>>, s: State)
    requires
        s.wf(),
        within(world, universe),
        keys_within(s.map, universe),
    ensures
        keys_within(world.next(s).map, universe),
{
    let event = world.answer(s.action());
    match (s.phase, event) {
        (PhaseView::Seeding { next }, EventView::Located(Some(path))) => {
            assert((world.canon)(s.inputs[next]) == Some(path));
            lemma_keys_with_new(
                s.map,
                universe,
                IdentityView::Resolved(path),
                RecordView::Queued,
            );
        },
        (PhaseView::Loading { path }, EventView::Imports(Ok(names))) => {
            let id = IdentityView::Resolved(path);
            let read = settled(s.map, id, RecordView::Found(names));
            lemma_settled(s.map, id, RecordView::Found(names));
            assert(keys_within(read, universe)) by {
                assert forall|i: int| 0 <= i < read.len() && (#[trigger] read[i]).id is Resolved implies universe.contains(
                    read[i].id.text(),
                ) by {
                    assert(read[i].id == s.map[i].id);
                }
            }
            lemma_keys_with_unresolved(read, universe, names);
        },
        (PhaseView::Loading { path }, EventView::Imports(Err(failure))) => {
            let id = IdentityView::Resolved(path);
            let read = settled(s.map, id, RecordView::Invalid(failure));
            lemma_settled(s.map, id, RecordView::Invalid(failure));
            assert forall|i: int| 0 <= i < read.len() && (#[trigger] read[i]).id is Resolved implies universe.contains(
                read[i].id.text(),
            ) by {
                assert(read[i].id == s.map[i].id);
            }
        },
        (PhaseView::Probing { names, name, dir }, EventView::Located(Some(path))) => {
            assert((world.probe)(s.dirs[dir], names[name]) == Some(path));
            lemma_keys_with_new(
                s.map,
                universe,
                IdentityView::Resolved(path),
                RecordView::Queued,
            );
        },
        (PhaseView::Probing { names, name, dir }, EventView::Located(None)) => {
            lemma_keys_with_new(
                s.map,
                universe,
                IdentityView::Unresolved(names[name]),
                RecordView::NotFound,
            );
        },
        _ => {},
    }
}

/// Each answer brings the traversal closer to its end: it reads a module
/// that was unread, or else leaves the unread modules as they are and
/// consumes an input, a name or a directory.
pub proof fn lemma_next_decreases(world: World, universe: Set<Seq<char>>, s: State)
    requires
        s.wf(),
        universe.finite(),
        keys_within(s.map, universe),
        !(s.phase is Finished),
    ensures
        unread(s.map, universe).finite(),
        unread(world.next(s).map, universe).len() <= unread(s.map, universe).len(),
        s.phase is Loading ==> unread(world.next(s).map, universe).len() < unread(
            s.map,
            universe,
        ).len(),
        !(s.phase is Loading) ==> {
            ||| inputs_left(world.next(s)) < inputs_left(s)
            ||| inputs_left(world.next(s)) == inputs_left(s) && names_left(world.next(s))
                < names_left(s)
            ||| inputs_left(world.next(s)) == inputs_left(s) && names_left(world.next(s))
                == names_left(s) && dirs_left(world.next(s)) < dirs_left(s)
        },
        inputs_left(s) >= 0,
        names_left(s) >= 0,
        dirs_left(s) >= 0,
{
    let event = world.answer(s.action());
    let after = world.next(s);
    let before_set = unread(s.map, universe);
    let after_set = unread(after.map, universe);
    lemma_step_wf(s, event);
    lemma_step_extends(s, event);
    assert(before_set.subset_of(universe));
    lemma_len_subset(before_set, universe);
    assert forall|path: Seq<char>| after_set.contains(path) implies before_set.contains(
        path,
    ) by {
        if is_read(s.map, path) {
            assert(known(s.map, IdentityView::Resolved(path)));
        }
    }
    assert(after_set.subset_of(before_set));
    lemma_len_subset(after_set, before_set);
    match s.phase {
        PhaseView::Loading { path } => {
            lemma_load_reads(s, event);
            let id = IdentityView::Resolved(path);
            assert(s.queue.push(path)[s.queue.len() as int] == path);
            lemma_awaits_known(s.map, path);
            let k = slot(s.map, id);
            assert(s.map[k].id is Resolved);
            assert(before_set.contains(path));
            assert(after_set.subset_of(before_set.remove(path)));
            lemma_len_subset(after_set, before_set.remove(path));
        },
        _ => {},
    }
}

/// A traversal in a file system with finitely many files finishes,
/// whatever state it is in and whether or not the dependency graph has
/// cycles.
pub proof fn lemma_finishes(world: World, universe: Set<Seq<char>>, s: State)
    requires
        s.wf(),
        universe.finite(),
        within(world, universe),
        keys_within(s.map, universe),
    ensures
        exists|n: nat| (#[trigger] world.run(s, n)).phase is Finished,
    decreases unread(s.map, universe).len(), inputs_left(s), names_left(s), dirs_left(s),
{
    if s.phase is Finished {
        assert(world.run(s, 0).phase is Finished);
    } else {
        let after = world.next(s);
        lemma_step_wf(s, world.answer(s.action()));
        lemma_next_keys_within(world, universe, s);
        lemma_next_decreases(world, universe, s);
        lemma_finishes(world, universe, after);
        let n = choose|n: nat| (#[trigger] world.run(after, n)).phase is Finished;
        assert(world.run(s, n + 1) == world.run(after, n));
    }
}

/// A traversal from any inputs and search directories finishes, in a file
/// system with finitely many files.
pub proof fn lemma_traversal_finishes(
    world: World,
    universe: Set<Seq<char>>,
    inputs: Seq<Seq<char>>,
    dirs: Seq<Seq<char>>,
)
    requires
        universe.finite(),
        within(world, universe),
    ensures
        exists|n: nat| (#[trigger] world.run(State::initial(inputs, dirs), n)).phase is Finished,
{
    let start = State::initial(inputs, dirs);
    assert(start.queue.no_duplicates());
    lemma_finishes(world, universe, start);
}

} // verus!
